//! Saturating 32-bit arithmetic and the binary operators of the search.
use vstd::arithmetic::power::pow;
use vstd::prelude::*;

verus! {

/// Clamps an exact integer into the `i32` domain.
pub open spec fn clamp(x: int) -> i32 {
    if x > i32::MAX {
        i32::MAX
    } else if x < i32::MIN {
        i32::MIN
    } else {
        x as i32
    }
}

/// The binary operators that combine two derived numbers.
#[derive(Clone, Copy, Debug, PartialEq, Eq, Structural)]
pub enum Op {
    Add,
    Mul,
    Sub,
    Div,
    Pow,
}

/// Exact division: defined when `b` divides `a` with a quotient in the domain.
pub open spec fn div_spec(a: i32, b: i32) -> Option<i32> {
    if b != 0 && (a as int) % (b as int) == 0 && i32::MIN <= (a as int) / (b as int) <= i32::MAX {
        Some(((a as int) / (b as int)) as i32)
    } else {
        None
    }
}

/// Exponentiation: defined for a non-negative exponent, saturating at the bounds.
pub open spec fn pow_spec(a: i32, b: i32) -> Option<i32> {
    if b < 0 {
        None
    } else {
        Some(clamp(pow(a as int, b as nat)))
    }
}

/// The value of `a op b`, or `None` where the operator is undefined on the pair.
pub open spec fn apply_spec(op: Op, a: i32, b: i32) -> Option<i32> {
    match op {
        Op::Add => Some(clamp(a + b)),
        Op::Mul => Some(clamp(a * b)),
        Op::Sub => Some(clamp(a - b)),
        Op::Div => div_spec(a, b),
        Op::Pow => pow_spec(a, b),
    }
}

impl Op {
    /// The symbol printed between the operands.
    pub fn symbol(&self) -> (r: &'static str)
        ensures
            r@ == op_symbol(*self),
    {
        match self {
            Op::Add => {
                proof {
                    reveal_strlit("+");
                }
                "+"
            },
            Op::Mul => {
                proof {
                    reveal_strlit("*");
                }
                "*"
            },
            Op::Sub => {
                proof {
                    reveal_strlit("-");
                }
                "-"
            },
            Op::Div => {
                proof {
                    reveal_strlit("/");
                }
                "/"
            },
            Op::Pow => {
                proof {
                    reveal_strlit("^");
                }
                "^"
            },
        }
    }
}

/// The symbol of each operator.
pub open spec fn op_symbol(op: Op) -> Seq<char> {
    match op {
        Op::Add => seq!['+'],
        Op::Mul => seq!['*'],
        Op::Sub => seq!['-'],
        Op::Div => seq!['/'],
        Op::Pow => seq!['^'],
    }
}

/// Saturating addition.
pub fn sat_add(a: i32, b: i32) -> (r: i32)
    ensures
        r == clamp(a + b),
{
    match a.checked_add(b) {
        Some(r) => r,
        None => if b > 0 {
            i32::MAX
        } else {
            i32::MIN
        },
    }
}

/// Saturating subtraction.
pub fn sat_sub(a: i32, b: i32) -> (r: i32)
    ensures
        r == clamp(a - b),
{
    match a.checked_sub(b) {
        Some(r) => r,
        None => if b < 0 {
            i32::MAX
        } else {
            i32::MIN
        },
    }
}

/// Saturating multiplication.
pub fn sat_mul(a: i32, b: i32) -> (r: i32)
    ensures
        r == clamp(a * b),
{
    match a.checked_mul(b) {
        Some(r) => r,
        None => {
            if (a > 0) == (b > 0) {
                assert(a * b > 0) by (nonlinear_arith)
                    requires
                        (a > 0) == (b > 0),
                        a * b > i32::MAX || a * b < i32::MIN,
                ;
                i32::MAX
            } else {
                assert(a * b < 0) by (nonlinear_arith)
                    requires
                        (a > 0) != (b > 0),
                        a * b > i32::MAX || a * b < i32::MIN,
                ;
                i32::MIN
            }
        },
    }
}

/// Exact division, `None` where `b` is zero or does not divide `a` within the domain.
pub fn div_exact(a: i32, b: i32) -> (r: Option<i32>)
    ensures
        r == div_spec(a, b),
{
    match a.checked_rem_euclid(b) {
        Some(m) => if m == 0 {
            a.checked_div_euclid(b)
        } else {
            None
        },
        None => {
            if b != 0 {
                assert((i32::MIN as int) / -1int == 0x8000_0000int) by (nonlinear_arith);
            }
            None
        },
    }
}

/// Relies on `i32::saturating_pow`: `a` to the power `e`, clamped to the domain bounds.
#[verifier::external_body]
fn saturating_power(a: i32, e: u32) -> (r: i32)
    ensures
        r == clamp(pow(a as int, e as nat)),
{
    a.saturating_pow(e)
}

/// Saturating exponentiation, `None` for a negative exponent.
pub fn pow_nonneg(a: i32, b: i32) -> (r: Option<i32>)
    ensures
        r == pow_spec(a, b),
{
    if b < 0 {
        None
    } else {
        Some(saturating_power(a, b as u32))
    }
}

/// Applies an operator to an ordered pair of operands.
pub fn apply(op: Op, a: i32, b: i32) -> (r: Option<i32>)
    ensures
        r == apply_spec(op, a, b),
{
    match op {
        Op::Add => Some(sat_add(a, b)),
        Op::Mul => Some(sat_mul(a, b)),
        Op::Sub => Some(sat_sub(a, b)),
        Op::Div => div_exact(a, b),
        Op::Pow => pow_nonneg(a, b),
    }
}

/// Addition, subtraction and multiplication give the exact result when it lies
/// in the domain, and exactly the nearer domain bound otherwise: they never wrap.
pub proof fn lemma_saturating_is_clamped_exact(op: Op, a: i32, b: i32)
    requires
        op == Op::Add || op == Op::Sub || op == Op::Mul,
    ensures
        ({
            let exact = match op {
                Op::Add => a + b,
                Op::Sub => a - b,
                _ => a * b,
            };
            &&& apply_spec(op, a, b) is Some
            &&& i32::MIN <= exact <= i32::MAX ==> apply_spec(op, a, b) == Some(exact as i32)
            &&& exact > i32::MAX ==> apply_spec(op, a, b) == Some(i32::MAX)
            &&& exact < i32::MIN ==> apply_spec(op, a, b) == Some(i32::MIN)
        }),
{
}

/// Division is defined exactly when the divisor is non-zero and some quotient in
/// the domain multiplied by it gives back the dividend; that quotient is the result.
pub proof fn lemma_div_defined_iff_exact(a: i32, b: i32)
    ensures
        (apply_spec(Op::Div, a, b) is Some) <==> (b != 0 && exists|q: i32| #[trigger] (q * b) == a),
        apply_spec(Op::Div, a, b) matches Some(q) ==> q * b == a,
{
    if b != 0 {
        let ai = a as int;
        let bi = b as int;
        if ai % bi == 0 {
            assert((ai / bi) * bi == ai) by (nonlinear_arith)
                requires
                    bi != 0,
                    ai % bi == 0,
            ;
        }
        if exists|q: i32| #[trigger] (q * b) == a {
            let q = choose|q: i32| #[trigger] (q * b) == a;
            assert(ai % bi == 0 && ai / bi == q) by (nonlinear_arith)
                requires
                    bi != 0,
                    q * bi == ai,
            ;
        }
        if apply_spec(Op::Div, a, b) is Some {
            let q = (ai / bi) as i32;
            assert(q * b == a);
        }
    }
}

/// Exponentiation is defined exactly for a non-negative exponent, and any base,
/// zero included, raised to the power zero gives one.
pub proof fn lemma_pow_defined_iff_nonneg(a: i32, b: i32)
    ensures
        (apply_spec(Op::Pow, a, b) is Some) <==> b >= 0,
        apply_spec(Op::Pow, a, 0) == Some(1i32),
{
    reveal(pow);
    assert(pow(a as int, 0) == 1);
}

} // verus!
