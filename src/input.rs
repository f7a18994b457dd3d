//! Reading the target and the costed source numbers from command-line tokens.
use crate::search::Source;
use vstd::prelude::*;

verus! {

/// Input that cannot start a search; the index is the position of the
/// offending source token, counted after the target.
#[derive(Clone, Copy, Debug, PartialEq, Eq, Structural)]
pub enum InputError {
    MissingTarget,
    BadTarget,
    BadNumber { index: usize },
    BadCost { index: usize },
    NonPositiveCost { index: usize },
}

/// Whether `s` is a non-empty run of ASCII decimal digits.
pub open spec fn is_digits(s: Seq<char>) -> bool {
    s.len() > 0 && forall|i: int| 0 <= i < s.len() ==> '0' <= #[trigger] s[i] <= '9'
}

/// The value of a run of decimal digits.
pub open spec fn digits_value(s: Seq<char>) -> int
    decreases s.len(),
{
    if s.len() == 0 {
        0
    } else {
        digits_value(s.drop_last()) * 10 + (s.last() as int - '0' as int)
    }
}

/// The integer that `s` spells: an optional sign, then decimal digits.
pub open spec fn signed_value(s: Seq<char>) -> Option<int> {
    if s.len() > 0 && s[0] == '-' && is_digits(s.skip(1)) {
        Some(-digits_value(s.skip(1)))
    } else if s.len() > 0 && s[0] == '+' && is_digits(s.skip(1)) {
        Some(digits_value(s.skip(1)))
    } else if is_digits(s) {
        Some(digits_value(s))
    } else {
        None
    }
}

/// The natural number that `s` spells: an optional `+`, then decimal digits.
pub open spec fn unsigned_value(s: Seq<char>) -> Option<int> {
    if s.len() > 0 && s[0] == '+' && is_digits(s.skip(1)) {
        Some(digits_value(s.skip(1)))
    } else if is_digits(s) {
        Some(digits_value(s))
    } else {
        None
    }
}

/// `s` read as an `i32`, if it spells one in range.
pub open spec fn i32_of(s: Seq<char>) -> Option<i32> {
    match signed_value(s) {
        Some(v) => if i32::MIN <= v <= i32::MAX {
            Some(v as i32)
        } else {
            None
        },
        None => None,
    }
}

/// `s` read as a `u32`, if it spells one in range.
pub open spec fn u32_of(s: Seq<char>) -> Option<u32> {
    match unsigned_value(s) {
        Some(v) => if v <= u32::MAX {
            Some(v as u32)
        } else {
            None
        },
        None => None,
    }
}

/// Relies on `<i32 as FromStr>::from_str`: an optional sign and decimal digits
/// whose value is in range, nothing else.
#[verifier::external_body]
fn parse_i32(s: &str) -> (r: Option<i32>)
    ensures
        r == i32_of(s@),
{
    s.parse::<i32>().ok()
}

/// Relies on `<u32 as FromStr>::from_str`: an optional `+` and decimal digits
/// whose value is in range, nothing else.
#[verifier::external_body]
fn parse_u32(s: &str) -> (r: Option<u32>)
    ensures
        r == u32_of(s@),
{
    s.parse::<u32>().ok()
}

/// Relies on `str::split_once`: the text before and after the first `=`.
#[verifier::external_body]
fn split_at_eq(s: &str) -> (r: Option<(&str, &str)>)
    ensures
        match r {
            None => !s@.contains('='),
            Some((l, t)) => s@ == l@ + seq!['='] + t@ && !l@.contains('='),
        },
{
    s.split_once('=')
}

/// What a source token stands for: `n` with cost 1, or `n=cost`.
pub open spec fn source_of(tok: Seq<char>, index: usize) -> Result<Source, InputError> {
    if tok.contains('=') {
        let at = choose|p: int| 0 <= p < tok.len() && tok[p] == '=' && !tok.take(p).contains('=');
        let (l, t) = (tok.take(at), tok.skip(at + 1));
        match u32_of(t) {
            None => Err(InputError::BadCost { index }),
            Some(c) => if c == 0 {
                Err(InputError::NonPositiveCost { index })
            } else {
                match i32_of(l) {
                    None => Err(InputError::BadNumber { index }),
                    Some(v) => Ok(Source { value: v, cost: c }),
                }
            },
        }
    } else {
        match i32_of(tok) {
            None => Err(InputError::BadNumber { index }),
            Some(v) => Ok(Source { value: v, cost: 1 }),
        }
    }
}

/// Reads one source token.
pub fn parse_source(tok: &str, index: usize) -> (r: Result<Source, InputError>)
    ensures
        r == source_of(tok@, index),
{
    match split_at_eq(tok) {
        None => match parse_i32(tok) {
            None => Err(InputError::BadNumber { index }),
            Some(v) => Ok(Source { value: v, cost: 1 }),
        },
        Some((l, t)) => {
            let ghost p = l@.len() as int;
            assert(tok@[p] == '=');
            assert(tok@.take(p) == l@);
            assert(tok@.skip(p + 1) == t@);
            let ghost at = choose|q: int| 0 <= q < tok@.len() && tok@[q] == '=' && !tok@.take(q).contains('=');
            assert(at == p) by {
                if at < p {
                    assert(l@[at] == '=');
                } else if at > p {
                    assert(tok@.take(at)[p] == '=');
                }
            }
            match parse_u32(t) {
                None => Err(InputError::BadCost { index }),
                Some(c) => if c == 0 {
                    Err(InputError::NonPositiveCost { index })
                } else {
                    match parse_i32(l) {
                        None => Err(InputError::BadNumber { index }),
                        Some(v) => Ok(Source { value: v, cost: c }),
                    }
                },
            }
        },
    }
}

/// Reads the target from the first token and a source from each later one,
/// failing on the first token that does not read.
pub fn parse_args(tokens: &Vec<String>) -> (r: Result<(i32, Vec<Source>), InputError>)
    ensures
        tokens@.len() == 0 ==> r == Err::<(i32, Vec<Source>), InputError>(InputError::MissingTarget),
        tokens@.len() > 0 && i32_of(tokens@[0]@) is None ==> r == Err::<(i32, Vec<Source>), InputError>(InputError::BadTarget),
        r is Ok <==> tokens@.len() > 0 && i32_of(tokens@[0]@) is Some && forall|i: int|
            1 <= i < tokens@.len() ==> #[trigger] source_of(tokens@[i]@, (i - 1) as usize) is Ok,
        r matches Ok((t, v)) ==> {
            &&& i32_of(tokens@[0]@) == Some(t)
            &&& v@.len() + 1 == tokens@.len()
            &&& forall|i: int| 0 <= i < v@.len() ==> source_of(tokens@[i + 1]@, i as usize) == Ok::<Source, InputError>(#[trigger] v@[i])
        },
        r matches Err(e) ==> (tokens@.len() > 0 && i32_of(tokens@[0]@) is Some) ==> exists|i: int|
            1 <= i < tokens@.len() && #[trigger] source_of(tokens@[i]@, (i - 1) as usize) == Err::<Source, InputError>(e)
                && forall|j: int| 1 <= j < i ==> #[trigger] source_of(tokens@[j]@, (j - 1) as usize) is Ok,
{
    if tokens.len() == 0 {
        return Err(InputError::MissingTarget);
    }
    let target = match parse_i32(tokens[0].as_str()) {
        Some(t) => t,
        None => return Err(InputError::BadTarget),
    };
    let mut sources: Vec<Source> = Vec::new();
    let mut i: usize = 1;
    while i < tokens.len()
        invariant
            1 <= i <= tokens@.len(),
            sources@.len() + 1 == i,
            i32_of(tokens@[0]@) == Some(target),
            forall|j: int| 0 <= j < sources@.len() ==> source_of(tokens@[j + 1]@, j as usize) == Ok::<Source, InputError>(#[trigger] sources@[j]),
            forall|j: int| 1 <= j < i ==> #[trigger] source_of(tokens@[j]@, (j - 1) as usize) is Ok,
        decreases tokens@.len() - i,
    {
        match parse_source(tokens[i].as_str(), i - 1) {
            Ok(s) => sources.push(s),
            Err(e) => {
                assert(source_of(tokens@[i as int]@, (i - 1) as usize) == Err::<Source, InputError>(e));
                return Err(e);
            },
        }
        i = i + 1;
    }
    assert forall|j: int| 0 <= j < sources@.len() implies source_of(tokens@[j + 1]@, j as usize) == Ok::<Source, InputError>(#[trigger] sources@[j]) by {}
    Ok((target, sources))
}

} // verus!
