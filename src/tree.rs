//! Derivations: binary expression trees over costed source numbers, their
//! value, their cost, and the lines they are printed as.
use crate::arith::{apply, apply_spec, Op};
use crate::search::{is_source, Source};
use vstd::prelude::*;

verus! {

/// A derivation: a source number, or an operator applied to two derivations.
#[derive(Debug)]
pub enum Tree {
    Leaf { value: i32, cost: u32 },
    Apply { lhs: Box<Tree>, op: Op, rhs: Box<Tree> },
}

/// The value of a derivation evaluated bottom-up from its leaves.
pub open spec fn eval(t: Tree) -> Option<i32>
    decreases t,
{
    match t {
        Tree::Leaf { value, .. } => Some(value),
        Tree::Apply { lhs, op, rhs } => match (eval(*lhs), eval(*rhs)) {
            (Some(a), Some(b)) => apply_spec(op, a, b),
            _ => None,
        },
    }
}

/// The total cost of a derivation: the sum of the costs of its leaves.
pub open spec fn tree_cost(t: Tree) -> int
    decreases t,
{
    match t {
        Tree::Leaf { cost, .. } => cost as int,
        Tree::Apply { lhs, rhs, .. } => tree_cost(*lhs) + tree_cost(*rhs),
    }
}

/// The number of operation levels in a derivation.
pub open spec fn height(t: Tree) -> nat
    decreases t,
{
    match t {
        Tree::Leaf { .. } => 0,
        Tree::Apply { lhs, rhs, .. } => 1 + if height(*lhs) >= height(*rhs) {
            height(*lhs)
        } else {
            height(*rhs)
        },
    }
}

/// One printed line of a derivation: `lhs op rhs`, indented by `depth`.
#[derive(Clone, Copy, Debug, PartialEq, Eq, Structural)]
pub struct Line {
    pub depth: usize,
    pub lhs: i32,
    pub op: Op,
    pub rhs: i32,
}

/// The lines of a derivation, parent before children; where both operands
/// are the same number the right one is not expanded a second time.
pub open spec fn lines_of(t: Tree, depth: int) -> Seq<Line>
    decreases t,
{
    match t {
        Tree::Leaf { .. } => Seq::empty(),
        Tree::Apply { lhs, op, rhs } => {
            let l = eval(*lhs)->0;
            let r = eval(*rhs)->0;
            let right = if l != r {
                lines_of(*rhs, depth + 1)
            } else {
                Seq::empty()
            };
            seq![Line { depth: depth as usize, lhs: l, op, rhs: r }] + lines_of(*lhs, depth + 1) + right
        },
    }
}

/// The value of a derivation, or `None` where an operator in it is undefined.
pub fn tree_value(t: &Tree) -> (r: Option<i32>)
    ensures
        r == eval(*t),
    decreases t,
{
    match t {
        Tree::Leaf { value, .. } => Some(*value),
        Tree::Apply { lhs, op, rhs } => match (tree_value(lhs), tree_value(rhs)) {
            (Some(a), Some(b)) => apply(*op, a, b),
            _ => None,
        },
    }
}

/// The printed lines of a derivation whose root is indented by `depth`.
pub fn render(t: &Tree, depth: usize) -> (r: Vec<Line>)
    requires
        eval(*t) is Some,
        depth + height(*t) <= usize::MAX,
    ensures
        r@ == lines_of(*t, depth as int),
    decreases t,
{
    match t {
        Tree::Leaf { .. } => Vec::new(),
        Tree::Apply { lhs, op, rhs } => {
            let l = tree_value(lhs).unwrap();
            let r = tree_value(rhs).unwrap();
            let mut out: Vec<Line> = Vec::new();
            out.push(Line { depth, lhs: l, op: *op, rhs: r });
            let mut left = render(lhs, depth + 1);
            out.append(&mut left);
            if l != r {
                let mut right = render(rhs, depth + 1);
                out.append(&mut right);
            }
            assert(out@ =~= lines_of(*t, depth as int));
            out
        },
    }
}

/// Every leaf of the derivation is one of the sources, with its cost.
pub open spec fn leaves_are_sources(t: Tree, sources: Seq<Source>) -> bool
    decreases t,
{
    match t {
        Tree::Leaf { value, cost } => is_source(sources, value, cost),
        Tree::Apply { lhs, rhs, .. } => leaves_are_sources(*lhs, sources) && leaves_are_sources(
            *rhs,
            sources,
        ),
    }
}

} // verus!
