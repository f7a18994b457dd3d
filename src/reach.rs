//! What it means for a number to be reachable at a cost, and the lemmas that
//! show the levels of a search hold each number at its cheapest cost.
use crate::arith::{apply_spec, Op};
use crate::search::{is_source, produced, Node, Source};
use crate::tree::{eval, leaves_are_sources, tree_cost, Tree};
use vstd::prelude::*;

verus! {

/// Whether `n` has a derivation of total cost exactly `c` from the sources.
pub open spec fn reachable(sources: Seq<Source>, n: i32, c: int) -> bool {
    exists|t: Tree|
        #![trigger tree_cost(t), eval(t)]
        tree_cost(t) == c && eval(t) == Some(n) && leaves_are_sources(t, sources)
}

/// A source is reachable at its own cost.
pub(crate) proof fn lemma_reachable_source(sources: Seq<Source>, n: i32, c: u32)
    requires
        is_source(sources, n, c),
    ensures
        reachable(sources, n, c as int),
{
    let t = Tree::Leaf { value: n, cost: c };
    assert(tree_cost(t) == c && eval(t) == Some(n) && leaves_are_sources(t, sources));
}

/// An operator applied to numbers reachable at `i` and `j` gives a number
/// reachable at `i + j`.
pub(crate) proof fn lemma_reachable_combine(sources: Seq<Source>, a: i32, i: int, b: i32, j: int, op: Op, n: i32)
    requires
        reachable(sources, a, i),
        reachable(sources, b, j),
        apply_spec(op, a, b) == Some(n),
    ensures
        reachable(sources, n, i + j),
{
    let ta = choose|t: Tree| #![trigger tree_cost(t), eval(t)] tree_cost(t) == i && eval(t) == Some(a) && leaves_are_sources(t, sources);
    let tb = choose|t: Tree| #![trigger tree_cost(t), eval(t)] tree_cost(t) == j && eval(t) == Some(b) && leaves_are_sources(t, sources);
    let t = Tree::Apply { lhs: Box::new(ta), op, rhs: Box::new(tb) };
    assert(tree_cost(t) == i + j && eval(t) == Some(n) && leaves_are_sources(t, sources));
}

/// Every number with a derivation of cost at most `top` has been reached at a
/// cost no higher than that derivation's.
pub open spec fn complete_upto(nodes: Seq<Node>, sources: Seq<Source>, top: int) -> bool {
    forall|n: i32, c: int|
        1 <= c <= top && #[trigger] reachable(sources, n, c) ==> exists|k: int|
            0 <= k < nodes.len() && #[trigger] nodes[k].value == n && nodes[k].cost <= c
}

/// If `r` is a number, it has been reached.
pub open spec fn outcome_in(nodes: Seq<Node>, r: Option<i32>) -> bool {
    r matches Some(v) ==> produced(nodes, v)
}

/// Every operator applied to `x` and `y`, in either order, gives a number
/// already reached, where it is defined.
pub open spec fn pair_done(nodes: Seq<Node>, x: i32, y: i32) -> bool {
    forall|op: Op|
        #![trigger apply_spec(op, x, y)]
        #![trigger apply_spec(op, y, x)]
        outcome_in(nodes, apply_spec(op, x, y)) && outcome_in(nodes, apply_spec(op, y, x))
}

/// Node `k` has a derivation of exactly its own cost.
pub open spec fn sound_node(nodes: Seq<Node>, sources: Seq<Source>, k: int) -> bool {
    reachable(sources, nodes[k].value, nodes[k].cost as int)
}

/// Every pair of a node of level `i` and a node of level `c - i`, as laid out by
/// `ends` in `base`, has had every operator applied, the results landing in `nodes`.
pub open spec fn level_pairs_done(nodes: Seq<Node>, base: Seq<Node>, ends: Seq<usize>, i: int, c: int) -> bool {
    forall|ka: int, kb: int|
        ends[i - 1] <= ka < ends[i] && ends[c - i - 1] <= kb < ends[c - i] ==> pair_done(
            nodes,
            #[trigger] base[ka].value,
            #[trigger] base[kb].value,
        )
}

/// Every number reached in `old` is reached in `new`.
pub open spec fn grows(old: Seq<Node>, new: Seq<Node>) -> bool {
    forall|x: i32| produced(old, x) ==> #[trigger] produced(new, x)
}

/// A combined pair stays combined as the arena grows.
pub(crate) proof fn lemma_pair_done_grows(old: Seq<Node>, new: Seq<Node>, x: i32, y: i32)
    requires
        grows(old, new),
        pair_done(old, x, y),
    ensures
        pair_done(new, x, y),
{
    assert forall|op: Op|
        #![trigger apply_spec(op, x, y)]
        #![trigger apply_spec(op, y, x)]
        outcome_in(new, apply_spec(op, x, y)) && outcome_in(new, apply_spec(op, y, x)) by {
        assert(outcome_in(old, apply_spec(op, x, y)) && outcome_in(old, apply_spec(op, y, x)));
    }
}

/// Two combined levels stay combined as the arena grows.
pub(crate) proof fn lemma_level_pairs_grow(old: Seq<Node>, new: Seq<Node>, base: Seq<Node>, ends: Seq<usize>, i: int, c: int)
    requires
        grows(old, new),
        level_pairs_done(old, base, ends, i, c),
    ensures
        level_pairs_done(new, base, ends, i, c),
{
    assert forall|ka: int, kb: int|
        ends[i - 1] <= ka < ends[i] && ends[c - i - 1] <= kb < ends[c - i] implies pair_done(
            new,
            #[trigger] base[ka].value,
            #[trigger] base[kb].value,
        ) by {
        lemma_pair_done_grows(old, new, base[ka].value, base[kb].value);
    }
}

/// Where every source costs at least one, so does every derivation.
pub(crate) proof fn lemma_tree_cost_positive(t: Tree, sources: Seq<Source>)
    requires
        leaves_are_sources(t, sources),
        forall|s: int| 0 <= s < sources.len() ==> #[trigger] sources[s].cost > 0,
    ensures
        tree_cost(t) >= 1,
    decreases t,
{
    match t {
        Tree::Leaf { value, cost } => {
            let s = choose|s: int| 0 <= s < sources.len() && #[trigger] sources[s] == Source { value, cost };
            assert(sources[s].cost > 0);
        },
        Tree::Apply { lhs, rhs, .. } => {
            lemma_tree_cost_positive(*lhs, sources);
            lemma_tree_cost_positive(*rhs, sources);
        },
    }
}

/// A number that an operator gives on two derivations of total cost `c` has
/// been reached once level `c` is built.
pub(crate) proof fn lemma_combination_reached(
    old_nodes: Seq<Node>,
    nodes: Seq<Node>,
    sources: Seq<Source>,
    ends: Seq<usize>,
    c: int,
    ta: Tree,
    op: Op,
    tb: Tree,
    n: i32,
)
    requires
        ends.len() == c,
        c >= 1,
        complete_upto(old_nodes, sources, c - 1),
        old_nodes.len() <= nodes.len(),
        forall|k: int| 0 <= k < old_nodes.len() ==> #[trigger] nodes[k] == old_nodes[k],
        forall|k: int| 0 <= k < old_nodes.len() ==> #[trigger] sound_node(old_nodes, sources, k),
        forall|k: int|
            0 <= k < old_nodes.len() ==> 1 <= #[trigger] old_nodes[k].cost < c && ends[old_nodes[k].cost
                - 1] <= k < ends[old_nodes[k].cost as int],
        forall|s: int| 0 <= s < sources.len() ==> #[trigger] sources[s].cost > 0,
        forall|i: int| 1 <= i <= c / 2 ==> #[trigger] level_pairs_done(nodes, old_nodes, ends, i, c),
        leaves_are_sources(ta, sources),
        leaves_are_sources(tb, sources),
        tree_cost(ta) + tree_cost(tb) == c,
        eval(ta) is Some,
        eval(tb) is Some,
        apply_spec(op, eval(ta)->0, eval(tb)->0) == Some(n),
    ensures
        produced(nodes, n),
{
    lemma_tree_cost_positive(ta, sources);
    lemma_tree_cost_positive(tb, sources);
    let a = eval(ta)->0;
    let b = eval(tb)->0;
    let i = tree_cost(ta);
    let j = tree_cost(tb);
    assert(reachable(sources, a, i));
    assert(reachable(sources, b, j));
    let ka = choose|k: int| 0 <= k < old_nodes.len() && #[trigger] old_nodes[k].value == a && old_nodes[k].cost <= i;
    let kb = choose|k: int| 0 <= k < old_nodes.len() && #[trigger] old_nodes[k].value == b && old_nodes[k].cost <= j;
    let i2 = old_nodes[ka].cost as int;
    let j2 = old_nodes[kb].cost as int;
    assert(sound_node(old_nodes, sources, ka));
    assert(sound_node(old_nodes, sources, kb));
    assert(reachable(sources, a, i2));
    assert(reachable(sources, b, j2));
    lemma_reachable_combine(sources, a, i2, b, j2, op, n);
    if i2 + j2 < c {
        let k = choose|k: int| 0 <= k < old_nodes.len() && #[trigger] old_nodes[k].value == n && old_nodes[k].cost <= i2 + j2;
        assert(nodes[k] == old_nodes[k]);
    } else if i2 <= c / 2 {
        assert(level_pairs_done(nodes, old_nodes, ends, i2, c));
        assert(pair_done(nodes, old_nodes[ka].value, old_nodes[kb].value));
        assert(outcome_in(nodes, apply_spec(op, a, b)));
    } else {
        assert(level_pairs_done(nodes, old_nodes, ends, j2, c));
        assert(pair_done(nodes, old_nodes[kb].value, old_nodes[ka].value));
        assert(outcome_in(nodes, apply_spec(op, a, b)));
    }
}

/// Once level `c` is built on complete lower levels, with its sources seeded
/// and every pair of lower levels whose costs sum to `c` combined, the levels
/// are complete up to `c`.
pub(crate) proof fn lemma_complete_after_level(
    old_nodes: Seq<Node>,
    nodes: Seq<Node>,
    sources: Seq<Source>,
    ends: Seq<usize>,
    c: int,
)
    requires
        ends.len() == c,
        c >= 1,
        complete_upto(old_nodes, sources, c - 1),
        old_nodes.len() <= nodes.len(),
        forall|k: int| 0 <= k < old_nodes.len() ==> #[trigger] nodes[k] == old_nodes[k],
        forall|k: int| 0 <= k < old_nodes.len() ==> #[trigger] sound_node(old_nodes, sources, k),
        forall|k: int|
            0 <= k < old_nodes.len() ==> 1 <= #[trigger] old_nodes[k].cost < c && ends[old_nodes[k].cost
                - 1] <= k < ends[old_nodes[k].cost as int],
        forall|k: int| 0 <= k < nodes.len() ==> #[trigger] nodes[k].cost <= c,
        forall|s: int| 0 <= s < sources.len() ==> #[trigger] sources[s].cost > 0,
        forall|s: int| 0 <= s < sources.len() && sources[s].cost == c ==> produced(nodes, #[trigger] sources[s].value),
        forall|i: int| 1 <= i <= c / 2 ==> #[trigger] level_pairs_done(nodes, old_nodes, ends, i, c),
    ensures
        complete_upto(nodes, sources, c),
{
    assert forall|n: i32, c2: int|
        1 <= c2 <= c && #[trigger] reachable(sources, n, c2) implies exists|k: int|
            0 <= k < nodes.len() && #[trigger] nodes[k].value == n && nodes[k].cost <= c2 by {
        if c2 < c {
            let k = choose|k: int| 0 <= k < old_nodes.len() && #[trigger] old_nodes[k].value == n && old_nodes[k].cost <= c2;
            assert(nodes[k] == old_nodes[k]);
        } else {
            let t = choose|t: Tree| #![trigger tree_cost(t), eval(t)] tree_cost(t) == c2 && eval(t) == Some(n) && leaves_are_sources(t, sources);
            match t {
                Tree::Leaf { value, cost } => {
                    let s = choose|s: int| 0 <= s < sources.len() && #[trigger] sources[s] == Source { value, cost };
                    assert(sources[s].cost == c);
                    assert(produced(nodes, sources[s].value));
                },
                Tree::Apply { lhs, op, rhs } => {
                    lemma_combination_reached(old_nodes, nodes, sources, ends, c, *lhs, op, *rhs, n);
                },
            }
            let k = choose|k: int| 0 <= k < nodes.len() && #[trigger] nodes[k].value == n;
            assert(nodes[k].cost <= c);
        }
    }
}

} // verus!
