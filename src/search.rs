//! The cost-levelled search: every number first reachable at cost 1, 2, 3, ...,
//! each stored once with the edge that produced it.
use crate::arith::{apply, apply_spec, Op};
use crate::input::InputError;
use crate::oracle::Oracle;
use crate::reach::{
    complete_upto, grows, lemma_complete_after_level, lemma_level_pairs_grow, lemma_pair_done_grows,
    lemma_reachable_combine, lemma_reachable_source, lemma_tree_cost_positive, level_pairs_done,
    outcome_in, pair_done, reachable, sound_node,
};
use crate::tree::{eval, height, leaves_are_sources, lines_of, render, tree_cost, Line, Tree};
use vstd::prelude::*;

verus! {

/// A source number with its cost.
#[derive(Clone, Copy, Debug, PartialEq, Eq, Structural)]
pub struct Source {
    pub value: i32,
    pub cost: u32,
}

/// The operation that produced a number from two earlier nodes of the arena.
#[derive(Clone, Copy, Debug, PartialEq, Eq, Structural)]
pub struct Edge {
    pub lhs: usize,
    pub op: Op,
    pub rhs: usize,
}

/// A number reached by the search, the cost at which it was first reached, and
/// its producing edge (`None` for a source number).
#[derive(Clone, Copy, Debug, PartialEq, Eq, Structural)]
pub struct Node {
    pub value: i32,
    pub cost: u32,
    pub edge: Option<Edge>,
}

/// Whether `(v, c)` is one of the given sources.
pub open spec fn is_source(sources: Seq<Source>, v: i32, c: u32) -> bool {
    exists|s: int| 0 <= s < sources.len() && #[trigger] sources[s] == Source { value: v, cost: c }
}

/// The nodes after offering `cand`, produced by `edge`, at cost `c`: appended
/// when it is a number not reached before, else nothing changes.
pub open spec fn with_candidate(nodes: Seq<Node>, cand: Option<i32>, edge: Option<Edge>, c: int) -> Seq<Node> {
    match cand {
        Some(v) => if produced(nodes, v) {
            nodes
        } else {
            nodes.push(Node { value: v, cost: c as u32, edge })
        },
        None => nodes,
    }
}

/// The nodes after offering the results of every operator on the nodes at
/// `ia` and `ib`, in the fixed order: `+`, `*`, `-` both ways, `/` both ways,
/// `^` both ways.
pub open spec fn pair_step(nodes: Seq<Node>, ia: usize, ib: usize, c: int) -> Seq<Node> {
    let a = nodes[ia as int].value;
    let b = nodes[ib as int].value;
    let n1 = with_candidate(nodes, apply_spec(Op::Add, a, b), Some(Edge { lhs: ia, op: Op::Add, rhs: ib }), c);
    let n2 = with_candidate(n1, apply_spec(Op::Mul, a, b), Some(Edge { lhs: ia, op: Op::Mul, rhs: ib }), c);
    let n3 = with_candidate(n2, apply_spec(Op::Sub, a, b), Some(Edge { lhs: ia, op: Op::Sub, rhs: ib }), c);
    let n4 = with_candidate(n3, apply_spec(Op::Sub, b, a), Some(Edge { lhs: ib, op: Op::Sub, rhs: ia }), c);
    let n5 = with_candidate(n4, apply_spec(Op::Div, a, b), Some(Edge { lhs: ia, op: Op::Div, rhs: ib }), c);
    let n6 = with_candidate(n5, apply_spec(Op::Div, b, a), Some(Edge { lhs: ib, op: Op::Div, rhs: ia }), c);
    let n7 = with_candidate(n6, apply_spec(Op::Pow, a, b), Some(Edge { lhs: ia, op: Op::Pow, rhs: ib }), c);
    with_candidate(n7, apply_spec(Op::Pow, b, a), Some(Edge { lhs: ib, op: Op::Pow, rhs: ia }), c)
}

/// The nodes after pairing the node at `ia` with the `m` nodes from `b_lo` on.
pub open spec fn row_step(nodes: Seq<Node>, ia: int, b_lo: int, m: int, c: int) -> Seq<Node>
    decreases m,
{
    if m <= 0 {
        nodes
    } else {
        pair_step(row_step(nodes, ia, b_lo, m - 1, c), ia as usize, (b_lo + m - 1) as usize, c)
    }
}

/// The nodes after pairing each of the `na` nodes from `a_lo` on with each of
/// the `nb` nodes from `b_lo` on.
pub open spec fn block_step(nodes: Seq<Node>, a_lo: int, na: int, b_lo: int, nb: int, c: int) -> Seq<Node>
    decreases na,
{
    if na <= 0 {
        nodes
    } else {
        row_step(block_step(nodes, a_lo, na - 1, b_lo, nb, c), a_lo + na - 1, b_lo, nb, c)
    }
}

/// The nodes after combining level `i` with level `c - i` for each `i` from 1
/// to `m`, the levels laid out by `ends`.
pub open spec fn splits_step(nodes: Seq<Node>, ends: Seq<usize>, m: int, c: int) -> Seq<Node>
    decreases m,
{
    if m <= 0 {
        nodes
    } else {
        let i = m;
        let j = c - m;
        block_step(
            splits_step(nodes, ends, m - 1, c),
            ends[i - 1] as int,
            ends[i] - ends[i - 1],
            ends[j - 1] as int,
            ends[j] - ends[j - 1],
            c,
        )
    }
}

/// The nodes after offering the first `m` sources whose cost is `c`, in order.
pub open spec fn seed_step(nodes: Seq<Node>, sources: Seq<Source>, m: int, c: int) -> Seq<Node>
    decreases m,
{
    if m <= 0 {
        nodes
    } else {
        let prev = seed_step(nodes, sources, m - 1, c);
        if sources[m - 1].cost == c {
            with_candidate(prev, Some(sources[m - 1].value), None, c)
        } else {
            prev
        }
    }
}

/// The derivation that the arena records for the node at `k`: a leaf for a
/// source, else its edge's operator over the derivations of its operands.
pub open spec fn derivation_of(nodes: Seq<Node>, k: int) -> Tree
    decreases k,
{
    if 0 <= k < nodes.len() {
        match nodes[k].edge {
            Some(e) => if e.lhs < k && e.rhs < k {
                Tree::Apply {
                    lhs: Box::new(derivation_of(nodes, e.lhs as int)),
                    op: e.op,
                    rhs: Box::new(derivation_of(nodes, e.rhs as int)),
                }
            } else {
                Tree::Leaf { value: nodes[k].value, cost: nodes[k].cost }
            },
            None => Tree::Leaf { value: nodes[k].value, cost: nodes[k].cost },
        }
    } else {
        Tree::Leaf { value: 0, cost: 0 }
    }
}

/// The nodes once the level after those that `ends` lays out is built: its
/// sources first, then the combinations of every split of its cost.
pub open spec fn next_level(nodes: Seq<Node>, ends: Seq<usize>, sources: Seq<Source>) -> Seq<Node> {
    let c = ends.len() as int;
    splits_step(seed_step(nodes, sources, sources.len() as int, c), ends, c / 2, c)
}

/// The arena and level ends of a search over `sources` once `m` levels are
/// built: a function of the sources and `m` alone.
pub open spec fn built(sources: Seq<Source>, m: int) -> (Seq<Node>, Seq<usize>)
    decreases m,
{
    if m <= 0 {
        (Seq::empty(), seq![0usize])
    } else {
        let (nodes, ends) = built(sources, m - 1);
        let next = next_level(nodes, ends, sources);
        (next, ends.push(next.len() as usize))
    }
}

/// Whether `n` occurs among the nodes.
pub open spec fn produced(nodes: Seq<Node>, n: i32) -> bool {
    exists|k: int| 0 <= k < nodes.len() && #[trigger] nodes[k].value == n
}

/// Node `k` is a source, or the result of its edge applied to two earlier nodes
/// whose costs add up to its own.
pub open spec fn node_ok(nodes: Seq<Node>, sources: Seq<Source>, k: int) -> bool {
    match nodes[k].edge {
        None => is_source(sources, nodes[k].value, nodes[k].cost),
        Some(e) => {
            &&& e.lhs < k
            &&& e.rhs < k
            &&& nodes[e.lhs as int].cost + nodes[e.rhs as int].cost == nodes[k].cost
            &&& apply_spec(e.op, nodes[e.lhs as int].value, nodes[e.rhs as int].value) == Some(
                nodes[k].value,
            )
        },
    }
}

/// No value occurs at two positions.
pub open spec fn distinct_values(nodes: Seq<Node>) -> bool {
    forall|k1: int, k2: int|
        0 <= k1 < nodes.len() && 0 <= k2 < nodes.len() && k1 != k2 ==> #[trigger] nodes[k1].value
            != #[trigger] nodes[k2].value
}

/// The state of a search: the sources, the arena of reached numbers in order of
/// discovery, where each cost level ends in it, and the membership oracle.
pub struct Search {
    sources: Vec<Source>,
    nodes: Vec<Node>,
    level_end: Vec<usize>,
    oracle: Oracle,
}

impl Search {
    /// The sources the search started from.
    pub closed spec fn source_list(&self) -> Seq<Source> {
        self.sources@
    }

    /// Every number reached so far, in order of discovery.
    pub closed spec fn arena(&self) -> Seq<Node> {
        self.nodes@
    }

    /// The highest cost level completed so far.
    pub closed spec fn top(&self) -> int {
        self.level_end@.len() - 1
    }

    /// Where each cost level ends in the arena: level `c` occupies the
    /// positions from `ends()[c - 1]` up to `ends()[c]`.
    pub closed spec fn ends(&self) -> Seq<usize> {
        self.level_end@
    }

    /// The arena is consistent, while the level after `top` may still be growing.
    closed spec fn arena_ok(&self) -> bool {
        let nodes = self.nodes@;
        let ends = self.level_end@;
        &&& self.oracle.wf()
        &&& forall|k: int| 0 <= k < nodes.len() ==> #[trigger] node_ok(nodes, self.sources@, k)
        &&& distinct_values(nodes)
        &&& forall|n: i32| #[trigger] self.oracle.seen(n) == produced(nodes, n)
        &&& 1 <= ends.len() <= u32::MAX
        &&& ends[0] == 0
        &&& forall|c1: int, c2: int|
            0 <= c1 <= c2 < ends.len() ==> #[trigger] ends[c1] <= #[trigger] ends[c2]
        &&& ends.last() <= nodes.len()
        &&& forall|k: int|
            0 <= k < ends.last() ==> 1 <= #[trigger] nodes[k].cost < ends.len() && ends[nodes[k].cost
                - 1] <= k < ends[nodes[k].cost as int]
        &&& forall|k: int| ends.last() <= k < nodes.len() ==> #[trigger] nodes[k].cost == ends.len()
        &&& forall|k: int| 0 <= k < nodes.len() ==> #[trigger] sound_node(nodes, self.sources@, k)
        &&& forall|s: int| 0 <= s < self.sources@.len() ==> #[trigger] self.sources@[s].cost > 0
    }

    /// The search is consistent and every level up to `top` is complete.
    pub closed spec fn wf(&self) -> bool {
        &&& self.arena_ok()
        &&& self.level_end@.last() == self.nodes@.len()
        &&& complete_upto(self.nodes@, self.sources@, self.top())
        &&& built(self.sources@, self.top()) == (self.nodes@, self.level_end@)
    }
    /// A node inside the index range of level `c` has cost `c`.
    proof fn lemma_level_cost(&self, c: int, k: int)
        requires
            self.arena_ok(),
            1 <= c < self.ends().len(),
            self.ends()[c - 1] <= k < self.ends()[c],
        ensures
            self.arena()[k].cost == c,
    {
        let ends = self.level_end@;
        let kc = self.nodes@[k].cost as int;
        assert(ends[c] <= ends.last());
        if kc < c {
            assert(ends[kc] <= ends[c - 1]);
        } else if kc > c {
            assert(ends[c] <= ends[kc - 1]);
        }
    }

    /// Appends `v`, produced by `edge`, as a new node of the level being built,
    /// unless it has been reached before.
    fn insert_new(&mut self, v: i32, edge: Option<Edge>)
        requires
            old(self).arena_ok(),
            node_ok(
                old(self).arena().push(Node { value: v, cost: old(self).ends().len() as u32, edge }),
                old(self).source_list(),
                old(self).arena().len() as int,
            ),
        ensures
            final(self).arena_ok(),
            final(self).ends() == old(self).ends(),
            final(self).source_list() == old(self).source_list(),
            old(self).arena().len() <= final(self).arena().len(),
            forall|k: int| 0 <= k < old(self).arena().len() ==> #[trigger] final(self).arena()[k] == old(self).arena()[k],
            produced(final(self).arena(), v),
            grows(old(self).arena(), final(self).arena()),
            final(self).arena() == with_candidate(old(self).arena(), Some(v), edge, old(self).ends().len() as int),
    {
        if !self.oracle.contains(v) {
            let ghost old_nodes = self.nodes@;
            let c = self.level_end.len() as u32;
            self.nodes.push(Node { value: v, cost: c, edge });
            self.oracle.mark_seen(v);
            let ghost nodes = self.nodes@;
            assert(nodes[old_nodes.len() as int].value == v);
            assert forall|k: int| 0 <= k < nodes.len() implies #[trigger] node_ok(nodes, self.sources@, k) by {
                if k < old_nodes.len() {
                    assert(node_ok(old_nodes, self.sources@, k));
                    if let None = nodes[k].edge {
                        assert(is_source(self.sources@, nodes[k].value, nodes[k].cost));
                    }
                } else {
                    assert(nodes == old_nodes.push(Node { value: v, cost: c, edge }));
                }
            }
            assert forall|n: i32| #[trigger] self.oracle.seen(n) == produced(nodes, n) by {
                if produced(old_nodes, n) {
                    let k = choose|k: int| 0 <= k < old_nodes.len() && #[trigger] old_nodes[k].value == n;
                    assert(nodes[k].value == n);
                }
                if produced(nodes, n) && n != v {
                    let k = choose|k: int| 0 <= k < nodes.len() && #[trigger] nodes[k].value == n;
                    assert(old_nodes[k].value == n);
                }
            }
            assert(distinct_values(nodes)) by {
                assert forall|k: int| 0 <= k < old_nodes.len() implies #[trigger] old_nodes[k].value != v by {
                    assert(produced(old_nodes, old_nodes[k].value));
                }
            }
            let ghost new_node = Node { value: v, cost: c, edge };
            assert(nodes == old_nodes.push(new_node));
            assert(node_ok(nodes, self.sources@, old_nodes.len() as int));
            assert(reachable(self.sources@, v, c as int)) by {
                if let Some(e) = edge {
                    let a = old_nodes[e.lhs as int].value;
                    let b = old_nodes[e.rhs as int].value;
                    let i = old_nodes[e.lhs as int].cost as int;
                    let j = old_nodes[e.rhs as int].cost as int;
                    assert(sound_node(old_nodes, self.sources@, e.lhs as int));
                    assert(sound_node(old_nodes, self.sources@, e.rhs as int));
                    assert(reachable(self.sources@, a, i));
                    assert(reachable(self.sources@, b, j));
                    lemma_reachable_combine(self.sources@, a, i, b, j, e.op, v);
                } else {
                    lemma_reachable_source(self.sources@, v, c);
                }
            }
            assert forall|x: i32| produced(old_nodes, x) implies #[trigger] produced(nodes, x) by {
                let k = choose|k: int| 0 <= k < old_nodes.len() && #[trigger] old_nodes[k].value == x;
                assert(nodes[k].value == x);
            }
            assert forall|k: int| 0 <= k < nodes.len() implies #[trigger] sound_node(nodes, self.sources@, k) by {
                if k < old_nodes.len() {
                    assert(old_nodes[k] == nodes[k]);
                    assert(sound_node(old_nodes, self.sources@, k));
                }
            }
        }
    }

    /// Appends `cand` as a new node of the level being built, unless it is
    /// undefined or already reached.
    fn consider(&mut self, cand: Option<i32>, lhs: usize, op: Op, rhs: usize)
        requires
            old(self).arena_ok(),
            lhs < old(self).arena().len(),
            rhs < old(self).arena().len(),
            old(self).arena()[lhs as int].cost + old(self).arena()[rhs as int].cost == old(
                self,
            ).ends().len(),
            cand == apply_spec(op, old(self).arena()[lhs as int].value, old(self).arena()[rhs as int].value),
        ensures
            final(self).arena_ok(),
            final(self).ends() == old(self).ends(),
            final(self).source_list() == old(self).source_list(),
            old(self).arena().len() <= final(self).arena().len(),
            forall|k: int| 0 <= k < old(self).arena().len() ==> #[trigger] final(self).arena()[k] == old(self).arena()[k],
            outcome_in(final(self).arena(), cand),
            grows(old(self).arena(), final(self).arena()),
            final(self).arena() == with_candidate(old(self).arena(), cand, Some(Edge { lhs, op, rhs }), old(self).ends().len() as int),
    {
        if let Some(v) = cand {
            let ghost n = self.nodes@.push(Node { value: v, cost: self.level_end@.len() as u32, edge: Some(Edge { lhs, op, rhs }) });
            assert(n[lhs as int] == self.nodes@[lhs as int]);
            assert(n[rhs as int] == self.nodes@[rhs as int]);
            self.insert_new(v, Some(Edge { lhs, op, rhs }));
        }
    }
    /// A search over `sources` with no level built yet; fails on a source whose
    /// cost is not positive, naming the first such source.
    pub fn new(sources: Vec<Source>) -> (r: Result<Search, InputError>)
        ensures
            match r {
                Ok(s) => {
                    &&& s.wf()
                    &&& s.top() == 0
                    &&& s.arena().len() == 0
                    &&& s.ends() == seq![0usize]
                    &&& s.source_list() == sources@
                    &&& forall|i: int| 0 <= i < sources@.len() ==> #[trigger] sources@[i].cost > 0
                },
                Err(InputError::NonPositiveCost { index }) => {
                    &&& index < sources@.len()
                    &&& sources@[index as int].cost == 0
                    &&& forall|i: int| 0 <= i < index ==> #[trigger] sources@[i].cost > 0
                },
                Err(_) => false,
            },
    {
        let mut i: usize = 0;
        while i < sources.len()
            invariant
                i <= sources@.len(),
                forall|j: int| 0 <= j < i ==> #[trigger] sources@[j].cost > 0,
            decreases sources@.len() - i,
        {
            if sources[i].cost == 0 {
                return Err(InputError::NonPositiveCost { index: i });
            }
            i = i + 1;
        }
        let oracle = Oracle::new();
        let mut level_end: Vec<usize> = Vec::new();
        level_end.push(0);
        let s = Search { sources, nodes: Vec::new(), level_end, oracle };
        assert forall|n: i32| #[trigger] s.oracle.seen(n) == produced(s.nodes@, n) by {}
        Ok(s)
    }

    /// Applies every operator, in both operand orders, to the nodes at `ia` and
    /// `ib`, whose costs add up to the level being built.
    fn combine_pair(&mut self, ia: usize, ib: usize)
        requires
            old(self).arena_ok(),
            ia < old(self).arena().len(),
            ib < old(self).arena().len(),
            old(self).arena()[ia as int].cost + old(self).arena()[ib as int].cost == old(self).ends().len(),
        ensures
            final(self).arena_ok(),
            final(self).ends() == old(self).ends(),
            final(self).source_list() == old(self).source_list(),
            old(self).arena().len() <= final(self).arena().len(),
            forall|k: int| 0 <= k < old(self).arena().len() ==> #[trigger] final(self).arena()[k] == old(self).arena()[k],
            grows(old(self).arena(), final(self).arena()),
            pair_done(final(self).arena(), old(self).arena()[ia as int].value, old(self).arena()[ib as int].value),
            final(self).arena() == pair_step(old(self).arena(), ia, ib, old(self).ends().len() as int),
    {
        let a = self.nodes[ia].value;
        let b = self.nodes[ib].value;
        let ghost s0 = self.nodes@;
        self.consider(apply(Op::Add, a, b), ia, Op::Add, ib);
        let ghost s1 = self.nodes@;
        self.consider(apply(Op::Mul, a, b), ia, Op::Mul, ib);
        let ghost s2 = self.nodes@;
        self.consider(apply(Op::Sub, a, b), ia, Op::Sub, ib);
        let ghost s3 = self.nodes@;
        self.consider(apply(Op::Sub, b, a), ib, Op::Sub, ia);
        let ghost s4 = self.nodes@;
        self.consider(apply(Op::Div, a, b), ia, Op::Div, ib);
        let ghost s5 = self.nodes@;
        self.consider(apply(Op::Div, b, a), ib, Op::Div, ia);
        let ghost s6 = self.nodes@;
        self.consider(apply(Op::Pow, a, b), ia, Op::Pow, ib);
        let ghost s7 = self.nodes@;
        self.consider(apply(Op::Pow, b, a), ib, Op::Pow, ia);
        let ghost s8 = self.nodes@;
        assert(grows(s0, s8));
        assert forall|op: Op|
            #![trigger apply_spec(op, a, b)]
            #![trigger apply_spec(op, b, a)]
            outcome_in(s8, apply_spec(op, a, b)) && outcome_in(s8, apply_spec(op, b, a)) by {
            assert(outcome_in(s8, apply_spec(Op::Add, a, b)));
            assert(apply_spec(Op::Add, a, b) == apply_spec(Op::Add, b, a));
            assert(apply_spec(Op::Mul, a, b) == apply_spec(Op::Mul, b, a));
        }
    }

    /// Combines the node at `ia` with every node of level `j` (positions
    /// `b_lo` up to `b_hi`), where the costs add up to the level being built.
    fn combine_row(&mut self, ia: usize, b_lo: usize, b_hi: usize, j: u32)
        requires
            old(self).arena_ok(),
            ia < old(self).ends().last(),
            1 <= j < old(self).ends().len(),
            b_lo == old(self).ends()[j - 1],
            b_hi == old(self).ends()[j as int],
            old(self).arena()[ia as int].cost + j == old(self).ends().len(),
        ensures
            final(self).arena_ok(),
            final(self).ends() == old(self).ends(),
            final(self).source_list() == old(self).source_list(),
            old(self).arena().len() <= final(self).arena().len(),
            forall|k: int| 0 <= k < old(self).arena().len() ==> #[trigger] final(self).arena()[k] == old(self).arena()[k],
            grows(old(self).arena(), final(self).arena()),
            forall|kb: int|
                b_lo <= kb < b_hi ==> pair_done(
                    final(self).arena(),
                    old(self).arena()[ia as int].value,
                    #[trigger] old(self).arena()[kb].value,
                ),
            final(self).arena() == row_step(old(self).arena(), ia as int, b_lo as int, b_hi - b_lo, old(self).ends().len() as int),
    {
        let ghost start = self.nodes@;
        let ghost c = self.level_end@.len() as int;
        assert(self.level_end@[j as int] <= self.level_end@.last());
        assert(self.level_end@[j - 1] <= self.level_end@[j as int]);
        let mut ib = b_lo;
        while ib < b_hi
            invariant
                self.arena_ok(),
                self.ends() == old(self).ends(),
                self.source_list() == old(self).source_list(),
                start == old(self).arena(),
                c == self.ends().len(),
                start.len() <= self.arena().len(),
                forall|k: int| 0 <= k < start.len() ==> #[trigger] self.arena()[k] == start[k],
                b_lo <= ib <= b_hi,
                b_hi <= start.len(),
                ia < start.len(),
                1 <= j < c,
                b_lo == self.ends()[j - 1],
                b_hi == self.ends()[j as int],
                start[ia as int].cost + j == c,
                grows(start, self.arena()),
                forall|kb: int| b_lo <= kb < ib ==> pair_done(self.arena(), start[ia as int].value, #[trigger] start[kb].value),
                self.arena() == row_step(start, ia as int, b_lo as int, ib - b_lo, c),
            decreases b_hi - ib,
        {
            proof {
                self.lemma_level_cost(j as int, ib as int);
            }
            let ghost before = self.nodes@;
            self.combine_pair(ia, ib);
            proof {
                assert forall|kb: int| b_lo <= kb <= ib implies pair_done(self.nodes@, start[ia as int].value, #[trigger] start[kb].value) by {
                    if kb < ib {
                        lemma_pair_done_grows(before, self.nodes@, start[ia as int].value, start[kb].value);
                    }
                }
            }
            ib = ib + 1;
        }
    }

    /// Combines every node of level `i` with every node of level `j`, where the
    /// two costs add up to the level being built, under every operator in both
    /// operand orders.
    fn combine_levels(&mut self, i: u32, j: u32)
        requires
            old(self).arena_ok(),
            1 <= i,
            1 <= j,
            i + j == old(self).ends().len(),
        ensures
            final(self).arena_ok(),
            final(self).ends() == old(self).ends(),
            final(self).source_list() == old(self).source_list(),
            old(self).arena().len() <= final(self).arena().len(),
            forall|k: int| 0 <= k < old(self).arena().len() ==> #[trigger] final(self).arena()[k] == old(self).arena()[k],
            grows(old(self).arena(), final(self).arena()),
            level_pairs_done(final(self).arena(), old(self).arena(), old(self).ends(), i as int, (i + j) as int),
            final(self).arena() == block_step(
                old(self).arena(),
                old(self).ends()[i - 1] as int,
                old(self).ends()[i as int] - old(self).ends()[i - 1],
                old(self).ends()[j - 1] as int,
                old(self).ends()[j as int] - old(self).ends()[j - 1],
                (i + j) as int,
            ),
    {
        let ghost start = self.nodes@;
        let a_lo = self.level_end[(i - 1) as usize];
        let a_hi = self.level_end[i as usize];
        let b_lo = self.level_end[(j - 1) as usize];
        let b_hi = self.level_end[j as usize];
        assert(a_hi <= self.level_end@.last() && b_hi <= self.level_end@.last());
        let mut ia = a_lo;
        while ia < a_hi
            invariant
                self.arena_ok(),
                self.ends() == old(self).ends(),
                self.source_list() == old(self).source_list(),
                start == old(self).arena(),
                start.len() <= self.arena().len(),
                forall|k: int| 0 <= k < start.len() ==> #[trigger] self.arena()[k] == start[k],
                a_lo == self.ends()[i - 1],
                a_hi == self.ends()[i as int],
                b_lo == self.ends()[j - 1],
                b_hi == self.ends()[j as int],
                a_hi <= start.len(),
                b_hi <= start.len(),
                a_lo <= ia <= a_hi,
                1 <= i,
                1 <= j,
                i + j == self.ends().len(),
                grows(start, self.arena()),
                forall|ka: int, kb: int|
                    a_lo <= ka < ia && b_lo <= kb < b_hi ==> pair_done(
                        self.arena(),
                        #[trigger] start[ka].value,
                        #[trigger] start[kb].value,
                    ),
                self.arena() == block_step(start, a_lo as int, ia - a_lo, b_lo as int, b_hi - b_lo, (i + j) as int),
            decreases a_hi - ia,
        {
            let ghost row_start = self.nodes@;
            proof {
                self.lemma_level_cost(i as int, ia as int);
            }
            self.combine_row(ia, b_lo, b_hi, j);
            proof {
                assert forall|ka: int, kb: int|
                    a_lo <= ka < ia + 1 && b_lo <= kb < b_hi implies pair_done(
                        self.nodes@,
                        #[trigger] start[ka].value,
                        #[trigger] start[kb].value,
                    ) by {
                    if ka < ia {
                        lemma_pair_done_grows(row_start, self.nodes@, start[ka].value, start[kb].value);
                    } else {
                        assert(row_start[ka] == start[ka]);
                        assert(row_start[kb] == start[kb]);
                    }
                }
            }
            assert(block_step(start, a_lo as int, ia + 1 - a_lo, b_lo as int, b_hi - b_lo, (i + j) as int)
                == row_step(row_start, ia as int, b_lo as int, b_hi - b_lo, (i + j) as int));
            ia = ia + 1;
        }
    }

    /// Builds the next cost level: the sources of that cost not reached before,
    /// in input order, then every new number that an operator gives on two nodes
    /// whose costs add up to it. Earlier levels are left as they were.
    pub fn step(&mut self)
        requires
            old(self).wf(),
            old(self).top() + 2 <= u32::MAX,
        ensures
            final(self).wf(),
            final(self).top() == old(self).top() + 1,
            final(self).source_list() == old(self).source_list(),
            old(self).arena().len() <= final(self).arena().len(),
            forall|k: int| 0 <= k < old(self).arena().len() ==> #[trigger] final(self).arena()[k] == old(self).arena()[k],
            forall|k: int| old(self).arena().len() <= k < final(self).arena().len() ==> #[trigger] final(self).arena()[k].cost == final(self).top(),
            final(self).arena() == next_level(old(self).arena(), old(self).ends(), old(self).source_list()),
            final(self).ends() == old(self).ends().push(final(self).arena().len() as usize),
    {
        let ghost start = self.nodes@;
        let c = self.level_end.len() as u32;
        let mut s: usize = 0;
        while s < self.sources.len()
            invariant
                self.arena_ok(),
                self.ends() == old(self).ends(),
                self.source_list() == old(self).source_list(),
                start == old(self).arena(),
                start.len() <= self.arena().len(),
                forall|k: int| 0 <= k < start.len() ==> #[trigger] self.arena()[k] == start[k],
                c == self.ends().len(),
                grows(start, self.arena()),
                forall|t: int|
                    0 <= t < s && self.sources@[t].cost == c ==> produced(self.arena(), #[trigger] self.sources@[t].value),
                self.arena() == seed_step(start, self.sources@, s as int, c as int),
                s <= self.sources@.len(),
            decreases self.source_list().len() - s,
        {
            let src = self.sources[s];
            if src.cost == c {
                assert(self.sources@[s as int] == Source { value: src.value, cost: c });
                self.insert_new(src.value, None);
            }
            s = s + 1;
        }
        let ghost seeded = self.nodes@;
        let mut i: u32 = 1;
        while i <= c / 2
            invariant
                self.arena_ok(),
                self.ends() == old(self).ends(),
                self.source_list() == old(self).source_list(),
                start.len() <= self.arena().len(),
                forall|k: int| 0 <= k < start.len() ==> #[trigger] self.arena()[k] == start[k],
                c == self.ends().len(),
                1 <= i,
                start == old(self).arena(),
                start.len() == self.ends().last(),
                grows(start, self.arena()),
                forall|t: int|
                    0 <= t < self.sources@.len() && self.sources@[t].cost == c ==> produced(self.arena(), #[trigger] self.sources@[t].value),
                forall|i2: int| 1 <= i2 < i ==> #[trigger] level_pairs_done(self.arena(), start, self.ends(), i2, c as int),
                self.arena() == splits_step(seeded, self.ends(), i - 1, c as int),
                i <= c / 2 + 1,
            decreases c - i,
        {
            let ghost before = self.nodes@;
            self.combine_levels(i, c - i);
            proof {
                assert forall|i2: int| 1 <= i2 < i + 1 implies #[trigger] level_pairs_done(self.arena(), start, self.ends(), i2, c as int) by {
                    if i2 < i {
                        lemma_level_pairs_grow(before, self.nodes@, start, self.level_end@, i2, c as int);
                    } else {
                        assert(self.level_end@ == old(self).ends());
                        assert(before.len() >= start.len());
                        assert forall|ka: int, kb: int|
                            self.level_end@[i2 - 1] <= ka < self.level_end@[i2] && self.level_end@[c - i2 - 1] <= kb < self.level_end@[c - i2] implies pair_done(
                                self.nodes@,
                                #[trigger] start[ka].value,
                                #[trigger] start[kb].value,
                            ) by {
                            assert(self.level_end@[i2] <= self.level_end@.last());
                            assert(self.level_end@[c - i2] <= self.level_end@.last());
                            assert(before[ka] == start[ka]);
                            assert(before[kb] == start[kb]);
                        }
                    }
                }
            }
            i = i + 1;
        }
        let ghost mid = self.level_end@;
        proof {
            assert forall|k: int| 0 <= k < start.len() implies #[trigger] sound_node(start, self.sources@, k) by {}
            assert forall|k: int| 0 <= k < self.nodes@.len() implies #[trigger] self.nodes@[k].cost <= c by {
                if k < start.len() {
                    assert(self.nodes@[k] == start[k]);
                }
            }
            lemma_complete_after_level(start, self.nodes@, self.sources@, mid, c as int);
        }
        let len = self.nodes.len();
        self.level_end.push(len);
        assert forall|c1: int, c2: int| 0 <= c1 <= c2 < self.level_end@.len() implies #[trigger] self.level_end@[c1] <= #[trigger] self.level_end@[c2] by {
            if c2 < mid.len() {
                assert(mid[c1] <= mid[c2]);
            } else if c1 < mid.len() {
                assert(mid[c1] <= mid[mid.len() - 1]);
            }
        }
        assert forall|k: int| 0 <= k < self.level_end@.last() implies 1 <= #[trigger] self.nodes@[k].cost < self.level_end@.len() && self.level_end@[self.nodes@[k].cost - 1] <= k < self.level_end@[self.nodes@[k].cost as int] by {
            if k < mid.last() {
            } else {
                assert(self.nodes@[k].cost == mid.len());
            }
        }
    }

    /// The highest cost level built so far.
    pub fn top_cost(&self) -> (r: u32)
        requires
            self.wf(),
        ensures
            r == self.top(),
    {
        (self.level_end.len() - 1) as u32
    }

    /// The number of nodes reached so far.
    pub fn len(&self) -> (r: usize)
        ensures
            r == self.arena().len(),
    {
        self.nodes.len()
    }

    /// The node at position `k` of the arena.
    pub fn node(&self, k: usize) -> (r: Node)
        requires
            k < self.arena().len(),
        ensures
            r == self.arena()[k as int],
    {
        self.nodes[k]
    }

    /// Where `n` stands in the arena, or `None` if it has not been reached.
    pub fn find(&self, n: i32) -> (r: Option<usize>)
        requires
            self.wf(),
        ensures
            r is None <==> !produced(self.arena(), n),
            r matches Some(k) ==> k < self.arena().len() && self.arena()[k as int].value == n,
    {
        if !self.oracle.contains(n) {
            return None;
        }
        let mut k: usize = 0;
        while k < self.nodes.len()
            invariant
                self.wf(),
                produced(self.arena(), n),
                forall|m: int| 0 <= m < k ==> #[trigger] self.nodes@[m].value != n,
            decreases self.nodes@.len() - k,
        {
            if self.nodes[k].value == n {
                return Some(k);
            }
            k = k + 1;
        }
        None
    }

    /// The cheapest cost at which `n` has been reached, if it has.
    pub fn cost_of(&self, n: i32) -> (r: Option<u32>)
        requires
            self.wf(),
        ensures
            r is None <==> !produced(self.arena(), n),
            r matches Some(c) ==> reachable(self.source_list(), n, c as int) && forall|c2: int|
                c2 < c ==> !#[trigger] reachable(self.source_list(), n, c2),
            r is None ==> forall|c2: int| c2 <= self.top() ==> !#[trigger] reachable(self.source_list(), n, c2),
            r matches Some(c) ==> exists|k: int|
                0 <= k < self.arena().len() && #[trigger] self.arena()[k] == (Node {
                    value: n,
                    cost: c,
                    edge: self.arena()[k].edge,
                }),
    {
        match self.find(n) {
            Some(k) => {
                let c = self.nodes[k].cost;
                proof {
                    self.lemma_levels_are_cheapest();
                }
                assert(self.nodes@[k as int] == (Node { value: n, cost: c, edge: self.nodes@[k as int].edge }));
                Some(c)
            },
            None => {
                proof {
                    self.lemma_levels_are_cheapest();
                    assert forall|c2: int| c2 <= self.top() implies !#[trigger] reachable(self.sources@, n, c2) by {
                        if reachable(self.sources@, n, c2) {
                            let t = choose|t: Tree| #![trigger tree_cost(t), eval(t)] tree_cost(t) == c2 && eval(t) == Some(n) && leaves_are_sources(t, self.sources@);
                            lemma_tree_cost_positive(t, self.sources@);
                        }
                    }
                }
                None
            },
        }
    }

    /// The derivation of the node at position `k`: it evaluates to the node's
    /// value, its leaves are sources, and its total cost is the node's cost.
    pub fn derivation(&self, k: usize) -> (r: Tree)
        requires
            self.wf(),
            k < self.arena().len(),
        ensures
            eval(r) == Some(self.arena()[k as int].value),
            tree_cost(r) == self.arena()[k as int].cost,
            leaves_are_sources(r, self.source_list()),
            height(r) < self.arena()[k as int].cost,
            r == derivation_of(self.arena(), k as int),
        decreases k,
    {
        let node = self.nodes[k];
        assert(node_ok(self.nodes@, self.sources@, k as int));
        match node.edge {
            None => Tree::Leaf { value: node.value, cost: node.cost },
            Some(e) => {
                let lhs = self.derivation(e.lhs);
                let rhs = self.derivation(e.rhs);
                proof {
                    lemma_tree_cost_positive(lhs, self.sources@);
                    lemma_tree_cost_positive(rhs, self.sources@);
                }
                Tree::Apply { lhs: Box::new(lhs), op: e.op, rhs: Box::new(rhs) }
            },
        }
    }

    /// Builds levels until `target` is reached or level `max_cost` is complete.
    /// On success the target's position is returned and no level was built
    /// beyond the one that reached it.
    pub fn run(&mut self, target: i32, max_cost: u32) -> (r: Option<usize>)
        requires
            old(self).wf(),
            max_cost + 2 <= u32::MAX,
        ensures
            final(self).wf(),
            final(self).source_list() == old(self).source_list(),
            r is None <==> !produced(final(self).arena(), target),
            r is None ==> final(self).top() >= max_cost,
            r matches Some(k) ==> k < final(self).arena().len() && final(self).arena()[k as int].value
                == target,
            r matches Some(k) ==> (final(self).top() > old(self).top() ==> final(self).arena()[k as int].cost
                == final(self).top()),
            r matches Some(k) ==> reachable(final(self).source_list(), target, final(self).arena()[k as int].cost as int)
                && forall|c: int| c < final(self).arena()[k as int].cost ==> !#[trigger] reachable(final(self).source_list(), target, c),
            r is None ==> forall|c: int| c <= final(self).top() ==> !#[trigger] reachable(final(self).source_list(), target, c),
    {
        loop
            invariant
                self.wf(),
                max_cost + 2 <= u32::MAX,
                self.source_list() == old(self).source_list(),
                forall|k: int|
                    0 <= k < self.arena().len() && self.top() > old(self).top()
                        && #[trigger] self.arena()[k].value == target ==> self.arena()[k].cost
                        == self.top(),
            decreases max_cost - self.top(),
        {
            if let Some(k) = self.find(target) {
                proof {
                    self.lemma_levels_are_cheapest();
                    assert(self.nodes@[k as int].value == target);
                }
                return Some(k);
            }
            let top = self.top_cost();
            if top >= max_cost {
                proof {
                    self.lemma_levels_are_cheapest();
                    assert forall|c: int| c <= self.top() implies !#[trigger] reachable(self.sources@, target, c) by {
                        if reachable(self.sources@, target, c) {
                            let t = choose|t: Tree| #![trigger tree_cost(t), eval(t)] tree_cost(t) == c && eval(t) == Some(target) && leaves_are_sources(t, self.sources@);
                            lemma_tree_cost_positive(t, self.sources@);
                        }
                    }
                }
                return None;
            }
            let ghost before = self.arena();
            self.step();
            assert forall|k: int|
                0 <= k < self.arena().len() && #[trigger] self.arena()[k].value == target implies self.arena()[k].cost
                    == self.top() by {
                if k < before.len() {
                    assert(before[k].value == target);
                    assert(produced(before, target));
                }
            }
        }
    }

    /// Every number in the levels is stored once, at the cost of its cheapest
    /// derivation: it has a derivation of exactly that cost and none cheaper.
    /// Every number with a derivation no dearer than the highest level built
    /// has been reached.
    pub proof fn lemma_levels_are_cheapest(&self)
        requires
            self.wf(),
        ensures
            distinct_values(self.arena()),
            forall|k: int|
                0 <= k < self.arena().len() ==> reachable(
                    self.source_list(),
                    #[trigger] self.arena()[k].value,
                    self.arena()[k].cost as int,
                ),
            forall|k: int, c: int|
                0 <= k < self.arena().len() && c < self.arena()[k].cost ==> !#[trigger] reachable(
                    self.source_list(),
                    #[trigger] self.arena()[k].value,
                    c,
                ),
            forall|n: i32, c: int|
                1 <= c <= self.top() && #[trigger] reachable(self.source_list(), n, c) ==> produced(
                    self.arena(),
                    n,
                ),
    {
        let nodes = self.nodes@;
        let sources = self.sources@;
        assert forall|k: int| 0 <= k < nodes.len() implies reachable(sources, #[trigger] nodes[k].value, nodes[k].cost as int) by {
            assert(sound_node(nodes, sources, k));
        }
        assert forall|k: int, c: int|
            0 <= k < nodes.len() && c < nodes[k].cost implies !#[trigger] reachable(sources, #[trigger] nodes[k].value, c) by {
            if reachable(sources, nodes[k].value, c) {
                let t = choose|t: Tree| #![trigger tree_cost(t), eval(t)] tree_cost(t) == c && eval(t) == Some(nodes[k].value) && leaves_are_sources(t, sources);
                lemma_tree_cost_positive(t, sources);
                assert(nodes[k].cost < self.level_end@.len());
                let k2 = choose|k2: int| 0 <= k2 < nodes.len() && #[trigger] nodes[k2].value == nodes[k].value && nodes[k2].cost <= c;
                assert(k2 == k);
            }
        }
    }

    /// The printed lines of the derivation of the node at position `k`, its
    /// root at depth one.
    pub fn lines(&self, k: usize) -> (r: Vec<Line>)
        requires
            self.wf(),
            k < self.arena().len(),
        ensures
            exists|t: Tree|
                #![trigger lines_of(t, 1)]
                eval(t) == Some(self.arena()[k as int].value) && tree_cost(t) == self.arena()[k as int].cost
                    && leaves_are_sources(t, self.source_list()) && r@ == lines_of(t, 1),
    {
        let t = self.derivation(k);
        let r = render(&t, 1);
        r
    }

    /// Two searches over the same sources, built to the same level, hold the
    /// same numbers at the same costs with the same edges, so they give the
    /// same derivation, of the same total cost, for every number.
    pub proof fn lemma_same_input_same_result(&self, other: &Search)
        requires
            self.wf(),
            other.wf(),
            self.source_list() == other.source_list(),
            self.top() == other.top(),
        ensures
            self.arena() == other.arena(),
            self.ends() == other.ends(),
            forall|k: int| #[trigger] derivation_of(self.arena(), k) == derivation_of(other.arena(), k),
    {
    }
}

} // verus!
