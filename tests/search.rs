use countdown::arith::{apply, Op};
use countdown::oracle::Oracle;
use countdown::input::InputError;
use countdown::search::{Search, Source};
use countdown::tree::{render, tree_value, Line, Tree};

fn src(value: i32, cost: u32) -> Source {
    Source { value, cost }
}

fn eval(t: &Tree) -> Option<i32> {
    match t {
        Tree::Leaf { value, .. } => Some(*value),
        Tree::Apply { lhs, op, rhs } => apply(*op, eval(lhs)?, eval(rhs)?),
    }
}

fn cost(t: &Tree) -> u32 {
    match t {
        Tree::Leaf { cost, .. } => *cost,
        Tree::Apply { lhs, rhs, .. } => cost(lhs) + cost(rhs),
    }
}

fn leaves(t: &Tree, out: &mut Vec<(i32, u32)>) {
    match t {
        Tree::Leaf { value, cost } => out.push((*value, *cost)),
        Tree::Apply { lhs, rhs, .. } => {
            leaves(lhs, out);
            leaves(rhs, out);
        }
    }
}

fn solve(target: i32, sources: Vec<Source>, max_cost: u32) -> (Search, Option<(u32, Tree)>) {
    let mut s = Search::new(sources).unwrap();
    let found = s.run(target, max_cost);
    let out = found.map(|k| (s.node(k).cost, s.derivation(k)));
    (s, out)
}

#[test]
fn three_times_four_makes_twelve() {
    let (_, found) = solve(12, vec![src(3, 1), src(4, 1)], 10);
    let (c, tree) = found.unwrap();
    assert_eq!(c, 2);
    match tree {
        Tree::Apply { lhs, op, rhs } => {
            assert_eq!(op, Op::Mul);
            assert!(matches!(*lhs, Tree::Leaf { value: 3, cost: 1 }));
            assert!(matches!(*rhs, Tree::Leaf { value: 4, cost: 1 }));
        }
        Tree::Leaf { .. } => panic!("expected an operation"),
    }
}

#[test]
fn five_over_five_makes_one() {
    let (_, found) = solve(1, vec![src(5, 1)], 10);
    let (c, tree) = found.unwrap();
    assert_eq!(c, 2);
    match tree {
        Tree::Apply { lhs, op, rhs } => {
            assert_eq!(op, Op::Div);
            assert!(matches!(*lhs, Tree::Leaf { value: 5, cost: 1 }));
            assert!(matches!(*rhs, Tree::Leaf { value: 5, cost: 1 }));
        }
        Tree::Leaf { .. } => panic!("expected an operation"),
    }
}

#[test]
fn hundred_from_two_three_five_is_cheapest() {
    let (_, found) = solve(100, vec![src(2, 1), src(3, 1), src(5, 1)], 20);
    let (c, tree) = found.unwrap();
    assert_eq!(eval(&tree), Some(100));
    assert_eq!(cost(&tree), c);
    let (_, cheaper) = solve(100, vec![src(2, 1), src(3, 1), src(5, 1)], c - 1);
    assert!(cheaper.is_none());
}

#[test]
fn expensive_source_is_avoided_and_priced() {
    let (s, found) = solve(7, vec![src(2, 1), src(3, 5)], 20);
    let (c, tree) = found.unwrap();
    assert_eq!(c, 5);
    assert_eq!(eval(&tree), Some(7));
    assert_eq!(cost(&tree), 5);
    let mut ls = Vec::new();
    leaves(&tree, &mut ls);
    assert!(ls.iter().all(|&(v, k)| v == 2 && k == 1));
    // three is reached at cost 3, cheaper than its own cost of 5
    assert_eq!(s.cost_of(3), Some(3));
}

#[test]
fn expensive_source_counts_at_its_own_cost() {
    let (_, found) = solve(4, vec![src(0, 1), src(3, 5)], 20);
    let (c, tree) = found.unwrap();
    assert_eq!(c, 7);
    assert_eq!(cost(&tree), 7);
    assert_eq!(eval(&tree), Some(4));
    let mut ls = Vec::new();
    leaves(&tree, &mut ls);
    assert_eq!(ls, vec![(0, 1), (0, 1), (3, 5)]);
}

#[test]
fn zero_cost_is_rejected() {
    let r = Search::new(vec![src(4, 0)]);
    assert!(matches!(r, Err(InputError::NonPositiveCost { index: 0 })));
    let r = Search::new(vec![src(1, 1), src(2, 3), src(4, 0), src(5, 0)]);
    assert!(matches!(r, Err(InputError::NonPositiveCost { index: 2 })));
}

#[test]
fn source_is_found_at_its_cost() {
    let (_, found) = solve(9, vec![src(9, 3)], 10);
    let (c, tree) = found.unwrap();
    assert_eq!(c, 3);
    assert!(matches!(tree, Tree::Leaf { value: 9, cost: 3 }));
}

#[test]
fn unreachable_target_stops_at_the_ceiling() {
    let (s, found) = solve(1000, vec![src(0, 1)], 4);
    assert!(found.is_none());
    assert_eq!(s.top_cost(), 4);
    assert_eq!(s.find(1000), None);
}

#[test]
fn every_number_is_in_one_level_only() {
    let mut s = Search::new(vec![src(2, 1), src(3, 1), src(2, 2), src(6, 3)]).unwrap();
    for _ in 0..4 {
        s.step();
    }
    let mut values: Vec<i32> = (0..s.len()).map(|k| s.node(k).value).collect();
    let costs: Vec<u32> = (0..s.len()).map(|k| s.node(k).cost).collect();
    assert!(costs.windows(2).all(|w| w[0] <= w[1]));
    assert_eq!(s.cost_of(2), Some(1));
    assert_eq!(s.cost_of(6), Some(2));
    let n = values.len();
    values.sort();
    values.dedup();
    assert_eq!(values.len(), n);
}

#[test]
fn levels_are_built_in_discovery_order() {
    let mut s = Search::new(vec![src(3, 1), src(4, 1)]).unwrap();
    s.step();
    assert_eq!(s.top_cost(), 1);
    assert_eq!(s.len(), 2);
    s.step();
    let level2: Vec<i32> = (2..s.len()).map(|k| s.node(k).value).collect();
    assert_eq!(level2, vec![6, 9, 0, 1, 27, 7, 12, -1, 81, 64, 8, 16, 256]);
}

#[test]
fn repeated_runs_give_the_same_derivation() {
    let a = solve(100, vec![src(2, 1), src(3, 1), src(5, 1)], 20).1.unwrap();
    let b = solve(100, vec![src(2, 1), src(3, 1), src(5, 1)], 20).1.unwrap();
    assert_eq!(a.0, b.0);
    assert_eq!(format!("{:?}", a.1), format!("{:?}", b.1));
}

#[test]
fn oracle_marks_negative_and_positive_numbers_apart() {
    let mut o = Oracle::new();
    assert!(!o.contains(-1));
    o.mark_seen(-1);
    assert!(o.contains(-1));
    assert!(!o.contains(1));
    assert!(!o.contains(i32::MAX));
    o.mark_seen(i32::MIN);
    assert!(o.contains(i32::MIN));
    assert!(!o.contains(0));
}

fn leaf(value: i32) -> Box<Tree> {
    Box::new(Tree::Leaf { value, cost: 1 })
}

fn node(lhs: Box<Tree>, op: Op, rhs: Box<Tree>) -> Box<Tree> {
    Box::new(Tree::Apply { lhs, op, rhs })
}

#[test]
fn tree_value_evaluates_bottom_up() {
    let t = node(node(leaf(2), Op::Add, leaf(3)), Op::Pow, leaf(2));
    assert_eq!(tree_value(&t), Some(25));
    let bad = node(leaf(3), Op::Div, leaf(2));
    assert_eq!(tree_value(&bad), None);
}

#[test]
fn render_is_pre_order_and_skips_a_repeated_operand() {
    let five = node(leaf(2), Op::Add, leaf(3));
    let t = node(five, Op::Mul, node(leaf(2), Op::Add, leaf(3)));
    let lines = render(&t, 1);
    assert_eq!(
        lines,
        vec![
            Line { depth: 1, lhs: 5, op: Op::Mul, rhs: 5 },
            Line { depth: 2, lhs: 2, op: Op::Add, rhs: 3 },
        ]
    );
    let t = node(node(leaf(2), Op::Add, leaf(3)), Op::Sub, node(leaf(4), Op::Div, leaf(2)));
    assert_eq!(
        render(&t, 0),
        vec![
            Line { depth: 0, lhs: 5, op: Op::Sub, rhs: 2 },
            Line { depth: 1, lhs: 2, op: Op::Add, rhs: 3 },
            Line { depth: 1, lhs: 4, op: Op::Div, rhs: 2 },
        ]
    );
}

#[test]
fn lines_of_a_found_target() {
    let mut s = Search::new(vec![src(3, 1), src(4, 1)]).unwrap();
    let k = s.run(12, 10).unwrap();
    assert_eq!(s.lines(k), vec![Line { depth: 1, lhs: 3, op: Op::Mul, rhs: 4 }]);
    let mut s = Search::new(vec![src(5, 1)]).unwrap();
    let k = s.run(1, 10).unwrap();
    assert_eq!(s.lines(k), vec![Line { depth: 1, lhs: 5, op: Op::Div, rhs: 5 }]);
}

#[test]
fn derivation_of_a_deeper_target_round_trips() {
    for target in [17, 100, -45, 243, 1000] {
        let (_, found) = solve(target, vec![src(2, 1), src(3, 1), src(5, 1)], 12);
        let (c, tree) = found.unwrap();
        assert_eq!(eval(&tree), Some(target));
        assert_eq!(tree_value(&tree), Some(target));
        assert_eq!(cost(&tree), c);
    }
}
