use nfa_lang::nfa::{RangeError, NFA};
use nfa_lang::node::Node;
use std::collections::BTreeSet;

fn lit(s: &str) -> NFA<char> {
    NFA::from_symbols(s.chars().collect())
}

fn closure(nfa: &NFA<char>, mut set: BTreeSet<usize>) -> BTreeSet<usize> {
    let mut work: Vec<usize> = set.iter().copied().collect();
    while let Some(i) = work.pop() {
        for &t in nfa.node(i).epsilon() {
            if set.insert(t) {
                work.push(t);
            }
        }
    }
    set
}

fn accepts(nfa: &NFA<char>, word: &str) -> bool {
    let mut cur = closure(nfa, [0usize].into_iter().collect());
    for c in word.chars() {
        let mut next = BTreeSet::new();
        for &i in &cur {
            let node = nfa.node(i);
            for k in 0..node.symbol_count() {
                if *node.symbol(k) == c {
                    next.extend(node.targets(k).iter().copied());
                }
            }
        }
        cur = closure(nfa, next);
    }
    cur.contains(&(nfa.len() - 1))
}

/// Every word over the alphabet of length at most `n`.
fn words(alphabet: &[char], n: usize) -> Vec<String> {
    let mut all = vec![String::new()];
    let mut layer = vec![String::new()];
    for _ in 0..n {
        let mut next = Vec::new();
        for w in &layer {
            for &c in alphabet {
                let mut v = w.clone();
                v.push(c);
                next.push(v);
            }
        }
        all.extend(next.iter().cloned());
        layer = next;
    }
    all
}

fn accepted(nfa: &NFA<char>, alphabet: &[char], n: usize) -> BTreeSet<String> {
    words(alphabet, n).into_iter().filter(|w| accepts(nfa, w)).collect()
}

fn set(items: &[&str]) -> BTreeSet<String> {
    items.iter().map(|s| s.to_string()).collect()
}

fn epsilon_of(node: &Node<char>) -> Vec<usize> {
    node.epsilon().clone()
}

#[test]
fn default_is_a_single_node_accepting_the_empty_word() {
    let nfa: NFA<char> = NFA::default();
    assert_eq!(nfa.len(), 1);
    assert!(nfa.start().epsilon().is_empty());
    assert_eq!(nfa.start().symbol_count(), 0);
    assert_eq!(accepted(&nfa, &['a'], 3), set(&[""]));
}

#[test]
fn append_adds_one_node_per_symbol() {
    let nfa = NFA::default().append('a').append('b');
    assert_eq!(nfa.len(), 3);
    assert_eq!(nfa.node(0).symbol_count(), 1);
    assert_eq!(*nfa.node(0).symbol(0), 'a');
    assert_eq!(nfa.node(0).targets(0), &vec![1]);
    assert_eq!(*nfa.node(1).symbol(0), 'b');
    assert_eq!(nfa.node(1).targets(0), &vec![2]);
    assert_eq!(nfa.accept().symbol_count(), 0);
    assert_eq!(accepted(&nfa, &['a', 'b'], 3), set(&["ab"]));
}

#[test]
fn concatenation_accepts_exactly_the_concatenation() {
    let nfa = lit("a").and(lit("b"));
    assert_eq!(nfa.len(), 4);
    assert_eq!(epsilon_of(nfa.node(1)), vec![2]);
    assert_eq!(nfa.node(2).targets(0), &vec![3]);
    assert_eq!(accepted(&nfa, &['a', 'b'], 4), set(&["ab"]));
}

#[test]
fn alternation_accepts_exactly_the_union() {
    let nfa = lit("x").or(lit("y"));
    assert_eq!(nfa.len(), 6);
    assert_eq!(epsilon_of(nfa.start()), vec![1, 3]);
    assert!(nfa.accept().epsilon().is_empty());
    assert_eq!(epsilon_of(nfa.node(2)), vec![5]);
    assert_eq!(epsilon_of(nfa.node(4)), vec![5]);
    assert_eq!(nfa.node(1).targets(0), &vec![2]);
    assert_eq!(nfa.node(3).targets(0), &vec![4]);
    assert_eq!(accepted(&nfa, &['x', 'y'], 3), set(&["x", "y"]));
}

#[test]
fn plus_accepts_one_or_more() {
    let nfa = lit("a").plus();
    assert_eq!(epsilon_of(nfa.accept()), vec![0]);
    assert_eq!(accepted(&nfa, &['a', 'b'], 3), set(&["a", "aa", "aaa"]));
}

#[test]
fn plus_twice_adds_the_back_edge_once() {
    let nfa = lit("a").plus().plus();
    assert_eq!(epsilon_of(nfa.accept()), vec![0]);
}

#[test]
fn optional_accepts_zero_or_one() {
    let nfa = lit("a").optional();
    assert_eq!(epsilon_of(nfa.start()), vec![1]);
    assert_eq!(accepted(&nfa, &['a', 'b'], 3), set(&["", "a"]));
}

#[test]
fn star_accepts_zero_or_more() {
    let nfa = lit("a").star();
    assert!(accepts(&nfa, ""));
    assert!(accepts(&nfa, "a"));
    assert!(accepts(&nfa, "aa"));
    assert!(accepts(&nfa, "aaa"));
    assert!(!accepts(&nfa, "b"));
    assert_eq!(accepted(&nfa, &['a', 'b'], 3), set(&["", "a", "aa", "aaa"]));
}

#[test]
fn range_two_to_three_accepts_exactly_two_or_three() {
    let nfa = lit("a").range(2, Some(3)).unwrap();
    assert_eq!(accepted(&nfa, &['a', 'b'], 5), set(&["aa", "aaa"]));
}

#[test]
fn range_from_zero_unbounded_matches_star() {
    let ranged = lit("a").range(0, None).unwrap();
    let starred = lit("a").star();
    assert_eq!(accepted(&ranged, &['a', 'b'], 5), accepted(&starred, &['a', 'b'], 5));
}

#[test]
fn range_exact_count_has_no_optional_tail() {
    let nfa = lit("a").range(3, Some(3)).unwrap();
    assert_eq!(accepted(&nfa, &['a'], 5), set(&["aaa"]));
}

#[test]
fn range_zero_to_zero_accepts_only_the_empty_word() {
    let nfa = lit("a").range(0, Some(0)).unwrap();
    assert_eq!(nfa.len(), 2);
    assert_eq!(accepted(&nfa, &['a'], 3), set(&[""]));
}

#[test]
fn range_lower_bound_unbounded_above() {
    let nfa = lit("ab").range(2, None).unwrap();
    assert_eq!(
        accepted(&nfa, &['a', 'b'], 8),
        set(&["abab", "ababab", "abababab"])
    );
}

#[test]
fn range_node_count_follows_the_copies() {
    let nfa = lit("a").range(2, Some(5)).unwrap();
    // one empty node and two copies of two nodes, then one empty node and three copies
    assert_eq!(nfa.len(), 1 + 2 * 2 + 1 + 3 * 2);
}

#[test]
fn range_with_upper_below_lower_is_refused() {
    assert_eq!(lit("a").range(3, Some(2)).err(), Some(RangeError::MalformedRange));
}

#[test]
fn range_of_alternation_copies_each_occurrence() {
    let nfa = lit("x").or(lit("y")).range(1, Some(2)).unwrap();
    assert_eq!(
        accepted(&nfa, &['x', 'y'], 3),
        set(&["x", "y", "xx", "xy", "yx", "yy"])
    );
}

#[test]
fn clone_keeps_topology() {
    let nfa = lit("a").or(lit("bc")).star();
    let copy = nfa.clone();
    assert_eq!(copy.len(), nfa.len());
    for i in 0..nfa.len() {
        assert_eq!(copy.node(i).epsilon(), nfa.node(i).epsilon());
        assert_eq!(copy.node(i).symbol_count(), nfa.node(i).symbol_count());
        for k in 0..nfa.node(i).symbol_count() {
            assert_eq!(copy.node(i).symbol(k), nfa.node(i).symbol(k));
            assert_eq!(copy.node(i).targets(k), nfa.node(i).targets(k));
        }
    }
    assert_eq!(accepted(&copy, &['a', 'b', 'c'], 4), accepted(&nfa, &['a', 'b', 'c'], 4));
}

#[test]
fn remap_rewrites_references_through_the_table() {
    let mut nfa = lit("a").and(lit("b")).optional();
    // start: epsilon to 3, symbol 'a' to 1
    nfa.start_mut().remap(&vec![10, 11]);
    assert_eq!(epsilon_of(nfa.start()), vec![3]);
    assert_eq!(nfa.start().targets(0), &vec![11]);
}

#[test]
fn remap_keeps_each_target_once() {
    let mut nfa = lit("x").or(lit("y"));
    // start: epsilon to 1 and 3; both sent to 7
    nfa.start_mut().remap(&vec![0, 7, 2, 7]);
    assert_eq!(epsilon_of(nfa.start()), vec![7]);
}

#[test]
fn accept_mut_changes_the_accepting_node() {
    let mut nfa = lit("a");
    *nfa.accept_mut() = Node::default();
    assert_eq!(nfa.len(), 2);
    assert!(nfa.accept().epsilon().is_empty());
    nfa.accept_mut().remap(&vec![]);
    assert_eq!(accepted(&nfa, &['a'], 2), set(&["a"]));
}

#[test]
fn from_symbols_of_nothing_is_the_default() {
    let nfa: NFA<char> = NFA::from_symbols(Vec::new());
    assert_eq!(nfa.len(), 1);
}

#[test]
fn optional_after_a_back_edge_also_ends_walks_that_went_round() {
    let nfa = lit("x").plus().and(lit("y")).optional();
    assert_eq!(
        accepted(&nfa, &['x', 'y'], 3),
        set(&["", "x", "xx", "xxx", "xy", "xxy"])
    );
}

#[test]
fn symbols_of_another_type() {
    let nfa: NFA<u8> = NFA::from_symbols(vec![1u8, 2, 3]);
    assert_eq!(nfa.len(), 4);
    assert_eq!(*nfa.node(2).symbol(0), 3u8);
    assert_eq!(nfa.node(2).targets(0), &vec![3]);
    let copy = nfa.clone().range(1, Some(2)).unwrap();
    assert_eq!(copy.len(), 1 + 4 + 1 + 4);
}
