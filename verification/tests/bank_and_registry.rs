use tree_fuzzer::bank::Branches;
use tree_fuzzer::node_types::{GrammarError, NodeTypes};
use tree_fuzzer::outside::SpliceRng;
use tree_fuzzer::render::{render, EditSet};
use tree_fuzzer::tree::{NodeInfo, SynTree};

fn node(kind: &str, start: usize, end: usize, children: Vec<usize>) -> NodeInfo {
    NodeInfo { kind: kind.as_bytes().to_vec(), start, end, children }
}

/// A two-leaf tree over "ab": root `doc`, leaves of kind `x` spanning one
/// byte each.
fn two_leaf_tree(root_kind: &str, leaf_kind: &str) -> SynTree {
    let nodes = vec![
        node(root_kind, 0, 2, vec![1, 2]),
        node(leaf_kind, 0, 1, vec![]),
        node(leaf_kind, 1, 2, vec![]),
    ];
    SynTree::from_nodes(nodes, 2).expect("tree must validate")
}

fn bank_kind_frags(bank: &Branches, kind: &[u8]) -> Option<Vec<Vec<u8>>> {
    let i = bank.find_entry(kind)?;
    let mut out = Vec::new();
    for j in 0..bank.frag_count_at(i) {
        out.push(bank.frag_at(i, j).clone());
    }
    Some(out)
}

#[test]
fn bank_dedups_equal_fragments() {
    // both leaves span the byte 'a': the kind records it once
    let tree = two_leaf_tree("doc", "x");
    let bank = Branches::new(&vec![(b"aa".to_vec(), tree)]);
    assert_eq!(bank.num_kinds(), 2);
    assert_eq!(bank_kind_frags(&bank, b"x"), Some(vec![b"a".to_vec()]));
    assert_eq!(bank_kind_frags(&bank, b"doc"), Some(vec![b"aa".to_vec()]));
}

#[test]
fn bank_add_tree_is_monotone_and_idempotent() {
    let tree = two_leaf_tree("doc", "x");
    let mut bank = Branches::new(&vec![(b"ab".to_vec(), tree)]);
    // "ab" has distinct leaves: 'a' and 'b'
    assert_eq!(
        bank_kind_frags(&bank, b"x"),
        Some(vec![b"a".to_vec(), b"b".to_vec()])
    );
    let before = bank.possible();
    // folding the same (bytes, tree) again changes nothing
    let tree2 = two_leaf_tree("doc", "x");
    bank.add_tree(b"ab", &tree2);
    assert_eq!(bank.possible(), before);
    assert_eq!(
        bank_kind_frags(&bank, b"x"),
        Some(vec![b"a".to_vec(), b"b".to_vec()])
    );
    // folding a new tree only ever extends the lists
    let tree3 = two_leaf_tree("doc", "x");
    bank.add_tree(b"cd", &tree3);
    assert_eq!(
        bank_kind_frags(&bank, b"x"),
        Some(vec![b"a".to_vec(), b"b".to_vec(), b"c".to_vec(), b"d".to_vec()])
    );
    assert!(bank.possible() >= before);
}

#[test]
fn bank_possible_counts_non_identity_replacements() {
    let tree = two_leaf_tree("doc", "x");
    let mut bank = Branches::new(&vec![(b"ab".to_vec(), tree)]);
    // kinds: doc -> ["ab"], x -> ["a","b"]; possible = 0 + 1
    assert_eq!(bank.possible(), 1);
    let tree2 = two_leaf_tree("doc", "x");
    bank.add_tree(b"cd", &tree2);
    // doc -> ["ab","cd"], x -> ["a","b","c","d"]; possible = 1 + 3
    assert_eq!(bank.possible(), 4);
}

#[test]
fn bank_random_fragment_none_for_unknown_kind() {
    let tree = two_leaf_tree("doc", "x");
    let bank = Branches::new(&vec![(b"ab".to_vec(), tree)]);
    let mut rng = SpliceRng::new(3);
    assert!(bank.random_fragment(b"zzz", &mut rng).is_none());
    let f = bank.random_fragment(b"x", &mut rng).expect("kind is present");
    assert!(f == &b"a".to_vec() || f == &b"b".to_vec());
}

#[test]
fn registry_parses_flags() {
    let nt = NodeTypes::new(b"o pair\nr value\n\no string\n").expect("valid description");
    assert!(nt.optional(b"pair"));
    assert!(nt.optional(b"string"));
    assert!(!nt.optional(b"value"));
    // unknown kinds are conservatively not optional
    assert!(!nt.optional(b"never_seen"));
}

#[test]
fn registry_rejects_malformed_lines() {
    assert_eq!(NodeTypes::new(b"q pair\n").unwrap_err(), GrammarError::InvalidGrammar);
    assert_eq!(NodeTypes::new(b"o\n").unwrap_err(), GrammarError::InvalidGrammar);
    assert_eq!(NodeTypes::new(b"opair\n").unwrap_err(), GrammarError::InvalidGrammar);
    assert!(NodeTypes::new(b"").is_ok());
    assert!(NodeTypes::new(b"o k").is_ok());
}

#[test]
fn tree_validation_rejects_bad_structures() {
    // child index pointing backwards
    let bad = vec![node("doc", 0, 2, vec![0])];
    assert!(SynTree::from_nodes(bad, 2).is_none());
    // range past the end of the buffer
    let bad2 = vec![node("doc", 0, 9, vec![])];
    assert!(SynTree::from_nodes(bad2, 2).is_none());
    // child range outside the parent
    let bad3 = vec![node("doc", 0, 1, vec![1]), node("x", 0, 2, vec![])];
    assert!(SynTree::from_nodes(bad3, 2).is_none());
    // empty node list
    assert!(SynTree::from_nodes(Vec::new(), 0).is_none());
    // a well-formed tree passes
    let good = vec![node("doc", 0, 2, vec![1]), node("x", 1, 2, vec![])];
    assert!(SynTree::from_nodes(good, 2).is_some());
}

#[test]
fn render_replaces_edited_ranges() {
    // "abc": root spans all, leaves at [0,1) and [2,3); the byte 'b' is a
    // gap between them and must be preserved verbatim
    let nodes = vec![
        node("doc", 0, 3, vec![1, 2]),
        node("x", 0, 1, vec![]),
        node("y", 2, 3, vec![]),
    ];
    let tree = SynTree::from_nodes(nodes, 3).unwrap();
    let mut edits = EditSet::new();
    edits.insert(2, b"XY".to_vec());
    assert_eq!(render(&tree, b"abc", &edits), b"abXY".to_vec());
    // deleting instead of replacing
    let mut del = EditSet::new();
    del.insert(1, Vec::new());
    assert_eq!(render(&tree, b"abc", &del), b"bc".to_vec());
    // no edits: the source comes back unchanged
    assert_eq!(render(&tree, b"abc", &EditSet::new()), b"abc".to_vec());
}

#[test]
fn render_outermost_edit_shadows_inner() {
    let nodes = vec![
        node("doc", 0, 3, vec![1, 2]),
        node("x", 0, 1, vec![]),
        node("y", 2, 3, vec![]),
    ];
    let tree = SynTree::from_nodes(nodes, 3).unwrap();
    let mut edits = EditSet::new();
    edits.insert(1, b"inner".to_vec());
    edits.insert(0, b"outer".to_vec());
    assert_eq!(render(&tree, b"abc", &edits), b"outer".to_vec());
    // inserting twice for one identifier keeps the last write
    let mut twice = EditSet::new();
    twice.insert(1, b"first".to_vec());
    twice.insert(1, b"second".to_vec());
    assert_eq!(render(&tree, b"abc", &twice), b"secondbc".to_vec());
    assert_eq!(twice.count(), 1);
    assert!(twice.has_edit(1));
    assert!(!twice.has_edit(2));
    assert_eq!(twice.edit(1), b"second".to_vec());
}
