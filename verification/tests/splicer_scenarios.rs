use tree_fuzzer::outside::SpliceRng;
use tree_fuzzer::splice::TreeMetaData;
use tree_fuzzer::tree::{NodeInfo, SynTree};

fn node(kind: &str, start: usize, end: usize, children: Vec<usize>) -> NodeInfo {
    NodeInfo { kind: kind.as_bytes().to_vec(), start, end, children }
}

fn language() -> tree_sitter::Language {
    tree_sitter_json::language()
}

/// Metadata over the given corpus trees, with the splicing knobs set for
/// the scenario at hand.
fn meta_with(
    desc: &[u8],
    files: Vec<(Vec<u8>, SynTree)>,
    chaos: u8,
    deletions: u8,
    inter_splices: usize,
    max_size: usize,
    reparse: usize,
) -> TreeMetaData {
    let mut meta = TreeMetaData::new(desc, &files).expect("valid description");
    meta.chaos = chaos;
    meta.deletions = deletions;
    meta.inter_splices = inter_splices;
    meta.max_size = max_size;
    meta.reparse = reparse;
    meta
}

#[test]
fn deletion_honors_optional_slots() {
    // grammar: one optional and one required kind; with deletions at 100%
    // and chaos at zero, only the optional node may be removed
    let corpus_tree = SynTree::from_nodes(
        vec![
            node("doc", 0, 2, vec![1, 2]),
            node("optk", 0, 1, vec![]),
            node("reqk", 1, 2, vec![]),
        ],
        2,
    )
    .unwrap();
    let meta = meta_with(
        b"o optk\nr reqk\n",
        vec![(b"ab".to_vec(), corpus_tree)],
        0,
        100,
        2,
        4000,
        1,
    );
    let lang = language();
    for seed in 0..25u64 {
        let input_tree = SynTree::from_nodes(
            vec![
                node("doc", 0, 2, vec![1, 2]),
                node("optk", 0, 1, vec![]),
                node("reqk", 1, 2, vec![]),
            ],
            2,
        )
        .unwrap();
        let mut rng = SpliceRng::new(seed);
        let out = meta
            .splice_tree(b"ab", input_tree, &lang, &mut rng)
            .expect("two edits are configured");
        // the optional node 'a' is deleted; the required 'b' never is
        assert_eq!(out, b"b".to_vec());
    }
}

#[test]
fn chaotic_fallback_reaches_other_kinds() {
    // the input holds a kind the bank has never seen; the typed search
    // exhausts its retries and a fragment of some other kind is used
    let corpus_tree = SynTree::from_nodes(
        vec![
            node("doc", 0, 2, vec![1, 2]),
            node("num", 0, 1, vec![]),
            node("num", 1, 2, vec![]),
        ],
        2,
    )
    .unwrap();
    let meta = meta_with(
        b"",
        vec![(b"12".to_vec(), corpus_tree)],
        0,
        0,
        2,
        4000,
        1,
    );
    let lang = language();
    for seed in 0..25u64 {
        let input_tree = SynTree::from_nodes(
            vec![node("doc2", 0, 1, vec![1]), node("novel", 0, 1, vec![])],
            1,
        )
        .unwrap();
        let mut rng = SpliceRng::new(seed);
        let out = meta
            .splice_tree(b"z", input_tree, &lang, &mut rng)
            .expect("two edits are configured");
        assert!(out == b"1".to_vec() || out == b"2".to_vec(), "got {:?}", out);
    }
}

#[test]
fn size_cap_is_overshot_by_at_most_one_fragment() {
    // a 50-byte fragment is available and the cap is 10: after one splice
    // that overshoots, the call halts at once, under 10 + 50 bytes
    let mut big = vec![b'Y'; 50];
    big.push(b'Z');
    let corpus_tree = SynTree::from_nodes(
        vec![
            node("doc", 0, 51, vec![1, 2]),
            node("s", 0, 50, vec![]),
            node("s", 50, 51, vec![]),
        ],
        51,
    )
    .unwrap();
    let meta = meta_with(b"", vec![(big, corpus_tree)], 0, 0, 6, 10, 1);
    let lang = language();
    for seed in 0..25u64 {
        let input_tree = SynTree::from_nodes(
            vec![node("doc", 0, 1, vec![1]), node("s", 0, 1, vec![])],
            1,
        )
        .unwrap();
        let mut rng = SpliceRng::new(seed);
        let out = meta
            .splice_tree(b"a", input_tree, &lang, &mut rng)
            .expect("edits are configured");
        assert!(out.len() <= 10 + 50, "output too long: {}", out.len());
    }
}

#[test]
fn typed_splice_never_picks_the_identity() {
    // the kind has two fragments and the node's text is one of them: the
    // replacement is always the other
    let corpus_tree = SynTree::from_nodes(
        vec![
            node("doc", 0, 2, vec![1, 2]),
            node("k", 0, 1, vec![]),
            node("k", 1, 2, vec![]),
        ],
        2,
    )
    .unwrap();
    let meta = meta_with(b"", vec![(b"ab".to_vec(), corpus_tree)], 0, 0, 2, 4000, 1);
    let lang = language();
    for seed in 0..40u64 {
        let input_tree = SynTree::from_nodes(
            vec![node("r", 0, 1, vec![1]), node("k", 0, 1, vec![])],
            1,
        )
        .unwrap();
        let mut rng = SpliceRng::new(seed);
        let out = meta
            .splice_tree(b"a", input_tree, &lang, &mut rng)
            .expect("two edits are configured");
        assert_eq!(out, b"b".to_vec());
    }
}

#[test]
fn splice_returns_nothing_when_under_two_edits() {
    let corpus_tree =
        SynTree::from_nodes(vec![node("doc", 0, 1, vec![1]), node("k", 0, 1, vec![])], 1).unwrap();
    let mut meta = meta_with(b"", vec![(b"a".to_vec(), corpus_tree)], 0, 0, 0, 4000, 1);
    let lang = language();
    for inter in 0..2usize {
        meta.inter_splices = inter;
        let input_tree = SynTree::from_nodes(
            vec![node("doc", 0, 1, vec![1]), node("k", 0, 1, vec![])],
            1,
        )
        .unwrap();
        let mut rng = SpliceRng::new(1);
        assert!(meta.splice_tree(b"a", input_tree, &lang, &mut rng).is_none());
    }
}

#[test]
fn delete_only_splicing_needs_no_bank() {
    // with deletions at 100% the bank is never consulted, so an empty
    // corpus is fine
    let meta = meta_with(b"o k\n", Vec::new(), 0, 100, 2, 4000, 1);
    let lang = language();
    let input_tree = SynTree::from_nodes(
        vec![node("doc", 0, 1, vec![1]), node("k", 0, 1, vec![])],
        1,
    )
    .unwrap();
    let mut rng = SpliceRng::new(5);
    let out = meta
        .splice_tree(b"a", input_tree, &lang, &mut rng)
        .expect("two edits are configured");
    assert_eq!(out, Vec::<u8>::new());
}
