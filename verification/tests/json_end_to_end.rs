use tree_fuzzer::outside::{parse, SpliceRng};
use tree_fuzzer::splice::{
    MutationOutcome, TestTree, TreeContext, TreeFeedback, TreeMetaData, TreeSpliceMutator,
};
use tree_fuzzer::tree::SynTree;

fn language() -> tree_sitter::Language {
    tree_sitter_json::language()
}

fn tree_kinds(tree: &SynTree) -> Vec<Vec<u8>> {
    let mut kinds: Vec<Vec<u8>> = Vec::new();
    for i in 0..tree.node_count() {
        let k = tree.kind_of(i).clone();
        if !kinds.contains(&k) {
            kinds.push(k);
        }
    }
    kinds.sort();
    kinds
}

fn bank_kinds(meta: &TreeMetaData) -> Vec<Vec<u8>> {
    let mut kinds: Vec<Vec<u8>> = Vec::new();
    for i in 0..meta.branches.num_kinds() {
        kinds.push(meta.branches.kind_at(i).clone());
    }
    kinds.sort();
    kinds
}

fn corpus(texts: &[&[u8]]) -> Vec<(Vec<u8>, SynTree)> {
    let lang = language();
    texts
        .iter()
        .map(|t| (t.to_vec(), parse(&lang, t).expect("corpus parses")))
        .collect()
}

#[test]
fn parser_wrapper_yields_real_structure() {
    let lang = language();
    let tree = parse(&lang, b"[1,2]").expect("valid JSON parses");
    assert!(tree.node_count() > 3);
    let mut number_texts: Vec<Vec<u8>> = Vec::new();
    for i in 0..tree.node_count() {
        if tree.kind_of(i).as_slice() == b"number" {
            let (s, e) = tree.range_of(i);
            number_texts.push(b"[1,2]"[s..e].to_vec());
        }
    }
    number_texts.sort();
    assert_eq!(number_texts, vec![b"1".to_vec(), b"2".to_vec()]);
}

#[test]
fn seedless_corpus_banks_exactly_the_reachable_kinds() {
    let lang = language();
    let expected = tree_kinds(&parse(&lang, b"{}").unwrap());
    let mut meta = TreeMetaData::new(b"", &corpus(&[b"{}"])).unwrap();
    meta.chaos = 0;
    meta.deletions = 0;
    meta.inter_splices = 2;
    meta.reparse = 1;
    let ctx = TreeContext::new(language(), b"").unwrap();
    let mutator = TreeSpliceMutator::new(&ctx);
    let mut input = TestTree(b"{}".to_vec());
    let mut rng = SpliceRng::new(1);
    let outcome = mutator.mutate(&meta, &mut input, &mut rng);
    // with a single fragment per kind the call may mutate (via the
    // fallback) or skip; either way the bank holds exactly the kinds
    // reachable from parsing the seed
    assert!(matches!(outcome, MutationOutcome::Mutated | MutationOutcome::Skipped));
    assert_eq!(bank_kinds(&meta), expected);
}

#[test]
fn typed_splice_draws_from_the_matching_kind() {
    let mut meta = TreeMetaData::new(b"", &corpus(&[b"[1]", b"[2,3]"])).unwrap();
    meta.chaos = 0;
    meta.deletions = 0;
    meta.inter_splices = 2;
    meta.reparse = 1;
    let ctx = TreeContext::new(language(), b"").unwrap();
    let mutator = TreeSpliceMutator::new(&ctx);
    let allowed = [b"[2,3]".to_vec(), b"[2]".to_vec(), b"[3]".to_vec()];
    for seed in [1u64, 2, 3, 7, 11, 42] {
        let mut input = TestTree(b"[1]".to_vec());
        let mut rng = SpliceRng::new(seed);
        let outcome = mutator.mutate(&meta, &mut input, &mut rng);
        assert_eq!(outcome, MutationOutcome::Mutated);
        assert!(
            allowed.contains(&input.0),
            "seed {}: unexpected output {:?}",
            seed,
            String::from_utf8_lossy(&input.0)
        );
    }
}

#[test]
fn identical_seeds_give_identical_outputs() {
    let build = || {
        let mut meta = TreeMetaData::new(b"", &corpus(&[b"[1]", b"[2,3]", b"{}"])).unwrap();
        meta.chaos = 5;
        meta.deletions = 5;
        meta.inter_splices = 8;
        meta.reparse = 1;
        meta
    };
    let ctx = TreeContext::new(language(), b"").unwrap();
    let mutator = TreeSpliceMutator::new(&ctx);
    let (meta_a, meta_b) = (build(), build());
    let mut rng_a = SpliceRng::new(99);
    let mut rng_b = SpliceRng::new(99);
    let mut input_a = TestTree(b"[1]".to_vec());
    let mut input_b = TestTree(b"[1]".to_vec());
    for _ in 0..5 {
        let ra = mutator.mutate(&meta_a, &mut input_a, &mut rng_a);
        let rb = mutator.mutate(&meta_b, &mut input_b, &mut rng_b);
        assert_eq!(ra, rb);
        assert_eq!(input_a.0, input_b.0);
    }
}

#[test]
fn feedback_folds_accepted_inputs_into_the_bank() {
    let mut meta = TreeMetaData::new(b"", &corpus(&[b"[1]"])).unwrap();
    let before = meta.branches.possible();
    let ctx = TreeContext::new(language(), b"").unwrap();
    let feedback = TreeFeedback::new(&ctx);
    assert!(!feedback.is_interesting());
    feedback.append_metadata(&mut meta, &TestTree(b"[4]".to_vec()));
    // the number kind now offers a genuine replacement
    let i = meta.branches.find_entry(b"number").expect("number was seen");
    let mut frags: Vec<Vec<u8>> = Vec::new();
    for j in 0..meta.branches.frag_count_at(i) {
        frags.push(meta.branches.frag_at(i, j).clone());
    }
    assert!(frags.contains(&b"1".to_vec()));
    assert!(frags.contains(&b"4".to_vec()));
    assert!(meta.branches.possible() > before);
}

#[test]
fn context_rejects_invalid_grammar_descriptions() {
    assert!(TreeContext::new(language(), b"o pair\n").is_ok());
    assert!(TreeContext::new(language(), b"bogus line\n").is_err());
    assert!(TreeMetaData::new(b"bogus line\n", &Vec::new()).is_err());
}
