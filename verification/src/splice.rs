//! The splicer: the mutation algorithm and its corpus metadata.
//!
//! [`TreeMetaData`] carries the fragment bank and the splicing
//! configuration. One mutation call composes several splice and deletion
//! edits into a new byte buffer, re-parsing the working buffer at the
//! configured interval so later edits operate on an accurate tree, and
//! stopping early once the byte cap is reached.
use vstd::prelude::*;

use crate::bank::{
    bank_has_frag, frag_len_bound, frags_of, node_frag, seq_prefix, spec_add_nodes,
    spec_add_trees, BankView, Branches,
};
use crate::bytes_eq;
use crate::node_types::{spec_optional, spec_parse_desc, GrammarError, NodeTypes};
use crate::outside::{parse, SpliceRng};
use crate::render::{render, splice_single, EditSet};
use crate::tree::{node_ok, NodeView, SynTree};
use tree_sitter::Language;

verus! {

/// An owned byte buffer treated as a fuzzing input; the harness reads it
/// as opaque bytes.
pub struct TestTree(pub Vec<u8>);

impl TestTree {
    /// Length of the buffer in bytes.
    pub fn len(&self) -> (r: usize)
        ensures
            r == self.0@.len(),
    {
        self.0.len()
    }

    /// The buffer's bytes.
    pub fn bytes(&self) -> (r: &[u8])
        ensures
            r@ == self.0@,
    {
        self.0.as_slice()
    }
}

/// What one mutation call reports: the input was replaced, or left alone.
#[derive(Debug, PartialEq, Eq)]
pub enum MutationOutcome {
    Mutated,
    Skipped,
}

/// One planned edit: the target node's identifier, the replacement bytes
/// (empty for a deletion), the byte span the node occupies, and whether
/// the replacement was drawn kind-matched from the bank.
pub struct EditPlan {
    pub id: usize,
    pub bytes: Vec<u8>,
    pub span: usize,
    pub typed: bool,
}

/// The larger of two integers.
pub open spec fn spec_max(a: int, b: int) -> int {
    if a >= b {
        a
    } else {
        b
    }
}

/// The shared, immutable context of one fuzzing target: its grammar
/// registry, its parser language, and the splicing configuration.
pub struct TreeContext {
    pub node_types: NodeTypes,
    pub language: Language,
    pub chaos: u8,
    pub deletions: u8,
    pub inter_splices: usize,
    pub max_size: usize,
    pub reparse: usize,
}

impl TreeContext {
    /// Build a context from a language and a grammar description; fails
    /// with [`GrammarError::InvalidGrammar`] exactly when the description
    /// cannot be parsed.
    pub fn new(language: Language, node_types_str: &[u8]) -> (r: Result<TreeContext, GrammarError>)
        ensures
            r matches Ok(c) ==> spec_parse_desc(node_types_str@) == Some(c.node_types@)
                && c.chaos == 5 && c.deletions == 11 && c.inter_splices == 11 && c.max_size == 500
                && c.reparse == 11,
            r is Err <==> spec_parse_desc(node_types_str@) is None,
    {
        let node_types = match NodeTypes::new(node_types_str) {
            Ok(nt) => nt,
            Err(e) => {
                return Err(e);
            },
        };
        Ok(
            TreeContext {
                node_types,
                language,
                chaos: 5,
                deletions: 11,
                inter_splices: 11,
                max_size: 500,
                reparse: 11,
            },
        )
    }
}

/// Pick a node of the tree uniformly, preferring non-root nodes: the root
/// is chosen only when it is the only node.
fn pick_node(tree: &SynTree, rng: &mut SpliceRng) -> (r: usize)
    requires
        tree.wf(),
    ensures
        r < tree@.len(),
{
    let n = tree.node_count();
    if n <= 1 {
        0
    } else {
        1 + rng.below(n - 1)
    }
}

/// The per-run corpus metadata: the fragment bank, the grammar registry
/// and the splicing configuration the mutator reads.
pub struct TreeMetaData {
    pub node_types: NodeTypes,
    pub chaos: u8,
    pub deletions: u8,
    pub inter_splices: usize,
    pub max_size: usize,
    pub reparse: usize,
    pub branches: Branches,
}

impl TreeMetaData {
    /// The bank's mathematical model.
    pub open spec fn bank(&self) -> BankView {
        self.branches@
    }

    /// The invariant every constructed value satisfies: the bank is
    /// well-formed and the re-parse interval is at least one edit.
    pub open spec fn wf(&self) -> bool {
        self.branches.wf() && self.reparse >= 1
    }

    /// Build the metadata from a grammar description and an initial corpus
    /// of (bytes, tree) pairs; fails exactly when the description cannot
    /// be parsed.
    pub fn new(node_types_str: &[u8], files: &Vec<(Vec<u8>, SynTree)>) -> (r: Result<
        TreeMetaData,
        GrammarError,
    >)
        requires
            forall|i: int|
                0 <= i < files@.len() ==> (#[trigger] files@[i]).1.wf() && files@[i].1.fits(
                    files@[i].0@.len() as int,
                ),
        ensures
            r matches Ok(m) ==> spec_parse_desc(node_types_str@) == Some(m.node_types@) && m.wf()
                && m.bank() == spec_add_trees(files@, files@.len() as int) && m.chaos == 5
                && m.deletions == 5 && m.inter_splices == 16 && m.max_size == 4000 && m.reparse
                == usize::MAX,
            r is Err <==> spec_parse_desc(node_types_str@) is None,
    {
        let node_types = match NodeTypes::new(node_types_str) {
            Ok(nt) => nt,
            Err(e) => {
                return Err(e);
            },
        };
        let branches = Branches::new(files);
        Ok(
            TreeMetaData {
                node_types,
                chaos: 5,
                deletions: 5,
                inter_splices: 16,
                max_size: 4000,
                reparse: usize::MAX,
                branches,
            },
        )
    }

    /// Parse an accepted input and fold every subtree of it into the
    /// fragment bank; inputs the parser rejects are skipped silently and
    /// leave the bank unchanged. The configuration is never touched, and
    /// no kind's fragment list ever shrinks or is reordered.
    pub fn add_tree(&mut self, txt: &TestTree, language: &Language)
        requires
            old(self).wf(),
        ensures
            final(self).wf(),
            final(self).node_types == old(self).node_types,
            final(self).chaos == old(self).chaos && final(self).deletions == old(self).deletions
                && final(self).inter_splices == old(self).inter_splices && final(self).max_size
                == old(self).max_size && final(self).reparse == old(self).reparse,
            final(self).bank() == old(self).bank() || exists|t: Seq<NodeView>|
                final(self).bank() == #[trigger] spec_add_nodes(
                    old(self).bank(),
                    txt.0@,
                    t,
                    t.len() as int,
                ),
            forall|k: Seq<u8>|
                seq_prefix(#[trigger] frags_of(old(self).bank(), k), frags_of(final(self).bank(), k)),
    {
        match parse(language, txt.0.as_slice()) {
            None => {
                proof {
                    assert forall|k: Seq<u8>|
                        seq_prefix(
                            #[trigger] frags_of(old(self).bank(), k),
                            frags_of(self.bank(), k),
                        ) by {}
                }
            },
            Some(tree) => {
                self.branches.add_tree(txt.0.as_slice(), &tree);
                proof {
                    let t = tree@;
                    assert(self.bank() == spec_add_nodes(
                        old(self).bank(),
                        txt.0@,
                        t,
                        t.len() as int,
                    ));
                }
            },
        }
    }

    /// All node identifiers a single edit may target: every node except
    /// the root, in index order.
    fn all_nodes(&self, tree: &SynTree) -> (r: Vec<usize>)
        requires
            tree.wf(),
        ensures
            r@.len() == tree@.len() - 1,
            forall|k: int| 0 <= k < r@.len() ==> #[trigger] r@[k] == k + 1,
    {
        let n = tree.node_count();
        let mut all: Vec<usize> = Vec::new();
        let mut i: usize = 1;
        while i < n
            invariant
                1 <= i <= n,
                n == tree@.len(),
                all@.len() == i - 1,
                forall|k: int| 0 <= k < all@.len() ==> #[trigger] all@[k] == k + 1,
            decreases n - i,
        {
            all.push(i);
            i += 1;
        }
        all
    }

    /// Plan the deletion of one node: with probability `chaos`% any node,
    /// otherwise a node the grammar marks optional, falling back to any
    /// node when nothing is optional. With `chaos` zero, whenever some
    /// non-root node is optional, the deleted node is optional.
    pub fn delete_node(&self, tree: &SynTree, rng: &mut SpliceRng) -> (e: EditPlan)
        requires
            self.wf(),
            tree.wf(),
        ensures
            e.id < tree@.len(),
            e.bytes@.len() == 0,
            e.span as int == tree@[e.id as int].end - tree@[e.id as int].start,
            self.chaos == 0 && (exists|i: int|
                1 <= i < tree@.len() && spec_optional(
                    self.node_types@,
                    (#[trigger] tree@[i]).kind,
                )) ==> spec_optional(self.node_types@, tree@[e.id as int].kind),
    {
        let chaotic = rng.below(100) < self.chaos as usize;
        if chaotic {
            let id = pick_node(tree, rng);
            let (s, en) = tree.range_of(id);
            return EditPlan { id, bytes: Vec::new(), span: en - s, typed: false };
        }
        let nodes = self.all_nodes(tree);
        let mut opts: Vec<usize> = Vec::new();
        let count = nodes.len();
        let mut i: usize = 0;
        while i < count
            invariant
                self.wf(),
                tree.wf(),
                count == nodes@.len(),
                count == tree@.len() - 1,
                forall|k: int| 0 <= k < nodes@.len() ==> #[trigger] nodes@[k] == k + 1,
                i <= count,
                forall|k: int|
                    0 <= k < opts@.len() ==> 1 <= #[trigger] opts@[k] < tree@.len()
                        && spec_optional(self.node_types@, tree@[opts@[k] as int].kind),
                opts@.len() == 0 ==> forall|j: int|
                    1 <= j < i + 1 ==> !spec_optional(self.node_types@, (#[trigger] tree@[j]).kind),
            decreases count - i,
        {
            let id = nodes[i];
            if self.node_types.optional(tree.kind_of(id).as_slice()) {
                opts.push(id);
            }
            i += 1;
        }
        if opts.len() == 0 {
            let id = pick_node(tree, rng);
            let (s, en) = tree.range_of(id);
            return EditPlan { id, bytes: Vec::new(), span: en - s, typed: false };
        }
        let id = opts[rng.below(opts.len())];
        let (s, en) = tree.range_of(id);
        EditPlan { id, bytes: Vec::new(), span: en - s, typed: true }
    }

    /// Plan one splice: pick a node and a candidate fragment list — the
    /// node's own kind in typed mode, a random kind in chaotic mode —
    /// retrying up to a fixed threshold for a list with at least two
    /// fragments, then promoting to chaotic mode; finally draw a fragment,
    /// never the node's current text while an alternative exists. Every
    /// replacement comes from the bank; a typed replacement comes from the
    /// fragment list of the chosen node's kind and, when that list has at
    /// least two fragments, differs from the node's current text.
    pub fn splice_node(&self, text: &[u8], tree: &SynTree, rng: &mut SpliceRng) -> (e: EditPlan)
        requires
            self.wf(),
            tree.wf(),
            tree.fits(text@.len() as int),
            self.bank().len() > 0,
        ensures
            e.id < tree@.len(),
            e.span as int == tree@[e.id as int].end - tree@[e.id as int].start,
            bank_has_frag(self.bank(), e.bytes@),
            e.typed ==> frags_of(self.bank(), tree@[e.id as int].kind).contains(e.bytes@) && (
            frags_of(self.bank(), tree@[e.id as int].kind).len() > 1 ==> e.bytes@ != node_frag(
                text@,
                tree@[e.id as int],
            )),
    {
        let mut chaotic = rng.below(100) < self.chaos as usize;
        let mut tries: usize = 0;
        let mut found = false;
        let mut node: usize = 0;
        let mut entry: usize = 0;
        let mut typed = false;
        while tries < 200 && !found
            invariant
                self.wf(),
                tree.wf(),
                self.bank().len() > 0,
                found ==> node < tree@.len() && entry < self.bank().len()
                    && self.bank()[entry as int].1.len() >= 2,
                found && typed ==> self.bank()[entry as int].0 == tree@[node as int].kind,
            decreases 200 - tries,
        {
            node = pick_node(tree, rng);
            if chaotic {
                let ei = rng.below(self.branches.num_kinds());
                if self.branches.frag_count_at(ei) >= 2 {
                    found = true;
                    entry = ei;
                    typed = false;
                }
            } else {
                match self.branches.find_entry(tree.kind_of(node).as_slice()) {
                    Some(ei) => {
                        if self.branches.frag_count_at(ei) >= 2 {
                            found = true;
                            entry = ei;
                            typed = true;
                            proof {
                                crate::bank::lemma_find(self.bank(), tree@[node as int].kind);
                            }
                        }
                    },
                    None => {},
                }
            }
            tries += 1;
            if tries >= 100 {
                chaotic = true;
            }
        }
        if !found {
            // candidate exhaustion: no kind offers two fragments; fall
            // back to any seen kind so the call still makes progress
            node = pick_node(tree, rng);
            entry = rng.below(self.branches.num_kinds());
            typed = false;
        }
        let (ns, ne) = tree.range_of(node);
        let cur = vstd::slice::slice_subrange(text, ns, ne);
        let count = self.branches.frag_count_at(entry);
        let ghost frags = self.bank()[entry as int].1;
        let chosen: usize;
        if count > 1 {
            // draw only among fragments that differ from the current text;
            // deduplication leaves at most one equal fragment
            let mut alts: Vec<usize> = Vec::new();
            let ghost mut skipped: Option<int> = None;
            let mut j: usize = 0;
            while j < count
                invariant
                    self.wf(),
                    entry < self.bank().len(),
                    count == frags.len(),
                    frags == self.bank()[entry as int].1,
                    j <= count,
                    forall|x: int|
                        0 <= x < alts@.len() ==> #[trigger] alts@[x] < j && frags[alts@[x] as int]
                            != cur@,
                    match skipped {
                        None => alts@.len() == j,
                        Some(s) => alts@.len() == j - 1 && 0 <= s < j && frags[s] == cur@,
                    },
                decreases count - j,
            {
                if !bytes_eq(self.branches.frag_at(entry, j).as_slice(), cur) {
                    alts.push(j);
                } else {
                    proof {
                        match skipped {
                            Some(s) => {
                                assert(frags[s] == cur@ && frags[j as int] == cur@);
                                assert(frags[s] != frags[j as int]);
                                assert(false);
                            },
                            None => {},
                        }
                        skipped = Some(j as int);
                    }
                }
                j += 1;
            }
            assert(alts@.len() >= count - 1);
            chosen = alts[rng.below(alts.len())];
        } else {
            chosen = 0;
        }
        let bytes = vstd::slice::slice_to_vec(self.branches.frag_at(entry, chosen).as_slice());
        proof {
            assert(bank_has_frag(self.bank(), bytes@)) by {
                assert(self.bank()[entry as int].1[chosen as int] == bytes@);
            }
            if typed {
                assert forall|q: int| 0 <= q < entry as int implies (#[trigger] self.bank()[q]).0
                    != tree@[node as int].kind by {}
                crate::bank::lemma_find_is(self.bank(), tree@[node as int].kind, entry as int);
                assert(frags_of(self.bank(), tree@[node as int].kind) == frags);
                assert(frags[chosen as int] == bytes@);
            }
        }
        EditPlan { id: node, bytes, span: ne - ns, typed }
    }

    /// Compose several splice and deletion edits into a new byte buffer.
    /// Returns `None` exactly when fewer than two edits are configured;
    /// otherwise the number of edits is drawn from `[1, inter_splices)`,
    /// the working buffer is rendered and re-parsed every `reparse`-th
    /// edit and at the end, and editing stops early once the running size
    /// reaches `max_size`. When the buffer is re-parsed after every edit
    /// (`reparse` one), the output overshoots the byte cap by at most one
    /// fragment: its length is bounded by the larger of the input length
    /// and `max_size`, plus the longest fragment the bank holds.
    pub fn splice_tree(
        &self,
        text0: &[u8],
        tree: SynTree,
        language: &Language,
        rng: &mut SpliceRng,
    ) -> (r: Option<Vec<u8>>)
        requires
            self.wf(),
            tree.wf(),
            tree.fits(text0@.len() as int),
            self.bank().len() > 0 || self.deletions >= 100,
        ensures
            r is Some <==> self.inter_splices >= 2,
            self.reparse == 1 ==> forall|b: int|
                #[trigger] frag_len_bound(self.bank(), b) && b >= 0 ==> (r matches Some(v)
                    ==> v@.len() <= spec_max(text0@.len() as int, self.max_size as int) + b),
    {
        if self.inter_splices <= 1 {
            return None;
        }
        let splices = 1 + rng.below(self.inter_splices - 1);
        let mut text: Vec<u8> = vstd::slice::slice_to_vec(text0);
        let mut tree = tree;
        let mut edits = EditSet::new();
        let mut sz: usize = text.len();
        let mut done = false;
        let mut i: usize = 0;
        while i < splices && !done
            invariant
                self.wf(),
                self.bank().len() > 0 || self.deletions >= 100,
                self.inter_splices >= 2,
                tree.wf(),
                !done ==> tree.fits(text@.len() as int),
                edits.wf(),
                i <= splices,
                self.reparse == 1 ==> edits@.dom() =~= Set::<int>::empty(),
                self.reparse == 1 ==> text@.len() <= sz as int,
                self.reparse == 1 && !done ==> ((i == 0 && text@ == text0@) || text@.len()
                    < self.max_size as int),
                self.reparse == 1 && done ==> forall|b: int|
                    #[trigger] frag_len_bound(self.bank(), b) && b >= 0 ==> text@.len() <= spec_max(
                        text0@.len() as int,
                        self.max_size as int,
                    ) + b,
            decreases splices - i,
        {
            let e = if rng.below(100) < self.deletions as usize {
                self.delete_node(&tree, rng)
            } else {
                self.splice_node(text.as_slice(), &tree, rng)
            };
            proof {
                assert(e.bytes@.len() == 0 || bank_has_frag(self.bank(), e.bytes@));
                assert(node_ok(tree@, e.id as int));
            }
            let ghost ebytes = e.bytes@;
            let ghost oldlen = text@.len() as int;
            // running size approximation: subtract the replaced span, add
            // the replacement, clipped at the machine-word bounds
            let shrunk = if e.span > sz {
                0
            } else {
                sz - e.span
            };
            sz = match shrunk.checked_add(e.bytes.len()) {
                Some(v) => v,
                None => usize::MAX,
            };
            let sized_out = sz >= self.max_size;
            proof {
                assert forall|b: int|
                    #[trigger] frag_len_bound(self.bank(), b) && b >= 0 implies ebytes.len()
                    <= b by {
                    if ebytes.len() != 0 {
                        let (wi, wj) = choose|wi: int, wj: int|
                            0 <= wi < self.bank().len() && 0 <= wj < self.bank()[wi].1.len()
                                && #[trigger] self.bank()[wi].1[wj] == ebytes;
                        assert(self.bank()[wi].1[wj].len() <= b);
                    }
                }
            }
            let boundary = (i % self.reparse == 0) || (i + 1 == splices) || sized_out;
            if boundary && edits.count() == 0 {
                // a single accumulated edit: splice it in directly
                let (s, en) = tree.range_of(e.id);
                let rendered = splice_single(text.as_slice(), s, en, e.bytes.as_slice());
                text = rendered;
                let cur_len = text.len();
                proof {
                    assert(text@.len() == oldlen - e.span + ebytes.len());
                }
                match parse(language, text.as_slice()) {
                    Some(t2) => {
                        tree = t2;
                    },
                    None => {
                        done = true;
                    },
                }
            } else {
                edits.insert(e.id, e.bytes);
                proof {
                    assert(self.reparse != 1);
                }
                if boundary {
                    let rendered = render(&tree, text.as_slice(), &edits);
                    text = rendered;
                    edits = EditSet::new();
                    match parse(language, text.as_slice()) {
                        Some(t2) => {
                            tree = t2;
                        },
                        None => {
                            done = true;
                        },
                    }
                }
            }
            if sized_out {
                done = true;
            }
            i += 1;
        }
        Some(text)
    }
}

/// The splicer presented as one interchangeable mutator: each call parses
/// the input, splices, and replaces the input's bytes on success.
pub struct TreeSpliceMutator<'a> {
    pub ctx: &'a TreeContext,
}

impl<'a> TreeSpliceMutator<'a> {
    /// A mutator over the given context.
    pub fn new(ctx: &'a TreeContext) -> (r: TreeSpliceMutator<'a>) {
        TreeSpliceMutator { ctx }
    }

    /// One mutation call: parse the input bytes — reporting `Skipped` if
    /// the parser rejects them — then splice; on an empty or absent result
    /// report `Skipped`, otherwise replace the input bytes and report
    /// `Mutated`. A skipped input is left untouched, and a mutated one is
    /// never empty.
    pub fn mutate(&self, meta: &TreeMetaData, input: &mut TestTree, rng: &mut SpliceRng) -> (r:
        MutationOutcome)
        requires
            meta.wf(),
            meta.bank().len() > 0 || meta.deletions >= 100,
        ensures
            r is Skipped ==> final(input).0@ == old(input).0@,
            r is Mutated ==> final(input).0@.len() > 0,
            meta.inter_splices <= 1 ==> r is Skipped,
    {
        let tree = match parse(&self.ctx.language, input.0.as_slice()) {
            None => {
                return MutationOutcome::Skipped;
            },
            Some(t) => t,
        };
        match meta.splice_tree(input.0.as_slice(), tree, &self.ctx.language, rng) {
            None => MutationOutcome::Skipped,
            Some(out) => {
                if out.len() == 0 {
                    MutationOutcome::Skipped
                } else {
                    input.0 = out;
                    MutationOutcome::Mutated
                }
            },
        }
    }
}

/// The corpus feedback hook: it never votes on interestingness; it exists
/// so that every input the engine accepts is folded into the fragment
/// bank.
pub struct TreeFeedback<'a> {
    pub ctx: &'a TreeContext,
}

impl<'a> TreeFeedback<'a> {
    /// A feedback over the given context.
    pub fn new(context: &'a TreeContext) -> (r: TreeFeedback<'a>) {
        TreeFeedback { ctx: context }
    }

    /// This feedback never finds an input interesting on its own.
    pub fn is_interesting(&self) -> (r: bool)
        ensures
            r == false,
    {
        false
    }

    /// Called when the engine accepts an input into the corpus: fold the
    /// input's subtrees into the fragment bank.
    pub fn append_metadata(&self, meta: &mut TreeMetaData, input: &TestTree)
        requires
            old(meta).wf(),
        ensures
            final(meta).wf(),
            forall|k: Seq<u8>|
                seq_prefix(#[trigger] frags_of(old(meta).bank(), k), frags_of(final(meta).bank(), k)),
    {
        meta.add_tree(input, &self.ctx.language);
    }
}

} // verus!
