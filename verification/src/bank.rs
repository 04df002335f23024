//! The fragment bank: a mapping from grammar node kind to the distinct byte
//! strings that have ever appeared as the concrete text of a subtree of that
//! kind. The order of kinds and of fragments is insertion order, which gives
//! constant-time random indexing; a fragment is never stored twice for the
//! same kind and never evicted.
use vstd::prelude::*;

use crate::bytes_eq;
use crate::tree::{NodeView, SynTree};

verus! {

/// One kind's slot: the kind label and the distinct fragments seen for it.
pub struct KindEntry {
    pub kind: Vec<u8>,
    pub frags: Vec<Vec<u8>>,
}

/// The view of a fragment vector: each fragment as a byte sequence.
pub open spec fn frags_view(fs: Seq<Vec<u8>>) -> Seq<Seq<u8>> {
    fs.map_values(|f: Vec<u8>| f@)
}

impl View for KindEntry {
    type V = (Seq<u8>, Seq<Seq<u8>>);

    open spec fn view(&self) -> (Seq<u8>, Seq<Seq<u8>>) {
        (self.kind@, frags_view(self.frags@))
    }
}

/// The mathematical model of the bank: kind/fragment-list pairs in
/// insertion order.
pub type BankView = Seq<(Seq<u8>, Seq<Seq<u8>>)>;

/// No two elements of `s` are equal.
pub open spec fn distinct_seq<A>(s: Seq<A>) -> bool {
    forall|i: int, j: int| 0 <= i < j < s.len() ==> s[i] != s[j]
}

/// The bank invariant: kinds are unique, and every kind holds at least one
/// fragment and no duplicate fragments.
pub open spec fn bank_wf(s: BankView) -> bool {
    &&& forall|i: int, j: int| 0 <= i < j < s.len() ==> (#[trigger] s[i]).0 != (#[trigger] s[j]).0
    &&& forall|i: int| 0 <= i < s.len() ==> (#[trigger] s[i]).1.len() >= 1 && distinct_seq(s[i].1)
}

/// Index of the entry for kind `k`, or `-1` if the kind is absent.
pub open spec fn spec_find(s: BankView, k: Seq<u8>) -> int
    decreases s.len(),
{
    if s.len() == 0 {
        -1
    } else if s[0].0 == k {
        0
    } else {
        let r = spec_find(s.drop_first(), k);
        if r < 0 {
            -1
        } else {
            r + 1
        }
    }
}

/// Whether the bank has an entry for kind `k`.
pub open spec fn has_kind(s: BankView, k: Seq<u8>) -> bool {
    spec_find(s, k) >= 0
}

/// The fragment list recorded for kind `k`; empty if the kind is absent.
pub open spec fn frags_of(s: BankView, k: Seq<u8>) -> Seq<Seq<u8>> {
    if has_kind(s, k) {
        s[spec_find(s, k)].1
    } else {
        Seq::empty()
    }
}

/// Some kind of the bank holds fragment `f`.
pub open spec fn bank_has_frag(s: BankView, f: Seq<u8>) -> bool {
    exists|i: int, j: int| 0 <= i < s.len() && 0 <= j < s[i].1.len() && #[trigger] s[i].1[j] == f
}

/// Every fragment of the bank is at most `b` bytes long.
pub open spec fn frag_len_bound(s: BankView, b: int) -> bool {
    forall|i: int, j: int|
        0 <= i < s.len() && 0 <= j < s[i].1.len() ==> (#[trigger] s[i].1[j]).len() <= b
}

/// `spec_find` lands on the entry it names, and only the first one.
pub proof fn lemma_find(s: BankView, k: Seq<u8>)
    ensures
        -1 <= spec_find(s, k) < s.len(),
        spec_find(s, k) >= 0 ==> s[spec_find(s, k)].0 == k,
        spec_find(s, k) < 0 ==> forall|j: int| 0 <= j < s.len() ==> (#[trigger] s[j]).0 != k,
    decreases s.len(),
{
    if s.len() > 0 && s[0].0 != k {
        lemma_find(s.drop_first(), k);
        assert forall|j: int| spec_find(s, k) < 0 && 0 <= j < s.len() implies (#[trigger] s[j]).0
            != k by {
            if j > 0 {
                assert(s.drop_first()[j - 1] == s[j]);
            }
        }
    }
}

/// If `k` sits at index `i` and nowhere earlier, `spec_find` returns `i`.
pub proof fn lemma_find_is(s: BankView, k: Seq<u8>, i: int)
    requires
        0 <= i < s.len(),
        s[i].0 == k,
        forall|j: int| 0 <= j < i ==> (#[trigger] s[j]).0 != k,
    ensures
        spec_find(s, k) == i,
    decreases s.len(),
{
    if i > 0 {
        assert(s[0].0 != k);
        assert forall|j: int| 0 <= j < i - 1 implies (#[trigger] s.drop_first()[j]).0 != k by {
            assert(s.drop_first()[j] == s[j + 1]);
        }
        assert(s.drop_first()[i - 1] == s[i]);
        lemma_find_is(s.drop_first(), k, i - 1);
    }
}

/// If no entry carries `k`, `spec_find` reports the kind absent.
pub proof fn lemma_find_none(s: BankView, k: Seq<u8>)
    requires
        forall|j: int| 0 <= j < s.len() ==> (#[trigger] s[j]).0 != k,
    ensures
        spec_find(s, k) == -1,
    decreases s.len(),
{
    if s.len() > 0 {
        assert forall|j: int| 0 <= j < s.drop_first().len() implies (#[trigger] s.drop_first()[j]).0
            != k by {
            assert(s.drop_first()[j] == s[j + 1]);
        }
        lemma_find_none(s.drop_first(), k);
    }
}

/// How `spec_find` behaves when an entry is appended.
pub proof fn lemma_find_push(s: BankView, k: Seq<u8>, p: (Seq<u8>, Seq<Seq<u8>>))
    ensures
        spec_find(s.push(p), k) == if spec_find(s, k) >= 0 {
            spec_find(s, k)
        } else if p.0 == k {
            s.len() as int
        } else {
            -1
        },
{
    lemma_find(s, k);
    let sp = s.push(p);
    if spec_find(s, k) >= 0 {
        let i = spec_find(s, k);
        assert forall|j: int| 0 <= j < i implies (#[trigger] sp[j]).0 != k by {
            lemma_find(s, k);
            if spec_find(s, k) >= 0 {
                lemma_find_first(s, k, j);
            }
        }
        lemma_find_is(sp, k, i);
    } else if p.0 == k {
        lemma_find_is(sp, k, s.len() as int);
    } else {
        lemma_find_none(sp, k);
    }
}

/// Entries before the found index do not carry the kind.
pub proof fn lemma_find_first(s: BankView, k: Seq<u8>, j: int)
    requires
        spec_find(s, k) >= 0,
        0 <= j < spec_find(s, k),
    ensures
        s[j].0 != k,
    decreases s.len(),
{
    lemma_find(s, k);
    if j > 0 {
        lemma_find_first(s.drop_first(), k, j - 1);
        assert(s.drop_first()[j - 1] == s[j]);
    }
}

/// Replacing an entry's fragment list does not move any kind.
pub proof fn lemma_find_update(s: BankView, k: Seq<u8>, i: int, p: (Seq<u8>, Seq<Seq<u8>>))
    requires
        0 <= i < s.len(),
        p.0 == s[i].0,
    ensures
        spec_find(s.update(i, p), k) == spec_find(s, k),
{
    let su = s.update(i, p);
    assert(forall|j: int| 0 <= j < s.len() ==> (#[trigger] su[j]).0 == s[j].0);
    lemma_find(s, k);
    if spec_find(s, k) >= 0 {
        let f = spec_find(s, k);
        assert forall|j: int| 0 <= j < f implies (#[trigger] su[j]).0 != k by {
            lemma_find_first(s, k, j);
        }
        lemma_find_is(su, k, f);
    } else {
        lemma_find_none(su, k);
    }
}

/// One deduplicating insertion, the bank's fundamental step: a fresh kind
/// starts a new entry, a fragment already recorded for the kind changes
/// nothing, and any other fragment is appended to the kind's list.
pub open spec fn spec_bank_add(s: BankView, k: Seq<u8>, f: Seq<u8>) -> BankView {
    let i = spec_find(s, k);
    if i < 0 {
        s.push((k, seq![f]))
    } else if s[i].1.contains(f) {
        s
    } else {
        s.update(i, (s[i].0, s[i].1.push(f)))
    }
}

/// The bank step preserves the invariant.
pub proof fn lemma_bank_add_wf(s: BankView, k: Seq<u8>, f: Seq<u8>)
    requires
        bank_wf(s),
    ensures
        bank_wf(spec_bank_add(s, k, f)),
{
    lemma_find(s, k);
    let i = spec_find(s, k);
    if i >= 0 && !s[i].1.contains(f) {
        let su = s.update(i, (s[i].0, s[i].1.push(f)));
        assert forall|a: int| 0 <= a < su.len() implies (#[trigger] su[a]).1.len() >= 1
            && distinct_seq(su[a].1) by {
            if a == i {
                assert forall|x: int, y: int| 0 <= x < y < su[a].1.len() implies su[a].1[x]
                    != su[a].1[y] by {
                    if y == s[i].1.len() {
                        assert(!s[i].1.contains(f));
                        assert(s[i].1[x] != f);
                    }
                }
            }
        }
    }
}

/// One sequence extends another without reordering it.
pub open spec fn seq_prefix<A>(a: Seq<A>, b: Seq<A>) -> bool {
    a.len() <= b.len() && forall|i: int| 0 <= i < a.len() ==> a[i] == b[i]
}

/// Monotonicity of the bank step: no kind's fragment list ever shrinks or
/// is reordered.
pub proof fn lemma_bank_add_monotone(s: BankView, k: Seq<u8>, f: Seq<u8>)
    ensures
        forall|k2: Seq<u8>| seq_prefix(#[trigger] frags_of(s, k2), frags_of(spec_bank_add(s, k, f), k2)),
{
    lemma_find(s, k);
    assert forall|k2: Seq<u8>| seq_prefix(
        #[trigger] frags_of(s, k2),
        frags_of(spec_bank_add(s, k, f), k2),
    ) by {
        let i = spec_find(s, k);
        if i < 0 {
            lemma_find_push(s, k2, (k, seq![f]));
        } else if !s[i].1.contains(f) {
            lemma_find_update(s, k2, i, (s[i].0, s[i].1.push(f)));
        }
        lemma_find(s, k2);
    }
}

/// After the step, the inserted fragment is recorded for its kind.
pub proof fn lemma_bank_add_has(s: BankView, k: Seq<u8>, f: Seq<u8>)
    ensures
        frags_of(spec_bank_add(s, k, f), k).contains(f),
{
    lemma_find(s, k);
    let i = spec_find(s, k);
    if i < 0 {
        lemma_find_push(s, k, (k, seq![f]));
        assert(frags_of(spec_bank_add(s, k, f), k) == seq![f]);
        assert(frags_of(spec_bank_add(s, k, f), k)[0] == f);
    } else if s[i].1.contains(f) {
    } else {
        let p = (s[i].0, s[i].1.push(f));
        lemma_find_update(s, k, i, p);
        assert(frags_of(spec_bank_add(s, k, f), k)[s[i].1.len() as int] == f);
    }
}

/// A fragment recorded for some kind stays recorded across the step.
pub proof fn lemma_bank_add_keeps(s: BankView, k: Seq<u8>, f: Seq<u8>, k2: Seq<u8>, f2: Seq<u8>)
    requires
        frags_of(s, k2).contains(f2),
    ensures
        frags_of(spec_bank_add(s, k, f), k2).contains(f2),
{
    lemma_bank_add_monotone(s, k, f);
    let a = frags_of(s, k2);
    let b = frags_of(spec_bank_add(s, k, f), k2);
    let w = choose|w: int| 0 <= w < a.len() && a[w] == f2;
    assert(b[w] == f2);
}

/// A step whose fragment is already recorded is a no-op.
pub proof fn lemma_bank_add_noop(s: BankView, k: Seq<u8>, f: Seq<u8>)
    requires
        frags_of(s, k).contains(f),
    ensures
        spec_bank_add(s, k, f) == s,
{
    lemma_find(s, k);
}

/// The deduplication law: under the bank invariant, every kind's fragment
/// sequence lists each fragment once, so its length equals the
/// cardinality of the set of its elements.
pub proof fn lemma_bank_dedup(s: BankView, k: Seq<u8>)
    requires
        bank_wf(s),
    ensures
        frags_of(s, k).no_duplicates(),
        frags_of(s, k).len() == frags_of(s, k).to_set().len(),
{
    lemma_find(s, k);
    let fs = frags_of(s, k);
    assert(fs.no_duplicates());
    fs.unique_seq_to_set();
}

/// The byte text a node spans in its source buffer: the fragment it
/// contributes to the bank.
pub open spec fn node_frag(text: Seq<u8>, n: NodeView) -> Seq<u8> {
    text.subrange(n.start, n.end)
}

/// Folding the first `upto` nodes of a tree into the bank, one
/// deduplicating insertion per node.
pub open spec fn spec_add_nodes(s: BankView, text: Seq<u8>, nodes: Seq<NodeView>, upto: int) -> BankView
    decreases upto,
{
    if upto <= 0 {
        s
    } else {
        spec_bank_add(
            spec_add_nodes(s, text, nodes, upto - 1),
            nodes[upto - 1].kind,
            node_frag(text, nodes[upto - 1]),
        )
    }
}

/// Folding a whole tree keeps the invariant and never shrinks or reorders
/// any kind's fragment list.
pub proof fn lemma_add_nodes_wf_monotone(s: BankView, text: Seq<u8>, nodes: Seq<NodeView>, upto: int)
    requires
        bank_wf(s),
    ensures
        bank_wf(spec_add_nodes(s, text, nodes, upto)),
        forall|k: Seq<u8>|
            seq_prefix(#[trigger] frags_of(s, k), frags_of(spec_add_nodes(s, text, nodes, upto), k)),
    decreases upto,
{
    if upto > 0 {
        lemma_add_nodes_wf_monotone(s, text, nodes, upto - 1);
        let prev = spec_add_nodes(s, text, nodes, upto - 1);
        lemma_bank_add_wf(prev, nodes[upto - 1].kind, node_frag(text, nodes[upto - 1]));
        lemma_bank_add_monotone(prev, nodes[upto - 1].kind, node_frag(text, nodes[upto - 1]));
    }
}

/// After folding a tree, every node's fragment is recorded under its kind.
pub proof fn lemma_add_nodes_contains(
    s: BankView,
    text: Seq<u8>,
    nodes: Seq<NodeView>,
    upto: int,
    w: int,
)
    requires
        0 <= w < upto,
    ensures
        frags_of(spec_add_nodes(s, text, nodes, upto), nodes[w].kind).contains(
            node_frag(text, nodes[w]),
        ),
    decreases upto,
{
    let prev = spec_add_nodes(s, text, nodes, upto - 1);
    if w == upto - 1 {
        lemma_bank_add_has(prev, nodes[w].kind, node_frag(text, nodes[w]));
    } else {
        lemma_add_nodes_contains(s, text, nodes, upto - 1, w);
        lemma_bank_add_keeps(
            prev,
            nodes[upto - 1].kind,
            node_frag(text, nodes[upto - 1]),
            nodes[w].kind,
            node_frag(text, nodes[w]),
        );
    }
}

/// Folding a tree whose fragments are all recorded already changes nothing.
pub proof fn lemma_add_nodes_noop(s: BankView, text: Seq<u8>, nodes: Seq<NodeView>, upto: int)
    requires
        forall|w: int|
            0 <= w < upto ==> frags_of(s, (#[trigger] nodes[w]).kind).contains(
                node_frag(text, nodes[w]),
            ),
    ensures
        spec_add_nodes(s, text, nodes, upto) == s,
    decreases upto,
{
    if upto > 0 {
        lemma_add_nodes_noop(s, text, nodes, upto - 1);
        lemma_bank_add_noop(s, nodes[upto - 1].kind, node_frag(text, nodes[upto - 1]));
    }
}

/// Folding the same tree twice equals folding it once: the bank is
/// idempotent on repeated input.
pub proof fn lemma_add_nodes_idempotent(s: BankView, text: Seq<u8>, nodes: Seq<NodeView>, upto: int)
    requires
        upto >= 0,
    ensures
        spec_add_nodes(spec_add_nodes(s, text, nodes, upto), text, nodes, upto)
            == spec_add_nodes(s, text, nodes, upto),
{
    let once = spec_add_nodes(s, text, nodes, upto);
    assert forall|w: int| 0 <= w < upto implies frags_of(once, (#[trigger] nodes[w]).kind).contains(
        node_frag(text, nodes[w]),
    ) by {
        lemma_add_nodes_contains(s, text, nodes, upto, w);
    }
    lemma_add_nodes_noop(once, text, nodes, upto);
}

/// The diagnostic count of possible non-identity replacements: the summed
/// `len(fragments(k)) - 1` over the first `upto` kinds.
pub open spec fn spec_possible(s: BankView, upto: int) -> int
    decreases upto,
{
    if upto <= 0 {
        0
    } else {
        spec_possible(s, upto - 1) + s[upto - 1].1.len() - 1
    }
}

/// `spec_possible` clipped to what a machine word can report.
pub open spec fn cap_usize(x: int) -> int {
    if x > usize::MAX {
        usize::MAX as int
    } else {
        x
    }
}

/// The fragment bank. Built only through [`Branches::new`] and
/// [`Branches::add_tree`], so holders may rely on [`bank_wf`].
pub struct Branches {
    entries: Vec<KindEntry>,
}

impl View for Branches {
    type V = BankView;

    closed spec fn view(&self) -> BankView {
        self.entries@.map_values(|e: KindEntry| e@)
    }
}

impl Branches {
    /// The invariant every constructed bank satisfies.
    pub open spec fn wf(&self) -> bool {
        bank_wf(self@)
    }

    /// Number of kinds ever seen.
    pub fn num_kinds(&self) -> (r: usize)
        ensures
            r == self@.len(),
    {
        self.entries.len()
    }

    /// The kind label at slot `i`, in insertion order.
    pub fn kind_at(&self, i: usize) -> (r: &Vec<u8>)
        requires
            i < self@.len(),
        ensures
            r@ == self@[i as int].0,
    {
        &self.entries[i].kind
    }

    /// How many distinct fragments slot `i` holds.
    pub fn frag_count_at(&self, i: usize) -> (r: usize)
        requires
            i < self@.len(),
        ensures
            r == self@[i as int].1.len(),
    {
        self.entries[i].frags.len()
    }

    /// Fragment `j` of slot `i`.
    pub fn frag_at(&self, i: usize, j: usize) -> (r: &Vec<u8>)
        requires
            i < self@.len(),
            j < self@[i as int].1.len(),
        ensures
            r@ == self@[i as int].1[j as int],
    {
        &self.entries[i].frags[j]
    }

    /// The slot holding kind `kind`, if the kind has ever been seen.
    pub fn find_entry(&self, kind: &[u8]) -> (r: Option<usize>)
        ensures
            r matches Some(i) ==> i < self@.len() && spec_find(self@, kind@) == i as int,
            r is None ==> spec_find(self@, kind@) == -1,
    {
        let n = self.entries.len();
        let mut i: usize = 0;
        while i < n
            invariant
                n == self@.len(),
                n == self.entries@.len(),
                i <= n,
                forall|j: int| 0 <= j < i ==> (#[trigger] self@[j]).0 != kind@,
            decreases n - i,
        {
            proof {
                assert(self@[i as int] == self.entries@[i as int]@);
            }
            if bytes_eq(self.entries[i].kind.as_slice(), kind) {
                proof {
                    lemma_find_is(self@, kind@, i as int);
                }
                return Some(i);
            }
            i += 1;
        }
        proof {
            lemma_find_none(self@, kind@);
        }
        None
    }

    /// Whether fragment `f` is already recorded in the fragment list `fs`.
    fn contains_frag(fs: &Vec<Vec<u8>>, f: &[u8]) -> (r: bool)
        ensures
            r == frags_view(fs@).contains(f@),
    {
        let n = fs.len();
        let mut i: usize = 0;
        while i < n
            invariant
                n == fs@.len(),
                i <= n,
                forall|j: int| 0 <= j < i ==> #[trigger] frags_view(fs@)[j] != f@,
            decreases n - i,
        {
            proof {
                assert(frags_view(fs@)[i as int] == fs@[i as int]@);
            }
            if bytes_eq(fs[i].as_slice(), f) {
                assert(frags_view(fs@)[i as int] == f@);
                return true;
            }
            i += 1;
        }
        assert(!frags_view(fs@).contains(f@));
        false
    }

    /// Record one fragment under one kind, deduplicating: the executable
    /// form of [`spec_bank_add`].
    fn add_fragment(&mut self, kind: &[u8], frag: &[u8])
        requires
            old(self).wf(),
        ensures
            final(self).wf(),
            final(self)@ == spec_bank_add(old(self)@, kind@, frag@),
    {
        proof {
            lemma_bank_add_wf(self@, kind@, frag@);
        }
        match self.find_entry(kind) {
            None => {
                let entry = KindEntry { kind: vstd::slice::slice_to_vec(kind), frags: vec![vstd::slice::slice_to_vec(frag)] };
                proof {
                    assert(entry@.1 =~= seq![frag@]);
                }
                self.entries.push(entry);
                proof {
                    assert(self@ =~= old(self)@.push((kind@, seq![frag@])));
                }
            },
            Some(i) => {
                proof {
                    lemma_find(old(self)@, kind@);
                }
                if !Self::contains_frag(&self.entries[i].frags, frag) {
                    let ghost oldv = self@;
                    let mut entry = self.entries.remove(i);
                    entry.frags.push(vstd::slice::slice_to_vec(frag));
                    proof {
                        assert(entry.kind@ == oldv[i as int].0);
                        assert(frags_view(entry.frags@) =~= oldv[i as int].1.push(frag@));
                    }
                    self.entries.insert(i, entry);
                    proof {
                        assert(self@ =~~= oldv.update(
                            i as int,
                            (oldv[i as int].0, oldv[i as int].1.push(frag@)),
                        ));
                    }
                } else {
                    proof {
                        assert(self@ =~= old(self)@);
                    }
                }
            },
        }
    }

    /// Fold a parsed tree into the bank: record every node's source text
    /// under the node's kind, root included, deduplicating throughout.
    pub fn add_tree(&mut self, text: &[u8], tree: &SynTree)
        requires
            old(self).wf(),
            tree.wf(),
            tree.fits(text@.len() as int),
        ensures
            final(self).wf(),
            final(self)@ == spec_add_nodes(old(self)@, text@, tree@, tree@.len() as int),
            forall|k: Seq<u8>|
                seq_prefix(#[trigger] frags_of(old(self)@, k), frags_of(final(self)@, k)),
    {
        let count = tree.node_count();
        let mut i: usize = 0;
        while i < count
            invariant
                old(self).wf(),
                tree.wf(),
                tree.fits(text@.len() as int),
                count == tree@.len(),
                i <= count,
                self.wf(),
                self@ == spec_add_nodes(old(self)@, text@, tree@, i as int),
            decreases count - i,
        {
            let (s, e) = tree.range_of(i);
            proof {
                assert(tree@[i as int].end <= text@.len());
            }
            let frag = vstd::slice::slice_subrange(text, s, e);
            let kind = tree.kind_of(i);
            self.add_fragment(kind.as_slice(), frag);
            proof {
                assert(frag@ == node_frag(text@, tree@[i as int]));
            }
            i += 1;
        }
        proof {
            lemma_add_nodes_wf_monotone(old(self)@, text@, tree@, count as int);
        }
    }

    /// Build a bank from an initial corpus of (bytes, tree) pairs.
    pub fn new(trees: &Vec<(Vec<u8>, SynTree)>) -> (r: Branches)
        requires
            forall|i: int|
                0 <= i < trees@.len() ==> (#[trigger] trees@[i]).1.wf() && trees@[i].1.fits(
                    trees@[i].0@.len() as int,
                ),
        ensures
            r.wf(),
            r@ == spec_add_trees(trees@, trees@.len() as int),
    {
        let mut bank = Branches { entries: Vec::new() };
        proof {
            assert(bank@ =~= Seq::<(Seq<u8>, Seq<Seq<u8>>)>::empty());
        }
        let count = trees.len();
        let mut i: usize = 0;
        while i < count
            invariant
                count == trees@.len(),
                i <= count,
                forall|j: int|
                    0 <= j < count ==> (#[trigger] trees@[j]).1.wf() && trees@[j].1.fits(
                        trees@[j].0@.len() as int,
                    ),
                bank.wf(),
                bank@ == spec_add_trees(trees@, i as int),
            decreases count - i,
        {
            let (text, tree) = &trees[i];
            bank.add_tree(text.as_slice(), tree);
            i += 1;
        }
        bank
    }

    /// Pick a fragment of kind `kind` uniformly at random; `None` exactly
    /// when the kind has never been seen.
    pub fn random_fragment(&self, kind: &[u8], rng: &mut crate::outside::SpliceRng) -> (r: Option<
        &Vec<u8>,
    >)
        requires
            self.wf(),
        ensures
            r is Some <==> has_kind(self@, kind@),
            r matches Some(f) ==> frags_of(self@, kind@).contains(f@),
    {
        match self.find_entry(kind) {
            None => None,
            Some(i) => {
                proof {
                    lemma_find(self@, kind@);
                }
                let j = rng.below(self.entries[i].frags.len());
                proof {
                    assert(self@[i as int] == self.entries@[i as int]@);
                    assert(frags_of(self@, kind@)[j as int] == self.entries@[i as int].frags@[j as int]@);
                }
                Some(&self.entries[i].frags[j])
            },
        }
    }

    /// The diagnostic count of possible non-identity replacements, clipped
    /// at the machine-word maximum.
    pub fn possible(&self) -> (r: usize)
        requires
            self.wf(),
        ensures
            r as int == cap_usize(spec_possible(self@, self@.len() as int)),
    {
        let n = self.entries.len();
        let mut acc: usize = 0;
        let mut i: usize = 0;
        while i < n
            invariant
                self.wf(),
                n == self@.len(),
                n == self.entries@.len(),
                i <= n,
                acc as int == cap_usize(spec_possible(self@, i as int)),
                spec_possible(self@, i as int) >= 0,
            decreases n - i,
        {
            proof {
                assert(self@[i as int] == self.entries@[i as int]@);
            }
            let m = self.entries[i].frags.len() - 1;
            acc = match acc.checked_add(m) {
                Some(v) => v,
                None => usize::MAX,
            };
            i += 1;
        }
        acc
    }
}

/// Folding the first `upto` corpus pairs into an empty bank.
pub open spec fn spec_add_trees(trees: Seq<(Vec<u8>, SynTree)>, upto: int) -> BankView
    decreases upto,
{
    if upto <= 0 {
        Seq::empty()
    } else {
        spec_add_nodes(
            spec_add_trees(trees, upto - 1),
            trees[upto - 1].0@,
            trees[upto - 1].1@,
            trees[upto - 1].1@.len() as int,
        )
    }
}

} // verus!
