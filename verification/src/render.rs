//! Rendering: applying an edit set to a source buffer.
//!
//! An edit set maps node identifiers to replacement byte strings (empty for
//! a deletion), scoped to a single splice round. Rendering walks the tree
//! from the root; a node whose identifier is edited is replaced wholesale
//! by its mapped bytes — so an edit on an inner node is shadowed when an
//! ancestor is edited too — and all other source ranges are preserved
//! verbatim.
use vstd::prelude::*;

use crate::tree::{gap_hi, gap_lo, node_ok, struct_wf, NodeView, SynTree};

verus! {

/// An edit set: node identifier to replacement bytes, last write wins.
pub struct EditSet {
    items: Vec<(usize, Vec<u8>)>,
}

/// The map a backing vector with distinct identifiers denotes.
pub open spec fn edits_map(items: Seq<(usize, Vec<u8>)>) -> Map<int, Seq<u8>>
    decreases items.len(),
{
    if items.len() == 0 {
        Map::empty()
    } else {
        edits_map(items.drop_last()).insert(items.last().0 as int, items.last().1@)
    }
}

impl View for EditSet {
    type V = Map<int, Seq<u8>>;

    closed spec fn view(&self) -> Map<int, Seq<u8>> {
        edits_map(self.items@)
    }
}

/// Identifiers in the backing vector are pairwise distinct.
pub open spec fn ids_distinct(items: Seq<(usize, Vec<u8>)>) -> bool {
    forall|i: int, j: int|
        0 <= i < j < items.len() ==> (#[trigger] items[i]).0 != (#[trigger] items[j]).0
}

/// Every identifier of the vector is in the map, with its bytes, and
/// nothing else is.
pub proof fn lemma_edits_map_char(items: Seq<(usize, Vec<u8>)>)
    requires
        ids_distinct(items),
    ensures
        forall|id: int|
            edits_map(items).dom().contains(id) <==> exists|i: int|
                0 <= i < items.len() && (#[trigger] items[i]).0 as int == id,
        forall|i: int|
            0 <= i < items.len() ==> edits_map(items)[(#[trigger] items[i]).0 as int]
                == items[i].1@,
    decreases items.len(),
{
    if items.len() > 0 {
        let head = items.drop_last();
        assert(forall|i: int| 0 <= i < head.len() ==> head[i] == items[i]);
        lemma_edits_map_char(head);
        assert forall|id: int| edits_map(items).dom().contains(id) implies exists|i: int|
            0 <= i < items.len() && (#[trigger] items[i]).0 as int == id by {
            if id != items.last().0 as int {
                assert(edits_map(head).dom().contains(id));
                assert(exists|i: int| 0 <= i < head.len() && (#[trigger] head[i]).0 as int == id);
                let w = choose|i: int| 0 <= i < head.len() && (#[trigger] head[i]).0 as int == id;
                assert(items[w].0 as int == id);
            } else {
                assert(items[items.len() - 1].0 as int == id);
            }
        }
    }
}

impl EditSet {
    /// The invariant the executable operations preserve.
    pub closed spec fn wf(&self) -> bool {
        ids_distinct(self.items@)
    }

    /// An empty edit set.
    pub fn new() -> (r: EditSet)
        ensures
            r.wf(),
            r@ == Map::<int, Seq<u8>>::empty(),
            r@.dom() =~= Set::<int>::empty(),
    {
        EditSet { items: Vec::new() }
    }

    /// How many identifiers the set maps.
    pub fn count(&self) -> (r: usize)
        requires
            self.wf(),
        ensures
            r == self@.dom().len(),
            r == 0 ==> self@.dom() =~= Set::<int>::empty(),
    {
        proof {
            lemma_edits_map_len(self.items@);
            if self.items@.len() == 0 {
                assert(self@.dom() =~= Set::<int>::empty());
            }
        }
        self.items.len()
    }

    /// Record `bytes` for `id`, overwriting any earlier edit to `id`.
    pub fn insert(&mut self, id: usize, bytes: Vec<u8>)
        requires
            old(self).wf(),
        ensures
            final(self).wf(),
            final(self)@ == old(self)@.insert(id as int, bytes@),
    {
        let ghost olditems = self.items@;
        let n = self.items.len();
        let mut i: usize = 0;
        while i < n
            invariant
                olditems == self.items@,
                olditems == old(self).items@,
                ids_distinct(olditems),
                n == self.items@.len(),
                i <= n,
                forall|j: int| 0 <= j < i ==> (#[trigger] self.items@[j]).0 != id,
            decreases n - i,
        {
            if self.items[i].0 == id {
                let ghost bval = bytes;
                self.items.remove(i);
                self.items.insert(i, (id, bytes));
                proof {
                    assert(olditems[i as int].0 == id);
                    assert(self.items@ =~= olditems.update(
                        i as int,
                        (olditems[i as int].0, bval),
                    ));
                    lemma_edits_map_update(olditems, i as int, bval);
                }
                return ;
            }
            i += 1;
        }
        self.items.push((id, bytes));
        proof {
            assert(self.items@.drop_last() =~= olditems);
        }
    }

    /// The bytes recorded for `id`, if any.
    pub fn get(&self, id: usize) -> (r: Option<&Vec<u8>>)
        requires
            self.wf(),
        ensures
            r matches Some(b) ==> self@.dom().contains(id as int) && self@[id as int] == b@,
            r is None ==> !self@.dom().contains(id as int),
    {
        proof {
            lemma_edits_map_char(self.items@);
        }
        let n = self.items.len();
        let mut i: usize = 0;
        while i < n
            invariant
                self.wf(),
                n == self.items@.len(),
                i <= n,
                forall|j: int| 0 <= j < i ==> (#[trigger] self.items@[j]).0 != id,
            decreases n - i,
        {
            if self.items[i].0 == id {
                proof {
                    lemma_edits_map_char(self.items@);
                }
                return Some(&self.items[i].1);
            }
            i += 1;
        }
        proof {
            lemma_edits_map_char(self.items@);
            if self@.dom().contains(id as int) {
                let w = choose|w: int|
                    0 <= w < self.items@.len() && (#[trigger] self.items@[w]).0 as int == id as int;
                assert(false);
            }
        }
        None
    }

    /// The bytes recorded for `id`, owned; only for identifiers that
    /// carry an edit.
    pub fn edit(&self, id: usize) -> (r: Vec<u8>)
        requires
            self.wf(),
            self@.dom().contains(id as int),
        ensures
            r@ == self@[id as int],
    {
        match self.get(id) {
            Some(b) => vstd::slice::slice_to_vec(b.as_slice()),
            None => Vec::new(),
        }
    }

    /// Whether `id` carries an edit.
    pub fn has_edit(&self, id: usize) -> (r: bool)
        requires
            self.wf(),
        ensures
            r == self@.dom().contains(id as int),
    {
        match self.get(id) {
            Some(_) => true,
            None => false,
        }
    }
}

/// The map of a distinct-id vector has exactly one entry per element.
pub proof fn lemma_edits_map_len(items: Seq<(usize, Vec<u8>)>)
    requires
        ids_distinct(items),
    ensures
        edits_map(items).dom().finite(),
        edits_map(items).dom().len() == items.len(),
    decreases items.len(),
{
    if items.len() > 0 {
        let head = items.drop_last();
        assert(forall|i: int| 0 <= i < head.len() ==> head[i] == items[i]);
        lemma_edits_map_len(head);
        lemma_edits_map_char(head);
        assert(!edits_map(head).dom().contains(items.last().0 as int));
    }
}

/// Overwriting one element's bytes updates exactly that identifier.
pub proof fn lemma_edits_map_update(items: Seq<(usize, Vec<u8>)>, i: int, b: Vec<u8>)
    requires
        ids_distinct(items),
        0 <= i < items.len(),
    ensures
        edits_map(items.update(i, (items[i].0, b))) == edits_map(items).insert(
            items[i].0 as int,
            b@,
        ),
    decreases items.len(),
{
    let up = items.update(i, (items[i].0, b));
    if i == items.len() - 1 {
        assert(up.drop_last() =~= items.drop_last());
        assert(edits_map(up) =~= edits_map(items).insert(items[i].0 as int, b@));
    } else {
        let head = items.drop_last();
        assert(forall|j: int| 0 <= j < head.len() ==> head[j] == items[j]);
        lemma_edits_map_update(head, i, b);
        assert(up.drop_last() =~= head.update(i, (items[i].0, b)));
        assert(up.last() == items.last());
        assert(edits_map(up) =~= edits_map(items).insert(items[i].0 as int, b@));
    }
}

/// What rendering node `i` produces: the replacement bytes if the node is
/// edited, otherwise its source range with each child recursively rendered
/// in place.
pub open spec fn spec_render_node(
    nodes: Seq<NodeView>,
    text: Seq<u8>,
    edits: Map<int, Seq<u8>>,
    i: int,
) -> Seq<u8>
    decreases nodes.len() - i, 1int, 0int,
        when 0 <= i < nodes.len() && struct_wf(nodes)
{
    if edits.dom().contains(i) {
        edits[i]
    } else {
        spec_render_from(nodes, text, edits, i, 0)
    }
}

/// What rendering node `i` from its child `j` onward produces: the source
/// gap before each remaining child, each child rendered, and the trailing
/// source gap after the last child.
pub open spec fn spec_render_from(
    nodes: Seq<NodeView>,
    text: Seq<u8>,
    edits: Map<int, Seq<u8>>,
    i: int,
    j: int,
) -> Seq<u8>
    decreases nodes.len() - i, 0int, nodes[i].children.len() - j,
        when 0 <= i < nodes.len() && 0 <= j && struct_wf(nodes)
        via spec_render_from_decreases
{
    let pos = gap_lo(nodes, i, j);
    if j >= nodes[i].children.len() {
        text.subrange(pos, nodes[i].end)
    } else {
        text.subrange(pos, nodes[nodes[i].children[j]].start) + spec_render_node(
            nodes,
            text,
            edits,
            nodes[i].children[j],
        ) + spec_render_from(nodes, text, edits, i, j + 1)
    }
}

#[via_fn]
proof fn spec_render_from_decreases(
    nodes: Seq<NodeView>,
    text: Seq<u8>,
    edits: Map<int, Seq<u8>>,
    i: int,
    j: int,
) {
    assert(node_ok(nodes, i));
}

/// Append a byte slice to the output buffer.
fn push_bytes(out: &mut Vec<u8>, b: &[u8])
    ensures
        final(out)@ == old(out)@ + b@,
{
    let n = b.len();
    let mut i: usize = 0;
    while i < n
        invariant
            n == b@.len(),
            i <= n,
            out@ == old(out)@ + b@.subrange(0, i as int),
        decreases n - i,
    {
        out.push(b[i]);
        proof {
            assert(old(out)@ + b@.subrange(0, i as int) + seq![b@[i as int]] =~= old(out)@
                + b@.subrange(0, i as int + 1));
        }
        i += 1;
    }
    proof {
        assert(b@.subrange(0, n as int) =~= b@);
    }
}

/// Render node `i` into `out`: the executable form of
/// [`spec_render_node`].
fn render_into(tree: &SynTree, text: &[u8], edits: &EditSet, i: usize, out: &mut Vec<u8>)
    requires
        tree.wf(),
        tree.fits(text@.len() as int),
        edits.wf(),
        i < tree@.len(),
    ensures
        final(out)@ == old(out)@ + spec_render_node(tree@, text@, edits@, i as int),
    decreases tree@.len() - i,
{
    proof {
        assert(node_ok(tree@, i as int));
    }
    match edits.get(i) {
        Some(b) => {
            push_bytes(out, b.as_slice());
        },
        None => {
            let (start, end) = tree.range_of(i);
            let ccount = tree.child_count(i);
            let mut pos = start;
            let mut j: usize = 0;
            while j < ccount
                invariant
                    tree.wf(),
                    tree.fits(text@.len() as int),
                    edits.wf(),
                    i < tree@.len(),
                    node_ok(tree@, i as int),
                    ccount == tree@[i as int].children.len(),
                    start == tree@[i as int].start,
                    end == tree@[i as int].end,
                    j <= ccount,
                    pos as int == gap_lo(tree@, i as int, j as int),
                    pos <= text@.len(),
                    out@ + spec_render_from(tree@, text@, edits@, i as int, j as int) == old(
                        out,
                    )@ + spec_render_node(tree@, text@, edits@, i as int),
                decreases ccount - j,
            {
                let c = tree.child_at(i, j);
                proof {
                    assert(node_ok(tree@, c as int));
                }
                let (cs, ce) = tree.range_of(c);
                proof {
                    assert(gap_lo(tree@, i as int, j as int) <= tree@[c as int].start);
                    assert(tree@[c as int].end <= gap_hi(tree@, i as int, j as int));
                    assert(tree@[c as int].end <= text@.len());
                }
                push_bytes(out, vstd::slice::slice_subrange(text, pos, cs));
                render_into(tree, text, edits, c, out);
                pos = ce;
                proof {
                    assert(gap_lo(tree@, i as int, j as int + 1) == tree@[c as int].end);
                    assert(out@ + spec_render_from(tree@, text@, edits@, i as int, j as int + 1)
                        =~= old(out)@ + spec_render_node(tree@, text@, edits@, i as int));
                }
                j += 1;
            }
            proof {
                assert(gap_lo(tree@, i as int, ccount as int) == pos as int);
                if ccount > 0 {
                    assert(tree@[tree@[i as int].children[ccount - 1]].end <= gap_hi(
                        tree@,
                        i as int,
                        ccount - 1,
                    ));
                }
                assert(pos <= end);
            }
            push_bytes(out, vstd::slice::slice_subrange(text, pos, end));
            proof {
                assert(out@ =~= old(out)@ + spec_render_node(tree@, text@, edits@, i as int));
            }
        },
    }
}

/// Apply an edit set to a source buffer by rendering the tree's root.
pub fn render(tree: &SynTree, text: &[u8], edits: &EditSet) -> (out: Vec<u8>)
    requires
        tree.wf(),
        tree.fits(text@.len() as int),
        edits.wf(),
    ensures
        out@ == spec_render_node(tree@, text@, edits@, 0),
{
    let mut out: Vec<u8> = Vec::new();
    render_into(tree, text, edits, 0, &mut out);
    proof {
        assert(Seq::<u8>::empty() + spec_render_node(tree@, text@, edits@, 0) =~= spec_render_node(
            tree@,
            text@,
            edits@,
            0,
        ));
    }
    out
}

/// Splice one replacement into a buffer by byte range: what rendering a
/// single-edit set does to the edited node's span, stated directly so the
/// output length is exact.
pub fn splice_single(text: &[u8], start: usize, end: usize, bytes: &[u8]) -> (out: Vec<u8>)
    requires
        start <= end <= text@.len(),
    ensures
        out@ == text@.subrange(0, start as int) + bytes@ + text@.subrange(
            end as int,
            text@.len() as int,
        ),
        out@.len() == text@.len() - (end - start) + bytes@.len(),
{
    let mut out: Vec<u8> = Vec::new();
    push_bytes(&mut out, vstd::slice::slice_subrange(text, 0, start));
    push_bytes(&mut out, bytes);
    push_bytes(&mut out, vstd::slice::slice_subrange(text, end, text.len()));
    proof {
        assert(Seq::<u8>::empty() + text@.subrange(0, start as int) =~= text@.subrange(
            0,
            start as int,
        ));
    }
    out
}

} // verus!
