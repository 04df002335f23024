//! The crate's model of a parsed syntax tree.
//!
//! The outside parser produces an opaque tree; this module holds the plain
//! representation that the verified logic reads: every node's kind, byte
//! range and children, laid out in one vector. A node's identifier is its
//! index in that vector, which is stable for the life of the tree instance.
use vstd::prelude::*;

verus! {

/// One syntax-tree node as plain values: its grammar kind, the byte range
/// `[start, end)` it spans in the source buffer, and the indices of its
/// children in the owning tree's node vector.
pub struct NodeInfo {
    pub kind: Vec<u8>,
    pub start: usize,
    pub end: usize,
    pub children: Vec<usize>,
}

/// The mathematical view of one node.
pub ghost struct NodeView {
    pub kind: Seq<u8>,
    pub start: int,
    pub end: int,
    pub children: Seq<int>,
}

impl View for NodeInfo {
    type V = NodeView;

    open spec fn view(&self) -> NodeView {
        NodeView {
            kind: self.kind@,
            start: self.start as int,
            end: self.end as int,
            children: self.children@.map_values(|c: usize| c as int),
        }
    }
}

/// The view of a whole node vector.
pub open spec fn nodes_view(nodes: Seq<NodeInfo>) -> Seq<NodeView> {
    nodes.map_values(|n: NodeInfo| n@)
}

/// Structural well-formedness of a node list, independent of any source
/// buffer: node `0` is the root, every child index points strictly past its
/// parent (so the structure is acyclic and recursion over it terminates),
/// every node's range is ordered, the children of a node lie inside its
/// range, and siblings appear in source order without overlapping.
pub open spec fn struct_wf(nodes: Seq<NodeView>) -> bool {
    &&& nodes.len() >= 1
    &&& forall|i: int| 0 <= i < nodes.len() ==> #[trigger] node_ok(nodes, i)
}

/// Well-formedness of the node at index `i` (see [`struct_wf`]).
pub open spec fn node_ok(nodes: Seq<NodeView>, i: int) -> bool {
    let n = nodes[i];
    &&& 0 <= n.start <= n.end
    &&& forall|j: int| 0 <= j < n.children.len() ==> i < #[trigger] n.children[j] < nodes.len()
    &&& forall|j: int|
        0 <= j < n.children.len() ==> #[trigger] gap_lo(nodes, i, j) <= nodes[n.children[j]].start
    &&& forall|j: int|
        0 <= j < n.children.len() ==> nodes[#[trigger] n.children[j]].end <= gap_hi(nodes, i, j)
}

/// The position from which the source gap before child `j` of node `i`
/// starts: the parent's start for the first child, the previous sibling's
/// end otherwise.
pub open spec fn gap_lo(nodes: Seq<NodeView>, i: int, j: int) -> int {
    if j == 0 {
        nodes[i].start
    } else {
        nodes[nodes[i].children[j - 1]].end
    }
}

/// The position at which the source region available to child `j` of node
/// `i` ends: the next sibling's start, or the parent's end for the last
/// child.
pub open spec fn gap_hi(nodes: Seq<NodeView>, i: int, j: int) -> int {
    if j == nodes[i].children.len() - 1 {
        nodes[i].end
    } else {
        nodes[nodes[i].children[j + 1]].start
    }
}

/// A parsed syntax tree in the crate's own representation. Trees are only
/// built through [`SynTree::from_nodes`], which validates the structure, so
/// holders may rely on [`struct_wf`].
pub struct SynTree {
    nodes: Vec<NodeInfo>,
}

impl View for SynTree {
    type V = Seq<NodeView>;

    closed spec fn view(&self) -> Seq<NodeView> {
        nodes_view(self.nodes@)
    }
}

impl SynTree {
    /// Every node's range fits inside a buffer of `text_len` bytes.
    pub open spec fn fits(&self, text_len: int) -> bool {
        forall|i: int| 0 <= i < self@.len() ==> #[trigger] self@[i].end <= text_len
    }

    /// The invariant every constructed tree satisfies.
    pub open spec fn wf(&self) -> bool {
        struct_wf(self@)
    }

    /// Number of nodes, root included.
    pub fn node_count(&self) -> (r: usize)
        ensures
            r == self@.len(),
    {
        self.nodes.len()
    }

    /// The kind of the node at `i`.
    pub fn kind_of(&self, i: usize) -> (r: &Vec<u8>)
        requires
            i < self@.len(),
        ensures
            r@ == self@[i as int].kind,
    {
        &self.nodes[i].kind
    }

    /// The byte range of the node at `i`.
    pub fn range_of(&self, i: usize) -> (r: (usize, usize))
        requires
            self.wf(),
            i < self@.len(),
        ensures
            r.0 == self@[i as int].start,
            r.1 == self@[i as int].end,
            r.0 <= r.1,
    {
        proof {
            assert(node_ok(self@, i as int));
        }
        (self.nodes[i].start, self.nodes[i].end)
    }

    /// How many children the node at `i` has.
    pub fn child_count(&self, i: usize) -> (r: usize)
        requires
            i < self@.len(),
        ensures
            r == self@[i as int].children.len(),
    {
        self.nodes[i].children.len()
    }

    /// Child `j` of the node at `i`, as a node index.
    pub fn child_at(&self, i: usize, j: usize) -> (r: usize)
        requires
            self.wf(),
            i < self@.len(),
            j < self@[i as int].children.len(),
        ensures
            r as int == self@[i as int].children[j as int],
            (i as int) < r < self@.len(),
    {
        proof {
            assert(node_ok(self@, i as int));
            assert(self@[i as int].children[j as int] == self.nodes@[i as int].children@[j as int] as int);
        }
        self.nodes[i].children[j]
    }

    /// Validate a node list produced by the outside parser and wrap it as a
    /// tree. Returns `Some` exactly when the list satisfies [`struct_wf`]
    /// and fits in `text_len` bytes: this is where the raw parser output is
    /// checked rather than trusted.
    pub fn from_nodes(nodes: Vec<NodeInfo>, text_len: usize) -> (r: Option<SynTree>)
        ensures
            r matches Some(t) ==> t.wf() && t.fits(text_len as int) && t@ == nodes_view(nodes@),
            r is None <==> !(struct_wf(nodes_view(nodes@)) && forall|i: int|
                0 <= i < nodes@.len() ==> #[trigger] nodes_view(nodes@)[i].end <= text_len as int),
    {
        let ghost nv = nodes_view(nodes@);
        if nodes.len() == 0 {
            return None;
        }
        let count = nodes.len();
        let mut i: usize = 0;
        while i < count
            invariant
                count == nodes@.len(),
                count >= 1,
                nv == nodes_view(nodes@),
                i <= count,
                forall|k: int| 0 <= k < i ==> #[trigger] node_ok(nv, k),
                forall|k: int| 0 <= k < i ==> #[trigger] nv[k].end <= text_len as int,
            decreases count - i,
        {
            let n = &nodes[i];
            proof {
                assert forall|k: int| 0 <= k < count implies #[trigger] nv[k] == nodes@[k]@ by {
                    assert(nv[k] == nodes@.map_values(|m: NodeInfo| m@)[k]);
                }
                assert(nv[i as int] == nodes@[i as int]@);
                assert(nv[i as int].children =~= n.children@.map_values(|c: usize| c as int));
            }
            if n.start > n.end || n.end > text_len {
                proof {
                    assert(!node_ok(nv, i as int) || nv[i as int].end > text_len as int);
                }
                return None;
            }
            let ccount = n.children.len();
            let mut j: usize = 0;
            while j < ccount
                invariant
                    count == nodes@.len(),
                    nv == nodes_view(nodes@),
                    forall|k: int| 0 <= k < count ==> #[trigger] nv[k] == nodes@[k]@,
                    i < count,
                    nodes@[i as int] == *n,
                    nv[i as int].start == n.start as int,
                    nv[i as int].end == n.end as int,
                    ccount == n.children@.len(),
                    nv[i as int].children == n.children@.map_values(|c: usize| c as int),
                    j <= ccount,
                    forall|k: int|
                        0 <= k < j ==> i < #[trigger] nv[i as int].children[k] < count,
                    forall|k: int|
                        0 <= k < j ==> #[trigger] gap_lo(nv, i as int, k)
                            <= nv[nv[i as int].children[k]].start,
                    forall|k: int|
                        0 <= k < j ==> nv[#[trigger] nv[i as int].children[k]].end
                            <= gap_hi(nv, i as int, k),
                decreases ccount - j,
            {
                let c = n.children[j];
                proof {
                    assert(nv[i as int].children[j as int] == c as int);
                }
                if c <= i || c >= count {
                    proof {
                        assert(!node_ok(nv, i as int));
                    }
                    return None;
                }
                let lo = if j == 0 {
                    n.start
                } else {
                    let prev = n.children[j - 1];
                    proof {
                        assert(nv[i as int].children[j - 1] == prev as int);
                        assert(i < nv[i as int].children[j - 1] < count);
                    }
                    nodes[prev].end
                };
                proof {
                    assert(lo as int == gap_lo(nv, i as int, j as int));
                }
                if nodes[c].start < lo {
                    proof {
                        assert(!node_ok(nv, i as int));
                    }
                    return None;
                }
                let hi = if j + 1 == ccount {
                    n.end
                } else {
                    let next = n.children[j + 1];
                    proof {
                        assert(nv[i as int].children[j + 1] == next as int);
                    }
                    if next >= count {
                        proof {
                            assert(!node_ok(nv, i as int));
                        }
                        return None;
                    }
                    nodes[next].start
                };
                proof {
                    assert(hi as int == gap_hi(nv, i as int, j as int));
                }
                if nodes[c].end > hi {
                    proof {
                        assert(!node_ok(nv, i as int));
                    }
                    return None;
                }
                j += 1;
            }
            proof {
                assert(node_ok(nv, i as int));
            }
            i += 1;
        }
        proof {
            assert(struct_wf(nv));
        }
        Some(SynTree { nodes })
    }
}

} // verus!
