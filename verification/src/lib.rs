//! A grammar-aware mutational fuzzer core: it splices fragments of concrete
//! syntax trees harvested from a seed corpus into new candidate inputs.
//!
//! The crate holds the verified logic: the fragment bank that indexes every
//! subtree ever observed by grammar node kind, the node-type registry that
//! classifies which kinds are grammatically optional, the tree renderer that
//! applies edit sets to a source buffer, and the splicing mutator that
//! composes splice and deletion edits into a new byte buffer.
use vstd::prelude::*;

pub mod tree;
pub mod bank;
pub mod render;
pub mod node_types;
pub mod outside;
pub mod splice;

verus! {

/// Byte-string equality, the comparison used for fragment deduplication
/// and for kind lookups throughout the crate.
pub fn bytes_eq(a: &[u8], b: &[u8]) -> (r: bool)
    ensures
        r == (a@ == b@),
{
    if a.len() != b.len() {
        assert(a@.len() != b@.len());
        return false;
    }
    let n = a.len();
    let mut i: usize = 0;
    while i < n
        invariant
            n == a@.len() == b@.len(),
            i <= n,
            forall|k: int| 0 <= k < i ==> a@[k] == b@[k],
        decreases n - i,
    {
        if a[i] != b[i] {
            return false;
        }
        i += 1;
    }
    assert(a@ =~= b@);
    true
}


} // verus!
