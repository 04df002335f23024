//! The outside collaborators: the syntax parser and the random source.
//!
//! Everything the crate takes on trust lives here, as thin wrappers whose
//! bodies only call into the outside crates and convert values. The parser
//! output is not trusted structurally: [`parse`] runs it through
//! [`SynTree::from_nodes`], which checks every range and child index.
use vstd::prelude::*;

use crate::tree::{NodeInfo, SynTree};

verus! {

#[verifier::external_type_specification]
#[verifier::external_body]
pub struct ExLanguage(tree_sitter::Language);

#[verifier::external_type_specification]
#[verifier::external_body]
pub struct ExStdRng(rand::rngs::StdRng);

/// Relies on tree_sitter's `Parser::set_language` and `Parser::parse`, and
/// on the `Node` accessors `kind`, `start_byte`, `end_byte` and `child`:
/// the produced tree is flattened breadth-first into plain records, one per
/// node, each child named by its index in the record vector. Nothing is
/// assumed of the records; callers validate them.
#[verifier::external_body]
fn parse_nodes(lang: &tree_sitter::Language, code: &[u8]) -> (r: Option<Vec<NodeInfo>>) {
    let mut parser = tree_sitter::Parser::new();
    parser.set_language(*lang).ok()?;
    let tree = parser.parse(code, None)?;
    let (mut nodes, mut infos) = (vec![tree.root_node()], Vec::new());
    let mut i: usize = 0;
    while i < nodes.len() {
        let (n, mut kids) = (nodes[i], Vec::new());
        let mut j: usize = 0;
        while let Some(c) = n.child(j) {
            kids.push(nodes.len()); nodes.push(c); j += 1;
        }
        infos.push(NodeInfo { kind: n.kind().into(), start: n.start_byte(), end: n.end_byte(), children: kids });
        i += 1;
    }
    Some(infos)
}

/// Parse `code` with the outside parser for `lang` and validate what comes
/// back. `None` when the parser declines or hands back a structure that
/// fails validation; any returned tree is well-formed and fits `code`.
pub fn parse(lang: &tree_sitter::Language, code: &[u8]) -> (r: Option<SynTree>)
    ensures
        r matches Some(t) ==> t.wf() && t.fits(code@.len() as int),
{
    match parse_nodes(lang, code) {
        None => None,
        Some(nodes) => SynTree::from_nodes(nodes, code.len()),
    }
}

/// Relies on rand's `SeedableRng::seed_from_u64` for `StdRng`: builds the
/// generator state for a seed.
#[verifier::external_body]
fn std_rng_from_seed(seed: u64) -> rand::rngs::StdRng {
    <rand::rngs::StdRng as rand::SeedableRng>::seed_from_u64(seed)
}

/// The seeded pseudo-random source every nondeterministic choice of the
/// splicer routes through.
pub struct SpliceRng {
    inner: rand::rngs::StdRng,
}

impl SpliceRng {
    /// A generator seeded with `seed`.
    pub fn new(seed: u64) -> SpliceRng {
        SpliceRng { inner: std_rng_from_seed(seed) }
    }

    /// Draw a value below `n`. Relies on rand's `Rng::gen_range` over the
    /// half-open range `0..n`: it returns a value in the range, and panics
    /// only on an empty range, which the precondition rules out. Nothing
    /// more is promised of which value comes back.
    #[verifier::external_body]
    pub fn below(&mut self, n: usize) -> (r: usize)
        requires
            n > 0,
        ensures
            r < n,
    {
        rand::Rng::gen_range(&mut self.inner, 0..n)
    }
}

} // verus!
