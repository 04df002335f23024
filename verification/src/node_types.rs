//! The node-type registry: a table, built once from a static textual
//! grammar description, that answers the one question the splicer asks of a
//! grammar — whether a node kind sits in a child slot the grammar permits to
//! be absent, so that deleting it can still yield a parseable tree.
//!
//! The description is line-based: each non-empty line is a flag byte (`o`
//! for optional, `r` for required), one space, and the kind name. Unknown
//! kinds are reported as not optional, the conservative answer.
use vstd::prelude::*;

verus! {

/// Construction failure: the grammar description cannot be parsed.
#[derive(Debug, PartialEq, Eq, Clone, Copy)]
pub enum GrammarError {
    InvalidGrammar,
}

/// The newline byte that separates description lines.
pub const LINE_SEP: u8 = 10;

/// The flag byte marking an optional kind.
pub const FLAG_OPTIONAL: u8 = 111;

/// The flag byte marking a required kind.
pub const FLAG_REQUIRED: u8 = 114;

/// The space that separates the flag from the kind name.
pub const FLAG_SEP: u8 = 32;

/// The entries one description line contributes: none for an empty line,
/// one kind/flag pair for a well-formed line, and `None` for a malformed
/// line.
pub open spec fn spec_parse_line(l: Seq<u8>) -> Option<Seq<(Seq<u8>, bool)>> {
    if l.len() == 0 {
        Some(Seq::empty())
    } else if l.len() >= 3 && (l[0] == FLAG_OPTIONAL || l[0] == FLAG_REQUIRED) && l[1]
        == FLAG_SEP {
        Some(seq![(l.subrange(2, l.len() as int), l[0] == FLAG_OPTIONAL)])
    } else {
        None
    }
}

/// Index of the first newline at or after `i`, or the length if none.
pub open spec fn find_nl(s: Seq<u8>, i: int) -> int
    decreases s.len() - i,
{
    if i < 0 {
        0
    } else if i >= s.len() {
        s.len() as int
    } else if s[i] == LINE_SEP {
        i
    } else {
        find_nl(s, i + 1)
    }
}

/// `find_nl` is pinned down by the bytes it skips.
pub proof fn lemma_find_nl_is(s: Seq<u8>, i: int, k: int)
    requires
        0 <= i <= k <= s.len(),
        forall|j: int| i <= j < k ==> s[j] != LINE_SEP,
        k < s.len() ==> s[k] == LINE_SEP,
    ensures
        find_nl(s, i) == k,
    decreases k - i,
{
    if i < k {
        lemma_find_nl_is(s, i + 1, k);
    }
}

/// The table a whole description denotes: the concatenation of its lines'
/// entries, or `None` if any line is malformed.
pub open spec fn spec_parse_desc(s: Seq<u8>) -> Option<Seq<(Seq<u8>, bool)>>
    decreases s.len(),
{
    if s.len() == 0 {
        Some(Seq::empty())
    } else {
        let k = find_nl_clip(s);
        let line = s.subrange(0, k);
        let rest = if k == s.len() {
            Seq::empty()
        } else {
            s.subrange(k + 1, s.len() as int)
        };
        match (spec_parse_line(line), spec_parse_desc(rest)) {
            (Some(e), Some(t)) => Some(e + t),
            _ => None,
        }
    }
}

/// `find_nl` from the start, clipped into range so that `spec_parse_desc`
/// terminates on every input.
pub open spec fn find_nl_clip(s: Seq<u8>) -> int {
    let k = find_nl(s, 0);
    if 0 <= k <= s.len() {
        k
    } else {
        s.len() as int
    }
}

/// What the registry reports for kind `k`: the flag of the first entry
/// carrying `k`, or false (not optional) if no entry does.
pub open spec fn spec_optional(t: Seq<(Seq<u8>, bool)>, k: Seq<u8>) -> bool
    decreases t.len(),
{
    if t.len() == 0 {
        false
    } else if t[0].0 == k {
        t[0].1
    } else {
        spec_optional(t.drop_first(), k)
    }
}

/// If `k` first occurs at entry `i`, the report is that entry's flag.
pub proof fn lemma_optional_is(t: Seq<(Seq<u8>, bool)>, k: Seq<u8>, i: int)
    requires
        0 <= i < t.len(),
        t[i].0 == k,
        forall|j: int| 0 <= j < i ==> (#[trigger] t[j]).0 != k,
    ensures
        spec_optional(t, k) == t[i].1,
    decreases t.len(),
{
    if i > 0 {
        assert forall|j: int| 0 <= j < i - 1 implies (#[trigger] t.drop_first()[j]).0 != k by {
            assert(t.drop_first()[j] == t[j + 1]);
        }
        assert(t.drop_first()[i - 1] == t[i]);
        lemma_optional_is(t.drop_first(), k, i - 1);
    }
}

/// A kind no entry carries is reported as not optional.
pub proof fn lemma_optional_none(t: Seq<(Seq<u8>, bool)>, k: Seq<u8>)
    requires
        forall|j: int| 0 <= j < t.len() ==> (#[trigger] t[j]).0 != k,
    ensures
        !spec_optional(t, k),
    decreases t.len(),
{
    if t.len() > 0 {
        assert forall|j: int| 0 <= j < t.drop_first().len() implies (#[trigger] t.drop_first()[j]).0
            != k by {
            assert(t.drop_first()[j] == t[j + 1]);
        }
        lemma_optional_none(t.drop_first(), k);
    }
}

/// The registry. Immutable once constructed.
#[derive(Debug)]
pub struct NodeTypes {
    entries: Vec<(Vec<u8>, bool)>,
}

impl View for NodeTypes {
    type V = Seq<(Seq<u8>, bool)>;

    closed spec fn view(&self) -> Seq<(Seq<u8>, bool)> {
        self.entries@.map_values(|e: (Vec<u8>, bool)| (e.0@, e.1))
    }
}

impl NodeTypes {
    /// Parse a grammar description. Succeeds exactly on descriptions every
    /// line of which is empty or well-formed, and returns the table those
    /// lines denote.
    pub fn new(desc: &[u8]) -> (r: Result<NodeTypes, GrammarError>)
        ensures
            r matches Ok(nt) ==> spec_parse_desc(desc@) == Some(nt@),
            r is Err <==> spec_parse_desc(desc@) is None,
    {
        let len = desc.len();
        let mut entries: Vec<(Vec<u8>, bool)> = Vec::new();
        let mut pos: usize = 0;
        let ghost full = desc@;
        proof {
            assert(entries@.map_values(|e: (Vec<u8>, bool)| (e.0@, e.1)) =~= Seq::<(
                Seq<u8>,
                bool,
            )>::empty());
            assert(full.subrange(0, len as int) =~= full);
        }
        while pos < len
            invariant
                full == desc@,
                len == full.len(),
                pos <= len,
                match spec_parse_desc(full.subrange(pos as int, len as int)) {
                    Some(t) => spec_parse_desc(full) == Some(
                        entries@.map_values(|e: (Vec<u8>, bool)| (e.0@, e.1)) + t,
                    ),
                    None => spec_parse_desc(full) is None,
                },
            decreases len - pos,
        {
            let ghost sub = full.subrange(pos as int, len as int);
            // find the end of the current line
            let mut k: usize = pos;
            while k < len && desc[k] != LINE_SEP
                invariant
                    full == desc@,
                    pos <= k <= len,
                    len == full.len(),
                    forall|j: int| pos <= j < k ==> full[j] != LINE_SEP,
                decreases len - k,
            {
                k += 1;
            }
            proof {
                assert forall|j: int| 0 <= j < k - pos implies sub[j] != LINE_SEP by {
                    assert(sub[j] == full[pos + j]);
                }
                if (k as int) - (pos as int) < sub.len() {
                    assert(sub[k - pos] == full[k as int]);
                }
                lemma_find_nl_is(sub, 0, k as int - pos as int);
                assert(find_nl_clip(sub) == k - pos);
                assert(sub.subrange(0, k as int - pos as int) =~= full.subrange(
                    pos as int,
                    k as int,
                ));
                if k < len {
                    assert(sub.subrange(k as int - pos as int + 1, sub.len() as int) =~= full
                        .subrange(k as int + 1, len as int));
                }
            }
            let ghost line = full.subrange(pos as int, k as int);
            // parse the line [pos, k)
            if k > pos {
                if k - pos < 3 {
                    return Err(GrammarError::InvalidGrammar);
                }
                let flag = desc[pos];
                if (flag != FLAG_OPTIONAL && flag != FLAG_REQUIRED) || desc[pos + 1] != FLAG_SEP {
                    return Err(GrammarError::InvalidGrammar);
                }
                let kind = vstd::slice::slice_subrange(desc, pos + 2, k);
                proof {
                    assert(line[0] == flag && line[1] == full[pos + 1]);
                    assert(kind@ =~= line.subrange(2, line.len() as int));
                }
                let ghost before = entries@.map_values(|e: (Vec<u8>, bool)| (e.0@, e.1));
                entries.push((vstd::slice::slice_to_vec(kind), flag == FLAG_OPTIONAL));
                proof {
                    assert(entries@.map_values(|e: (Vec<u8>, bool)| (e.0@, e.1)) =~= before.push(
                        (kind@, flag == FLAG_OPTIONAL),
                    ));
                    assert(before.push((kind@, flag == FLAG_OPTIONAL)) =~= before + seq![
                        (kind@, flag == FLAG_OPTIONAL),
                    ]);
                }
            } else {
                proof {
                    assert(line.len() == 0);
                }
            }
            if k == len {
                pos = len;
                proof {
                    assert(full.subrange(len as int, len as int) =~= Seq::<u8>::empty());
                }
            } else {
                pos = k + 1;
            }
        }
        proof {
            assert(full.subrange(len as int, len as int) =~= Seq::<u8>::empty());
        }
        Ok(NodeTypes { entries })
    }

    /// Whether the grammar reports kind `kind` as optional; unknown kinds
    /// are not optional.
    pub fn optional(&self, kind: &[u8]) -> (r: bool)
        ensures
            r == spec_optional(self@, kind@),
    {
        let n = self.entries.len();
        let mut i: usize = 0;
        while i < n
            invariant
                n == self.entries@.len(),
                n == self@.len(),
                i <= n,
                forall|j: int| 0 <= j < i ==> (#[trigger] self@[j]).0 != kind@,
            decreases n - i,
        {
            proof {
                assert(self@[i as int] == (self.entries@[i as int].0@, self.entries@[i as int].1));
            }
            if crate::bytes_eq(self.entries[i].0.as_slice(), kind) {
                proof {
                    lemma_optional_is(self@, kind@, i as int);
                }
                return self.entries[i].1;
            }
            i += 1;
        }
        proof {
            lemma_optional_none(self@, kind@);
        }
        false
    }
}

} // verus!
