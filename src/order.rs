use vstd::multiset::Multiset;
use vstd::prelude::*;

use crate::path::{canonical, canonical_spec};

verus! {

broadcast use vstd::seq_lib::group_to_multiset_ensures;

/// Whether a scanned entry is a regular file or a directory.
#[derive(Clone, Copy, Debug, PartialEq, Eq, Structural)]
pub enum EntryKind {
    File,
    Directory,
}

/// One file or directory found beneath the base directory; the base itself
/// has depth 0 and each level below adds one.
pub struct Entry {
    pub path: String,
    pub depth: usize,
    pub kind: EntryKind,
}

impl Entry {
    /// The entry for a path found by a scan, in the canonical separator form.
    pub fn scanned(path: &str, depth: usize, is_dir: bool) -> (r: Entry)
        ensures
            r.path@ == canonical_spec(path@),
            r.depth == depth,
            r.kind == (if is_dir { EntryKind::Directory } else { EntryKind::File }),
    {
        let kind = if is_dir { EntryKind::Directory } else { EntryKind::File };
        Entry { path: canonical(path), depth, kind }
    }
}

/// `a` may be evaluated before `b`: it is deeper, or as deep and not a file
/// standing before a directory.
pub open spec fn may_precede(a: Entry, b: Entry) -> bool {
    a.depth > b.depth || (a.depth == b.depth && (a.kind == EntryKind::Directory
        || b.kind == EntryKind::File))
}

/// Every entry may be evaluated before each one that follows it.
pub open spec fn is_ordered(s: Seq<Entry>) -> bool {
    forall|i: int, j: int| 0 <= i < j < s.len() ==> may_precede(#[trigger] s[i], #[trigger] s[j])
}

/// The comparator of the evaluation order.
pub fn precedes(a: &Entry, b: &Entry) -> (r: bool)
    ensures
        r == may_precede(*a, *b),
{
    a.depth > b.depth || (a.depth == b.depth && (a.kind == EntryKind::Directory || b.kind
        == EntryKind::File))
}

/// Index of an entry of `v` that may precede every other one.
fn first_of(v: &Vec<Entry>) -> (r: usize)
    requires
        v@.len() > 0,
    ensures
        r < v@.len(),
        forall|k: int| 0 <= k < v@.len() ==> may_precede(v@[r as int], #[trigger] v@[k]),
{
    let mut best: usize = 0;
    let mut k: usize = 1;
    while k < v.len()
        invariant
            0 < k <= v@.len(),
            best < k,
            forall|m: int| 0 <= m < k ==> may_precede(v@[best as int], #[trigger] v@[m]),
        decreases v@.len() - k,
    {
        if !precedes(&v[best], &v[k]) {
            best = k;
        }
        k = k + 1;
    }
    best
}

/// Puts the scanned entries into the deletion-safe order: deepest first, and
/// at equal depth directories before files.
pub fn order_entries(entries: Vec<Entry>) -> (r: Vec<Entry>)
    ensures
        r@.to_multiset() == entries@.to_multiset(),
        is_ordered(r@),
{
    let mut rest = entries;
    let mut out: Vec<Entry> = Vec::new();
    while rest.len() > 0
        invariant
            out@.to_multiset().add(rest@.to_multiset()) == entries@.to_multiset(),
            is_ordered(out@),
            forall|i: int, j: int|
                0 <= i < out@.len() && 0 <= j < rest@.len() ==> may_precede(
                    #[trigger] out@[i],
                    #[trigger] rest@[j],
                ),
        decreases rest@.len(),
    {
        let b = first_of(&rest);
        let ghost before_rest = rest@;
        let ghost before_out = out@;
        let e = rest.remove(b);
        assert(rest@ == before_rest.remove(b as int));
        out.push(e);
        assert(out@ == before_out.push(e));
        proof {
            assert(before_rest.to_multiset() == rest@.to_multiset().insert(e));
            assert(out@.to_multiset() == before_out.to_multiset().insert(e));
            assert(out@.to_multiset().add(rest@.to_multiset()) =~= before_out.to_multiset().add(
                before_rest.to_multiset(),
            ));
            assert forall|i: int, j: int| 0 <= i < j < out@.len() implies may_precede(
                #[trigger] out@[i],
                #[trigger] out@[j],
            ) by {
                if j < before_out.len() {
                    assert(out@[i] == before_out[i] && out@[j] == before_out[j]);
                } else {
                    assert(out@[i] == before_out[i]);
                    assert(before_rest[b as int] == e);
                }
            }
            assert forall|i: int, j: int|
                0 <= i < out@.len() && 0 <= j < rest@.len() implies may_precede(
                #[trigger] out@[i],
                #[trigger] rest@[j],
            ) by {
                let jj = if j < b { j } else { j + 1 };
                assert(rest@[j] == before_rest[jj]);
                if i < before_out.len() {
                    assert(out@[i] == before_out[i]);
                }
            }
        }
    }
    assert(rest@.to_multiset() =~= Multiset::empty());
    assert(out@.to_multiset() =~= out@.to_multiset().add(Multiset::empty()));
    out
}

/// In an ordered sequence, an entry deeper than another is evaluated before it.
pub proof fn lemma_deeper_first(s: Seq<Entry>, i: int, j: int)
    requires
        is_ordered(s),
        0 <= i < s.len(),
        0 <= j < s.len(),
        s[j].depth > s[i].depth,
    ensures
        j < i,
{
    if i < j {
        assert(may_precede(s[i], s[j]));
    }
}

} // verus!
