use vstd::prelude::*;

use crate::order::{is_ordered, may_precede, Entry, EntryKind};
use crate::path::{child_of, inside};
use crate::reaper::{is_dangling, listing_resolved};

verus! {

/// Nothing in the tree `present` lies directly in `d`.
pub open spec fn is_empty_in(present: Set<Seq<char>>, d: Seq<char>) -> bool {
    forall|p: Seq<char>| #[trigger] present.contains(p) ==> !child_of(p, d)
}

/// The tree with everything judged dangling so far taken out, after
/// evaluating `e` against `present`, where the emptiness of a directory is
/// read from that tree as it stands at that moment. It does not depend on
/// whether the run deletes: a destructive run whose deletions succeed leaves
/// exactly this tree on disk, and one that is not destructive leaves the disk
/// as it was.
pub open spec fn step(present: Set<Seq<char>>, e: Entry, keep: Set<Seq<char>>) -> Set<
    Seq<char>,
> {
    if is_dangling(e, keep, is_empty_in(present, e.path@)) {
        present.remove(e.path@)
    } else {
        present
    }
}

/// The tree after evaluating the entries of `s` in turn.
pub open spec fn run(
    present: Set<Seq<char>>,
    s: Seq<Entry>,
    keep: Set<Seq<char>>,
) -> Set<Seq<char>>
    decreases s.len(),
{
    if s.len() == 0 {
        present
    } else {
        step(run(present, s.drop_last(), keep), s.last(), keep)
    }
}

/// How many entries of `s` are judged dangling when evaluated in turn.
pub open spec fn dangling_count(
    present: Set<Seq<char>>,
    s: Seq<Entry>,
    keep: Set<Seq<char>>,
) -> nat
    decreases s.len(),
{
    if s.len() == 0 {
        0
    } else {
        let before = run(present, s.drop_last(), keep);
        dangling_count(present, s.drop_last(), keep) + if is_dangling(
            s.last(),
            keep,
            is_empty_in(before, s.last().path@),
        ) {
            1nat
        } else {
            0nat
        }
    }
}

/// The tree on disk after a run whose attempted deletions all succeed.
pub open spec fn tree_after(
    present: Set<Seq<char>>,
    s: Seq<Entry>,
    keep: Set<Seq<char>>,
    destructive: bool,
) -> Set<Seq<char>> {
    if destructive {
        run(present, s, keep)
    } else {
        present
    }
}

/// How many deletions a run performs.
pub open spec fn removals(
    present: Set<Seq<char>>,
    s: Seq<Entry>,
    keep: Set<Seq<char>>,
    destructive: bool,
) -> nat {
    if destructive {
        dangling_count(present, s, keep)
    } else {
        0
    }
}

/// The tree after one run for each scan of `scans`, in turn.
pub open spec fn run_all(
    present: Set<Seq<char>>,
    scans: Seq<Seq<Entry>>,
    keep: Set<Seq<char>>,
) -> Set<Seq<char>>
    decreases scans.len(),
{
    if scans.len() == 0 {
        present
    } else {
        run(run_all(present, scans.drop_last(), keep), scans.last(), keep)
    }
}

/// An entry beneath another is deeper than it, as in any scan of a tree.
pub open spec fn depth_consistent(s: Seq<Entry>) -> bool {
    forall|i: int, j: int|
        0 <= i < s.len() && 0 <= j < s.len() && #[trigger] inside(s[i].path@, s[j].path@)
            ==> s[i].depth > s[j].depth
}

/// Every entry of `s` that names `p` is of the kind `kind`.
pub open spec fn names_only(s: Seq<Entry>, p: Seq<char>, kind: EntryKind) -> bool {
    forall|i: int| 0 <= i < s.len() && #[trigger] s[i].path@ == p ==> s[i].kind == kind
}

/// Each entry of `rescan` is an entry of `s` still present in `tree`.
pub open spec fn is_rescan(rescan: Seq<Entry>, s: Seq<Entry>, tree: Set<Seq<char>>) -> bool {
    forall|k: int|
        0 <= k < rescan.len() ==> tree.contains(#[trigger] rescan[k].path@) && exists|i: int|
            0 <= i < s.len() && s[i] == rescan[k]
}

/// The test a reaper makes of a directory's listing is the model's
/// emptiness: when `listing` holds exactly the paths directly in `d` in
/// `tree`, all of them are judged dangling exactly when nothing is left in
/// `d` once the judged paths are taken out. A dry run reads the tree as it
/// was and a destructive one the tree with the judged paths deleted; either
/// way that leaves the same tree, so both detect the same.
pub proof fn lemma_listing_emptiness(
    tree: Set<Seq<char>>,
    judged: Set<Seq<char>>,
    listing: Seq<String>,
    d: Seq<char>,
)
    requires
        forall|i: int|
            0 <= i < listing.len() ==> child_of(#[trigger] listing[i]@, d) && tree.contains(
                listing[i]@,
            ),
        forall|p: Seq<char>|
            #[trigger] tree.contains(p) && child_of(p, d) ==> exists|i: int|
                0 <= i < listing.len() && listing[i]@ == p,
    ensures
        listing_resolved(listing, judged) <==> is_empty_in(tree.difference(judged), d),
{
    if listing_resolved(listing, judged) {
        assert forall|p: Seq<char>| #[trigger] tree.difference(judged).contains(p) implies !child_of(
            p,
            d,
        ) by {
            if child_of(p, d) {
                assert(tree.contains(p));
                let i = choose|i: int| 0 <= i < listing.len() && listing[i]@ == p;
                assert(judged.contains(listing[i]@));
            }
        }
    }
    if is_empty_in(tree.difference(judged), d) {
        assert forall|i: int| 0 <= i < listing.len() implies judged.contains(#[trigger] listing[i]@) by {
            assert(child_of(listing[i]@, d));
            if !judged.contains(listing[i]@) {
                assert(tree.difference(judged).contains(listing[i]@));
            }
        }
    }
}

proof fn lemma_take_step(
    present: Set<Seq<char>>,
    s: Seq<Entry>,
    keep: Set<Seq<char>>,
    k: int,
)
    requires
        0 <= k < s.len(),
    ensures
        run(present, s.take(k + 1), keep) == step(
            run(present, s.take(k), keep),
            s[k],
            keep,
        ),
{
    assert(s.take(k + 1).drop_last() =~= s.take(k));
}

proof fn lemma_take_all(s: Seq<Entry>)
    ensures
        s.take(s.len() as int) == s,
{
    assert(s.take(s.len() as int) =~= s);
}

/// Later states of a run are contained in earlier ones.
proof fn lemma_prefix_shrinks(
    present: Set<Seq<char>>,
    s: Seq<Entry>,
    keep: Set<Seq<char>>,
    j: int,
    k: int,
)
    requires
        0 <= j <= k <= s.len(),
    ensures
        run(present, s.take(k), keep).subset_of(
            run(present, s.take(j), keep),
        ),
    decreases k - j,
{
    if j < k {
        lemma_prefix_shrinks(present, s, keep, j, k - 1);
        lemma_take_step(present, s, keep, k - 1);
    }
}

/// Something beneath the directory at `i` that is present when it is
/// evaluated stays present to the end of the run.
proof fn lemma_beneath_persists(
    present: Set<Seq<char>>,
    s: Seq<Entry>,
    keep: Set<Seq<char>>,
    i: int,
    p: Seq<char>,
    k: int,
)
    requires
        is_ordered(s),
        depth_consistent(s),
        0 <= i < s.len(),
        i <= k <= s.len(),
        run(present, s.take(i), keep).contains(p),
        inside(p, s[i].path@),
    ensures
        run(present, s.take(k), keep).contains(p),
    decreases k - i,
{
    if i < k {
        lemma_beneath_persists(present, s, keep, i, p, k - 1);
        lemma_take_step(present, s, keep, k - 1);
        if s[k - 1].path@ == p {
            assert(inside(s[k - 1].path@, s[i].path@));
            if i < k - 1 {
                assert(may_precede(s[i], s[k - 1]));
            }
        }
    }
}

/// An entry still present after a destructive run is settled: a file is in
/// the keep-set and a directory holds something.
proof fn lemma_survivor_settled(present: Set<Seq<char>>, s: Seq<Entry>, keep: Set<Seq<char>>, i: int)
    requires
        is_ordered(s),
        depth_consistent(s),
        0 <= i < s.len(),
        run(present, s, keep).contains(s[i].path@),
    ensures
        s[i].kind == EntryKind::File ==> keep.contains(s[i].path@),
        s[i].kind == EntryKind::Directory ==> !is_empty_in(run(present, s, keep), s[i].path@),
{
    let before = run(present, s.take(i), keep);
    lemma_take_step(present, s, keep, i);
    lemma_take_all(s);
    lemma_prefix_shrinks(present, s, keep, i + 1, s.len() as int);
    if s[i].kind == EntryKind::Directory {
        let p = choose|p: Seq<char>| #[trigger] before.contains(p) && child_of(p, s[i].path@);
        lemma_beneath_persists(present, s, keep, i, p, s.len() as int);
    }
}

/// A run that is not destructive leaves the tree as it found it and deletes
/// nothing, however many dangling entries it detects; it detects exactly what
/// a destructive run detects.
pub proof fn lemma_dry_run_no_op(present: Set<Seq<char>>, s: Seq<Entry>, keep: Set<Seq<char>>)
    ensures
        tree_after(present, s, keep, false) == present,
        removals(present, s, keep, false) == 0,
        removals(present, s, keep, true) == dangling_count(present, s, keep),
{
}

/// A file whose path is in the keep-set survives a run, destructive or not.
pub proof fn lemma_kept_file_survives(
    present: Set<Seq<char>>,
    s: Seq<Entry>,
    keep: Set<Seq<char>>,
    p: Seq<char>,
)
    requires
        present.contains(p),
        keep.contains(p),
        names_only(s, p, EntryKind::File),
    ensures
        run(present, s, keep).contains(p),
        tree_after(present, s, keep, true).contains(p),
        tree_after(present, s, keep, false).contains(p),
    decreases s.len(),
{
    if s.len() > 0 {
        let t = s.drop_last();
        assert forall|i: int| 0 <= i < t.len() && #[trigger] t[i].path@ == p implies t[i].kind
            == EntryKind::File by {
            assert(s[i] == t[i]);
        }
        lemma_kept_file_survives(present, t, keep, p);
        assert(s.last() == s[s.len() - 1]);
    }
}

/// A file whose path is in the keep-set survives any number of runs with that
/// keep-set.
pub proof fn lemma_kept_file_survives_runs(
    present: Set<Seq<char>>,
    scans: Seq<Seq<Entry>>,
    keep: Set<Seq<char>>,
    p: Seq<char>,
)
    requires
        present.contains(p),
        keep.contains(p),
        forall|k: int| 0 <= k < scans.len() ==> names_only(#[trigger] scans[k], p, EntryKind::File),
    ensures
        run_all(present, scans, keep).contains(p),
    decreases scans.len(),
{
    if scans.len() > 0 {
        let t = scans.drop_last();
        assert forall|k: int| 0 <= k < t.len() implies names_only(#[trigger] t[k], p, EntryKind::File) by {
            assert(scans[k] == t[k]);
        }
        lemma_kept_file_survives_runs(present, t, keep, p);
        assert(names_only(scans[scans.len() - 1], p, EntryKind::File));
        lemma_kept_file_survives(
            run_all(present, t, keep),
            scans.last(),
            keep,
            p,
        );
    }
}

/// In a destructive run over ordered entries, a directory is evaluated only
/// after every deeper entry and every entry beneath it, and it is deleted
/// then exactly when nothing is left directly in it.
pub proof fn lemma_directory_pruning(
    present: Set<Seq<char>>,
    s: Seq<Entry>,
    keep: Set<Seq<char>>,
    i: int,
)
    requires
        is_ordered(s),
        depth_consistent(s),
        0 <= i < s.len(),
        s[i].kind == EntryKind::Directory,
    ensures
        forall|j: int| 0 <= j < s.len() && s[j].depth > s[i].depth ==> j < i,
        forall|j: int| 0 <= j < s.len() && #[trigger] inside(s[j].path@, s[i].path@) ==> j < i,
        ({
            let before = run(present, s.take(i), keep);
            let after = run(present, s.take(i + 1), keep);
            &&& is_empty_in(before, s[i].path@) ==> after == before.remove(s[i].path@)
            &&& !is_empty_in(before, s[i].path@) ==> after == before
        }),
{
    assert forall|j: int| 0 <= j < s.len() && s[j].depth > s[i].depth implies j < i by {
        if i < j {
            assert(may_precede(s[i], s[j]));
        }
    }
    assert forall|j: int| 0 <= j < s.len() && #[trigger] inside(s[j].path@, s[i].path@) implies j < i by {
        if i < j {
            assert(may_precede(s[i], s[j]));
        }
    }
    lemma_take_step(present, s, keep, i);
}

/// A directory present before a destructive run over ordered entries, and
/// named by no file entry, is gone at the end of the run exactly when it was
/// found empty when evaluated.
pub proof fn lemma_pruned_directory_gone(
    present: Set<Seq<char>>,
    s: Seq<Entry>,
    keep: Set<Seq<char>>,
    i: int,
)
    requires
        is_ordered(s),
        depth_consistent(s),
        0 <= i < s.len(),
        s[i].kind == EntryKind::Directory,
        present.contains(s[i].path@),
        names_only(s, s[i].path@, EntryKind::Directory),
    ensures
        run(present, s, keep).contains(s[i].path@) <==> !is_empty_in(
            run(present, s.take(i), keep),
            s[i].path@,
        ),
{
    let d = s[i].path@;
    let before = run(present, s.take(i), keep);
    lemma_take_step(present, s, keep, i);
    lemma_take_all(s);
    lemma_prefix_shrinks(present, s, keep, i + 1, s.len() as int);
    if !is_empty_in(before, d) {
        let p = choose|p: Seq<char>| #[trigger] before.contains(p) && child_of(p, d);
        lemma_dir_stays(present, s, keep, i, p, s.len() as int);
    }
}

/// The directory at `i`, found holding `p` when evaluated, is present in every
/// state of the run.
proof fn lemma_dir_stays(
    present: Set<Seq<char>>,
    s: Seq<Entry>,
    keep: Set<Seq<char>>,
    i: int,
    p: Seq<char>,
    k: int,
)
    requires
        is_ordered(s),
        depth_consistent(s),
        0 <= i < s.len(),
        0 <= k <= s.len(),
        present.contains(s[i].path@),
        names_only(s, s[i].path@, EntryKind::Directory),
        run(present, s.take(i), keep).contains(p),
        child_of(p, s[i].path@),
    ensures
        run(present, s.take(k), keep).contains(s[i].path@),
    decreases k,
{
    let d = s[i].path@;
    if k > 0 {
        lemma_dir_stays(present, s, keep, i, p, k - 1);
        lemma_take_step(present, s, keep, k - 1);
        let st = run(present, s.take(k - 1), keep);
        if s[k - 1].path@ == d {
            if k - 1 <= i {
                lemma_prefix_shrinks(present, s, keep, k - 1, i);
            } else {
                lemma_beneath_persists(present, s, keep, i, p, k - 1);
            }
            assert(st.contains(p));
        }
    } else {
        assert(s.take(0) =~= Seq::<Entry>::empty());
    }
}

/// After a destructive run, a second destructive run over a rescan of what is
/// left deletes nothing and leaves the tree unchanged.
pub proof fn lemma_idempotent(
    present: Set<Seq<char>>,
    s: Seq<Entry>,
    rescan: Seq<Entry>,
    keep: Set<Seq<char>>,
)
    requires
        is_ordered(s),
        depth_consistent(s),
        is_rescan(rescan, s, run(present, s, keep)),
    ensures
        run(run(present, s, keep), rescan, keep) == run(present, s, keep),
        removals(run(present, s, keep), rescan, keep, true) == 0,
    decreases rescan.len(),
{
    let tree = run(present, s, keep);
    if rescan.len() > 0 {
        let t = rescan.drop_last();
        assert forall|k: int| 0 <= k < t.len() implies tree.contains(#[trigger] t[k].path@) && exists|
            i: int,
        | 0 <= i < s.len() && s[i] == t[k] by {
            assert(rescan[k] == t[k]);
        }
        lemma_idempotent(present, s, t, keep);
        let k = rescan.len() - 1;
        assert(tree.contains(rescan[k].path@));
        let i = choose|i: int| 0 <= i < s.len() && s[i] == rescan[k];
        lemma_survivor_settled(present, s, keep, i);
    }
}

} // verus!
