use vstd::prelude::*;
use vstd::string::StringExecFns;

use crate::keep_set::{KeepSet, PathSet};
use crate::order::{is_ordered, order_entries, Entry, EntryKind};

verus! {

/// How a run behaves: whether it deletes what it finds dangling, and whether
/// it reports what it finds.
pub struct ReaperConfig {
    pub destructive: bool,
    pub verbose: bool,
}

impl Default for ReaperConfig {
    /// Detection only, and quiet.
    fn default() -> (r: ReaperConfig)
        ensures
            !r.destructive,
            !r.verbose,
    {
        ReaperConfig { destructive: false, verbose: false }
    }
}

/// What the reaper concluded of one entry.
#[derive(Clone, Copy, Debug, PartialEq, Eq, Structural)]
pub enum Verdict {
    /// A file in the keep-set, or a directory that still holds something.
    Kept,
    /// A file outside the keep-set.
    DanglingFile,
    /// A directory found empty when it was evaluated.
    DanglingDirectory,
}

/// The record of one evaluated entry.
pub struct Outcome {
    pub path: String,
    pub kind: EntryKind,
    pub verdict: Verdict,
    /// The entry is to be deleted.
    pub remove: bool,
    /// The entry is to be reported.
    pub report: bool,
}

/// The verdict on `e`, given the keep-set and, for a directory, whether it
/// was empty when evaluated. Directories are judged by emptiness alone.
pub open spec fn verdict_spec(e: Entry, keep: Set<Seq<char>>, now_empty: bool) -> Verdict {
    match e.kind {
        EntryKind::File => if keep.contains(e.path@) {
            Verdict::Kept
        } else {
            Verdict::DanglingFile
        },
        EntryKind::Directory => if now_empty {
            Verdict::DanglingDirectory
        } else {
            Verdict::Kept
        },
    }
}

/// Whether `e` is judged dangling.
pub open spec fn is_dangling(e: Entry, keep: Set<Seq<char>>, now_empty: bool) -> bool {
    verdict_spec(e, keep, now_empty) != Verdict::Kept
}

/// Whether evaluating `e` deletes it.
pub open spec fn removes(e: Entry, keep: Set<Seq<char>>, now_empty: bool, destructive: bool) -> bool {
    destructive && is_dangling(e, keep, now_empty)
}

/// A directory whose current listing is `listing` counts as empty once every
/// path listed in it has been judged dangling; so a run that deletes nothing
/// detects what a destructive run detects.
pub open spec fn listing_resolved(listing: Seq<String>, judged: Set<Seq<char>>) -> bool {
    forall|i: int| 0 <= i < listing.len() ==> judged.contains(#[trigger] listing[i]@)
}

/// `o` is the record of evaluating `e` under `config`.
pub open spec fn is_outcome_of(
    o: Outcome,
    e: Entry,
    keep: Set<Seq<char>>,
    now_empty: bool,
    config: ReaperConfig,
) -> bool {
    &&& o.path@ == e.path@
    &&& o.kind == e.kind
    &&& o.verdict == verdict_spec(e, keep, now_empty)
    &&& o.remove == removes(e, keep, now_empty, config.destructive)
    &&& o.report == (config.verbose && o.verdict != Verdict::Kept)
}

/// Decides what becomes of `entry`. For a directory, `now_empty` says whether
/// it held nothing when read just now; for a file it is not consulted.
pub fn evaluate(entry: &Entry, keep: &KeepSet, now_empty: bool, config: &ReaperConfig) -> (r:
    Outcome)
    requires
        keep.wf(),
    ensures
        is_outcome_of(r, *entry, keep@, now_empty, *config),
{
    let verdict = match entry.kind {
        EntryKind::File => if keep.contains(&entry.path) {
            Verdict::Kept
        } else {
            Verdict::DanglingFile
        },
        EntryKind::Directory => if now_empty {
            Verdict::DanglingDirectory
        } else {
            Verdict::Kept
        },
    };
    let dangling = match verdict {
        Verdict::Kept => false,
        _ => true,
    };
    Outcome {
        path: entry.path.clone(),
        kind: entry.kind,
        verdict,
        remove: config.destructive && dangling,
        report: config.verbose && dangling,
    }
}

/// The line that reports an outcome.
pub open spec fn describe_spec(o: Outcome) -> Seq<char> {
    match o.verdict {
        Verdict::Kept => "kept: "@ + o.path@,
        Verdict::DanglingFile => "dangling file: "@ + o.path@,
        Verdict::DanglingDirectory => "dangling directory: "@ + o.path@,
    }
}

impl Outcome {
    /// A one-line description of the outcome.
    pub fn describe(&self) -> (r: String)
        ensures
            r@ == describe_spec(*self),
    {
        let label = match self.verdict {
            Verdict::Kept => "kept: ",
            Verdict::DanglingFile => "dangling file: ",
            Verdict::DanglingDirectory => "dangling directory: ",
        };
        let mut line = String::from_str(label);
        line.append(self.path.as_str());
        line
    }
}

/// A run in progress: the scanned entries in evaluation order, how many of
/// them have been resolved, and the paths judged dangling so far. The caller
/// lists directories and deletes; the reaper decides.
pub struct Reaper {
    keep: KeepSet,
    judged: PathSet,
    config: ReaperConfig,
    entries: Vec<Entry>,
    next: usize,
}

impl Reaper {
    pub closed spec fn keep_spec(&self) -> Set<Seq<char>> {
        self.keep@
    }

    /// The paths judged dangling so far.
    pub closed spec fn judged_spec(&self) -> Set<Seq<char>> {
        self.judged@
    }

    pub closed spec fn config_spec(&self) -> ReaperConfig {
        self.config
    }

    /// The entries in the order they are evaluated.
    pub closed spec fn queue(&self) -> Seq<Entry> {
        self.entries@
    }

    /// How many entries have been resolved.
    pub closed spec fn position(&self) -> nat {
        self.next as nat
    }

    pub closed spec fn wf(&self) -> bool {
        &&& self.keep.wf()
        &&& self.judged.wf()
        &&& self.next <= self.entries@.len()
        &&& is_ordered(self.entries@)
    }

    /// Starts a run over the scanned entries, putting them in evaluation order.
    pub fn new(keep: KeepSet, config: ReaperConfig, scanned: Vec<Entry>) -> (r: Reaper)
        requires
            keep.wf(),
        ensures
            r.wf(),
            r.keep_spec() == keep@,
            r.config_spec() == config,
            r.queue().to_multiset() == scanned@.to_multiset(),
            is_ordered(r.queue()),
            r.position() == 0,
            r.judged_spec() == Set::<Seq<char>>::empty(),
    {
        Reaper { keep, judged: PathSet::new(), config, entries: order_entries(scanned), next: 0 }
    }

    /// The entry to be resolved next, if any is left.
    pub fn current(&self) -> (r: Option<&Entry>)
        requires
            self.wf(),
        ensures
            r is Some <==> self.position() < self.queue().len(),
            self.position() < self.queue().len() ==> r == Some(&self.queue()[self.position() as int]),
    {
        if self.next < self.entries.len() {
            Some(&self.entries[self.next])
        } else {
            None
        }
    }

    /// Resolves the current entry. For a directory, `listing` holds the
    /// paths found in it when read just now; it counts as empty when every one
    /// of them has been judged dangling. For a file it is not consulted.
    pub fn resolve(&mut self, listing: &Vec<String>) -> (r: Outcome)
        requires
            old(self).wf(),
            old(self).position() < old(self).queue().len(),
        ensures
            final(self).wf(),
            final(self).keep_spec() == old(self).keep_spec(),
            final(self).config_spec() == old(self).config_spec(),
            final(self).queue() == old(self).queue(),
            final(self).position() == old(self).position() + 1,
            is_outcome_of(
                r,
                old(self).queue()[old(self).position() as int],
                old(self).keep_spec(),
                listing_resolved(listing@, old(self).judged_spec()),
                old(self).config_spec(),
            ),
            final(self).judged_spec() == if r.verdict == Verdict::Kept {
                old(self).judged_spec()
            } else {
                old(self).judged_spec().insert(r.path@)
            },
    {
        let now_empty = self.judged.contains_all(listing);
        let r = evaluate(&self.entries[self.next], &self.keep, now_empty, &self.config);
        if r.verdict != Verdict::Kept {
            self.judged.insert(r.path.clone());
        }
        let len = self.entries.len();
        assert(self.next < len);
        self.next = self.next + 1;
        r
    }
}

} // verus!
