use orphan_reaper::keep_set::{KeepSet, PathSet};
use orphan_reaper::order::{order_entries, precedes, Entry, EntryKind};
use orphan_reaper::path::{canonical, join_member};
use orphan_reaper::reaper::{evaluate, Outcome, Reaper, ReaperConfig, Verdict};

const BASE: &str = "/save";

/// A tree held in memory: each path under `BASE` with whether it is a directory.
struct Tree {
    nodes: Vec<(String, bool)>,
}

impl Tree {
    fn new(nodes: &[(&str, bool)]) -> Tree {
        Tree { nodes: nodes.iter().map(|(p, d)| (p.to_string(), *d)).collect() }
    }

    fn has(&self, path: &str) -> bool {
        self.nodes.iter().any(|(p, _)| p == path)
    }

    /// The paths directly in `dir`.
    fn listing(&self, dir: &str) -> Vec<String> {
        let prefix = format!("{}/", dir);
        self.nodes
            .iter()
            .filter(|(p, _)| p.starts_with(&prefix) && !p[prefix.len()..].contains('/'))
            .map(|(p, _)| p.clone())
            .collect()
    }

    fn listing_of(&self, entry: &Entry) -> Vec<String> {
        match entry.kind {
            EntryKind::Directory => self.listing(&entry.path),
            EntryKind::File => Vec::new(),
        }
    }

    fn scan(&self) -> Vec<Entry> {
        self.nodes
            .iter()
            .map(|(p, d)| {
                let depth = p[BASE.len()..].matches('/').count();
                Entry::scanned(p, depth, *d)
            })
            .collect()
    }

    /// One run of the reaper; returns the outcomes in evaluation order.
    fn reap(&mut self, keep_names: &[&str], config: ReaperConfig) -> Vec<Outcome> {
        let mut reaper = Reaper::new(keep_of(keep_names), config, self.scan());
        let mut outcomes = Vec::new();
        while let Some(entry) = reaper.current() {
            let listing = self.listing_of(entry);
            let outcome = reaper.resolve(&listing);
            if outcome.remove {
                self.nodes.retain(|(p, _)| *p != outcome.path);
            }
            outcomes.push(outcome);
        }
        outcomes
    }
}

fn keep_of(names: &[&str]) -> KeepSet {
    let members: Vec<(String, String)> =
        names.iter().map(|n| ("c0ffee".to_string(), n.to_string())).collect();
    KeepSet::build(BASE, &members)
}

fn destructive() -> ReaperConfig {
    ReaperConfig { destructive: true, verbose: false }
}

fn removed_count(outcomes: &[Outcome]) -> usize {
    outcomes.iter().filter(|o| o.remove).count()
}

#[test]
fn canonical_replaces_backslashes() {
    assert_eq!(canonical("C:\\save\\a\\b.txt"), "C:/save/a/b.txt");
    assert_eq!(canonical("/already/fine"), "/already/fine");
    assert_eq!(canonical(""), "");
}

#[test]
fn join_member_adds_separator_and_normalizes() {
    assert_eq!(join_member("/save", "dir\\file.mkv"), "/save/dir/file.mkv");
    assert_eq!(join_member("D:\\save", "x"), "D:/save/x");
}

#[test]
fn keep_set_deduplicates_members() {
    let members = vec![
        ("h1".to_string(), "A/keep.txt".to_string()),
        ("h2".to_string(), "A\\keep.txt".to_string()),
        ("h2".to_string(), "B/other.txt".to_string()),
    ];
    let keep = KeepSet::build(BASE, &members);
    assert!(keep.contains(&"/save/A/keep.txt".to_string()));
    assert!(keep.contains(&"/save/B/other.txt".to_string()));
    assert!(!keep.contains(&"/save/A".to_string()));
    assert!(!keep.contains(&"A/keep.txt".to_string()));
}

#[test]
fn keep_set_insert_twice_is_once() {
    let mut keep = KeepSet::new();
    assert!(!keep.contains(&"/x".to_string()));
    keep.insert("/x".to_string());
    keep.insert("/x".to_string());
    assert!(keep.contains(&"/x".to_string()));
}

#[test]
fn ordering_is_deepest_first_directories_first() {
    let entries = vec![
        Entry::scanned("/save/f", 1, false),
        Entry::scanned("/save/A/B/g", 3, false),
        Entry::scanned("/save/A", 1, true),
        Entry::scanned("/save/A/B", 2, true),
        Entry::scanned("/save/A/h", 2, false),
        Entry::scanned("/save/A/B/C", 3, true),
    ];
    let ordered = order_entries(entries);
    let paths: Vec<&str> = ordered.iter().map(|e| e.path.as_str()).collect();
    assert_eq!(paths, vec!["/save/A/B/C", "/save/A/B/g", "/save/A/B", "/save/A/h", "/save/A", "/save/f"]);
    for w in ordered.windows(2) {
        assert!(precedes(&w[0], &w[1]));
    }
}

#[test]
fn depth_order_on_a_scan() {
    let tree = Tree::new(&[
        ("/save/A", true),
        ("/save/A/B", true),
        ("/save/A/B/c.txt", false),
        ("/save/d.txt", false),
    ]);
    let ordered = order_entries(tree.scan());
    for (i, a) in ordered.iter().enumerate() {
        for b in &ordered[i + 1..] {
            assert!(a.depth >= b.depth);
        }
    }
}

#[test]
fn precedes_compares_depth_then_kind() {
    let deep_file = Entry::scanned("/s/a/b", 2, false);
    let shallow_dir = Entry::scanned("/s/a", 1, true);
    let shallow_file = Entry::scanned("/s/c", 1, false);
    assert!(precedes(&deep_file, &shallow_dir));
    assert!(!precedes(&shallow_dir, &deep_file));
    assert!(precedes(&shallow_dir, &shallow_file));
    assert!(!precedes(&shallow_file, &shallow_dir));
}

#[test]
fn scanned_entry_is_canonical() {
    let e = Entry::scanned("\\save\\A\\x", 2, false);
    assert_eq!(e.path, "/save/A/x");
    assert_eq!(e.depth, 2);
    assert_eq!(e.kind, EntryKind::File);
    assert_eq!(Entry::scanned("/save/A", 1, true).kind, EntryKind::Directory);
}

#[test]
fn evaluate_each_verdict() {
    let keep = keep_of(&["A/keep.txt"]);
    let config = ReaperConfig { destructive: true, verbose: true };
    let kept = evaluate(&Entry::scanned("/save/A/keep.txt", 2, false), &keep, true, &config);
    assert_eq!(kept.verdict, Verdict::Kept);
    assert!(!kept.remove && !kept.report);
    let junk = evaluate(&Entry::scanned("/save/A/junk.txt", 2, false), &keep, false, &config);
    assert_eq!(junk.verdict, Verdict::DanglingFile);
    assert!(junk.remove && junk.report);
    assert_eq!(junk.path, "/save/A/junk.txt");
    let empty = evaluate(&Entry::scanned("/save/B", 1, true), &keep, true, &config);
    assert_eq!(empty.verdict, Verdict::DanglingDirectory);
    assert!(empty.remove);
    let full = evaluate(&Entry::scanned("/save/A", 1, true), &keep, false, &config);
    assert_eq!(full.verdict, Verdict::Kept);
    assert!(!full.remove);
}

#[test]
fn directory_in_keep_set_is_still_pruned_when_empty() {
    let keep = keep_of(&["B"]);
    let o = evaluate(&Entry::scanned("/save/B", 1, true), &keep, true, &destructive());
    assert_eq!(o.verdict, Verdict::DanglingDirectory);
    assert!(o.remove);
}

#[test]
fn dry_run_never_removes() {
    let keep = keep_of(&[]);
    let config = ReaperConfig::default();
    assert!(!config.destructive && !config.verbose);
    let o = evaluate(&Entry::scanned("/save/x", 1, false), &keep, false, &config);
    assert_eq!(o.verdict, Verdict::DanglingFile);
    assert!(!o.remove);
    assert!(!o.report);
}

#[test]
fn describe_lines() {
    let keep = keep_of(&[]);
    let o = evaluate(&Entry::scanned("/save/x", 1, false), &keep, false, &destructive());
    assert_eq!(o.describe(), "dangling file: /save/x");
    let d = evaluate(&Entry::scanned("/save/D", 1, true), &keep, true, &destructive());
    assert_eq!(d.describe(), "dangling directory: /save/D");
    let k = evaluate(&Entry::scanned("/save/D", 1, true), &keep, false, &destructive());
    assert_eq!(k.describe(), "kept: /save/D");
}

#[test]
fn scenario_junk_deleted_keep_and_empty_dir() {
    let mut tree = Tree::new(&[
        ("/save/A", true),
        ("/save/A/keep.txt", false),
        ("/save/A/junk.txt", false),
        ("/save/B", true),
    ]);
    let keep = &["A/keep.txt"];
    tree.reap(keep, destructive());
    assert!(!tree.has("/save/A/junk.txt"));
    assert!(tree.has("/save/A/keep.txt"));
    assert!(tree.has("/save/A"));
    assert!(!tree.has("/save/B"));
}

#[test]
fn scenario_nested_empty_directories_go_in_one_run() {
    let mut tree = Tree::new(&[("/save/C", true), ("/save/C/D", true)]);
    let keep: &[&str] = &[];
    let outcomes = tree.reap(keep, destructive());
    assert!(!tree.has("/save/C/D"));
    assert!(!tree.has("/save/C"));
    assert_eq!(removed_count(&outcomes), 2);
    assert_eq!(outcomes[0].path, "/save/C/D");
}

#[test]
fn directory_emptied_by_file_removal_is_pruned() {
    let mut tree = Tree::new(&[("/save/C", true), ("/save/C/junk.bin", false)]);
    let keep: &[&str] = &[];
    tree.reap(keep, destructive());
    assert!(tree.nodes.is_empty());
}

#[test]
fn second_destructive_run_deletes_nothing() {
    let mut tree = Tree::new(&[
        ("/save/A", true),
        ("/save/A/keep.txt", false),
        ("/save/A/junk.txt", false),
        ("/save/B", true),
        ("/save/B/E", true),
        ("/save/C", true),
        ("/save/C/keep.txt", false),
        ("/save/C/F", true),
        ("/save/C/F/junk", false),
    ]);
    let keep = &["A/keep.txt", "C/keep.txt"];
    let first = tree.reap(keep, destructive());
    assert_eq!(removed_count(&first), 5);
    let second = tree.reap(keep, destructive());
    assert_eq!(removed_count(&second), 0);
    assert_eq!(tree.nodes.len(), 4);
}

#[test]
fn kept_files_survive_repeated_runs() {
    let mut tree = Tree::new(&[
        ("/save/keep.txt", false),
        ("/save/junk.txt", false),
        ("/save/A", true),
        ("/save/A/keep.txt", false),
    ]);
    let keep = &["keep.txt", "A/keep.txt"];
    for _ in 0..3 {
        tree.reap(keep, destructive());
        assert!(tree.has("/save/keep.txt"));
        assert!(tree.has("/save/A/keep.txt"));
    }
    assert!(!tree.has("/save/junk.txt"));
}

#[test]
fn dry_run_leaves_tree_untouched() {
    let nodes = [
        ("/save/A", true),
        ("/save/A/junk.txt", false),
        ("/save/B", true),
        ("/save/B/E", true),
    ];
    let mut tree = Tree::new(&nodes);
    let keep: &[&str] = &[];
    let outcomes = tree.reap(keep, ReaperConfig { destructive: false, verbose: true });
    assert_eq!(tree.nodes.len(), nodes.len());
    assert_eq!(removed_count(&outcomes), 0);
    let reported: Vec<&str> = outcomes.iter().filter(|o| o.report).map(|o| o.path.as_str()).collect();
    assert_eq!(reported, vec!["/save/B/E", "/save/A/junk.txt", "/save/A", "/save/B"]);
}

#[test]
fn dry_run_detects_what_destructive_run_detects() {
    let nodes = [
        ("/save/A", true),
        ("/save/A/keep.txt", false),
        ("/save/A/junk.txt", false),
        ("/save/C", true),
        ("/save/C/D", true),
        ("/save/C/D/junk", false),
    ];
    let keep = &["A/keep.txt"];
    let mut dry = Tree::new(&nodes);
    let mut wet = Tree::new(&nodes);
    let found = |outcomes: &[Outcome]| -> Vec<(String, Verdict)> {
        outcomes.iter().filter(|o| o.verdict != Verdict::Kept).map(|o| (o.path.clone(), o.verdict)).collect()
    };
    let dry_found = found(&dry.reap(keep, ReaperConfig { destructive: false, verbose: true }));
    let wet_found = found(&wet.reap(keep, ReaperConfig { destructive: true, verbose: true }));
    assert_eq!(dry_found, wet_found);
    assert_eq!(dry_found.len(), 4);
    assert_eq!(dry.nodes.len(), nodes.len());
    assert_eq!(wet.nodes.len(), 2);
}

#[test]
fn member_of_base_with_trailing_separator() {
    assert_eq!(join_member("/save/", "a.txt"), "/save/a.txt");
    assert_eq!(join_member("D:\\save\\", "a.txt"), "D:/save/a.txt");
    assert_eq!(join_member("", "a.txt"), "/a.txt");
    let members = vec![("h".to_string(), "a.txt".to_string())];
    let keep = KeepSet::build("/save/", &members);
    assert!(keep.contains(&"/save/a.txt".to_string()));
    assert!(!keep.contains(&"/save//a.txt".to_string()));
}

#[test]
fn tracked_file_survives_with_trailing_separator_base() {
    let mut tree = Tree::new(&[("/save/a.txt", false), ("/save/b.txt", false)]);
    let members = vec![("h".to_string(), "a.txt".to_string())];
    let scanned = tree.scan();
    let mut reaper = Reaper::new(KeepSet::build("/save/", &members), destructive(), scanned);
    while let Some(entry) = reaper.current() {
        let listing = tree.listing_of(entry);
        let o = reaper.resolve(&listing);
        if o.remove {
            tree.nodes.retain(|(p, _)| *p != o.path);
        }
    }
    assert!(tree.has("/save/a.txt"));
    assert!(!tree.has("/save/b.txt"));
}

#[test]
fn contains_all_of_listing() {
    let mut set = PathSet::new();
    set.insert("/a".to_string());
    set.insert("/b".to_string());
    assert!(set.contains_all(&vec!["/a".to_string(), "/b".to_string()]));
    assert!(set.contains_all(&Vec::new()));
    assert!(!set.contains_all(&vec!["/a".to_string(), "/c".to_string()]));
}

#[test]
fn non_empty_directory_retained_with_dangling_neighbours() {
    let mut tree = Tree::new(&[
        ("/save/A", true),
        ("/save/A/B", true),
        ("/save/A/B/keep.txt", false),
        ("/save/A/junk", false),
    ]);
    let mut reaper = Reaper::new(keep_of(&["A/B/keep.txt"]), destructive(), tree.scan());
    let mut removed = Vec::new();
    while let Some(entry) = reaper.current() {
        let listing = tree.listing_of(entry);
        let o = reaper.resolve(&listing);
        if o.remove {
            tree.nodes.retain(|(p, _)| *p != o.path);
            removed.push(o.path);
        }
    }
    assert_eq!(removed, vec!["/save/A/junk".to_string()]);
    assert!(tree.has("/save/A/B"));
    assert!(tree.has("/save/A"));
}

#[test]
fn reaper_on_nothing_is_done_at_once() {
    let reaper = Reaper::new(KeepSet::new(), destructive(), Vec::new());
    assert!(reaper.current().is_none());
}
