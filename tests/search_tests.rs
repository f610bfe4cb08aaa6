use std::collections::{BTreeSet, HashMap};

use filesearch::config::{
    clock_of_day, effective_workers, progress_step, ProgressAction, SearchConfig,
};
use filesearch::frontier::{Claim, Frontier};
use filesearch::recursive::FileSearch;
use filesearch::scan::{is_dot_entry, Entry, MatchRecord, PendingDir, SearchMode, Worker};

/// An in-memory directory tree: each directory's path maps to its listing, in order.
/// A directory named in a listing but missing from the map cannot be read.
struct Tree {
    dirs: HashMap<String, Vec<(String, bool)>>,
}

impl Tree {
    fn listing(&self, dir: &str) -> Option<Vec<Entry>> {
        self.dirs.get(dir).map(|items| {
            items
                .iter()
                .map(|(name, is_dir)| Entry {
                    name: name.clone(),
                    path: format!("{}/{}", dir, name),
                    is_dir: *is_dir,
                })
                .collect()
        })
    }
}

/// root/{a.txt, sub/{a.txt, deep/a.txt}}
fn sample_tree() -> Tree {
    let mut dirs = HashMap::new();
    dirs.insert(
        "root".to_string(),
        vec![("a.txt".to_string(), false), ("sub".to_string(), true)],
    );
    dirs.insert(
        "root/sub".to_string(),
        vec![("a.txt".to_string(), false), ("deep".to_string(), true)],
    );
    dirs.insert("root/sub/deep".to_string(), vec![("a.txt".to_string(), false)]);
    Tree { dirs }
}

struct Outcome {
    found: Vec<String>,
    dirs_searched: usize,
    files_scanned: usize,
    warnings: usize,
}

/// Runs a search over `tree` with `workers` workers taking turns one step at a time, so
/// that several directories are in flight at once when there is more than one worker.
fn run(tree: &Tree, config: &SearchConfig, workers: usize) -> Outcome {
    let pattern = config.pattern();
    let mut frontier = Frontier::new(config.start_dir.clone());
    let mut states: Vec<(Worker, Option<PendingDir>, bool)> =
        (0..workers).map(|_| (Worker::new(), None, false)).collect();
    let mut warnings = 0;
    loop {
        let mut active = false;
        for (worker, held, done) in states.iter_mut() {
            if *done {
                continue;
            }
            active = true;
            match held.take() {
                None => match frontier.claim() {
                    Claim::Exhausted => {
                        frontier.flush_worker(worker);
                        *done = true;
                    }
                    Claim::AlreadyClaimed => {}
                    Claim::Claimed(dir) => *held = Some(dir),
                },
                Some(dir) => {
                    let listing = tree.listing(&dir.path);
                    if listing.is_none() {
                        warnings += 1;
                    }
                    frontier.process_directory(
                        worker,
                        &pattern,
                        config.mode,
                        config.max_depth,
                        config.breadth_first,
                        &dir,
                        listing,
                    );
                    if worker.flush_due() {
                        frontier.flush_worker(worker);
                    }
                }
            }
        }
        if !active {
            break;
        }
    }
    let (dirs_searched, files_scanned, matches, pending) = frontier.snapshot_counts();
    assert_eq!(pending, 0);
    let found: Vec<String> = frontier.into_results().into_iter().map(|r| r.path).collect();
    assert_eq!(found.len(), matches);
    Outcome { found, dirs_searched, files_scanned, warnings }
}

fn config(query: &str, mode: SearchMode) -> SearchConfig {
    SearchConfig::new(query.to_string(), "root".to_string(), mode, 1)
}

fn as_set(v: &[String]) -> BTreeSet<String> {
    v.iter().cloned().collect()
}

fn strings(v: &[&str]) -> Vec<String> {
    v.iter().map(|s| s.to_string()).collect()
}

#[test]
fn sample_tree_exact_name_breadth_first() {
    let out = run(&sample_tree(), &config("a.txt", SearchMode::File), 1);
    assert_eq!(
        as_set(&out.found),
        as_set(&strings(&["root/a.txt", "root/sub/a.txt", "root/sub/deep/a.txt"]))
    );
    assert_eq!(out.files_scanned, 5);
    assert_eq!(out.dirs_searched, 3);
    assert_eq!(out.warnings, 0);
}

#[test]
fn sample_tree_suffix_glob_gives_same_set() {
    let literal = run(&sample_tree(), &config("a.txt", SearchMode::File), 1);
    let glob = run(&sample_tree(), &config("*.txt", SearchMode::File), 1);
    assert_eq!(as_set(&literal.found), as_set(&glob.found));
}

#[test]
fn sample_tree_depth_one_leaves_out_deep() {
    let mut c = config("a.txt", SearchMode::File);
    c.max_depth = Some(1);
    let out = run(&sample_tree(), &c, 1);
    assert_eq!(
        as_set(&out.found),
        as_set(&strings(&["root/a.txt", "root/sub/a.txt"]))
    );
    assert_eq!(out.dirs_searched, 2);
}

#[test]
fn depth_limit_boundary() {
    // A directory at exactly the limit is read; one level deeper is not.
    let mut c = config("deep", SearchMode::Directory);
    c.max_depth = Some(1);
    let out = run(&sample_tree(), &c, 1);
    assert_eq!(out.found, strings(&["root/sub/deep"]));
    let mut c = config("a.txt", SearchMode::File);
    c.max_depth = Some(2);
    let out = run(&sample_tree(), &c, 1);
    assert_eq!(out.found.len(), 3);
    let mut c = config("a.txt", SearchMode::File);
    c.max_depth = Some(0);
    let out = run(&sample_tree(), &c, 1);
    assert_eq!(out.found, strings(&["root/a.txt"]));
}

/// root/{x/{x1/m, m}, y/{m}, m}: directories listed before files in x.
fn order_tree() -> Tree {
    let mut dirs = HashMap::new();
    dirs.insert(
        "root".to_string(),
        vec![("x".to_string(), true), ("y".to_string(), true), ("m".to_string(), false)],
    );
    dirs.insert(
        "root/x".to_string(),
        vec![("x1".to_string(), true), ("m".to_string(), false)],
    );
    dirs.insert("root/x/x1".to_string(), vec![("m".to_string(), false)]);
    dirs.insert("root/y".to_string(), vec![("m".to_string(), false)]);
    Tree { dirs }
}

#[test]
fn breadth_first_discovery_order() {
    let out = run(&order_tree(), &config("m", SearchMode::File), 1);
    assert_eq!(
        out.found,
        strings(&["root/m", "root/x/m", "root/y/m", "root/x/x1/m"])
    );
}

#[test]
fn depth_first_discovery_order() {
    let mut c = config("m", SearchMode::File);
    c.breadth_first = false;
    let out = run(&order_tree(), &c, 1);
    assert_eq!(
        out.found,
        strings(&["root/m", "root/x/m", "root/x/x1/m", "root/y/m"])
    );
}

#[test]
fn unreadable_directory_gives_one_warning() {
    let mut tree = sample_tree();
    tree.dirs.get_mut("root").unwrap().push(("locked".to_string(), true));
    let out = run(&tree, &config("a.txt", SearchMode::File), 1);
    assert_eq!(out.warnings, 1);
    assert_eq!(out.found.len(), 3);
    assert_eq!(out.dirs_searched, 4);
}

fn wide_tree() -> Tree {
    let mut dirs = HashMap::new();
    let mut root = Vec::new();
    for i in 0..6 {
        root.push((format!("d{}", i), true));
        root.push((format!("f{}.log", i), false));
        let mut sub = Vec::new();
        for j in 0..5 {
            sub.push((format!("e{}", j), true));
            sub.push((format!("g{}.log", j), false));
            let leaf = vec![("h.log".to_string(), false), ("h.txt".to_string(), false)];
            dirs.insert(format!("root/d{}/e{}", i, j), leaf);
        }
        dirs.insert(format!("root/d{}", i), sub);
    }
    dirs.insert("root".to_string(), root);
    Tree { dirs }
}

#[test]
fn worker_count_does_not_change_results() {
    let tree = wide_tree();
    for breadth_first in [true, false] {
        let mut c = config("*.log", SearchMode::Both);
        c.breadth_first = breadth_first;
        let one = run(&tree, &c, 1);
        let four = run(&tree, &c, 4);
        let sixteen = run(&tree, &c, 16);
        assert_eq!(one.found.len(), 6 + 30 + 30);
        assert_eq!(as_set(&one.found), as_set(&four.found));
        assert_eq!(as_set(&one.found), as_set(&sixteen.found));
        assert_eq!(one.dirs_searched, 37);
        assert_eq!(four.dirs_searched, 37);
        assert_eq!(sixteen.dirs_searched, 37);
        assert_eq!(one.files_scanned, sixteen.files_scanned);
    }
}

#[test]
fn results_come_out_sorted_by_path() {
    let mut f = Frontier::new("root".to_string());
    let rec = |p: &str, is_dir: bool| MatchRecord { path: p.to_string(), is_dir };
    f.record_matches(vec![
        rec("root/zeta", false),
        rec("root/b", true),
        rec("root/a/z", false),
        rec("root/a", true),
        rec("root/b", true),
        rec("root/Z", false),
    ]);
    let sorted = f.into_sorted_results();
    let paths: Vec<String> = sorted.iter().map(|r| r.path.clone()).collect();
    assert_eq!(paths, strings(&["root/Z", "root/a", "root/a/z", "root/b", "root/zeta"]));
    assert!(sorted[3].is_dir);
    assert_eq!(sorted.len(), 5);
    assert!(!sorted[4].is_dir);
}

#[test]
fn many_matches_are_flushed_in_batches() {
    let mut dirs = HashMap::new();
    let items: Vec<(String, bool)> = (0..250).map(|i| (format!("n{}.dat", i), false)).collect();
    dirs.insert("root".to_string(), items);
    let tree = Tree { dirs };
    let out = run(&tree, &config("*.dat", SearchMode::File), 1);
    assert_eq!(out.found.len(), 250);
    assert_eq!(out.files_scanned, 250);
}

#[test]
fn mode_selects_kinds() {
    let tree = sample_tree();
    let dirs_only = run(&tree, &config("*", SearchMode::Directory), 1);
    assert_eq!(as_set(&dirs_only.found), as_set(&strings(&["root/sub", "root/sub/deep"])));
    let both = run(&tree, &config("*", SearchMode::Both), 1);
    assert_eq!(both.found.len(), 5);
    let files = run(&tree, &config("*", SearchMode::File), 1);
    assert_eq!(files.found.len(), 3);
}

#[test]
fn literal_search_ignores_wildcards() {
    let mut c = config("*.txt", SearchMode::File);
    c.use_wildcards = false;
    let out = run(&sample_tree(), &c, 1);
    assert!(out.found.is_empty());
}

#[test]
fn case_insensitive_search() {
    let mut c = config("A.TXT", SearchMode::File);
    let out = run(&sample_tree(), &c, 1);
    assert!(out.found.is_empty());
    c.case_sensitive = false;
    let out = run(&sample_tree(), &c, 1);
    assert_eq!(out.found.len(), 3);
}

#[test]
fn record_matches_twice_counts_once() {
    let mut f = Frontier::new("root".to_string());
    let rec = || MatchRecord { path: "root/a.txt".to_string(), is_dir: false };
    f.record_matches(vec![rec()]);
    assert_eq!(f.snapshot_counts().2, 1);
    f.record_matches(vec![rec()]);
    assert_eq!(f.snapshot_counts().2, 1);
    f.record_matches(vec![rec(), MatchRecord { path: "root/b".to_string(), is_dir: true }, rec()]);
    assert_eq!(f.snapshot_counts().2, 2);
}

#[test]
fn visited_directories_are_claimed_once() {
    let mut f = Frontier::new("root".to_string());
    let start = f.claim_next().unwrap();
    assert_eq!(start.path, "root");
    assert_eq!(start.depth, 0);
    assert!(f.try_claim_visited("root"));
    let again = vec![
        PendingDir { path: "root".to_string(), depth: 0 },
        PendingDir { path: "root/a".to_string(), depth: 1 },
    ];
    f.enqueue(again, true);
    let d = f.claim_next().unwrap();
    assert!(!f.try_claim_visited(&d.path));
    let d = f.claim_next().unwrap();
    assert!(f.try_claim_visited(&d.path));
    assert!(f.claim_next().is_none());
    assert_eq!(f.snapshot_counts(), (2, 0, 0, 0));
}

#[test]
fn enqueue_orders() {
    let dirs = || {
        vec![
            PendingDir { path: "p".to_string(), depth: 1 },
            PendingDir { path: "q".to_string(), depth: 1 },
        ]
    };
    let mut f = Frontier::new("root".to_string());
    f.enqueue(dirs(), true);
    let order: Vec<String> = std::iter::from_fn(|| f.claim_next().map(|d| d.path)).collect();
    assert_eq!(order, strings(&["root", "p", "q"]));
    let mut f = Frontier::new("root".to_string());
    f.enqueue(dirs(), false);
    let order: Vec<String> = std::iter::from_fn(|| f.claim_next().map(|d| d.path)).collect();
    assert_eq!(order, strings(&["p", "q", "root"]));
}

#[test]
fn scan_skips_dot_entries_and_counts_the_rest() {
    let c = config("*", SearchMode::Both);
    let pattern = c.pattern();
    let mut w = Worker::new();
    let dir = PendingDir { path: "root".to_string(), depth: 3 };
    let entries = vec![
        Entry { name: ".".to_string(), path: "root/.".to_string(), is_dir: true },
        Entry { name: "..".to_string(), path: "root/..".to_string(), is_dir: true },
        Entry { name: "s".to_string(), path: "root/s".to_string(), is_dir: true },
        Entry { name: "f".to_string(), path: "root/f".to_string(), is_dir: false },
    ];
    let out = w.scan(&pattern, c.mode, Some(4), &dir, &entries);
    assert_eq!(out.scanned, 2);
    assert_eq!(out.subdirs.len(), 1);
    assert_eq!(out.subdirs[0].path, "root/s");
    assert_eq!(out.subdirs[0].depth, 4);
    assert!(!w.flush_due());
    let batch = w.take_batch();
    let paths: Vec<String> = batch.into_iter().map(|r| r.path).collect();
    assert_eq!(paths, strings(&["root/s", "root/f"]));
    assert!(w.take_batch().is_empty());
    let out = w.scan(&pattern, c.mode, Some(3), &dir, &entries);
    assert!(out.subdirs.is_empty());
}

#[test]
fn dot_entries() {
    assert!(is_dot_entry("."));
    assert!(is_dot_entry(".."));
    assert!(!is_dot_entry("..."));
    assert!(!is_dot_entry(".git"));
    assert!(!is_dot_entry(""));
}

#[test]
fn worker_count_is_clamped() {
    assert_eq!(effective_workers(8, 4), 4);
    assert_eq!(effective_workers(2, 4), 2);
    assert_eq!(effective_workers(0, 4), 1);
    assert_eq!(effective_workers(3, 0), 1);
}

#[test]
fn progress_decisions() {
    assert_eq!(progress_step(0, 5000), ProgressAction::Finish);
    assert_eq!(progress_step(3, 2001), ProgressAction::Report);
    assert_eq!(progress_step(3, 2000), ProgressAction::Wait);
    assert_eq!(progress_step(3, 0), ProgressAction::Wait);
}

#[test]
fn clock_of_day_from_epoch_seconds() {
    assert_eq!(clock_of_day(0), (0, 0, 0));
    assert_eq!(clock_of_day(3661), (1, 1, 1));
    assert_eq!(clock_of_day(86399), (23, 59, 59));
    assert_eq!(clock_of_day(86400 + 45296), (12, 34, 56));
}

#[test]
fn recursive_searcher_reports_each_path_once() {
    let mut s = FileSearch::new();
    assert!(s.note_found("root/a.txt"));
    assert!(!s.note_found("root/a.txt"));
    assert!(s.note_found("root/b.txt"));
    assert!(FileSearch::name_is("a.txt", "a.txt"));
    assert!(!FileSearch::name_is("A.txt", "a.txt"));
}

#[test]
fn claim_reports_each_case() {
    let mut f = Frontier::new("root".to_string());
    f.enqueue(vec![PendingDir { path: "root".to_string(), depth: 0 }], true);
    match f.claim() {
        Claim::Claimed(d) => assert_eq!(d.path, "root"),
        _ => panic!("expected a claim"),
    }
    assert!(matches!(f.claim(), Claim::AlreadyClaimed));
    assert!(matches!(f.claim(), Claim::Exhausted));
    assert_eq!(f.snapshot_counts(), (1, 0, 0, 0));
}

#[test]
fn unreadable_listing_adds_nothing() {
    let c = config("*", SearchMode::Both);
    let pattern = c.pattern();
    let mut f = Frontier::new("root".to_string());
    let mut w = Worker::new();
    let dir = match f.claim() {
        Claim::Claimed(d) => d,
        _ => panic!("expected a claim"),
    };
    f.process_directory(&mut w, &pattern, c.mode, None, true, &dir, None);
    assert_eq!(f.snapshot_counts(), (1, 0, 0, 0));
    assert!(w.take_batch().is_empty());
}
