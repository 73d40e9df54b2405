use std::cell::Cell;
use std::collections::{BTreeMap, BTreeSet, HashMap, HashSet};

use nyoom::{Action, Engine, Listing, StatOutcome, Step, WalkError, WalkResults, Walker};

const DIR_MODE: u32 = 0o040755;
const FILE_MODE: u32 = 0o100644;
const LINK_MODE: u32 = 0o120777;

/// One entry of an in-memory filesystem.
#[derive(Clone)]
enum Node {
    File,
    Link,
    Dir,
    /// A directory that may be stat-ed but not opened.
    LockedDir,
    /// An entry whose link-stat is refused.
    Hidden,
    /// A directory whose listing fails part-way, after its first name.
    BrokenDir,
    /// A directory whose listing fails outright with an OS error.
    FailingDir,
    /// An entry whose link-stat fails with an OS error.
    FailingStat,
    /// An entry deleted before its link-stat.
    Gone,
    /// A directory deleted between its link-stat and its listing.
    GoneDir,
}

struct MemFs {
    nodes: HashMap<Vec<u8>, Node>,
    children: HashMap<Vec<u8>, Vec<Vec<u8>>>,
}

impl MemFs {
    fn new() -> MemFs {
        MemFs { nodes: HashMap::new(), children: HashMap::new() }
    }

    fn add(&mut self, path: &str, node: Node) {
        let bytes = path.as_bytes().to_vec();
        if let Some(cut) = bytes.iter().rposition(|b| *b == b'/') {
            let parent = bytes[..cut].to_vec();
            let name = bytes[cut + 1..].to_vec();
            self.children.entry(parent).or_default().push(name);
        }
        self.nodes.insert(bytes, node);
    }

    fn lstat(&self, path: &[u8]) -> StatOutcome {
        match self.nodes.get(path) {
            None => StatOutcome::NotFound,
            Some(Node::File) => StatOutcome::Mode(FILE_MODE),
            Some(Node::Link) => StatOutcome::Mode(LINK_MODE),
            Some(Node::Hidden) => StatOutcome::AccessDenied,
            Some(Node::FailingStat) => StatOutcome::Failed(5),
            Some(Node::Gone) => StatOutcome::NotFound,
            Some(_) => StatOutcome::Mode(DIR_MODE),
        }
    }

    fn names(&self, path: &[u8]) -> Vec<Vec<u8>> {
        self.children.get(path).cloned().unwrap_or_default()
    }

    fn list(&self, path: &[u8]) -> Listing {
        match self.nodes.get(path) {
            None => Listing::NotFound,
            Some(Node::LockedDir) => Listing::AccessDenied,
            Some(Node::GoneDir) => Listing::NotFound,
            Some(Node::FailingDir) => Listing::Failed(5),
            Some(Node::BrokenDir) => {
                let mut names = self.names(path);
                names.truncate(1);
                Listing::Entries { names, complete: false }
            }
            Some(_) => Listing::Entries { names: self.names(path), complete: true },
        }
    }
}

/// What one simulated worker does next.
enum Todo {
    Next,
    Stat(Vec<u8>),
    Act(Action),
    Stopped,
}

/// Runs a walk over `fs`, its workers taking turns one step each.
fn run<O: Copy, V: Fn(Vec<u8>, bool) -> O>(
    walker: &Walker,
    fs: &MemFs,
    root: &str,
    visitor: V,
) -> Result<WalkResults<O>, WalkError> {
    let workers = walker.num_threads();
    let mut engine: Engine<O> = walker.start(root.as_bytes().to_vec());
    let mut todo: Vec<Todo> = (0..workers).map(|_| Todo::Next).collect();
    loop {
        let mut stopped = 0;
        for w in 0..workers {
            let next = match std::mem::replace(&mut todo[w], Todo::Next) {
                Todo::Next => match engine.next_task(w) {
                    Step::Task(p) => Todo::Stat(p),
                    Step::Wait => Todo::Next,
                    Step::Finished => Todo::Stopped,
                },
                Todo::Stat(p) => Todo::Act(engine.classified(w, fs.lstat(&p))?),
                Todo::Act(Action::List(p)) => Todo::Act(engine.listed(w, fs.list(&p))?),
                Todo::Act(Action::Visit(p, is_dir)) => {
                    let out = visitor(p, is_dir);
                    engine.visited(w, out)?;
                    Todo::Next
                }
                Todo::Act(Action::Skip) => Todo::Next,
                Todo::Stopped => Todo::Stopped,
            };
            if let Todo::Stopped = next {
                stopped += 1;
            }
            todo[w] = next;
        }
        if stopped == workers {
            return Ok(engine.into_results());
        }
    }
}

/// A plain recursive walk over `fs`, to compare against.
fn reference_walk(fs: &MemFs, path: &[u8], out: &mut BTreeMap<Vec<u8>, bool>) {
    match fs.lstat(path) {
        StatOutcome::Mode(m) if m & 0o170000 == 0o040000 => {
            out.insert(path.to_vec(), true);
            if let Listing::Entries { names, .. } = fs.list(path) {
                for n in names {
                    let mut c = path.to_vec();
                    c.push(b'/');
                    c.extend_from_slice(&n);
                    reference_walk(fs, &c, out);
                }
            }
        }
        StatOutcome::Mode(_) => {
            out.insert(path.to_vec(), false);
        }
        _ => {}
    }
}

fn key_set<O>(r: &WalkResults<O>) -> BTreeSet<Vec<u8>> {
    r.paths.iter().map(|(p, _)| p.clone()).collect()
}

fn s(p: &str) -> Vec<u8> {
    p.as_bytes().to_vec()
}

/// A tree of 69 entries, files and directories mixed, under `./a`.
fn sixty_nine() -> MemFs {
    let mut fs = MemFs::new();
    fs.add("./a", Node::Dir);
    let mut count = 1;
    for d in 0..4 {
        let dir = format!("./a/d{}", d);
        fs.add(&dir, Node::Dir);
        count += 1;
        for sub in 0..3 {
            let subdir = format!("{}/s{}", dir, sub);
            fs.add(&subdir, Node::Dir);
            count += 1;
            for f in 0..4 {
                fs.add(&format!("{}/f{}", subdir, f), Node::File);
                count += 1;
            }
        }
    }
    for f in 0..4 {
        fs.add(&format!("./a/top{}", f), Node::File);
        count += 1;
    }
    assert_eq!(count, 69);
    fs
}

#[test]
fn test_walk() {
    let fs = sixty_nine();
    let out = run(&Walker::default(), &fs, "./a", |_path, _is_dir| {}).unwrap();
    assert_eq!(69, out.paths.len());
}

#[test]
fn test_walk_ordered() {
    let fs = sixty_nine();
    let out = run(&Walker::default(), &fs, "./a", |_path, _is_dir| {}).unwrap();
    assert_eq!(69, out.paths_ordered().len());
}

#[test]
fn empty_root_directory() {
    let mut fs = MemFs::new();
    fs.add("root", Node::Dir);
    let out = run(&Walker::new(2), &fs, "root", |_p, d| d).unwrap();
    assert_eq!(out.paths.len(), 1);
    assert_eq!(out.get(&s("root")), Some(true));
    assert_eq!(out.total_path_sizes, 4);
}

#[test]
fn single_file_root() {
    let mut fs = MemFs::new();
    fs.add("notes.txt", Node::File);
    let out = run(&Walker::new(3), &fs, "notes.txt", |_p, d| d).unwrap();
    assert_eq!(out.paths.len(), 1);
    assert_eq!(out.get(&s("notes.txt")), Some(false));
    assert_eq!(out.total_path_sizes, 9);
}

#[test]
fn missing_root_is_fatal() {
    let fs = MemFs::new();
    let r = run(&Walker::new(2), &fs, "nowhere", |_p, d| d);
    assert!(matches!(r, Err(WalkError::RootInaccessible)));
}

#[test]
fn inaccessible_root_is_fatal() {
    let mut fs = MemFs::new();
    fs.add("secret", Node::Hidden);
    let r = run(&Walker::new(2), &fs, "secret", |_p, d| d);
    assert!(matches!(r, Err(WalkError::RootInaccessible)));
}

#[test]
fn nested_tree_sorted_keys_and_flags() {
    let mut fs = MemFs::new();
    fs.add("root", Node::Dir);
    fs.add("root/a", Node::File);
    fs.add("root/b", Node::Dir);
    fs.add("root/b/c", Node::File);
    let out = run(&Walker::new(4), &fs, "root", |_p, d| d).unwrap();
    let ordered = out.paths_ordered();
    let keys: Vec<Vec<u8>> = ordered.iter().map(|(p, _)| p.clone()).collect();
    let flags: Vec<bool> = ordered.iter().map(|(_, d)| *d).collect();
    assert_eq!(keys, vec![s("root"), s("root/a"), s("root/b"), s("root/b/c")]);
    assert_eq!(flags, vec![true, false, true, false]);
    assert_eq!(out.total_path_sizes, 4 + 6 + 6 + 8);
}

#[test]
fn locked_directory_kept_without_children() {
    let mut fs = MemFs::new();
    fs.add("root", Node::Dir);
    fs.add("root/locked", Node::LockedDir);
    fs.add("root/locked/x", Node::File);
    fs.add("root/open", Node::Dir);
    fs.add("root/open/y", Node::File);
    let out = run(&Walker::new(2), &fs, "root", |_p, d| d).unwrap();
    let keys = key_set(&out);
    assert!(keys.contains(&s("root")));
    assert_eq!(out.get(&s("root/locked")), Some(true));
    assert!(!keys.contains(&s("root/locked/x")));
    assert!(keys.contains(&s("root/open/y")));
    assert_eq!(keys.len(), 4);
}

#[test]
fn visitor_output_is_recorded() {
    let mut fs = MemFs::new();
    fs.add("root", Node::Dir);
    fs.add("root/a", Node::File);
    fs.add("root/b", Node::File);
    let out = run(&Walker::new(2), &fs, "root", |_p, d| d).unwrap();
    assert_eq!(out.get(&s("root/a")), Some(false));
    assert_eq!(out.get(&s("root")), Some(true));
    assert_eq!(out.get(&s("root/zzz")), None);
}

#[test]
fn thousand_files_eight_threads_twice() {
    let mut fs = MemFs::new();
    fs.add("big", Node::Dir);
    for i in 0..999 {
        fs.add(&format!("big/f{}", i), Node::File);
    }
    let first = run(&Walker::new(8), &fs, "big", |_p, d| d).unwrap();
    let second = run(&Walker::new(8), &fs, "big", |_p, d| d).unwrap();
    assert_eq!(first.paths.len(), 1000);
    assert_eq!(key_set(&first), key_set(&second));
}

#[test]
fn matches_reference_walk() {
    let mut fs = sixty_nine();
    fs.add("./a/link", Node::Link);
    fs.add("./a/hidden", Node::Hidden);
    fs.add("./a/d0/locked", Node::LockedDir);
    fs.add("./a/d0/locked/inner", Node::File);
    let out = run(&Walker::new(3), &fs, "./a", |_p, d| d).unwrap();
    let mut expected = BTreeMap::new();
    reference_walk(&fs, b"./a", &mut expected);
    let got: BTreeMap<Vec<u8>, bool> = out.paths.iter().cloned().collect();
    assert_eq!(got, expected);
    assert_eq!(got.get(&s("./a/link")), Some(&false));
    assert!(!got.contains_key(&s("./a/hidden")));
}

#[test]
fn keys_are_distinct_and_metric_matches() {
    let fs = sixty_nine();
    let out = run(&Walker::new(4), &fs, "./a", |_p, d| d).unwrap();
    let distinct: HashSet<&Vec<u8>> = out.paths.iter().map(|(p, _)| p).collect();
    assert_eq!(distinct.len(), out.paths.len());
    let sum: u64 = out.paths.iter().map(|(p, _)| p.len() as u64).sum();
    assert_eq!(out.total_path_sizes, sum);
}

#[test]
fn same_result_for_any_thread_count() {
    let fs = sixty_nine();
    let cpus = Walker::default().num_threads();
    let base = key_set(&run(&Walker::new(1), &fs, "./a", |_p, d| d).unwrap());
    for n in [2, 4, cpus] {
        let other = key_set(&run(&Walker::new(n), &fs, "./a", |_p, d| d).unwrap());
        assert_eq!(base, other);
    }
}

#[test]
fn visitor_called_once_per_path() {
    let fs = sixty_nine();
    let calls = Cell::new(0usize);
    let out = run(&Walker::new(5), &fs, "./a", |_p, d| {
        calls.set(calls.get() + 1);
        d
    })
    .unwrap();
    assert_eq!(calls.get(), out.paths.len());
}

#[test]
fn deep_linear_tree() {
    let mut fs = MemFs::new();
    let mut path = String::from("r");
    fs.add(&path, Node::Dir);
    for _ in 0..10_000 {
        path.push_str("/d");
        fs.add(&path, Node::Dir);
    }
    let out = run(&Walker::new(2), &fs, "r", |_p, d| d).unwrap();
    assert_eq!(out.paths.len(), 10_001);
}

#[test]
fn wide_directory() {
    let mut fs = MemFs::new();
    fs.add("w", Node::Dir);
    for i in 0..100_000 {
        fs.add(&format!("w/{}", i), Node::File);
    }
    let out = run(&Walker::new(4), &fs, "w", |_p, d| d).unwrap();
    assert_eq!(out.paths.len(), 100_001);
    assert_eq!(out.get(&s("w/99999")), Some(false));
}

#[test]
fn partial_listing_keeps_names_read() {
    let mut fs = MemFs::new();
    fs.add("root", Node::Dir);
    fs.add("root/broken", Node::BrokenDir);
    fs.add("root/broken/a", Node::File);
    fs.add("root/broken/b", Node::File);
    let out = run(&Walker::new(2), &fs, "root", |_p, d| d).unwrap();
    let keys = key_set(&out);
    assert!(keys.contains(&s("root/broken")));
    assert!(keys.contains(&s("root/broken/a")));
    assert!(!keys.contains(&s("root/broken/b")));
}

#[test]
fn failed_listing_is_fatal() {
    let mut fs = MemFs::new();
    fs.add("root", Node::Dir);
    fs.add("root/bad", Node::FailingDir);
    let r = run(&Walker::new(2), &fs, "root", |_p, d| d);
    assert!(matches!(r, Err(WalkError::ListFailed(5))));
}

#[test]
fn failed_stat_is_fatal() {
    let mut fs = MemFs::new();
    fs.add("root", Node::Dir);
    fs.add("root/bad", Node::FailingStat);
    let r = run(&Walker::new(2), &fs, "root", |_p, d| d);
    assert!(matches!(r, Err(WalkError::StatFailed(5))));
}

#[test]
fn inaccessible_entries_are_dropped() {
    let mut fs = MemFs::new();
    fs.add("root", Node::Dir);
    fs.add("root/hidden", Node::Hidden);
    fs.add("root/kept", Node::File);
    let out = run(&Walker::new(2), &fs, "root", |_p, d| d).unwrap();
    assert_eq!(key_set(&out), [s("root"), s("root/kept")].into_iter().collect());
}

#[test]
fn vanished_entries_are_dropped() {
    let mut fs = MemFs::new();
    fs.add("root", Node::Dir);
    fs.add("root/gone", Node::Gone);
    fs.add("root/gonedir", Node::GoneDir);
    fs.add("root/gonedir/x", Node::File);
    fs.add("root/kept", Node::File);
    let out = run(&Walker::new(2), &fs, "root", |_p, d| d).unwrap();
    assert_eq!(key_set(&out), [s("root"), s("root/kept")].into_iter().collect());
    assert_eq!(out.total_path_sizes, 4 + 9);
}

fn task(step: Step) -> Vec<u8> {
    match step {
        Step::Task(p) => p,
        _ => panic!("expected a task"),
    }
}

#[test]
fn workers_take_local_then_injector_then_peers() {
    let mut engine: Engine<bool> = Walker::new(2).start(s("r"));
    assert_eq!(task(engine.next_task(0)), s("r"));
    assert!(matches!(engine.next_task(1), Step::Wait));
    assert!(matches!(engine.classified(0, StatOutcome::Mode(DIR_MODE)), Ok(Action::List(_))));
    let names = vec![s("a"), s("b"), s("c")];
    let listing = Listing::Entries { names, complete: true };
    assert!(matches!(engine.listed(0, listing), Ok(Action::Visit(_, true))));
    assert_eq!(engine.visited(0, true), Ok(()));
    // Worker 1 steals half of the injector's three tasks: it runs the first
    // and keeps the second in its deque.
    assert_eq!(task(engine.next_task(1)), s("r/a"));
    // Worker 0 finds its deque empty and takes what is left in the injector.
    assert_eq!(task(engine.next_task(0)), s("r/c"));
    assert!(matches!(engine.classified(0, StatOutcome::Mode(FILE_MODE)), Ok(Action::Visit(_, false))));
    assert_eq!(engine.visited(0, false), Ok(()));
    // Now worker 0 steals from its peer's deque.
    assert_eq!(task(engine.next_task(0)), s("r/b"));
    assert!(matches!(engine.classified(0, StatOutcome::NotFound), Ok(Action::Skip)));
    // Worker 1 still holds r/a: worker 0 must wait, not stop.
    assert!(matches!(engine.next_task(0), Step::Wait));
    assert!(matches!(engine.classified(1, StatOutcome::Mode(FILE_MODE)), Ok(Action::Visit(_, false))));
    assert_eq!(engine.visited(1, false), Ok(()));
    assert!(matches!(engine.next_task(0), Step::Finished));
    assert!(matches!(engine.next_task(1), Step::Finished));
    let out = engine.into_results();
    assert_eq!(key_set(&out), [s("r"), s("r/a"), s("r/c")].into_iter().collect());
    assert_eq!(out.total_path_sizes, 1 + 3 + 3);
}
