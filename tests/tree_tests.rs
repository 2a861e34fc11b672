use dirsize::flatten::flat_map;
use dirsize::report::{filter_depth, SizeUnit};
use dirsize::sort::{sort_level, sort_tree};
use dirsize::tree::{build_tree, Node, TreeError, WalkEntry};

fn dir(path: &str, depth: usize) -> WalkEntry {
    WalkEntry { path: path.to_string(), depth, is_dir: true, len: 0 }
}

fn file(path: &str, depth: usize, len: u64) -> WalkEntry {
    WalkEntry { path: path.to_string(), depth, is_dir: false, len }
}

fn node(path: &str, depth: usize, size: u64, has_children: bool) -> Node {
    linked(path, depth, size, has_children, 0, 0)
}

fn linked(path: &str, depth: usize, size: u64, has_children: bool, id: usize, parent: usize) -> Node {
    Node { path: path.to_string(), depth, size, has_children, id, parent }
}

fn paths(nodes: &[Node]) -> Vec<&str> {
    nodes.iter().map(|n| n.path.as_str()).collect()
}

fn summary(nodes: &[Node]) -> Vec<(String, usize, u64, bool)> {
    nodes.iter().map(|n| (n.path.clone(), n.depth, n.size, n.has_children)).collect()
}

fn scan(entries: &[WalkEntry]) -> Vec<Node> {
    let mut levels = build_tree(&entries.to_vec()).unwrap();
    sort_tree(&mut levels);
    flat_map(&levels, 0, 0).unwrap()
}

fn render(n: &Node) -> String {
    let unit = SizeUnit::for_size(n.size);
    format!("{} -- {:.2} {}", n.path, n.size as f64 / unit.divisor() as f64, unit.suffix())
}

#[test]
fn end_to_end_two_levels() {
    let entries = vec![dir("/r", 0), file("/r/a", 1, 2000), dir("/r/sub", 1), file("/r/sub/b", 2, 3000)];
    let levels = build_tree(&entries).unwrap();
    assert_eq!(summary(&levels[0]), vec![("/r".to_string(), 0, 5000, true)]);
    assert_eq!(summary(&levels[1]), vec![("/r/sub".to_string(), 1, 3000, false)]);
    let flat = scan(&entries);
    let shown = filter_depth(&flat, 1);
    let lines: Vec<String> = shown.iter().map(render).collect();
    assert_eq!(lines, vec!["/r -- 4.88 KB".to_string(), "/r/sub -- 2.93 KB".to_string()]);
}

#[test]
fn empty_directory_is_kept() {
    let entries = vec![dir("/e", 0)];
    let flat = scan(&entries);
    assert_eq!(summary(&flat), vec![("/e".to_string(), 0, 0, false)]);
    let entries = vec![dir("/r", 0), dir("/r/empty", 1), dir("/r/full", 1), file("/r/full/x", 2, 10)];
    let flat = scan(&entries);
    assert_eq!(
        summary(&flat),
        vec![
            ("/r".to_string(), 0, 10, true),
            ("/r/full".to_string(), 1, 10, false),
            ("/r/empty".to_string(), 1, 0, false),
        ]
    );
}

#[test]
fn sizes_reach_every_ancestor() {
    let entries = vec![
        dir("/r", 0),
        dir("/r/a", 1),
        dir("/r/a/b", 2),
        dir("/r/a/b/c", 3),
        file("/r/a/b/c/f", 4, 7),
        file("/r/a/b/g", 3, 5),
        dir("/r/d", 1),
        file("/r/d/h", 2, 100),
        file("/r/top", 1, 1),
    ];
    let levels = build_tree(&entries).unwrap();
    assert_eq!(levels.len(), 4);
    assert_eq!(levels[0][0].size, 113);
    assert_eq!(summary(&levels[1]), vec![("/r/a".to_string(), 1, 12, true), ("/r/d".to_string(), 1, 100, false)]);
    assert_eq!(levels[2][0].size, 12);
    assert_eq!(levels[3][0].size, 7);
    assert!(!levels[3][0].has_children);
}

#[test]
fn sort_is_descending_and_stable() {
    let mut level = vec![node("a", 1, 5, false), node("b", 1, 9, false), node("c", 1, 5, false), node("d", 1, 0, false), node("e", 1, 9, false)];
    sort_level(&mut level);
    let paths: Vec<&str> = level.iter().map(|n| n.path.as_str()).collect();
    assert_eq!(paths, vec!["b", "e", "a", "c", "d"]);
    for w in level.windows(2) {
        assert!(w[0].size >= w[1].size);
    }
}

#[test]
fn sort_keeps_levels_apart() {
    let mut levels = vec![vec![node("/r", 0, 3, true)], vec![node("/r/x", 1, 1, false), node("/r/y", 1, 2, false)]];
    sort_tree(&mut levels);
    assert_eq!(levels[0][0].path, "/r");
    assert_eq!(levels[1][0].path, "/r/y");
    assert_eq!(levels[1][1].path, "/r/x");
}

#[test]
fn flatten_places_children_after_parent() {
    let entries = vec![
        dir("/r", 0),
        dir("/r/small", 1),
        dir("/r/small/s1", 2),
        file("/r/small/s1/f", 3, 1),
        dir("/r/big", 1),
        dir("/r/big/b1", 2),
        file("/r/big/b1/f", 3, 50),
        dir("/r/big/b2", 2),
        file("/r/big/b2/f", 3, 70),
    ];
    let flat = scan(&entries);
    let paths: Vec<&str> = flat.iter().map(|n| n.path.as_str()).collect();
    assert_eq!(paths, vec!["/r", "/r/big", "/r/big/b2", "/r/big/b1", "/r/small", "/r/small/s1"]);
}

#[test]
fn depth_filter_keeps_order() {
    let flat = vec![node("/r", 0, 3, true), node("/r/a", 1, 2, true), node("/r/a/b", 2, 2, false), node("/r/c", 1, 1, false)];
    let shown = filter_depth(&flat, 1);
    let paths: Vec<&str> = shown.iter().map(|n| n.path.as_str()).collect();
    assert_eq!(paths, vec!["/r", "/r/a", "/r/c"]);
    assert_eq!(filter_depth(&flat, 0).len(), 1);
    assert_eq!(filter_depth(&flat, 5).len(), 4);
}

#[test]
fn unit_boundaries() {
    assert_eq!(SizeUnit::for_size(1_048_576), SizeUnit::Mb);
    assert_eq!(SizeUnit::for_size(1_048_575), SizeUnit::Kb);
    assert_eq!(SizeUnit::for_size(1_073_741_824), SizeUnit::Gb);
    assert_eq!(SizeUnit::for_size(1_073_741_823), SizeUnit::Mb);
    assert_eq!(SizeUnit::for_size(0), SizeUnit::Kb);
    assert_eq!(SizeUnit::Mb.divisor(), 1_048_576);
    assert_eq!(SizeUnit::Gb.suffix(), "GB");
    assert_eq!(SizeUnit::Kb.suffix(), "KB");
}

#[test]
fn root_file_is_refused() {
    let entries = vec![file("/f", 0, 12)];
    assert_eq!(build_tree(&entries).unwrap_err(), TreeError::RootNotDirectory);
}

#[test]
fn orphan_entries_are_refused() {
    let entries = vec![dir("/r", 0), dir("/r/a/b", 2)];
    assert_eq!(build_tree(&entries).unwrap_err(), TreeError::InvariantViolation(2));
    let entries = vec![dir("/r", 0), file("/r/a/b/f", 3, 1)];
    assert_eq!(build_tree(&entries).unwrap_err(), TreeError::InvariantViolation(3));
    let entries = vec![dir("/r/a", 1)];
    assert_eq!(build_tree(&entries).unwrap_err(), TreeError::InvariantViolation(1));
}

#[test]
fn missing_level_is_reported() {
    let levels = vec![vec![node("/r", 0, 0, true)]];
    assert_eq!(flat_map(&levels, 0, 0).unwrap_err(), TreeError::MissingLevel(1));
    let empty: Vec<Vec<Node>> = Vec::new();
    assert_eq!(flat_map(&empty, 0, 0).unwrap_err(), TreeError::MissingLevel(0));
}

#[test]
fn children_are_selected_by_link() {
    let levels = vec![
        vec![linked("/r", 0, 2, true, 0, 0)],
        vec![linked("/r/b", 1, 2, true, 1, 0), linked("/r/a", 1, 1, true, 0, 0)],
        vec![linked("/r/a/x", 2, 1, false, 0, 0), linked("/r/b/y", 2, 2, false, 1, 1)],
    ];
    let flat = flat_map(&levels, 0, 0).unwrap();
    assert_eq!(paths(&flat), vec!["/r", "/r/b", "/r/b/y", "/r/a", "/r/a/x"]);
    assert_eq!(paths(&flat_map(&levels, 2, 1).unwrap()), vec!["/r/b/y"]);
    assert!(flat_map(&levels, 1, 7).unwrap().is_empty());
}

#[test]
fn links_follow_the_walk() {
    let entries = vec![dir("/r", 0), dir("/r/a", 1), dir("/r/a/x", 2), dir("/r/b", 1), dir("/r/b/y", 2), dir("/r/b/z", 2)];
    let levels = build_tree(&entries).unwrap();
    let links: Vec<Vec<(usize, usize)>> = levels.iter().map(|l| l.iter().map(|n| (n.id, n.parent)).collect()).collect();
    assert_eq!(links, vec![vec![(0, 0)], vec![(0, 0), (1, 0)], vec![(0, 0), (1, 1), (2, 1)]]);
}

#[test]
fn prefix_named_siblings_stay_apart() {
    let entries = vec![
        dir("/r", 0),
        dir("/r/a", 1),
        dir("/r/a/x1", 2),
        file("/r/a/x1/f", 3, 30),
        dir("/r/a/x2", 2),
        file("/r/a/x2/f", 3, 10),
        dir("/r/ab", 1),
        dir("/r/ab/x", 2),
        file("/r/ab/x/f", 3, 20),
    ];
    let flat = scan(&entries);
    assert_eq!(paths(&flat), vec!["/r", "/r/a", "/r/a/x1", "/r/a/x2", "/r/ab", "/r/ab/x"]);
    let sizes: Vec<u64> = flat.iter().map(|n| n.size).collect();
    assert_eq!(sizes, vec![60, 40, 30, 10, 20, 20]);
}

#[test]
fn empty_prefix_named_directories_appear_once() {
    let entries = vec![dir("/r", 0), dir("/r/a", 1), dir("/r/a/y", 2), dir("/r/ab", 1), dir("/r/ab/x", 2)];
    let flat = scan(&entries);
    assert_eq!(paths(&flat), vec!["/r", "/r/a", "/r/a/y", "/r/ab", "/r/ab/x"]);
    assert!(flat.iter().all(|n| n.size == 0));
    assert!(!flat[4].has_children);
}

#[test]
fn depth_filter_twice_is_once() {
    let flat = vec![node("/r", 0, 3, true), node("/r/a", 1, 2, true), node("/r/a/b", 2, 2, false), node("/r/c", 1, 1, false)];
    let once = filter_depth(&flat, 1);
    let twice = filter_depth(&once, 1);
    assert_eq!(summary(&once), summary(&twice));
}

#[test]
fn has_children_only_for_child_directories() {
    let entries = vec![
        dir("/r", 0),
        dir("/r/a", 1),
        file("/r/a/f", 2, 4),
        dir("/r/b", 1),
        dir("/r/b/c", 2),
    ];
    let levels = build_tree(&entries).unwrap();
    assert!(levels[0][0].has_children);
    assert!(!levels[1][0].has_children);
    assert!(levels[1][1].has_children);
    assert!(!levels[2][0].has_children);
    assert_eq!(levels[1][0].size, 4);
    assert_eq!(levels[1][1].size, 0);
}

#[test]
fn files_at_root_count_once() {
    let entries = vec![dir("/r", 0), file("/r/x", 1, 1_048_576), file("/r/y", 1, 1)];
    let flat = scan(&entries);
    assert_eq!(flat.len(), 1);
    assert_eq!(flat[0].size, 1_048_577);
    assert_eq!(SizeUnit::for_size(flat[0].size), SizeUnit::Mb);
}
