use durs::walk::{display_dir, walk};
use durs::{Directory, Entry, Options};

fn file(path: &str, len: u64) -> Entry {
    Entry::File { path: path.to_string(), len: Some(len) }
}

fn dir(path: &str, entries: Vec<Entry>) -> Directory {
    Directory { path: path.to_string(), entries: Some(entries) }
}

fn sample_tree(sizes: [u64; 3]) -> Directory {
    dir(
        "root",
        vec![
            file("root/file1.txt", sizes[0]),
            Entry::Dir {
                dir: dir(
                    "root/dir1",
                    vec![
                        file("root/dir1/file2.txt", sizes[1]),
                        Entry::Dir {
                            dir: dir(
                                "root/dir1/dir2",
                                vec![file("root/dir1/dir2/file3.txt", sizes[2])],
                            ),
                        },
                    ],
                ),
            },
        ],
    )
}

#[test]
fn test_basic_directory_scan() {
    let tree = sample_tree([1000, 2000, 3000]);
    let options = Options { max_depth: 3, threshold: 0, human_readable: false };
    let mut stdout = String::new();
    let total = display_dir(&tree, 0, &options, &mut stdout);
    assert_eq!(total, 6000);
    assert!(stdout.contains("6000"));
    assert!(stdout.contains("1000"));
    assert!(stdout.contains("2000"));
    assert!(stdout.contains("3000"));
    assert_eq!(stdout.lines().count(), 6);
}

#[test]
fn walk_reports_children_before_parents() {
    let tree = sample_tree([1000, 2000, 3000]);
    let options = Options { max_depth: 3, threshold: 0, human_readable: false };
    let report = walk(&tree, 0, &options);
    let got: Vec<(u64, &str)> = report.lines.iter().map(|l| (l.size, l.path.as_str())).collect();
    assert_eq!(
        got,
        vec![
            (3000, "root/dir1/dir2/file3.txt"),
            (3000, "root/dir1/dir2"),
            (2000, "root/dir1/file2.txt"),
            (5000, "root/dir1"),
            (1000, "root/file1.txt"),
            (6000, "root"),
        ]
    );
}

fn shown(report: &durs::Report) -> Vec<(u64, String)> {
    report.lines.iter().map(|l| (l.size, l.path.clone())).collect()
}

fn options(max_depth: i32, threshold: u64) -> Options {
    Options { max_depth, threshold, human_readable: false }
}

#[test]
fn test_human_readable_option() {
    let tree = dir("tmp", vec![file("tmp/large_file.txt", 1_000_000)]);
    let options = Options { max_depth: 3, threshold: 0, human_readable: true };
    let mut stdout = String::new();
    display_dir(&tree, 0, &options, &mut stdout);
    assert!(stdout.contains("    1M"));
    assert_eq!(stdout, "    1M tmp/large_file.txt\n    1M tmp\n");
}

#[test]
fn test_max_depth_option() {
    let tree = sample_tree([1000, 1000, 1000]);
    let mut stdout = String::new();
    display_dir(&tree, 0, &options(1, 0), &mut stdout);
    assert_eq!(stdout.lines().count(), 3);
    assert_eq!(
        stdout,
        "        2000 root/dir1\n        1000 root/file1.txt\n        3000 root\n"
    );
}

#[test]
fn max_depth_zero_reports_the_root_only() {
    let tree = sample_tree([1000, 2000, 3000]);
    let report = walk(&tree, 0, &options(0, 0));
    assert_eq!(report.total, 6000);
    assert_eq!(shown(&report), vec![(6000, "root".to_string())]);
    let report = walk(&tree, 0, &options(0, 6000));
    assert_eq!(report.total, 6000);
    assert_eq!(shown(&report), vec![]);
}

#[test]
fn negative_max_depth_reports_nothing() {
    let tree = sample_tree([1000, 2000, 3000]);
    let report = walk(&tree, 0, &options(-1, 0));
    assert_eq!(report.total, 6000);
    assert!(report.lines.is_empty());
    let report = walk(&tree, 0, &options(i32::MIN, 0));
    assert_eq!(report.total, 6000);
    assert!(report.lines.is_empty());
}

#[test]
fn zero_byte_tree_reports_nothing() {
    let tree = sample_tree([0, 0, 0]);
    let report = walk(&tree, 0, &options(3, 0));
    assert_eq!(report.total, 0);
    assert!(report.lines.is_empty());
    let empty = dir("empty", vec![]);
    let report = walk(&empty, 0, &options(3, 0));
    assert_eq!(report.total, 0);
    assert!(report.lines.is_empty());
}

#[test]
fn threshold_is_strict_for_files_and_directories() {
    let tree = sample_tree([1000, 2000, 3000]);
    let report = walk(&tree, 0, &options(3, 3000));
    assert_eq!(
        shown(&report),
        vec![(5000, "root/dir1".to_string()), (6000, "root".to_string())]
    );
    let report = walk(&tree, 0, &options(3, 2999));
    assert_eq!(report.lines.len(), 4);
}

#[test]
fn unreadable_subdirectory_counts_as_nothing() {
    let tree = dir(
        "root",
        vec![
            Entry::Dir { dir: Directory { path: "root/locked".to_string(), entries: None } },
            Entry::Dir { dir: dir("root/open", vec![file("root/open/a", 10)]) },
            file("root/b", 5),
        ],
    );
    let report = walk(&tree, 0, &options(3, 0));
    assert_eq!(report.total, 15);
    assert_eq!(
        shown(&report),
        vec![
            (10, "root/open/a".to_string()),
            (10, "root/open".to_string()),
            (5, "root/b".to_string()),
            (15, "root".to_string()),
        ]
    );
}

#[test]
fn unreadable_root_yields_zero_and_no_line() {
    let root = Directory { path: "gone".to_string(), entries: None };
    let mut out = String::from("kept");
    assert_eq!(display_dir(&root, 0, &options(3, 0), &mut out), 0);
    assert_eq!(out, "kept");
}

#[test]
fn unreadable_files_and_untyped_entries_are_skipped() {
    let tree = dir(
        "root",
        vec![
            Entry::File { path: "root/secret".to_string(), len: None },
            Entry::Unknown { path: "root/odd".to_string() },
            file("root/plain", 42),
        ],
    );
    let report = walk(&tree, 0, &options(3, 0));
    assert_eq!(report.total, 42);
    assert_eq!(
        shown(&report),
        vec![(42, "root/plain".to_string()), (42, "root".to_string())]
    );
}

#[test]
fn subdirectories_come_before_files() {
    let tree = dir(
        "r",
        vec![
            file("r/f1", 1),
            Entry::Dir { dir: dir("r/d1", vec![file("r/d1/x", 10)]) },
            file("r/f2", 2),
            Entry::Dir { dir: dir("r/d2", vec![file("r/d2/y", 20)]) },
        ],
    );
    let report = walk(&tree, 0, &options(1, 0));
    assert_eq!(
        shown(&report),
        vec![
            (10, "r/d1".to_string()),
            (20, "r/d2".to_string()),
            (1, "r/f1".to_string()),
            (2, "r/f2".to_string()),
            (33, "r".to_string()),
        ]
    );
}

#[test]
fn depth_counts_from_the_given_start() {
    let tree = sample_tree([1000, 2000, 3000]);
    let report = walk(&tree, 2, &options(3, 0));
    assert_eq!(
        shown(&report),
        vec![
            (5000, "root/dir1".to_string()),
            (1000, "root/file1.txt".to_string()),
            (6000, "root".to_string()),
        ]
    );
    let report = walk(&tree, i32::MAX, &options(i32::MAX, 0));
    assert_eq!(shown(&report), vec![(6000, "root".to_string())]);
}

#[test]
fn totals_wrap_around_at_64_bits() {
    let tree = dir("big", vec![file("big/a", u64::MAX), file("big/b", 3)]);
    let report = walk(&tree, 0, &options(0, 0));
    assert_eq!(report.total, 2);
    assert_eq!(shown(&report), vec![(2, "big".to_string())]);
}

#[test]
fn walking_twice_gives_the_same_report() {
    let tree = sample_tree([1000, 2000, 3000]);
    let first = walk(&tree, 0, &options(3, 0));
    let second = walk(&tree, 0, &options(3, 0));
    assert_eq!(first.total, second.total);
    assert_eq!(first.lines, second.lines);
}

#[test]
fn wide_directory_keeps_every_entry_in_order() {
    let mut entries = Vec::new();
    let mut expected = Vec::new();
    let mut sum: u64 = 0;
    for i in 1..=500u64 {
        let path = format!("wide/f{}", i);
        entries.push(file(&path, i));
        expected.push((i, path));
        sum += i;
    }
    expected.push((sum, "wide".to_string()));
    let report = walk(&dir("wide", entries), 0, &options(3, 0));
    assert_eq!(report.total, 125_250);
    assert_eq!(shown(&report), expected);
}

#[test]
fn reported_directory_size_is_the_sum_of_its_files() {
    let tree = sample_tree([1000, 2000, 3000]);
    let report = walk(&tree, 0, &options(3, 0));
    let sizes: Vec<u64> = report.lines.iter().map(|l| l.size).collect();
    assert_eq!(sizes, vec![3000, 3000, 2000, 5000, 1000, 6000]);
    assert!(report.lines.iter().all(|l| l.size > 0));
}

#[test]
fn listing_order_changes_neither_total_nor_lines() {
    let one = dir(
        "r",
        vec![
            file("r/a", 1),
            Entry::Dir { dir: dir("r/d", vec![file("r/d/x", 10), file("r/d/y", 20)]) },
            file("r/b", 2),
            Entry::Dir { dir: dir("r/e", vec![file("r/e/z", 30)]) },
        ],
    );
    let other = dir(
        "r",
        vec![
            Entry::Dir { dir: dir("r/e", vec![file("r/e/z", 30)]) },
            file("r/b", 2),
            file("r/a", 1),
            Entry::Dir { dir: dir("r/d", vec![file("r/d/y", 20), file("r/d/x", 10)]) },
        ],
    );
    let first = walk(&one, 0, &options(3, 0));
    let second = walk(&other, 0, &options(3, 0));
    assert_eq!(first.total, 63);
    assert_eq!(second.total, 63);
    let mut a = shown(&first);
    let mut b = shown(&second);
    assert_ne!(a, b);
    a.sort();
    b.sort();
    assert_eq!(a, b);
    assert_eq!(a.len(), 8);
}

#[test]
fn every_reported_size_exceeds_the_threshold() {
    let tree = sample_tree([1000, 2000, 3000]);
    for threshold in [0u64, 999, 1000, 2500, 4999, 5000, 5999, 6000] {
        let report = walk(&tree, 0, &options(3, threshold));
        assert!(report.lines.iter().all(|l| l.size > threshold));
        let sizes = [1000u64, 2000, 3000, 3000, 5000, 6000];
        let expected = sizes.iter().filter(|s| **s > threshold).count();
        assert_eq!(report.lines.len(), expected);
    }
}

#[test]
fn negative_depth_from_the_command_line_hides_everything() {
    let args = vec!["durs".to_string(), "--max-depth=-1".to_string()];
    let (_, options) = durs::parse_args(args).unwrap();
    let tree = sample_tree([1000, 2000, 3000]);
    let mut out = String::new();
    assert_eq!(display_dir(&tree, 0, &options, &mut out), 6000);
    assert_eq!(out, "");
}
