use durs::{display_path, write_lines, Options, ReportLine};

fn options(max_depth: i32, threshold: u64, human_readable: bool) -> Options {
    Options { max_depth, threshold, human_readable }
}

#[test]
fn display_path_appends_one_line() {
    let mut out = String::from("before\n");
    display_path("a/b", 1000, 1, &options(3, 0, false), &mut out);
    assert_eq!(out, "before\n        1000 a/b\n");
}

#[test]
fn display_path_human_readable_line() {
    let mut out = String::new();
    display_path("large_file.txt", 1_000_000, 1, &options(3, 0, true), &mut out);
    assert_eq!(out, "    1M large_file.txt\n");
}

#[test]
fn display_path_hides_what_lies_too_deep() {
    let mut out = String::new();
    display_path("deep", 10, 4, &options(3, 0, false), &mut out);
    assert_eq!(out, "");
    display_path("edge", 10, 3, &options(3, 0, false), &mut out);
    assert_eq!(out, "          10 edge\n");
}

#[test]
fn display_path_threshold_is_strict() {
    let mut out = String::new();
    display_path("equal", 100, 0, &options(3, 100, false), &mut out);
    assert_eq!(out, "");
    display_path("above", 101, 0, &options(3, 100, false), &mut out);
    assert_eq!(out, "         101 above\n");
}

#[test]
fn display_path_hides_everything_under_negative_depth() {
    let mut out = String::new();
    display_path("root", 10, 0, &options(-1, 0, false), &mut out);
    assert_eq!(out, "");
}

#[test]
fn display_path_zero_size_never_shows() {
    let mut out = String::new();
    display_path("empty", 0, 0, &options(3, 0, false), &mut out);
    assert_eq!(out, "");
}

#[test]
fn render_gives_size_blank_path_newline() {
    let line = ReportLine { size: 5000, path: "root/dir1".to_string() };
    assert_eq!(line.render(false), "        5000 root/dir1\n");
    assert_eq!(line.render(true), "    5K root/dir1\n");
}

#[test]
fn write_lines_keeps_order() {
    let lines = vec![
        ReportLine { size: 1, path: "a".to_string() },
        ReportLine { size: 2000, path: "b c".to_string() },
    ];
    let mut out = String::new();
    write_lines(&lines, true, &mut out);
    assert_eq!(out, "     1 a\n    2K b c\n");
    write_lines(&Vec::new(), true, &mut out);
    assert_eq!(out, "     1 a\n    2K b c\n");
}
