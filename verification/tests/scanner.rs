use code_heatmap::analyzer::git::FrequencyMap;
use code_heatmap::analyzer::mean::{aggregate_metrics, try_aggregate_metrics};
use code_heatmap::analyzer::scanner::{
    build_tree, count_lines, find_unreadable, scan_directory, try_scan_directory, DirEntry,
    EntryKind, Listing,
};
use code_heatmap::data::metrics::{Metrics, Rate, MICRO};
use code_heatmap::data::tree::FileNode;

fn per_day(rate: Rate) -> f64 {
    if rate.window_days == 0 {
        0.0
    } else {
        rate.micro_touches as f64 / (MICRO as f64 * rate.window_days as f64)
    }
}

fn file(name: &str, lines: usize) -> DirEntry {
    DirEntry { name: name.to_string(), kind: EntryKind::File { lines: Some(lines) } }
}

fn unreadable_file(name: &str) -> DirEntry {
    DirEntry { name: name.to_string(), kind: EntryKind::File { lines: None } }
}

fn dir(name: &str, entries: Vec<DirEntry>) -> DirEntry {
    DirEntry {
        name: name.to_string(),
        kind: EntryKind::Directory { listing: Listing::Entries(entries) },
    }
}

fn locked_dir(name: &str) -> DirEntry {
    DirEntry { name: name.to_string(), kind: EntryKind::Directory { listing: Listing::Unreadable } }
}

fn touched(days: usize, touches: &[(&str, u64)]) -> FrequencyMap {
    let mut map = FrequencyMap::new(days);
    for (path, n) in touches {
        for _ in 0..*n {
            map.record_touch(path);
        }
    }
    map
}

fn names(node: &FileNode) -> Vec<&str> {
    node.children.iter().map(|c| c.name.as_str()).collect()
}

#[test]
fn count_lines_counts_lines_as_text_has_them() {
    assert_eq!(count_lines(""), 0);
    assert_eq!(count_lines("a"), 1);
    assert_eq!(count_lines("a\n"), 1);
    assert_eq!(count_lines("a\nb"), 2);
    assert_eq!(count_lines("a\nb\n"), 2);
    assert_eq!(count_lines("\n"), 1);
    assert_eq!(count_lines("\n\n"), 2);
    assert_eq!(count_lines("\n\nx"), 3);
    assert_eq!(count_lines("a\r\nb\r\n"), 2);
    assert_eq!(count_lines("é\nü"), 2);
}

#[test]
fn count_lines_agrees_with_std() {
    let texts = ["", "x", "x\n", "\n", "\r\n", "a\n\nb", "a\r\n\r\nb\r\n", "fn main() {\n}\n", "\r"];
    for text in texts.iter() {
        assert_eq!(count_lines(text), text.lines().count());
    }
}

#[test]
fn end_to_end_root_with_a_file_and_a_subdirectory() {
    let listing = Listing::Entries(vec![file("a.txt", 10), dir("lib", vec![file("b.txt", 60)])]);
    let frequency = touched(30, &[("a.txt", 3)]);
    let root = scan_directory("project", "/work/project", &listing, &frequency).unwrap();

    assert_eq!(root.name, "project");
    assert_eq!(root.path, "/work/project");
    assert!(root.is_dir);
    assert_eq!(root.metrics.lines, 70);
    assert_eq!(names(&root), vec!["lib", "a.txt"]);

    let lib = &root.children[0];
    assert!(lib.is_dir);
    assert_eq!(lib.path, "/work/project/lib");
    assert_eq!(lib.metrics.lines, 60);
    assert_eq!(per_day(lib.metrics.change_frequency), 0.0);
    assert_eq!(lib.metrics.change_frequency_category(), 0);
    assert_eq!(lib.metrics.lines_category(), 1);
    assert_eq!(lib.children.len(), 1);
    assert_eq!(lib.children[0].name, "b.txt");
    assert_eq!(lib.children[0].path, "/work/project/lib/b.txt");
    assert_eq!(lib.children[0].metrics.lines, 60);
    assert_eq!(per_day(lib.children[0].metrics.change_frequency), 0.0);

    let a = &root.children[1];
    assert!(!a.is_dir);
    assert_eq!(a.metrics.lines, 10);
    assert_eq!(per_day(a.metrics.change_frequency), 0.1);
    assert_eq!(a.metrics.change_frequency_category(), 0);
    assert_eq!(a.metrics.lines_category(), 0);

    // the root averages its two children: (0.1 + 0.0) / 2
    assert_eq!(per_day(root.metrics.change_frequency), 0.05);
}

#[test]
fn change_rates_are_looked_up_by_the_path_from_the_root() {
    let listing = Listing::Entries(vec![
        file("main.rs", 5),
        dir("src", vec![file("main.rs", 7), dir("ui", vec![file("app.rs", 9)])]),
    ]);
    let frequency =
        touched(10, &[("main.rs", 1), ("src/main.rs", 20), ("src/ui/app.rs", 40), ("app.rs", 70)]);
    let root = scan_directory("p", ".", &listing, &frequency).unwrap();
    let src = &root.children[0];
    assert_eq!(src.name, "src");
    assert_eq!(per_day(root.children[1].metrics.change_frequency), 0.1);
    assert_eq!(src.children[0].name, "ui");
    assert_eq!(per_day(src.children[0].children[0].metrics.change_frequency), 4.0);
    assert_eq!(src.children[0].children[0].path, "./src/ui/app.rs");
    assert_eq!(per_day(src.children[1].metrics.change_frequency), 2.0);
    // ui holds one file of rate 4.0; src averages ui (4.0) and main.rs (2.0)
    assert_eq!(per_day(src.children[0].metrics.change_frequency), 4.0);
    assert_eq!(per_day(src.metrics.change_frequency), 3.0);
    assert_eq!(src.metrics.change_frequency_category(), 1);
    // the root averages src (3.0) and main.rs (0.1)
    assert_eq!(per_day(root.metrics.change_frequency), 1.55);
    assert_eq!(root.metrics.change_frequency.micro_touches, 1_550_000);
    assert_eq!(root.metrics.change_frequency.window_days, 1);
    assert_eq!(root.metrics.lines, 21);
}

#[test]
fn the_mean_is_exact_where_the_count_does_not_divide_the_sum() {
    // one touch in ten days among three files: a thirtieth of a touch per day
    let listing = Listing::Entries(vec![file("a", 1), file("b", 1), file("c", 1)]);
    let frequency = touched(10, &[("a", 1)]);
    let root = scan_directory("p", "p", &listing, &frequency).unwrap();
    let rate = root.metrics.change_frequency;
    assert_eq!(rate.micro_touches * 30, 1_000_000 * rate.window_days);
    assert_eq!(rate.micro_touches, 100_000);
    assert_eq!(rate.window_days, 3);
}

#[test]
fn directories_without_lines_do_not_count_in_the_mean() {
    let listing = Listing::Entries(vec![
        file("a", 4),
        dir("empty", vec![]),
        dir("blank", vec![file("zero", 0)]),
        dir("full", vec![file("b", 2)]),
    ]);
    let frequency = touched(10, &[("a", 30), ("blank/zero", 50)]);
    let root = scan_directory("p", "p", &listing, &frequency).unwrap();
    assert_eq!(names(&root), vec!["blank", "empty", "full", "a"]);
    // blank holds a touched file without lines: it has a rate, but no lines
    assert_eq!(root.children[0].metrics.lines, 0);
    assert_eq!(per_day(root.children[0].metrics.change_frequency), 5.0);
    assert_eq!(root.children[1].metrics.lines, 0);
    assert_eq!(per_day(root.children[1].metrics.change_frequency), 0.0);
    // the root averages a (3.0) and full (0.0) only
    assert_eq!(per_day(root.metrics.change_frequency), 1.5);
    assert_eq!(root.metrics.lines, 6);
}

#[test]
fn a_directory_without_children_that_count_has_rate_zero() {
    let listing = Listing::Entries(vec![dir("empty", vec![])]);
    let root = scan_directory("p", "p", &listing, &FrequencyMap::new(30)).unwrap();
    assert_eq!(root.metrics.lines, 0);
    assert_eq!(root.metrics.change_frequency.micro_touches, 0);
    assert_eq!(root.children[0].metrics.change_frequency.micro_touches, 0);
    assert_eq!(root.metrics.change_frequency_category(), 0);
}

#[test]
fn hidden_entries_are_left_out() {
    let listing = Listing::Entries(vec![
        locked_dir(".git"),
        file(".gitignore", 3),
        dir(".cache", vec![file("big", 1000)]),
        file("visible", 2),
        dir("src", vec![file(".hidden", 50), file("shown", 1)]),
    ]);
    let root = scan_directory("p", "p", &listing, &FrequencyMap::new(30)).unwrap();
    assert_eq!(names(&root), vec!["src", "visible"]);
    assert_eq!(names(&root.children[0]), vec!["shown"]);
    assert_eq!(root.metrics.lines, 3);
}

#[test]
fn a_directory_that_cannot_be_listed_fails_the_scan() {
    let listing = Listing::Entries(vec![
        file("a", 1),
        dir("ok", vec![file("b", 1)]),
        dir("outer", vec![file("c", 1), locked_dir("locked"), locked_dir("later")]),
        locked_dir("last"),
    ]);
    let error = scan_directory("p", "/p", &listing, &FrequencyMap::new(30)).unwrap_err();
    assert_eq!(error.path, "/p/outer/locked");
}

#[test]
fn a_root_that_cannot_be_listed_fails_the_scan() {
    let error =
        scan_directory("p", "/p", &Listing::Unreadable, &FrequencyMap::new(30)).unwrap_err();
    assert_eq!(error.path, "/p");
}

#[test]
fn a_file_that_cannot_be_read_has_no_lines() {
    let listing = Listing::Entries(vec![unreadable_file("image.png"), file("a", 4)]);
    let frequency = touched(10, &[("image.png", 10)]);
    let root = scan_directory("p", "p", &listing, &frequency).unwrap();
    assert_eq!(names(&root), vec!["a", "image.png"]);
    assert_eq!(root.children[1].metrics.lines, 0);
    assert_eq!(per_day(root.children[1].metrics.change_frequency), 1.0);
    assert_eq!(root.metrics.lines, 4);
    // a file counts in the mean whatever its lines
    assert_eq!(per_day(root.metrics.change_frequency), 0.5);
}

#[test]
fn a_root_that_is_no_directory_has_no_children() {
    let root =
        scan_directory("f", "/p/f", &Listing::NotDirectory, &FrequencyMap::new(30)).unwrap();
    assert!(root.is_dir);
    assert!(root.children.is_empty());
    assert_eq!(root.metrics.lines, 0);
}

#[test]
fn scanned_children_are_ordered_in_every_directory() {
    let listing = Listing::Entries(vec![
        file("z", 1),
        dir("m", vec![file("b", 1), dir("x", vec![]), file("a", 1), dir("c", vec![])]),
        file("A", 1),
        dir("B", vec![]),
        file("a", 1),
    ]);
    let root = scan_directory("p", "p", &listing, &FrequencyMap::new(30)).unwrap();
    assert_eq!(names(&root), vec!["B", "m", "A", "a", "z"]);
    assert_eq!(names(&root.children[1]), vec!["c", "x", "a", "b"]);
}

#[test]
fn scanned_directories_hold_the_lines_of_their_files() {
    let listing = Listing::Entries(vec![
        file("a", 1),
        dir("d", vec![file("b", 20), dir("e", vec![file("c", 300), file("f", 4000)])]),
        dir("g", vec![file("h", 50000)]),
    ]);
    let root = scan_directory("p", "p", &listing, &FrequencyMap::new(30)).unwrap();
    assert_eq!(root.metrics.lines, 54321);
    assert_eq!(root.children[0].metrics.lines, 4320);
    assert_eq!(root.children[0].children[0].metrics.lines, 4300);
    assert_eq!(root.children[1].metrics.lines, 50000);
}

#[test]
fn scanned_nodes_start_expanded() {
    let listing = Listing::Entries(vec![dir("d", vec![file("f", 1)])]);
    let root = scan_directory("p", "p", &listing, &FrequencyMap::new(30)).unwrap();
    assert!(root.is_expanded);
    assert!(root.children[0].is_expanded);
    assert!(root.children[0].children[0].is_expanded);
}

#[test]
fn build_tree_fills_in_the_order_of_the_listing() {
    let listing = Listing::Entries(vec![file("z", 1), dir("d", vec![file("y", 2)]), file("a", 3)]);
    let mut node = FileNode::new("p".to_string(), "p/".to_string(), true);
    let built = build_tree(&mut node, "", &listing, &FrequencyMap::new(30));
    assert!(built);
    assert_eq!(names(&node), vec!["z", "d", "a"]);
    assert_eq!(node.children[1].path, "p/d");
    assert_eq!(node.children[1].metrics.lines, 2);
    // the node itself is left to its caller
    assert_eq!(node.metrics.lines, 0);
}

#[test]
fn aggregate_metrics_sums_lines_and_averages_rates() {
    let mut node = FileNode::new("d".to_string(), "d".to_string(), true);
    let mut a = FileNode::new("a".to_string(), "d/a".to_string(), false);
    a.metrics = Metrics::new(10, Rate::from_touches(6, 3));
    let mut b = FileNode::new("b".to_string(), "d/b".to_string(), false);
    b.metrics = Metrics::new(5, Rate::from_touches(3, 3));
    let mut empty = FileNode::new("e".to_string(), "d/e".to_string(), true);
    empty.metrics = Metrics::new(0, Rate::from_touches(9, 3));
    node.add_child(a);
    node.add_child(empty);
    node.add_child(b);
    let metrics = aggregate_metrics(&node);
    assert_eq!(metrics.lines, 15);
    assert_eq!(metrics.change_frequency.micro_touches, 1_500_000);
    assert_eq!(metrics.change_frequency.window_days, 1);
    assert_eq!(per_day(metrics.change_frequency), 1.5);
}

#[test]
fn aggregate_metrics_of_no_children_is_empty() {
    let node = FileNode::new("d".to_string(), "d".to_string(), true);
    let metrics = aggregate_metrics(&node);
    assert_eq!(metrics.lines, 0);
    assert_eq!(metrics.change_frequency.micro_touches, 0);
    assert_eq!(metrics.change_frequency.window_days, 0);
}

#[test]
fn checked_lines_sums_what_is_not_hidden() {
    let listing = Listing::Entries(vec![
        file("a", 10),
        file(".b", 100),
        unreadable_file("c"),
        dir("d", vec![file("e", 5), locked_dir("f")]),
        dir(".g", vec![file("h", 1000)]),
    ]);
    assert_eq!(listing.checked_lines(), Some(15));
    assert_eq!(Listing::Unreadable.checked_lines(), Some(0));
    assert_eq!(Listing::NotDirectory.checked_lines(), Some(0));
}

#[test]
fn checked_lines_tells_when_the_sum_does_not_fit() {
    let fits = Listing::Entries(vec![file("a", usize::MAX - 1), dir("d", vec![file("b", 1)])]);
    assert_eq!(fits.checked_lines(), Some(usize::MAX));
    let too_many = Listing::Entries(vec![file("a", usize::MAX), dir("d", vec![file("b", 1)])]);
    assert_eq!(too_many.checked_lines(), None);
    let nested = Listing::Entries(vec![dir("d", vec![file("a", usize::MAX), file("b", 1)])]);
    assert_eq!(nested.checked_lines(), None);
}

fn rated(name: &str, micro_touches: u128, window_days: u128) -> FileNode {
    let mut node = FileNode::new(name.to_string(), name.to_string(), false);
    node.metrics = Metrics::new(1, Rate { micro_touches, window_days });
    node
}

fn mean_of(children: Vec<FileNode>) -> Rate {
    let mut node = FileNode::new("d".to_string(), "d".to_string(), true);
    for child in children {
        node.add_child(child);
    }
    aggregate_metrics(&node).change_frequency
}

#[test]
fn the_mean_of_rates_over_different_windows_is_their_mean() {
    // one touch per day and three touches per thousand days: 1003/2000 per day
    let mean = mean_of(vec![rated("a", 1_000_000, 1), rated("b", 3_000_000, 1000)]);
    assert_eq!(mean.micro_touches * 2000, 1003 * 1_000_000 * mean.window_days);
    assert_eq!(per_day(mean), 0.5015);
}

#[test]
fn the_mean_does_not_depend_on_the_order_of_the_children() {
    let one = mean_of(vec![rated("a", 1_000_000, 1), rated("b", 3_000_000, 1000)]);
    let other = mean_of(vec![rated("b", 3_000_000, 1000), rated("a", 1_000_000, 1)]);
    assert_eq!(one.micro_touches, other.micro_touches);
    assert_eq!(one.window_days, other.window_days);
    let three = mean_of(vec![rated("x", 7, 3), rated("y", 5, 4), rated("z", 1, 6)]);
    let turned = mean_of(vec![rated("z", 1, 6), rated("x", 7, 3), rated("y", 5, 4)]);
    assert_eq!(three.micro_touches, turned.micro_touches);
    assert_eq!(three.window_days, turned.window_days);
    // (7/3 + 5/4 + 1/6) / 3 = 45/36 = 5/4 millionths of a touch per day
    assert_eq!(three.micro_touches * 4, 5 * three.window_days);
}

#[test]
fn a_rate_over_no_window_counts_as_zero_in_the_mean() {
    let fresh = FileNode::new("new".to_string(), "new".to_string(), false);
    let mean = mean_of(vec![fresh, rated("b", 2_000_000, 1)]);
    assert_eq!(per_day(mean), 1.0);
    let other = mean_of(vec![rated("b", 2_000_000, 1), rated("void", 9, 0)]);
    assert_eq!(per_day(other), 1.0);
}

#[test]
fn the_mean_lies_between_the_rates() {
    let mean = mean_of(vec![rated("a", 1_000_000, 7), rated("b", 9_000_000, 11)]);
    // 1/7 <= mean <= 9/11, by cross multiplication
    assert!(1_000_000 * mean.window_days <= mean.micro_touches * 7);
    assert!(mean.micro_touches * 11 <= 9_000_000 * mean.window_days);
}

#[test]
fn the_mean_is_held_in_lowest_terms() {
    let mean = mean_of(vec![rated("a", 4_000_000, 30), rated("b", 2_000_000, 30)]);
    // (4/30 + 2/30) / 2 = 1/10 of a touch per day
    assert_eq!(mean.micro_touches, 100_000);
    assert_eq!(mean.window_days, 1);
    let zero = mean_of(vec![rated("a", 0, 30), rated("b", 0, 7)]);
    assert_eq!(zero.micro_touches, 0);
    assert_eq!(zero.window_days, 1);
}

#[test]
fn a_mean_that_cannot_be_held_is_not_given() {
    let mut node = FileNode::new("d".to_string(), "d".to_string(), true);
    node.add_child(rated("a", u128::MAX, 5));
    node.add_child(rated("b", u128::MAX, 5));
    assert!(try_aggregate_metrics(&node).is_none());
    let mut wide = FileNode::new("d".to_string(), "d".to_string(), true);
    wide.add_child(rated("a", 1, u128::MAX));
    wide.add_child(rated("b", 1, u128::MAX - 1));
    assert!(try_aggregate_metrics(&wide).is_none());
    let mut fine = FileNode::new("d".to_string(), "d".to_string(), true);
    fine.add_child(rated("a", u128::MAX, 5));
    let metrics = try_aggregate_metrics(&fine).unwrap();
    assert_eq!(metrics.change_frequency.micro_touches * 5, u128::MAX / 5 * 5 * metrics.change_frequency.window_days);
}

#[test]
fn try_scan_directory_gives_what_scan_directory_gives() {
    let listing = Listing::Entries(vec![file("a.txt", 10), dir("lib", vec![file("b.txt", 60)])]);
    let frequency = touched(30, &[("a.txt", 3)]);
    let tree = try_scan_directory("p", "/p", &listing, &frequency).unwrap().unwrap();
    assert_eq!(tree.metrics.lines, 70);
    assert_eq!(names(&tree), vec!["lib", "a.txt"]);
    assert_eq!(per_day(tree.metrics.change_frequency), 0.05);
    let locked = Listing::Entries(vec![locked_dir("x")]);
    let error = try_scan_directory("p", "/p", &locked, &frequency).unwrap().unwrap_err();
    assert_eq!(error.path, "/p/x");
}

#[test]
fn try_scan_directory_tells_when_the_tree_cannot_be_held() {
    let too_many = Listing::Entries(vec![file("a", usize::MAX), file("b", 1)]);
    assert!(try_scan_directory("p", "p", &too_many, &FrequencyMap::new(30)).is_none());
    // an unreadable directory does not hide that the lines do not fit
    let both = Listing::Entries(vec![locked_dir("x"), file("a", usize::MAX), file("b", 1)]);
    assert!(try_scan_directory("p", "p", &both, &FrequencyMap::new(30)).is_none());
}

#[test]
fn find_unreadable_names_the_first_directory_that_could_not_be_listed() {
    let listing = Listing::Entries(vec![
        locked_dir(".hidden"),
        dir("a", vec![file("f", 1), dir("b", vec![locked_dir("c")])]),
        locked_dir("d"),
    ]);
    assert_eq!(find_unreadable(&listing, "/r"), Some("/r/a/b/c".to_string()));
    assert_eq!(find_unreadable(&Listing::Unreadable, "/r"), Some("/r".to_string()));
    assert_eq!(find_unreadable(&Listing::NotDirectory, "/r"), None);
    assert_eq!(find_unreadable(&Listing::Entries(vec![file("f", 1)]), "/r"), None);
}
