use code_heatmap::data::metrics::{Metrics, Rate};
use code_heatmap::data::order::stands_before;
use code_heatmap::data::tree::FileNode;

fn file(name: &str, path: &str) -> FileNode {
    FileNode::new(name.to_string(), path.to_string(), false)
}

fn dir(name: &str, path: &str, children: Vec<FileNode>) -> FileNode {
    let mut node = FileNode::new(name.to_string(), path.to_string(), true);
    for child in children {
        node.add_child(child);
    }
    node
}

fn sample() -> FileNode {
    dir(
        "root",
        "root",
        vec![
            file("b.txt", "root/b.txt"),
            dir(
                "lib",
                "root/lib",
                vec![
                    file("z.rs", "root/lib/z.rs"),
                    dir("deep", "root/lib/deep", vec![file("x.rs", "root/lib/deep/x.rs")]),
                    file("a.rs", "root/lib/a.rs"),
                ],
            ),
            file("a.txt", "root/a.txt"),
            dir("Docs", "root/Docs", vec![]),
        ],
    )
}

fn paths(node: &FileNode) -> Vec<(usize, String)> {
    let mut rows = Vec::new();
    node.flatten(0, &mut rows);
    rows.iter().map(|(depth, n)| (*depth, n.path.clone())).collect()
}

fn row(depth: usize, path: &str) -> (usize, String) {
    (depth, path.to_string())
}

#[test]
fn new_node_is_expanded_and_empty() {
    let node = FileNode::new("src".to_string(), "/p/src".to_string(), true);
    assert_eq!(node.name, "src");
    assert_eq!(node.path, "/p/src");
    assert!(node.is_dir);
    assert!(node.is_expanded);
    assert!(node.children.is_empty());
    assert_eq!(node.metrics.lines, 0);
    assert_eq!(node.metrics.change_frequency.micro_touches, 0);
}

#[test]
fn add_child_appends_in_order() {
    let mut node = FileNode::new("src".to_string(), "src".to_string(), true);
    node.add_child(file("b", "src/b"));
    node.add_child(file("a", "src/a"));
    assert_eq!(node.children.len(), 2);
    assert_eq!(node.children[0].name, "b");
    assert_eq!(node.children[1].name, "a");
}

#[test]
fn flatten_walks_in_pre_order_with_depths() {
    let tree = sample();
    assert_eq!(
        paths(&tree),
        vec![
            row(0, "root"),
            row(1, "root/b.txt"),
            row(1, "root/lib"),
            row(2, "root/lib/z.rs"),
            row(2, "root/lib/deep"),
            row(3, "root/lib/deep/x.rs"),
            row(2, "root/lib/a.rs"),
            row(1, "root/a.txt"),
            row(1, "root/Docs"),
        ]
    );
}

#[test]
fn flatten_starts_at_the_given_depth_and_appends() {
    let tree = dir("d", "d", vec![file("f", "d/f")]);
    let other = file("o", "o");
    let mut rows = Vec::new();
    other.flatten(7, &mut rows);
    tree.flatten(3, &mut rows);
    let seen: Vec<(usize, &str)> = rows.iter().map(|(d, n)| (*d, n.path.as_str())).collect();
    assert_eq!(seen, vec![(7, "o"), (3, "d"), (4, "d/f")]);
}

#[test]
fn a_collapsed_directory_shows_no_children() {
    let mut tree = sample();
    tree.children[1].is_expanded = false;
    assert_eq!(
        paths(&tree),
        vec![
            row(0, "root"),
            row(1, "root/b.txt"),
            row(1, "root/lib"),
            row(1, "root/a.txt"),
            row(1, "root/Docs"),
        ]
    );
}

#[test]
fn a_collapsed_root_shows_only_itself() {
    let mut tree = sample();
    tree.is_expanded = false;
    assert_eq!(paths(&tree), vec![row(0, "root")]);
}

#[test]
fn a_file_shows_no_children_whatever_it_holds() {
    let mut odd = file("f", "f");
    odd.children.push(file("g", "f/g"));
    assert_eq!(paths(&odd), vec![row(0, "f")]);
}

#[test]
fn flatten_with_lines_marks_last_siblings_and_ancestors() {
    let tree = sample();
    let mut rows = Vec::new();
    tree.flatten_with_lines(0, true, &[], &mut rows);
    let seen: Vec<(usize, &str, bool, Vec<bool>)> =
        rows.iter().map(|(d, n, last, lines)| (*d, n.path.as_str(), *last, lines.clone())).collect();
    assert_eq!(
        seen,
        vec![
            (0, "root", true, vec![]),
            (1, "root/b.txt", false, vec![false]),
            (1, "root/lib", false, vec![false]),
            (2, "root/lib/z.rs", false, vec![false, true]),
            (2, "root/lib/deep", false, vec![false, true]),
            (3, "root/lib/deep/x.rs", true, vec![false, true, true]),
            (2, "root/lib/a.rs", true, vec![false, true]),
            (1, "root/a.txt", false, vec![false]),
            (1, "root/Docs", true, vec![false]),
        ]
    );
}

#[test]
fn ancestor_flags_are_as_many_as_the_depth() {
    let mut tree = sample();
    tree.children[1].children[1].is_expanded = false;
    let mut rows = Vec::new();
    tree.flatten_with_lines(0, true, &[], &mut rows);
    assert_eq!(rows.len(), 8);
    for (depth, _, _, lines) in rows.iter() {
        assert_eq!(lines.len(), *depth);
    }
}

#[test]
fn flatten_with_lines_visits_what_flatten_visits() {
    let mut tree = sample();
    tree.children[1].is_expanded = false;
    let mut plain = Vec::new();
    tree.flatten(0, &mut plain);
    let mut lined = Vec::new();
    tree.flatten_with_lines(0, true, &[], &mut lined);
    assert_eq!(plain.len(), lined.len());
    for i in 0..plain.len() {
        assert_eq!(plain[i].0, lined[i].0);
        assert_eq!(plain[i].1.path, lined[i].1.path);
    }
}

#[test]
fn flatten_with_lines_passes_the_given_flags_on() {
    let tree = dir("d", "d", vec![file("f", "d/f")]);
    let mut rows = Vec::new();
    tree.flatten_with_lines(2, false, &[true, false], &mut rows);
    assert_eq!(rows[0].0, 2);
    assert!(!rows[0].2);
    assert_eq!(rows[0].3, vec![true, false]);
    assert_eq!(rows[1].0, 3);
    assert!(rows[1].2);
    assert_eq!(rows[1].3, vec![true, false, true]);
}

#[test]
fn sort_children_puts_directories_first_then_names() {
    let mut tree = sample();
    tree.sort_children();
    assert_eq!(
        paths(&tree),
        vec![
            row(0, "root"),
            row(1, "root/Docs"),
            row(1, "root/lib"),
            row(2, "root/lib/deep"),
            row(3, "root/lib/deep/x.rs"),
            row(2, "root/lib/a.rs"),
            row(2, "root/lib/z.rs"),
            row(1, "root/a.txt"),
            row(1, "root/b.txt"),
        ]
    );
}

#[test]
fn sort_children_is_case_sensitive() {
    let mut tree = dir(
        "r",
        "r",
        vec![file("b", "r/b"), file("B", "r/B"), file("a", "r/a"), file("_", "r/_"), file("A", "r/A")],
    );
    tree.sort_children();
    let names: Vec<&str> = tree.children.iter().map(|c| c.name.as_str()).collect();
    assert_eq!(names, vec!["A", "B", "_", "a", "b"]);
}

#[test]
fn sort_children_keeps_equals_in_their_order() {
    let mut tree = dir(
        "r",
        "r",
        vec![
            file("same", "first"),
            file("other", "x"),
            file("same", "second"),
            file("same", "third"),
        ],
    );
    tree.sort_children();
    let seen: Vec<&str> = tree.children.iter().map(|c| c.path.as_str()).collect();
    assert_eq!(seen, vec!["x", "first", "second", "third"]);
}

#[test]
fn sort_children_keeps_flags_and_metrics() {
    let mut tree = sample();
    tree.children[1].is_expanded = false;
    tree.children[0].metrics = Metrics::new(12, Rate::from_touches(3, 30));
    tree.sort_children();
    assert_eq!(tree.children[1].name, "lib");
    assert!(!tree.children[1].is_expanded);
    assert_eq!(tree.children[3].name, "b.txt");
    assert_eq!(tree.children[3].metrics.lines, 12);
    assert_eq!(tree.children[3].metrics.change_frequency.micro_touches, 3_000_000);
}

#[test]
fn sort_children_of_a_leaf_changes_nothing() {
    let mut leaf = file("f", "f");
    leaf.sort_children();
    assert!(leaf.children.is_empty());
    assert_eq!(leaf.name, "f");
}

#[test]
fn directories_stand_before_files() {
    let d = dir("z", "z", vec![]);
    let f = file("a", "a");
    assert!(stands_before(&d, &f));
    assert!(!stands_before(&f, &d));
    assert!(stands_before(&f, &file("a", "other")));
    assert!(stands_before(&f, &file("b", "b")));
    assert!(!stands_before(&file("b", "b"), &f));
}

#[test]
fn toggle_flips_the_directory_with_the_path() {
    let mut tree = sample();
    assert!(tree.toggle("root/lib"));
    assert!(!tree.children[1].is_expanded);
    assert!(tree.is_expanded);
    assert!(tree.children[1].children[1].is_expanded);
    assert!(tree.children[3].is_expanded);
    assert!(tree.toggle("root/lib"));
    assert!(tree.children[1].is_expanded);
}

#[test]
fn toggle_of_a_file_changes_nothing() {
    let mut tree = sample();
    assert!(tree.toggle("root/a.txt"));
    assert!(tree.children[2].is_expanded);
    assert_eq!(paths(&tree), paths(&sample()));
}

#[test]
fn toggle_of_an_unknown_path_changes_nothing() {
    let mut tree = sample();
    assert!(!tree.toggle("root/nowhere"));
    assert!(!tree.toggle(""));
    assert_eq!(paths(&tree), paths(&sample()));
    let mut rows = Vec::new();
    tree.flatten(0, &mut rows);
    for (_, node) in rows.iter() {
        assert!(node.is_expanded);
    }
}

#[test]
fn toggle_takes_the_first_node_with_the_path() {
    let mut tree = dir(
        "r",
        "r",
        vec![
            dir("a", "dup", vec![dir("inner", "dup", vec![])]),
            dir("b", "dup", vec![]),
        ],
    );
    assert!(tree.toggle("dup"));
    assert!(!tree.children[0].is_expanded);
    assert!(tree.children[0].children[0].is_expanded);
    assert!(tree.children[1].is_expanded);
}

#[test]
fn toggle_reaches_a_node_below_a_collapsed_directory() {
    let mut tree = sample();
    tree.children[1].is_expanded = false;
    assert!(tree.toggle("root/lib/deep"));
    assert!(!tree.children[1].children[1].is_expanded);
    assert!(!tree.children[1].is_expanded);
}

#[test]
fn toggle_of_the_root_flips_the_root() {
    let mut tree = sample();
    assert!(tree.toggle("root"));
    assert!(!tree.is_expanded);
    assert_eq!(paths(&tree), vec![row(0, "root")]);
}

#[test]
fn collapsing_removes_the_descendants_and_nothing_else() {
    let mut tree = sample();
    let before = paths(&tree);
    tree.toggle("root/lib");
    let after = paths(&tree);
    let expected: Vec<(usize, String)> =
        before.iter().filter(|(_, p)| !p.starts_with("root/lib/")).cloned().collect();
    assert_eq!(after, expected);
    assert_eq!(before.len() - after.len(), 4);
}

#[test]
fn checked_height_counts_the_levels() {
    assert_eq!(file("f", "f").checked_height(), Some(1));
    assert_eq!(dir("d", "d", vec![]).checked_height(), Some(1));
    assert_eq!(sample().checked_height(), Some(4));
    let mut collapsed = sample();
    collapsed.is_expanded = false;
    assert_eq!(collapsed.checked_height(), Some(4));
}

#[test]
fn a_clone_is_the_same_tree() {
    let mut tree = sample();
    tree.children[1].is_expanded = false;
    let copy = tree.clone();
    assert_eq!(paths(&copy), paths(&tree));
    assert!(!copy.children[1].is_expanded);
    assert_eq!(copy.children[1].children.len(), 3);
    assert_eq!(copy.children[1].children[1].children[0].path, "root/lib/deep/x.rs");
    // the copy is a tree of its own
    tree.toggle("root/lib");
    assert!(!copy.children[1].is_expanded);
    assert!(tree.children[1].is_expanded);
}

#[test]
fn a_node_without_shown_children_is_flattened_at_any_depth() {
    let leaf = file("f", "f");
    let mut rows = Vec::new();
    leaf.flatten(usize::MAX, &mut rows);
    assert_eq!(rows.len(), 1);
    assert_eq!(rows[0].0, usize::MAX);
    let mut collapsed = sample();
    collapsed.is_expanded = false;
    let mut lined = Vec::new();
    collapsed.flatten_with_lines(usize::MAX, true, &[], &mut lined);
    assert_eq!(lined.len(), 1);
    assert_eq!(lined[0].0, usize::MAX);
}

#[test]
fn depth_fits_goes_by_what_is_shown() {
    let tree = sample();
    // the tree shows four levels: its deepest row is three below the root
    assert!(tree.depth_fits(0));
    assert!(tree.depth_fits(usize::MAX - 3));
    assert!(!tree.depth_fits(usize::MAX - 2));
    let mut collapsed = sample();
    collapsed.children[1].is_expanded = false;
    assert!(collapsed.depth_fits(usize::MAX - 1));
    assert!(!collapsed.depth_fits(usize::MAX));
    assert!(file("f", "f").depth_fits(usize::MAX));
}

#[test]
fn try_flatten_appends_or_leaves_the_rows_as_they_are() {
    let tree = sample();
    let mut rows = Vec::new();
    assert!(tree.try_flatten(usize::MAX - 3, &mut rows));
    assert_eq!(rows.len(), 9);
    assert_eq!(rows[5].0, usize::MAX);
    assert!(!tree.try_flatten(usize::MAX - 2, &mut rows));
    assert_eq!(rows.len(), 9);
    let mut lined = Vec::new();
    assert!(!tree.try_flatten_with_lines(usize::MAX, true, &[], &mut lined));
    assert!(lined.is_empty());
    assert!(tree.try_flatten_with_lines(0, true, &[], &mut lined));
    assert_eq!(lined.len(), 9);
    for (depth, _, _, lines) in lined.iter() {
        assert_eq!(lines.len(), *depth);
    }
}
