use code_heatmap::data::tree::FileNode;
use code_heatmap::ui::app::App;

fn file(name: &str, path: &str) -> FileNode {
    FileNode::new(name.to_string(), path.to_string(), false)
}

fn dir(name: &str, path: &str, children: Vec<FileNode>) -> FileNode {
    let mut node = FileNode::new(name.to_string(), path.to_string(), true);
    for child in children {
        node.add_child(child);
    }
    node
}

fn sample() -> App {
    App::new(dir(
        "root",
        "root",
        vec![
            dir(
                "lib",
                "root/lib",
                vec![
                    dir("deep", "root/lib/deep", vec![file("x.rs", "root/lib/deep/x.rs")]),
                    file("a.rs", "root/lib/a.rs"),
                ],
            ),
            file("a.txt", "root/a.txt"),
        ],
    ))
}

fn shown(app: &App) -> Vec<String> {
    app.get_flat_tree().iter().map(|(_, node)| node.path.clone()).collect()
}

fn select(app: &mut App, index: usize) {
    while app.selected_index() > 0 {
        app.move_up();
    }
    for _ in 0..index {
        app.move_down();
    }
    assert_eq!(app.selected_index(), index);
}

#[test]
fn a_new_app_selects_the_first_row() {
    let app = sample();
    assert_eq!(app.selected_index(), 0);
    assert!(!app.should_quit());
    assert_eq!(app.root().name, "root");
}

#[test]
fn quit_asks_for_the_end() {
    let mut app = sample();
    app.quit();
    assert!(app.should_quit());
    assert_eq!(app.selected_index(), 0);
    assert_eq!(shown(&app).len(), 6);
}

#[test]
fn get_flat_tree_starts_with_the_root_at_depth_zero() {
    let app = sample();
    let rows = app.get_flat_tree();
    let seen: Vec<(usize, &str)> = rows.iter().map(|(d, n)| (*d, n.path.as_str())).collect();
    assert_eq!(
        seen,
        vec![
            (0, "root"),
            (1, "root/lib"),
            (2, "root/lib/deep"),
            (3, "root/lib/deep/x.rs"),
            (2, "root/lib/a.rs"),
            (1, "root/a.txt"),
        ]
    );
}

#[test]
fn get_flat_tree_with_lines_starts_with_a_last_root_without_ancestors() {
    let app = sample();
    let rows = app.get_flat_tree_with_lines();
    assert_eq!(rows.len(), 6);
    assert_eq!(rows[0].0, 0);
    assert!(rows[0].2);
    assert!(rows[0].3.is_empty());
    // lib is not the last child of the root, a.txt is
    assert!(!rows[1].2);
    assert!(rows[5].2);
    assert_eq!(rows[3].3, vec![false, true, true]);
    for (depth, _, _, lines) in rows.iter() {
        assert_eq!(lines.len(), *depth);
    }
}

#[test]
fn move_up_stops_at_the_first_row() {
    let mut app = sample();
    app.move_up();
    assert_eq!(app.selected_index(), 0);
    app.move_down();
    app.move_down();
    assert_eq!(app.selected_index(), 2);
    app.move_up();
    assert_eq!(app.selected_index(), 1);
    app.move_up();
    app.move_up();
    assert_eq!(app.selected_index(), 0);
}

#[test]
fn move_down_stops_at_the_last_row() {
    let mut app = sample();
    for _ in 0..20 {
        app.move_down();
    }
    assert_eq!(app.selected_index(), 5);
}

#[test]
fn move_down_goes_by_the_rows_that_are_visible_now() {
    let mut app = sample();
    select(&mut app, 1);
    app.toggle_selected();
    assert_eq!(shown(&app), vec!["root", "root/lib", "root/a.txt"]);
    for _ in 0..20 {
        app.move_down();
    }
    assert_eq!(app.selected_index(), 2);
}

#[test]
fn toggle_selected_collapses_and_expands_the_directory_under_the_cursor() {
    let mut app = sample();
    select(&mut app, 2);
    app.toggle_selected();
    assert_eq!(shown(&app), vec!["root", "root/lib", "root/lib/deep", "root/lib/a.rs", "root/a.txt"]);
    assert_eq!(app.selected_index(), 2);
    app.toggle_selected();
    assert_eq!(shown(&app).len(), 6);
}

#[test]
fn toggle_selected_on_a_file_changes_nothing() {
    let mut app = sample();
    select(&mut app, 5);
    app.toggle_selected();
    assert_eq!(shown(&app).len(), 6);
    assert_eq!(app.selected_index(), 5);
    for (_, node) in app.get_flat_tree().iter() {
        assert!(node.is_expanded);
    }
}

#[test]
fn the_cursor_stays_on_the_row_that_was_toggled() {
    let mut app = sample();
    select(&mut app, 1);
    app.toggle_selected();
    assert_eq!(app.selected_index(), 1);
    assert_eq!(shown(&app)[1], "root/lib");
    assert!(!app.root().children[0].is_expanded);
    app.move_down();
    assert_eq!(app.selected_index(), 2);
    assert_eq!(shown(&app)[2], "root/a.txt");
}

#[test]
fn toggling_a_directory_leaves_the_flags_below_it() {
    let mut app = sample();
    // collapse deep, then collapse and expand lib: deep comes back collapsed
    select(&mut app, 2);
    app.toggle_selected();
    select(&mut app, 1);
    app.toggle_selected();
    assert_eq!(shown(&app), vec!["root", "root/lib", "root/a.txt"]);
    app.toggle_selected();
    assert_eq!(shown(&app), vec!["root", "root/lib", "root/lib/deep", "root/lib/a.rs", "root/a.txt"]);
    assert!(!app.root().children[0].children[0].is_expanded);
    assert!(app.root().children[0].is_expanded);
}

#[test]
fn toggle_selected_on_the_root_row_collapses_the_root() {
    let mut app = sample();
    app.toggle_selected();
    assert_eq!(shown(&app), vec!["root"]);
    app.move_down();
    assert_eq!(app.selected_index(), 0);
    app.toggle_selected();
    assert_eq!(shown(&app).len(), 6);
}
