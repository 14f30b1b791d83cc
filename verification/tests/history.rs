use code_heatmap::analyzer::git::{
    CommitRecord, FrequencyMap, GitAnalyzer, HistoryWalk, RepositoryError, WalkAction, WalkEvent,
};
use code_heatmap::data::metrics::{Rate, MICRO};

fn per_day(rate: Rate) -> f64 {
    if rate.window_days == 0 {
        0.0
    } else {
        rate.micro_touches as f64 / (MICRO as f64 * rate.window_days as f64)
    }
}

fn commit(parents: usize, paths: &[&str]) -> CommitRecord {
    CommitRecord {
        parent_count: parents,
        changed_paths: paths.iter().map(|p| Some(p.to_string())).collect(),
    }
}

#[test]
fn k_commits_touching_a_file_give_k_over_w() {
    // five commits with a parent touch F, two others do not, the window has 30 days
    let history = vec![
        commit(1, &["F"]),
        commit(1, &["other"]),
        commit(1, &["F", "other"]),
        commit(1, &["F"]),
        commit(1, &[]),
        commit(1, &["F"]),
        commit(1, &["F"]),
        commit(0, &["F"]),
    ];
    let map = GitAnalyzer::new(history).analyze_change_frequency(30);
    assert_eq!(map.touches("F"), 5);
    assert_eq!(map.touches("other"), 2);
    assert_eq!(map.window_days(), 30);
    let rate = map.rate("F");
    assert_eq!(rate.micro_touches, 5_000_000);
    assert_eq!(rate.window_days, 30);
    assert_eq!(per_day(rate), 5.0 / 30.0);
}

#[test]
fn commits_without_parents_touch_nothing() {
    let history = vec![commit(0, &["a", "b"]), commit(0, &["a"])];
    let map = GitAnalyzer::new(history).analyze_change_frequency(30);
    assert_eq!(map.len(), 0);
    assert!(!map.contains("a"));
    assert_eq!(map.touches("a"), 0);
    assert_eq!(per_day(map.rate("a")), 0.0);
}

#[test]
fn commits_without_parents_do_not_use_up_the_limit() {
    // one day allows ten commits: the roots between them are passed over
    let mut history = Vec::new();
    for _ in 0..5 {
        history.push(commit(1, &["f"]));
        history.push(commit(0, &["f"]));
    }
    for _ in 0..5 {
        history.push(commit(1, &["f"]));
    }
    history.push(commit(1, &["f"]));
    let map = GitAnalyzer::new(history).analyze_change_frequency(1);
    assert_eq!(map.touches("f"), 10);
}

#[test]
fn the_walk_stops_at_ten_commits_per_day() {
    let mut history = Vec::new();
    for _ in 0..25 {
        history.push(commit(1, &["f"]));
    }
    history.push(commit(1, &["late"]));
    let map = GitAnalyzer::new(history).analyze_change_frequency(2);
    assert_eq!(map.touches("f"), 20);
    assert!(!map.contains("late"));
    assert_eq!(per_day(map.rate("f")), 10.0);
}

#[test]
fn a_window_of_no_days_reads_no_commit() {
    let history = vec![commit(1, &["f"])];
    let map = GitAnalyzer::new(history).analyze_change_frequency(0);
    assert_eq!(map.len(), 0);
    assert_eq!(map.rate("f").micro_touches, 0);
    assert_eq!(per_day(map.rate("f")), 0.0);
}

#[test]
fn a_merge_commit_counts_once_by_its_first_parent_diff() {
    let history = vec![commit(2, &["merged.rs"]), commit(1, &["merged.rs"])];
    let map = GitAnalyzer::new(history).analyze_change_frequency(30);
    assert_eq!(map.touches("merged.rs"), 2);
}

#[test]
fn the_touch_goes_to_the_path_after_the_change() {
    // a rename is reported under its new path
    let history = vec![commit(1, &["new_name.rs"]), commit(1, &["old_name.rs"])];
    let map = GitAnalyzer::new(history).analyze_change_frequency(30);
    assert_eq!(map.touches("new_name.rs"), 1);
    assert_eq!(map.touches("old_name.rs"), 1);
    assert_eq!(map.len(), 2);
}

#[test]
fn diff_entries_without_a_path_are_passed_over() {
    let history = vec![CommitRecord {
        parent_count: 1,
        changed_paths: vec![None, Some("a".to_string()), None, Some("a".to_string())],
    }];
    let map = GitAnalyzer::new(history).analyze_change_frequency(30);
    assert_eq!(map.len(), 1);
    assert_eq!(map.touches("a"), 2);
}

#[test]
fn an_empty_history_gives_an_empty_map() {
    let map = GitAnalyzer::new(Vec::new()).analyze_change_frequency(30);
    assert_eq!(map.len(), 0);
    assert_eq!(map.window_days(), 30);
}

#[test]
fn frequency_map_counts_touches_per_path() {
    let mut map = FrequencyMap::new(10);
    assert_eq!(map.len(), 0);
    assert!(map.has_room(1));
    map.record_touch("a");
    map.record_touch("b");
    map.record_touch("a");
    assert_eq!(map.touches("a"), 2);
    assert_eq!(map.touches("b"), 1);
    assert_eq!(map.touches("c"), 0);
    assert!(map.contains("a"));
    assert!(!map.contains("c"));
    assert_eq!(map.len(), 2);
    assert_eq!(map.rate("a").micro_touches, 2_000_000);
    assert_eq!(map.rate("a").window_days, 10);
    assert_eq!(per_day(map.rate("a")), 0.2);
    assert_eq!(map.rate("c").micro_touches, 0);
}

#[test]
fn frequency_map_knows_its_room() {
    let map = FrequencyMap::new(10);
    assert!(map.has_room(0));
    assert!(map.has_room(usize::MAX));
    let mut used = FrequencyMap::new(10);
    used.record_touch("a");
    assert!(used.has_room(usize::MAX - 1));
    assert!(!used.has_room(usize::MAX));
}

#[test]
fn record_diff_counts_every_named_entry() {
    let mut map = FrequencyMap::new(7);
    map.record_diff(&vec![Some("x".to_string()), None, Some("y".to_string())]);
    map.record_diff(&vec![Some("x".to_string())]);
    assert_eq!(map.touches("x"), 2);
    assert_eq!(map.touches("y"), 1);
    assert_eq!(map.len(), 2);
}

#[test]
fn the_walk_asks_for_commits_and_diffs_in_turn() {
    let mut walk = HistoryWalk::new(1);
    assert_eq!(walk.expected(), WalkAction::ReadCommit);
    // a root commit is passed over
    assert_eq!(walk.step(WalkEvent::Commit { parent_count: 0 }), WalkAction::ReadCommit);
    // a commit with parents is diffed
    assert_eq!(walk.step(WalkEvent::Commit { parent_count: 2 }), WalkAction::DiffFirstParent);
    let paths = vec![Some("a".to_string())];
    assert!(walk.has_room(paths.len()));
    assert_eq!(walk.step(WalkEvent::Diff { changed_paths: &paths }), WalkAction::ReadCommit);
    assert_eq!(walk.step(WalkEvent::EndOfHistory), WalkAction::Finish);
    let map = walk.finish().unwrap();
    assert_eq!(map.touches("a"), 1);
    assert_eq!(map.window_days(), 1);
}

#[test]
fn the_walk_finishes_when_the_limit_is_reached() {
    let mut walk = HistoryWalk::new(1);
    let paths = vec![Some("a".to_string())];
    for i in 0..10 {
        assert_eq!(walk.expected(), WalkAction::ReadCommit);
        assert_eq!(walk.step(WalkEvent::Commit { parent_count: 1 }), WalkAction::DiffFirstParent);
        let next = walk.step(WalkEvent::Diff { changed_paths: &paths });
        if i < 9 {
            assert_eq!(next, WalkAction::ReadCommit);
        } else {
            assert_eq!(next, WalkAction::Finish);
        }
    }
    // what comes after the end changes nothing
    assert_eq!(walk.step(WalkEvent::Commit { parent_count: 1 }), WalkAction::Finish);
    assert_eq!(walk.step(WalkEvent::Diff { changed_paths: &paths }), WalkAction::Finish);
    assert_eq!(walk.finish().unwrap().touches("a"), 10);
}

#[test]
fn the_walk_over_no_days_finishes_at_once() {
    let walk = HistoryWalk::new(0);
    assert_eq!(walk.expected(), WalkAction::Finish);
    assert_eq!(walk.finish().unwrap().len(), 0);
}

#[test]
fn the_walk_ignores_what_it_did_not_ask_for() {
    let mut walk = HistoryWalk::new(3);
    let paths = vec![Some("a".to_string())];
    // a diff where a commit is expected
    assert_eq!(walk.step(WalkEvent::Diff { changed_paths: &paths }), WalkAction::ReadCommit);
    assert_eq!(walk.step(WalkEvent::Commit { parent_count: 1 }), WalkAction::DiffFirstParent);
    // a commit or the end where a diff is expected
    assert_eq!(walk.step(WalkEvent::Commit { parent_count: 0 }), WalkAction::DiffFirstParent);
    assert_eq!(walk.step(WalkEvent::EndOfHistory), WalkAction::DiffFirstParent);
    assert_eq!(walk.step(WalkEvent::Diff { changed_paths: &paths }), WalkAction::ReadCommit);
    assert_eq!(walk.step(WalkEvent::EndOfHistory), WalkAction::Finish);
    assert_eq!(walk.finish().unwrap().touches("a"), 1);
}

#[test]
fn the_walk_and_the_analyzer_agree() {
    let history = vec![
        commit(1, &["a", "b"]),
        commit(0, &["a"]),
        commit(3, &["b"]),
        commit(1, &["c", "a"]),
    ];
    let mut walk = HistoryWalk::new(30);
    for record in history.iter() {
        if walk.expected() == WalkAction::Finish {
            break;
        }
        let action = walk.step(WalkEvent::Commit { parent_count: record.parent_count });
        if action == WalkAction::DiffFirstParent {
            walk.step(WalkEvent::Diff { changed_paths: &record.changed_paths });
        }
    }
    walk.step(WalkEvent::EndOfHistory);
    let stepped = walk.finish().unwrap();
    let whole = GitAnalyzer::new(history).analyze_change_frequency(30);
    for path in ["a", "b", "c", "d"] {
        assert_eq!(stepped.touches(path), whole.touches(path));
    }
    assert_eq!(whole.touches("a"), 2);
    assert_eq!(whole.touches("b"), 2);
    assert_eq!(whole.touches("c"), 1);
    assert_eq!(stepped.len(), 3);
}

#[test]
fn a_failure_to_read_ends_the_walk_without_a_result() {
    let mut walk = HistoryWalk::new(30);
    let paths = vec![Some("a".to_string())];
    assert_eq!(walk.step(WalkEvent::Commit { parent_count: 1 }), WalkAction::DiffFirstParent);
    assert_eq!(walk.step(WalkEvent::Diff { changed_paths: &paths }), WalkAction::ReadCommit);
    assert_eq!(walk.step(WalkEvent::Failure), WalkAction::Finish);
    // nothing is taken in after the failure
    assert_eq!(walk.step(WalkEvent::Commit { parent_count: 1 }), WalkAction::Finish);
    assert_eq!(walk.finish().err(), Some(RepositoryError));
}

#[test]
fn a_failure_to_diff_ends_the_walk_without_a_result() {
    let mut walk = HistoryWalk::new(30);
    assert_eq!(walk.step(WalkEvent::Commit { parent_count: 1 }), WalkAction::DiffFirstParent);
    assert_eq!(walk.step(WalkEvent::Failure), WalkAction::Finish);
    assert!(walk.finish().is_err());
}

#[test]
fn a_failure_after_the_end_does_not_undo_the_walk() {
    let mut walk = HistoryWalk::new(30);
    assert_eq!(walk.step(WalkEvent::EndOfHistory), WalkAction::Finish);
    assert_eq!(walk.step(WalkEvent::Failure), WalkAction::Finish);
    assert!(walk.finish().is_ok());
}

#[test]
fn the_analyzer_knows_whether_the_history_is_within_limits() {
    assert!(GitAnalyzer::new(Vec::new()).within_limits());
    assert!(GitAnalyzer::new(vec![commit(1, &["a", "b"]), commit(0, &["c"])]).within_limits());
}

#[test]
fn a_walk_that_is_not_over_gives_no_result() {
    let mut walk = HistoryWalk::new(30);
    let paths = vec![Some("a".to_string())];
    assert!(HistoryWalk::new(30).finish().is_err());
    walk.step(WalkEvent::Commit { parent_count: 1 });
    walk.step(WalkEvent::Diff { changed_paths: &paths });
    assert_eq!(walk.expected(), WalkAction::ReadCommit);
    assert_eq!(walk.finish().err(), Some(RepositoryError));
}

#[test]
fn try_analyze_gives_what_analyze_gives() {
    let history = vec![commit(1, &["a", "b"]), commit(0, &["a"]), commit(1, &["a"])];
    let map = GitAnalyzer::new(history).try_analyze_change_frequency(30).unwrap();
    assert_eq!(map.touches("a"), 2);
    assert_eq!(map.touches("b"), 1);
    assert_eq!(map.window_days(), 30);
}

#[test]
fn a_path_that_only_commits_without_parents_list_is_no_key() {
    let history = vec![commit(0, &["only_root"]), commit(1, &["other"]), commit(0, &["only_root"])];
    let map = GitAnalyzer::new(history).try_analyze_change_frequency(30).unwrap();
    assert!(!map.contains("only_root"));
    assert!(map.contains("other"));
}
