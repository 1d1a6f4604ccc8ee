use podcasts_remove_ads::dir::{
    is_episode_file_name, is_stale_cutting_file, is_watch_trigger, plan_cut_tasks,
    root_cut_budget, sort_entries_by_key, work_dir_action, WorkDirAction,
};

#[test]
fn episode_file_names() {
    assert!(is_episode_file_name("ep1.mp3"));
    assert!(is_episode_file_name("EP1.MP3"));
    assert!(!is_episode_file_name("ep1_cut.mp3"));
    assert!(!is_episode_file_name("ep1_CUT.Mp3"));
    assert!(!is_episode_file_name("ep1.fp"));
    assert!(!is_episode_file_name("mp3"));
    assert!(is_episode_file_name("épisode.mp3"));
}

#[test]
fn watch_triggers() {
    assert!(is_watch_trigger("mp3", "/pods/a/ep.mp3"));
    assert!(is_watch_trigger("MP3", "/pods/a/ep.MP3"));
    assert!(!is_watch_trigger("mp3", "/pods/a/ep_cut.mp3"));
    assert!(!is_watch_trigger("mp3", "/pods/x_cut.mp3/ep.mp3"));
    assert!(is_watch_trigger("mp3", "/pods/a/ep_CUT.mp3"));
    assert!(!is_watch_trigger("fp", "/pods/a/ep.fp"));
}

#[test]
fn stable_order_by_key() {
    let keys = vec![30, 10, 20, 10, 5];
    assert_eq!(sort_entries_by_key(&keys), vec![4, 1, 3, 2, 0]);
}

#[test]
fn plan_uses_five_neighbours_each_side() {
    let keys: Vec<i64> = (0..12).collect();
    let exists = vec![false; 12];
    let plan = plan_cut_tasks(&keys, &exists, false, 0);
    assert_eq!(plan.tasks.len(), 12);
    assert_eq!(plan.apply_limit, 12);
    assert_eq!(plan.tasks[0].target, 0);
    assert_eq!(plan.tasks[0].refs, vec![1, 2, 3, 4, 5]);
    assert_eq!(plan.tasks[6].refs, vec![1, 2, 3, 4, 5, 7, 8, 9, 10, 11]);
    assert_eq!(plan.tasks[11].refs, vec![6, 7, 8, 9, 10]);
}

#[test]
fn plan_skips_done_files_unless_dry_run() {
    let keys = vec![3, 1, 2];
    let exists = vec![false, true, false];
    let plan = plan_cut_tasks(&keys, &exists, false, 0);
    let targets: Vec<usize> = plan.tasks.iter().map(|t| t.target).collect();
    assert_eq!(targets, vec![2, 0]);
    assert_eq!(plan.tasks[0].refs, vec![1, 0]);
    let dry = plan_cut_tasks(&keys, &exists, true, 2);
    assert_eq!(dry.tasks.len(), 3);
    assert_eq!(dry.apply_limit, 2);
}

#[test]
fn single_episode_has_no_references() {
    let plan = plan_cut_tasks(&vec![7], &vec![false], false, 0);
    assert!(plan.tasks.is_empty());
    assert_eq!(plan.apply_limit, 0);
}

#[test]
fn root_budget() {
    assert_eq!(root_cut_budget(0, 100), Some(0));
    assert_eq!(root_cut_budget(5, 2), Some(3));
    assert_eq!(root_cut_budget(5, 5), None);
    assert_eq!(root_cut_budget(5, 9), None);
}

#[test]
fn stale_cutting_files() {
    let ten_min: u128 = 600_000_000_000;
    assert!(is_stale_cutting_file("episode_cutting.mp3", Some(ten_min + 1)));
    assert!(is_stale_cutting_file("_cutting.mp3", Some(ten_min * 6)));
    assert!(!is_stale_cutting_file("episode_cutting.mp3", Some(ten_min)));
    assert!(!is_stale_cutting_file("episode_cutting.mp3", Some(5)));
    assert!(!is_stale_cutting_file("episode_cutting.mp3", None));
    assert!(!is_stale_cutting_file("episode_CUTTING.mp3", Some(ten_min * 2)));
    assert!(!is_stale_cutting_file("episode_cutting.mp3.bak", Some(ten_min * 2)));
    assert!(!is_stale_cutting_file("episode.mp3", Some(ten_min * 2)));
    assert!(!is_stale_cutting_file("cutting.mp3", Some(ten_min * 2)));
}

#[test]
fn work_dir_actions() {
    assert_eq!(work_dir_action(".work"), WorkDirAction::Clean);
    assert_eq!(work_dir_action(".git"), WorkDirAction::Skip);
    assert_eq!(work_dir_action(".workshop"), WorkDirAction::Skip);
    assert_eq!(work_dir_action("work"), WorkDirAction::Descend);
    assert_eq!(work_dir_action("Podcast A"), WorkDirAction::Descend);
    assert_eq!(work_dir_action(""), WorkDirAction::Descend);
}
