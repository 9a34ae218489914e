use clippy_lib::state::{HideOnClose, InitialPath};
use clippy_lib::storage::{
    initial_path, is_openable_arg, is_video_file, list_newest_first, mark_opened, plan_prune, prune_outcome,
    stale_cache_files, was_opened, PruneCandidate, SavedReplay, StorageUsage,
};

#[test]
fn video_files_by_extension() {
    assert!(is_video_file("a.MP4"));
    assert!(is_video_file("b.webm"));
    assert!(is_video_file("c.m4v"));
    assert!(!is_video_file("notes.txt"));
    assert!(!is_video_file("mp4"));
}

#[test]
fn usage_report_saturates() {
    let u = StorageUsage::from_measurements("d".into(), 10, 2, 30, 100);
    assert_eq!((u.other_bytes, u.total_bytes), (70, 110));
    let u = StorageUsage::from_measurements("d".into(), u64::MAX, 1, 5, 1);
    assert_eq!((u.other_bytes, u.total_bytes), (0, u64::MAX));
}

fn replay(name: &str, t: i64) -> SavedReplay {
    SavedReplay { path: format!("/v/{name}"), name: name.into(), size_bytes: 1, modified_secs: t }
}

#[test]
fn listing_is_newest_first_and_stable() {
    let items = vec![replay("a", 5), replay("b", 9), replay("c", 5), replay("d", 1)];
    let names: Vec<String> = list_newest_first(&items, None).into_iter().map(|r| r.name).collect();
    assert_eq!(names, vec!["b", "a", "c", "d"]);
    let names: Vec<String> = list_newest_first(&items, Some(2)).into_iter().map(|r| r.name).collect();
    assert_eq!(names, vec!["b", "a"]);
}

fn cand(path: &str, size: u64, mtime_ms: u64, opened: bool) -> PruneCandidate {
    PruneCandidate { path: path.into(), size, mtime_ms, opened }
}

const DAY_MS: u64 = 86_400_000;

#[test]
fn prune_removes_unkept_then_oldest_until_under_cap() {
    let now = 100 * DAY_MS;
    let c = vec![
        cand("old-unopened", 10, 10 * DAY_MS, false),
        cand("old-opened", 20, 11 * DAY_MS, true),
        cand("mid", 30, 50 * DAY_MS, false),
        cand("new", 40, 99 * DAY_MS, false),
        cand("writing", 50, now - 1_000, false),
    ];
    assert_eq!(plan_prune(&c, now, None, Some(30)), vec![0, 2]);
    assert_eq!(plan_prune(&c, now, Some(50), Some(30)), vec![0, 2, 1]);
    assert_eq!(plan_prune(&c, now, Some(1_000), None), Vec::<usize>::new());
    assert_eq!(plan_prune(&c, now, Some(0), None), vec![0, 1, 2, 3]);
}

#[test]
fn prune_report_counts_what_went() {
    let c = vec![cand("a", 5, 0, false), cand("b", 7, 0, false)];
    let r = prune_outcome(&c, &vec![0, 1], &vec![true, false], false);
    assert_eq!((r.freed_bytes, r.removed_count, r.removed_paths.clone()), (5, 1, vec!["a".to_string()]));
    let r = prune_outcome(&c, &vec![0, 1], &vec![false, false], true);
    assert_eq!((r.freed_bytes, r.removed_count), (12, 2));
    assert!(r.dry_run);
}

#[test]
fn initial_path_from_arguments() {
    assert!(is_openable_arg("C:\\v\\a.AVI"));
    assert!(!is_openable_arg("--flag.mp4"));
    let args: Vec<String> = vec!["app.exe".into(), "-x".into(), "a.txt".into(), "b.mkv".into(), "c.mp4".into()];
    assert_eq!(initial_path(&args, &vec![true, true, true, false, true]), Some("c.mp4".into()));
    assert_eq!(initial_path(&args, &vec![true; 5]), Some("b.mkv".into()));
    assert_eq!(initial_path(&args, &vec![false; 5]), None);
}

#[test]
fn opened_index_marks_once() {
    let idx = vec!["C:\\clips\\a.mp4".to_string()];
    assert_eq!(mark_opened(&idx, "C:\\clips\\a.mp4"), None);
    assert_eq!(
        mark_opened(&idx, "C:\\clips\\b.mp4"),
        Some(vec!["C:\\clips\\a.mp4".to_string(), "C:\\clips\\b.mp4".to_string()])
    );
    assert!(was_opened(&idx, "C:\\clips\\a.mp4", None));
    assert!(was_opened(&idx, "clips/a.mp4", Some("C:\\clips\\a.mp4")));
    assert!(!was_opened(&idx, "clips/b.mp4", Some("C:\\clips\\b.mp4")));
    assert!(!was_opened(&Vec::new(), "x", None));
}

#[test]
fn stale_cache_by_age() {
    let day: u64 = 86_400_000;
    let now = 10 * day;
    let mtimes = vec![0, 3 * day - 1, 3 * day, 9 * day, now + 5];
    assert_eq!(stale_cache_files(&mtimes, now, 7), vec![0, 1]);
    assert_eq!(stale_cache_files(&mtimes, now, 0), vec![0, 1, 2, 3]);
    assert_eq!(stale_cache_files(&mtimes, now, 11), Vec::<usize>::new());
}

#[test]
fn initial_path_is_handed_out_once() {
    let mut p = InitialPath::new(Some("C:\\v\\a.mp4".to_string()));
    assert_eq!(p.take(), Some("C:\\v\\a.mp4".to_string()));
    assert_eq!(p.take(), None);
    let h = HideOnClose::new(false);
    assert!(!h.enabled());
    h.set(true);
    assert!(h.enabled());
}
