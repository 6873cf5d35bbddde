use timemd::clock::CalendarDate;
use timemd::ids::ProjectSlug;
use timemd::store::Store;

fn date() -> CalendarDate {
    CalendarDate::from_ymd(2026, 8, 1).expect("valid date")
}

#[test]
fn day_paths_are_grouped_by_year() {
    let store = Store::new("/tmp/tree");
    let path = store.day_path(date());
    assert!(path.ends_with("days/2026/2026-08-01.md"), "{path:?}");
}

#[test]
fn every_file_has_its_own_place_under_the_root() {
    let store = Store::new("/tmp/tree");
    let slug = ProjectSlug::new("timemd").expect("valid slug");
    assert_eq!(store.project_path(&slug), "/tmp/tree/projects/timemd.md");
    assert!(store.recurring_path().ends_with("recurring.md"), "{}", store.recurring_path());
    assert!(store.settings_path().ends_with("settings.md"));
    assert!(store.todos_path().ends_with("todos.md"));
    assert!(store.active_path().starts_with("/tmp/tree/"));
    assert!(store.push_path().ends_with("push.md"));
    assert!(store.ntfy_path().ends_with("ntfy.md"));
}
