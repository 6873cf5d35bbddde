use timemd::blocks::{edited_block, DayBlock};
use timemd::clock::{CalendarDate, Moment, TimeOfDay};
use timemd::error::{Error, ParseErrorKind};
use timemd::ids::{ProjectSlug, TodoId};
use timemd::minutes::Minutes;
use timemd::project::{upserted_project, Color, Mark, Milestone, Project, ProjectStatus};
use timemd::settings::zone_or_utc;
use timemd::todo::{added_todo, status_flags, Priority, Stamp, TodoStatus};

fn at(hours: u32, minutes: u32) -> TimeOfDay {
    TimeOfDay::from_hms(hours, minutes, 0).expect("valid time")
}

fn today() -> CalendarDate {
    CalendarDate::from_ymd(2026, 8, 1).expect("valid date")
}

fn slug(text: &str) -> ProjectSlug {
    ProjectSlug::new(text).expect("valid slug")
}

fn lunch() -> DayBlock {
    DayBlock::parse("12:00-13:00 [[timemd]] Lunch !5m").expect("parses")
}

#[test]
fn editing_a_block_changes_only_the_fields_given() {
    let edited = edited_block(&lunch(), None, Some(at(13, 30)), None, Some("  Long lunch ".to_owned()), None);
    assert_eq!(edited.start, at(12, 0));
    assert_eq!(edited.end, at(13, 30));
    assert_eq!(edited.project, Some(slug("timemd")));
    assert_eq!(edited.title, "Long lunch");
    assert_eq!(edited.remind_before, Some(Minutes::new(5)));
}

#[test]
fn editing_a_block_can_clear_its_project_and_reminder() {
    let edited = edited_block(&lunch(), None, None, Some(None), None, Some(None));
    assert_eq!(edited.project, None);
    assert_eq!(edited.remind_before, None);
    assert_eq!(edited.title, "Lunch");
}

#[test]
fn upserting_a_missing_project_creates_it_named_by_its_slug() {
    let project = upserted_project(None, slug("thesis"), today(), None, None, None, None, None, None).expect("created");
    assert_eq!(project.name, "thesis");
    assert_eq!(project.mark, Mark::Square);
    assert_eq!(project.status, ProjectStatus::Active);
    assert_eq!(project.created, Some(today()));
}

#[test]
fn upserting_an_existing_project_changes_only_the_fields_given() {
    let existing = Project::new(slug("thesis"), "Thesis", today());
    let color = Color::new("#112233").expect("valid colour");
    let project = upserted_project(
        Some(existing),
        slug("thesis"),
        today(),
        None,
        Some(color),
        None,
        Some(Minutes::new(600)),
        Some(ProjectStatus::Archived),
        None,
    )
    .expect("updated");
    assert_eq!(project.name, "Thesis");
    assert_eq!(project.target, Some(Minutes::new(600)));
    assert_eq!(project.status, ProjectStatus::Archived);
    assert_eq!(project.mark, Mark::Square);
    assert!(project.color.is_some());
}

#[test]
fn upserting_milestones_that_share_a_title_is_refused() {
    let twice = vec![
        Milestone::new(false, "Draft").expect("valid"),
        Milestone::new(true, "Draft").expect("valid"),
    ];
    let refused = upserted_project(None, slug("thesis"), today(), None, None, None, None, None, Some(twice));
    assert!(matches!(refused, Err(Error::DuplicateMilestone { .. })));
}

#[test]
fn the_done_undone_and_cancel_flags_stamp_or_clear_dates() {
    assert_eq!(status_flags(true, false, false, today()), (Some(TodoStatus::Done), Some(Some(Stamp::on(today()))), None));
    assert_eq!(status_flags(false, true, false, today()), (Some(TodoStatus::Open), Some(None), Some(None)));
    assert_eq!(
        status_flags(false, false, true, today()),
        (Some(TodoStatus::Cancelled), None, Some(Some(Stamp::on(today()))))
    );
    assert_eq!(status_flags(false, false, false, today()), (None, None, None));
}

#[test]
fn an_added_todo_is_open_created_today_and_drops_a_blank_rule() {
    let todo = added_todo("  Ship it ", Some(slug("timemd")), None, None, None, None, Some("   ".to_owned()), today())
        .expect("added");
    assert_eq!(todo.description(), "Ship it");
    assert_eq!(todo.status, TodoStatus::Open);
    assert_eq!(todo.priority, Priority::Normal);
    assert_eq!(todo.recurrence, None);
    assert_eq!(todo.created, Some(Stamp::on(today())));

    let repeating = added_todo("Water", None, Some(Priority::High), None, None, None, Some("every day".to_owned()), today())
        .expect("added");
    assert_eq!(repeating.recurrence.as_deref(), Some("every day"));
    assert_eq!(repeating.priority, Priority::High);
}

#[test]
fn an_unusable_description_is_refused_when_adding() {
    let refused = added_todo("   ", None, None, None, None, None, None, today());
    assert!(matches!(refused, Err(ParseErrorKind::InvalidTodo { .. })));
}

#[test]
fn a_reported_zone_is_kept_only_when_known() {
    assert_eq!(zone_or_utc(Some("Europe/Berlin".to_owned())), "Europe/Berlin");
    assert_eq!(zone_or_utc(Some("Mars/Olympus".to_owned())), "UTC");
    assert_eq!(zone_or_utc(None), "UTC");
}

#[test]
fn a_minted_id_is_six_base36_symbols_and_depends_on_the_seed_alone() {
    let first = TodoId::mint("Ship it", &[]);
    let again = TodoId::mint("Ship it", &[]);
    assert_eq!(first, again);
    assert_eq!(first.as_str().len(), 6);
    assert!(first.as_str().chars().all(|c| c.is_ascii_digit() || c.is_ascii_lowercase()));
    let next = TodoId::mint("Ship it", &[TodoId::new(first.as_str()).expect("valid")]);
    assert_ne!(next, first);
    assert_eq!(next.as_str().len(), 6);
}

#[test]
fn the_day_after_the_last_of_february_is_one_day_on_and_the_next_weekday() {
    let feb = CalendarDate::from_ymd(2024, 2, 29).expect("leap day");
    let mar = CalendarDate::from_ymd(2024, 3, 1).expect("valid date");
    assert_eq!(mar.weekday(), (feb.weekday() + 1) % 7);
    let late = Moment::new(feb, at(23, 30));
    let early = Moment::new(mar, at(0, 15));
    assert_eq!(early.seconds_since(late), 45 * 60);
    let dec = CalendarDate::from_ymd(2025, 12, 31).expect("valid date");
    let jan = CalendarDate::from_ymd(2026, 1, 1).expect("valid date");
    assert_eq!(Moment::new(jan, at(0, 0)).seconds_since(Moment::new(dec, at(0, 0))), 86400);
}
