use timemd::error::ParseErrorKind;
use timemd::blocks::DayBlock;
use timemd::clock::{CalendarDate, TimeOfDay};
use timemd::day::{Day, Session};
use timemd::ids::{BlockId, ProjectSlug};
use timemd::minutes::Minutes;

fn date() -> CalendarDate {
    CalendarDate::from_ymd(2026, 8, 1).expect("valid date")
}

fn at(hours: u32, minutes: u32) -> TimeOfDay {
    TimeOfDay::from_hms(hours, minutes, 0).expect("valid time")
}

fn slug(text: &str) -> Option<ProjectSlug> {
    Some(ProjectSlug::new(text).expect("valid slug"))
}

const SAMPLE: &str = "---\ndate: 2026-08-01\n---\n\n# 2026-08-01\n\n## Sessions\n\n- 09:00-09:25 (25m) [[timemd]] file store layer\n- 10:30-10:45 (15m) email\n\n## Notes\n\nFree-form prose.\n";

#[test]
fn parses_sessions_with_and_without_a_project() {
    let day = Day::parse(date(), SAMPLE).expect("parses");
    assert_eq!(day.sessions().len(), 2);

    let first = &day.sessions()[0];
    assert_eq!((first.start, first.end), (at(9, 0), at(9, 25)));
    assert_eq!(first.project, slug("timemd"));
    assert_eq!(first.note, "file store layer");

    let second = &day.sessions()[1];
    assert_eq!(second.project, None);
    assert_eq!(second.note, "email");
}

#[test]
fn round_trips_a_canonical_day_byte_for_byte() {
    let day = Day::parse(date(), SAMPLE).expect("parses");
    assert_eq!(day.render(), SAMPLE);
}

#[test]
fn recomputes_the_display_duration_from_the_times() {
    let text = "---\ndate: 2026-08-01\n---\n\n## Sessions\n\n- 09:00-09:25 (99m) [[timemd]] wrong\n";
    let day = Day::parse(date(), text).expect("parses");
    assert_eq!(day.sessions()[0].duration(), Minutes::new(25));
    assert!(day.render().contains("- 09:00-09:25 (25m) [[timemd]] wrong"));
}

#[test]
fn totals_the_day() {
    let day = Day::parse(date(), SAMPLE).expect("parses");
    assert_eq!(day.total(), Minutes::new(40));
}

#[test]
fn sorts_sessions_by_start_time_on_read() {
    let text = "---\ndate: 2026-08-01\n---\n\n## Sessions\n\n- 14:00-14:30 (30m) later\n- 09:00-09:25 (25m) earlier\n";
    let day = Day::parse(date(), text).expect("parses");
    assert_eq!(day.sessions()[0].note, "earlier");
    assert_eq!(day.sessions()[1].note, "later");
}

#[test]
fn keeps_unparseable_lines_and_reports_them() {
    let text = "---\ndate: 2026-08-01\n---\n\n## Sessions\n\n- 09:00-09:25 (25m) [[timemd]] good\n- this line is nonsense\n- 9:00-10:00 bad time format\n";
    let day = Day::parse(date(), text).expect("parses");

    assert_eq!(day.sessions().len(), 1);
    assert_eq!(day.problems().len(), 2);

    let rendered = day.render();
    assert!(rendered.contains("- this line is nonsense"), "{rendered}");
    assert!(rendered.contains("- 9:00-10:00 bad time format"), "{rendered}");
    assert!(rendered.contains("- 09:00-09:25 (25m) [[timemd]] good"), "{rendered}");
}

#[test]
fn preserves_notes_and_agent_authored_sections() {
    let text = "---\ndate: 2026-08-01\nmood: focused\n---\n\n## Sessions\n\n- 09:00-09:25 (25m) [[timemd]] work\n\n## Retrospective\n\nWrote by an agent.\n";
    let mut day = Day::parse(date(), text).expect("parses");
    day.add_session(Session::new(at(11, 0), at(11, 25), slug("timemd"), "more"));

    let rendered = day.render();
    assert!(rendered.contains("mood: focused"), "{rendered}");
    assert!(rendered.contains("## Retrospective\n\nWrote by an agent.\n"), "{rendered}");
    assert!(rendered.contains("- 11:00-11:25 (25m) [[timemd]] more"), "{rendered}");
}

#[test]
fn a_new_day_renders_the_template() {
    let day = Day::new(date());
    assert_eq!(day.render(), "---\ndate: 2026-08-01\n---\n\n# 2026-08-01\n");
    assert_eq!(day.total(), Minutes::new(0));
}

#[test]
fn adding_to_a_new_day_creates_the_sessions_section() {
    let mut day = Day::new(date());
    day.add_session(Session::new(at(9, 0), at(9, 25), slug("timemd"), "first"));
    assert_eq!(
        day.render(),
        "---\ndate: 2026-08-01\n---\n\n# 2026-08-01\n\n## Sessions\n\n- 09:00-09:25 (25m) [[timemd]] first\n"
    );
}

#[test]
fn sessions_land_after_schedule_sections() {
    let text = "---\ndate: 2026-08-01\n---\n\n## Schedule\n\n- 16:00-17:00 talk\n";
    let mut day = Day::parse(date(), text).expect("parses");
    day.add_session(Session::new(at(9, 0), at(9, 25), None, "work"));

    let rendered = day.render();
    let schedule = rendered.find("## Schedule").expect("present");
    let sessions = rendered.find("## Sessions").expect("present");
    assert!(schedule < sessions, "{rendered}");
}

#[test]
fn add_keeps_the_list_sorted() {
    let mut day = Day::new(date());
    day.add_session(Session::new(at(14, 0), at(14, 30), None, "later"));
    day.add_session(Session::new(at(9, 0), at(9, 25), None, "earlier"));
    assert_eq!(day.sessions()[0].note, "earlier");
}

#[test]
fn removes_and_replaces_by_index() {
    let mut day = Day::parse(date(), SAMPLE).expect("parses");

    let replaced = day.replace_session(1, Session::new(at(11, 0), at(11, 30), None, "swapped"));
    assert_eq!(replaced.map(|session| session.note), Some("email".to_owned()));
    assert_eq!(day.sessions()[1].note, "swapped");

    let removed = day.remove_session(0);
    assert_eq!(removed.map(|session| session.note), Some("file store layer".to_owned()));
    assert_eq!(day.sessions().len(), 1);

    assert!(day.remove_session(9).is_none());
    assert!(day
        .replace_session(9, Session::new(at(1, 0), at(2, 0), None, ""))
        .is_none());
}

#[test]
fn a_session_crossing_midnight_stays_on_one_line() {
    let text = "---\ndate: 2026-08-01\n---\n\n## Sessions\n\n- 23:50-00:20 (30m) [[timemd]] late night\n";
    let day = Day::parse(date(), text).expect("parses");
    assert_eq!(day.sessions()[0].duration(), Minutes::new(30));
    assert_eq!(day.render(), text);
}

#[test]
fn a_note_beginning_with_parentheses_survives() {
    let text = "---\ndate: 2026-08-01\n---\n\n## Sessions\n\n- 09:00-09:25 (draft) rewrite the intro\n";
    let day = Day::parse(date(), text).expect("parses");
    assert_eq!(day.sessions()[0].note, "(draft) rewrite the intro");
    assert!(day.render().contains("- 09:00-09:25 (25m) (draft) rewrite the intro"));
}

#[test]
fn removing_every_session_removes_the_section() {
    let text = "---\ndate: 2026-08-01\n---\n\n## Sessions\n\n- 09:00-09:25 (25m) work\n\n## Notes\n\nkeep me\n";
    let mut day = Day::parse(date(), text).expect("parses");
    day.remove_session(0);

    let rendered = day.render();
    assert!(!rendered.contains("## Sessions"), "{rendered}");
    assert!(rendered.contains("keep me"), "{rendered}");
}

#[test]
fn parses_schedule_and_skipped_sections() {
    let text = "---\ndate: 2026-08-01\n---\n\n## Schedule\n\n- 16:00-17:00 [[reading]] Paper club !15m\n\n## Skipped\n\n- `deep-work`\n\n## Sessions\n\n- 09:00-09:25 (25m) [[timemd]] work\n";
    let day = Day::parse(date(), text).expect("parses");

    assert_eq!(day.schedule().len(), 1);
    assert_eq!(day.schedule()[0].title, "Paper club");
    assert_eq!(day.skipped(), &[BlockId::new("deep-work").expect("valid id")]);
    assert_eq!(day.sessions().len(), 1);
    assert_eq!(day.render(), text);
}

#[test]
fn owned_sections_keep_their_canonical_order_when_added_late() {
    let mut day = Day::new(date());
    day.add_session(Session::new(at(9, 0), at(9, 25), None, "work"));
    day.skip(BlockId::new("deep-work").expect("valid id"));
    day.add_block(DayBlock::parse("16:00-17:00 Talk").expect("parses"));

    let rendered = day.render();
    let schedule = rendered.find("## Schedule").expect("present");
    let skipped = rendered.find("## Skipped").expect("present");
    let sessions = rendered.find("## Sessions").expect("present");
    assert!(schedule < skipped && skipped < sessions, "{rendered}");
}

#[test]
fn blocks_are_kept_in_start_order() {
    let mut day = Day::new(date());
    day.add_block(DayBlock::parse("16:00-17:00 Later").expect("parses"));
    day.add_block(DayBlock::parse("09:00-10:00 Earlier").expect("parses"));

    assert_eq!(day.schedule()[0].title, "Earlier");
    assert_eq!(day.remove_block(0).map(|block| block.title), Some("Earlier".to_owned()));
    assert!(day.remove_block(5).is_none());
}

#[test]
fn replaces_a_block_by_index_and_re_sorts() {
    let mut day = Day::new(date());
    day.add_block(DayBlock::parse("09:00-10:00 Earlier").expect("parses"));
    day.add_block(DayBlock::parse("16:00-17:00 Later").expect("parses"));

    let replaced = day.replace_block(0, DayBlock::parse("18:00-19:00 Moved").expect("parses"));
    assert_eq!(replaced.map(|block| block.title), Some("Earlier".to_owned()));

    assert_eq!(day.schedule()[0].title, "Later");
    assert_eq!(day.schedule()[1].title, "Moved");

    assert!(day
        .replace_block(9, DayBlock::parse("08:00-09:00 Nowhere").expect("parses"))
        .is_none());
}

#[test]
fn skipping_is_idempotent_and_reversible() {
    let mut day = Day::new(date());
    let id = BlockId::new("deep-work").expect("valid id");

    day.skip(id.clone());
    day.skip(id.clone());
    assert_eq!(day.skipped().len(), 1);

    assert!(day.unskip(&id));
    assert!(!day.unskip(&id));
    assert!(!day.render().contains("## Skipped"));
}

#[test]
fn an_unreadable_skip_entry_is_reported_and_kept() {
    let text = "---\ndate: 2026-08-01\n---\n\n## Skipped\n\n- `deep-work`\n- not-backticked\n";
    let mut day = Day::parse(date(), text).expect("parses");

    assert_eq!(day.skipped().len(), 1);
    assert_eq!(day.problems().len(), 1);

    day.skip(BlockId::new("review").expect("valid id"));
    let rendered = day.render();

    assert!(rendered.contains("- not-backticked"), "{rendered}");
    assert!(rendered.contains("- `review`"), "{rendered}");
}

#[test]
fn an_unreadable_schedule_line_is_preserved() {
    let text = "---\ndate: 2026-08-01\n---\n\n## Schedule\n\n- 16:00-17:00 Fine\n- nonsense here\n";
    let day = Day::parse(date(), text).expect("parses");

    assert_eq!(day.schedule().len(), 1);
    assert_eq!(day.problems().len(), 1);
    assert!(day.render().contains("- nonsense here"));
}

#[test]
fn documents_wall_clock_arithmetic_across_a_clock_change() {
    let spring_forward = Session::new(at(1, 50), at(3, 15), None, "across the jump");
    assert_eq!(spring_forward.duration(), Minutes::new(85));
}

#[test]
fn equal_starts_keep_their_arrival_order() {
    let mut day = Day::new(date());
    day.add_session(Session::new(at(9, 0), at(9, 25), None, "first"));
    day.add_session(Session::new(at(9, 0), at(9, 10), None, "second"));
    assert_eq!(day.sessions()[0].note, "first");
    assert_eq!(day.sessions()[1].note, "second");
}

#[test]
fn a_problem_carries_its_line_in_the_section_body() {
    let text = "---\ndate: 2026-08-01\n---\n\n## Sessions\n\n- 09:00-09:25 (25m) good\n- broken\n";
    let day = Day::parse(date(), text).expect("parses");
    assert_eq!(day.problems()[0].line, 3);
}

#[test]
fn a_second_write_of_a_messy_day_changes_nothing() {
    let text = "---\ndate: 2026-08-01\n---\n\n## Sessions\n\n* 14:00-14:30   later note   \n- 09:00-09:25 (1h) [[timemd]]   first\n- not a session at all   \n\n- 07:05-07:10 [[Bad Slug]] kept as note\n\n## Schedule\n\n- 13:00-14:00 Lunch   !05m\n- 15:00-16:00 !1h\n\n## Skipped\n\n- `standup`\n";
    let once = Day::parse(date(), text).expect("parses").render();
    let twice = Day::parse(date(), &once).expect("parses").render();
    assert_eq!(once, twice);
}

#[test]
fn a_session_read_from_a_hand_written_line_reads_back_after_a_write() {
    let text = "---\ndate: 2026-08-01\n---\n\n## Sessions\n\n- 09:00-09:25   [[Not A Slug]] note\n";
    let day = Day::parse(date(), text).expect("parses");
    let again = Day::parse(date(), &day.render()).expect("parses");
    assert_eq!(again.sessions(), day.sessions());
}

#[test]
fn a_skip_keeps_the_frontmatter_keys_it_read() {
    let text = "---\ndate: 2026-08-01\nmood: calm\n---\n\n# 2026-08-01\n";
    let mut day = Day::parse(date(), text).expect("parses");
    day.skip(BlockId::new("standup").expect("valid id"));
    let rendered = day.render();
    assert!(rendered.starts_with("---\n"));
    let head: Vec<&str> = rendered.split("---\n").collect();
    assert!(head[1].contains("date: 2026-08-01"));
    assert!(head[1].contains("mood: calm"));
    assert!(rendered.contains("## Skipped\n\n- `standup`\n"));
}

#[test]
fn reports_the_rule_each_unread_line_broke() {

    let text = "---\ndate: 2026-08-01\n---\n\n## Sessions\n\n- lunch with Sam\n- 09:00-25:00 work\n";
    let day = Day::parse(date(), text).expect("parses");
    let kinds: Vec<ParseErrorKind> = day.problems().iter().map(|p| p.kind.clone()).collect();
    assert_eq!(
        kinds,
        vec![
            ParseErrorKind::MissingTimeRange { found: "lunch with Sam".to_owned() },
            ParseErrorKind::InvalidTime { found: "25:00".to_owned() },
        ]
    );
}
