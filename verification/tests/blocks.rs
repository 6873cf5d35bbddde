use timemd::blocks::{planned, planned_days, DayBlock, Recurring, RecurringBlock};
use timemd::clock::{CalendarDate, TimeOfDay, Weekday};
use timemd::day::Day;
use timemd::error::ParseErrorKind;
use timemd::ids::{BlockId, ProjectSlug};
use timemd::minutes::Minutes;
use timemd::schedule::DaySet;

fn at(hours: u32, minutes: u32) -> TimeOfDay {
    TimeOfDay::from_hms(hours, minutes, 0).expect("valid time")
}

fn date(day: u32) -> CalendarDate {
    CalendarDate::from_ymd(2026, 8, day).expect("valid date")
}

fn id(text: &str) -> BlockId {
    BlockId::new(text).expect("valid id")
}

const SAMPLE: &str = "---\n---\n\n# Recurring schedule\n\n## Blocks\n\n- `deep-work` mon-fri 09:00-11:00 [[timemd]] Deep work !5m\n- `review` wed 14:00-15:00 [[admin]] Weekly review !10m\n";

#[test]
fn parses_recurring_blocks() {
    let recurring = Recurring::parse(SAMPLE).expect("parses");
    assert_eq!(recurring.blocks().len(), 2);

    let first = &recurring.blocks()[0];
    assert_eq!(first.id, id("deep-work"));
    assert_eq!((first.start, first.end), (at(9, 0), at(11, 0)));
    assert_eq!(first.project.as_ref().map(ProjectSlug::as_str), Some("timemd"));
    assert_eq!(first.title, "Deep work");
    assert_eq!(first.remind_before, Some(Minutes::new(5)));
    assert!(recurring.problems().is_empty());
}

#[test]
fn round_trips_a_canonical_file() {
    let recurring = Recurring::parse(SAMPLE).expect("parses");
    assert_eq!(recurring.render(), SAMPLE);
}

#[test]
fn a_block_without_a_project_or_reminder_round_trips() {
    let text = "---\n---\n\n## Blocks\n\n- `gym` mon,thu 18:00-19:00 Training\n";
    let recurring = Recurring::parse(text).expect("parses");

    assert_eq!(recurring.blocks()[0].project, None);
    assert_eq!(recurring.blocks()[0].remind_before, None);
    assert_eq!(recurring.blocks()[0].title, "Training");
    assert_eq!(recurring.render(), text);
}

#[test]
fn keeps_unparseable_block_lines_and_reports_them() {
    let text = "---\n---\n\n## Blocks\n\n- `ok` mon 09:00-10:00 Fine\n- missing an id mon 09:00-10:00\n- `bad-days` funday 09:00-10:00 Nope\n";
    let recurring = Recurring::parse(text).expect("parses");

    assert_eq!(recurring.blocks().len(), 1);
    assert_eq!(recurring.problems().len(), 2);

    let rendered = recurring.render();
    assert!(rendered.contains("- missing an id mon 09:00-10:00"), "{rendered}");
    assert!(rendered.contains("- `bad-days` funday 09:00-10:00 Nope"), "{rendered}");
}

#[test]
fn upserts_and_removes_by_id() {
    let mut recurring = Recurring::parse(SAMPLE).expect("parses");

    recurring.upsert(RecurringBlock {
        id: id("deep-work"),
        days: DaySet::from_weekdays(&[Weekday::Mon]),
        start: at(8, 0),
        end: at(9, 0),
        project: None,
        title: "Shorter".to_owned(),
        remind_before: None,
    });
    assert_eq!(recurring.blocks().len(), 2);
    assert_eq!(recurring.blocks()[0].title, "Shorter");

    assert!(recurring.remove(&id("review")));
    assert!(!recurring.remove(&id("review")));
    assert_eq!(recurring.blocks().len(), 1);
}

#[test]
fn expands_only_matching_weekdays() {
    let recurring = Recurring::parse(SAMPLE).expect("parses");

    let wednesday = recurring.on(date(5), &[]);
    assert_eq!(wednesday.len(), 2);

    let saturday = recurring.on(date(8), &[]);
    assert!(saturday.is_empty());
}

#[test]
fn expansion_honours_skips() {
    let recurring = Recurring::parse(SAMPLE).expect("parses");
    let remaining = recurring.on(date(5), &[id("deep-work")]);

    assert_eq!(remaining.len(), 1);
    assert_eq!(remaining[0].block, Some(id("review")));
    assert_eq!(remaining[0].duration(), Minutes::new(60));
}

#[test]
fn parses_and_renders_one_off_day_blocks() {
    let block = DayBlock::parse("16:00-17:00 [[reading]] Paper club !15m").expect("parses");

    assert_eq!((block.start, block.end), (at(16, 0), at(17, 0)));
    assert_eq!(block.project.as_ref().map(ProjectSlug::as_str), Some("reading"));
    assert_eq!(block.title, "Paper club");
    assert_eq!(block.remind_before, Some(Minutes::new(15)));
    assert_eq!(block.render(), "- 16:00-17:00 [[reading]] Paper club !15m");
}

#[test]
fn a_bare_day_block_renders_without_trailing_space() {
    let block = DayBlock::parse("16:00-17:00 Lunch").expect("parses");
    assert_eq!(block.render(), "- 16:00-17:00 Lunch");
}

#[test]
fn a_titleless_block_still_renders_cleanly() {
    let block = DayBlock::parse("16:00-17:00").expect("parses");
    assert_eq!(block.title, "");
    assert_eq!(block.render(), "- 16:00-17:00");
}

#[test]
fn planned_merges_repeats_and_one_offs_in_start_order() {
    let recurring = Recurring::parse(SAMPLE).expect("parses");
    let text = "---\ndate: 2026-08-05\n---\n\n## Schedule\n\n- 12:00-12:30 Lunch\n";
    let day = Day::parse(date(5), text).expect("parses");

    let occurrences = planned(&day, &recurring);
    let titles: Vec<&str> = occurrences.iter().map(|occurrence| occurrence.title.as_str()).collect();
    assert_eq!(titles, vec!["Deep work", "Lunch", "Weekly review"]);
    assert_eq!(occurrences[1].block, None, "a one-off has no repeating source");
}

#[test]
fn one_offs_are_numbered_per_day_across_a_range() {
    let recurring = Recurring::default();
    let mut days = Vec::new();
    for day in [5, 6] {
        let mut target = Day::new(date(day));
        target.add_block(DayBlock::parse("12:00-12:30 Lunch").expect("parses"));
        target.add_block(DayBlock::parse("18:00-18:30 Gym").expect("parses"));
        days.push(target);
    }

    let numbered: Vec<(String, Option<usize>)> = planned_days(&days, &recurring)
        .into_iter()
        .map(|occurrence| (occurrence.title, occurrence.one_off_index))
        .collect();

    assert_eq!(
        numbered,
        vec![
            ("Lunch".to_owned(), Some(0)),
            ("Gym".to_owned(), Some(1)),
            ("Lunch".to_owned(), Some(0)),
            ("Gym".to_owned(), Some(1)),
        ],
        "the second day restarts at 0"
    );
}

#[test]
fn a_repeat_carries_no_one_off_index() {
    let recurring = Recurring::parse(SAMPLE).expect("parses");
    let text = "---\ndate: 2026-08-05\n---\n\n## Schedule\n\n- 12:00-12:30 Lunch\n";
    let day = Day::parse(date(5), text).expect("parses");

    let numbered: Vec<Option<usize>> = planned(&day, &recurring)
        .iter()
        .map(|occurrence| occurrence.one_off_index)
        .collect();
    assert_eq!(numbered, vec![None, Some(0), None]);
}

#[test]
fn planned_drops_skipped_repeats_but_keeps_one_offs() {
    let recurring = Recurring::parse(SAMPLE).expect("parses");
    let text = "---\ndate: 2026-08-05\n---\n\n## Schedule\n\n- 12:00-12:30 Lunch\n\n## Skipped\n\n- `deep-work`\n- `review`\n";
    let day = Day::parse(date(5), text).expect("parses");

    let occurrences = planned(&day, &recurring);
    assert_eq!(occurrences.len(), 1);
    assert_eq!(occurrences[0].title, "Lunch");
}

#[test]
fn a_range_expands_every_day_in_order() {
    let recurring = Recurring::parse(SAMPLE).expect("parses");
    let days: Vec<Day> = [5, 6, 7, 8].iter().map(|day| Day::new(date(*day))).collect();
    let occurrences = planned_days(&days, &recurring);

    let dates: Vec<CalendarDate> = occurrences.iter().map(|occurrence| occurrence.date).collect();
    assert_eq!(dates, vec![date(5), date(5), date(6), date(7)]);
}

#[test]
fn replace_all_swaps_the_whole_list() {
    let mut recurring = Recurring::parse(SAMPLE).expect("parses");
    assert_eq!(recurring.blocks().len(), 2);

    recurring.replace_all(vec![RecurringBlock {
        id: id("gym"),
        days: DaySet::from_weekdays(&[Weekday::Mon]),
        start: at(18, 0),
        end: at(19, 0),
        project: None,
        title: "Training".to_owned(),
        remind_before: None,
    }]);

    assert_eq!(recurring.blocks().len(), 1);
    assert_eq!(recurring.blocks()[0].id, id("gym"));
}

#[test]
fn a_default_file_renders_a_template() {
    assert_eq!(Recurring::default().render(), "---\n---\n\n# Recurring schedule\n");
}

#[test]
fn rejects_a_block_line_missing_its_id() {
    assert!(matches!(
        RecurringBlock::parse("mon 09:00-10:00 No id"),
        Err(ParseErrorKind::MissingBlockId { .. })
    ));
    assert!(matches!(
        RecurringBlock::parse("`unclosed mon 09:00-10:00"),
        Err(ParseErrorKind::MissingBlockId { .. })
    ));
    assert!(matches!(
        RecurringBlock::parse("`Bad Id` mon 09:00-10:00"),
        Err(ParseErrorKind::MissingBlockId { .. })
    ));
}

#[test]
fn a_titleless_repeat_with_a_lead_has_no_double_space() {
    let block = RecurringBlock::parse("`x` mon 09:00-10:00 [[p]] !5m").expect("parses");
    assert_eq!(block.title, "");
    assert_eq!(block.render(), "- `x` mon 09:00-10:00 [[p]] !5m");
}

#[test]
fn schedule_round_trips_a_canonical_file() {
    const SAMPLE: &str = "---\n---\n\n# Recurring schedule\n\n## Blocks\n\n- `deep-work` mon-fri 09:00-11:00 [[timemd]] Deep work !5m\n- `review` wed 14:00-15:00 [[admin]] Weekly review !10m\n";
    let recurring = timemd::blocks::Recurring::parse(SAMPLE).expect("parses");
    assert_eq!(recurring.render(), SAMPLE);
}

#[test]
fn a_repeat_line_reads_back_as_the_repeat() {
    let block = RecurringBlock::parse("`gym` mon,wed,sat 18:00-19:30 Leg day").expect("parses");
    let line = block.render();
    assert_eq!(line, "- `gym` mon,wed,sat 18:00-19:30 Leg day");
    let again = RecurringBlock::parse(&line[2..]).expect("reads back");
    assert_eq!(again, block);
}

#[test]
fn a_bare_repeat_with_only_a_lead_reads_back() {
    let block = RecurringBlock::parse("`stand-up` mon-fri 09:00-09:15 !2m").expect("parses");
    assert_eq!(block.title, "");
    let line = block.render();
    assert_eq!(line, "- `stand-up` mon-fri 09:00-09:15 !2m");
    let again = RecurringBlock::parse(&line[2..]).expect("reads back");
    assert_eq!(again, block);
}

#[test]
fn a_one_off_line_reads_back_as_the_block() {
    let block = DayBlock::parse("13:00-14:00 [[timemd]] Lunch review !15m").expect("parses");
    let line = block.render();
    assert_eq!(line, "- 13:00-14:00 [[timemd]] Lunch review !15m");
    let again = DayBlock::parse(&line[2..]).expect("reads back");
    assert_eq!(again, block);
}

#[test]
fn a_one_off_with_only_a_lead_reads_back() {
    let block = DayBlock::parse("13:00-14:00 !1h").expect("parses");
    assert_eq!(block.title, "");
    assert_eq!(block.remind_before, Some(Minutes::new(60)));
    let line = block.render();
    let again = DayBlock::parse(line[2..].trim()).expect("reads back");
    assert_eq!(again, block);
}
