use timemd::clock::CalendarDate;
use timemd::report::{DateRange, GroupBy};

fn date(day: u32) -> CalendarDate {
    CalendarDate::from_ymd(2026, 8, day).expect("valid date")
}

#[test]
fn groupings_round_trip_through_text() {
    assert_eq!(GroupBy::parse("project").ok(), Some(GroupBy::Project));
    assert_eq!(GroupBy::parse("day").ok(), Some(GroupBy::Day));
    assert_eq!(GroupBy::Project.render(), "project");
    assert_eq!(GroupBy::Day.render(), "day");
    assert!(GroupBy::parse("colour").is_err());
}

#[test]
fn a_range_enforces_its_own_ordering_and_bound() {
    assert!(DateRange::new(date(31), date(1)).is_err());
    assert!(DateRange::new(CalendarDate::from_ymd(2020, 1, 1).expect("valid date"), date(1)).is_err());

    let range = DateRange::new(date(1), date(3)).expect("valid range");
    assert_eq!(range.dates().len(), 3);
    assert_eq!(range.from(), date(1));
    assert_eq!(range.to(), date(3));
}

#[test]
fn a_range_of_a_year_and_a_day_is_the_longest() {
    let from = CalendarDate::from_ymd(2024, 1, 1).expect("valid date");
    let last = CalendarDate::from_ymd(2025, 1, 1).expect("valid date");
    let past = CalendarDate::from_ymd(2025, 1, 2).expect("valid date");
    assert_eq!(DateRange::new(from, last).expect("366 days past").dates().len(), 367);
    assert!(DateRange::new(from, past).is_err());
}

use std::collections::BTreeMap;
use timemd::blocks::{DayBlock, Recurring, RecurringBlock};
use timemd::clock::TimeOfDay;
use timemd::day::{Day, Session};
use timemd::ids::{BlockId, ProjectSlug};
use timemd::minutes::Minutes;
use timemd::report::{tally, Report};
use timemd::schedule::DaySet;

fn at(hours: u32, minutes: u32) -> TimeOfDay {
    TimeOfDay::from_hms(hours, minutes, 0).expect("valid time")
}

fn slug(text: &str) -> Option<ProjectSlug> {
    Some(ProjectSlug::new(text).expect("valid slug"))
}

fn span(from: u32, to: u32) -> DateRange {
    DateRange::new(date(from), date(to)).expect("valid range")
}

/// The day files and the repeating schedule, held in memory.
struct Tree {
    days: BTreeMap<u32, Day>,
    recurring: Recurring,
}

impl Tree {
    fn empty() -> Self {
        Tree { days: BTreeMap::new(), recurring: Recurring::default() }
    }

    fn day(&mut self, day: u32) -> &mut Day {
        self.days.entry(day).or_insert_with(|| Day::new(date(day)))
    }

    fn plan(&mut self, day: u32, line: &str) {
        let block = DayBlock::parse(line).expect("parses");
        self.day(day).add_block(block);
    }

    fn repeats(&mut self, id: &str, line: &str) {
        let block = DayBlock::parse(line).expect("parses");
        self.recurring.upsert(RecurringBlock {
            id: BlockId::new(id).expect("valid id"),
            days: DaySet::all(),
            start: block.start,
            end: block.end,
            project: block.project,
            title: block.title,
            remind_before: block.remind_before,
        });
    }

    fn build(&self, range: DateRange, group_by: GroupBy) -> Report {
        let days: Vec<Day> = range
            .dates()
            .into_iter()
            .map(|d| {
                let n = d.day();
                match self.days.get(&n) {
                    Some(day) => Day::parse(d, &day.render()).expect("reads back"),
                    None => Day::new(d),
                }
            })
            .collect();
        tally(range, &days, &self.recurring, group_by)
    }
}

/// Two days of work: 2h on timemd and 30m on admin, then 1h on timemd.
fn filled() -> Tree {
    let mut tree = Tree::empty();
    tree.day(1).add_session(Session::new(at(9, 0), at(11, 0), slug("timemd"), "build"));
    tree.day(1).add_session(Session::new(at(11, 30), at(12, 0), slug("admin"), "email"));
    tree.day(3).add_session(Session::new(at(9, 0), at(10, 0), slug("timemd"), "more"));
    tree.day(3).add_session(Session::new(at(14, 0), at(14, 45), None, "untracked"));
    tree
}

fn keyed(report: &Report) -> Vec<(Option<String>, Minutes)> {
    report.buckets.iter().map(|bucket| (bucket.key.clone(), bucket.logged)).collect()
}

#[test]
fn groups_by_project_largest_first() {
    let report = filled().build(span(1, 31), GroupBy::Project);

    assert_eq!(report.total, Minutes::new(255));
    assert_eq!(
        keyed(&report),
        vec![
            (Some("timemd".to_owned()), Minutes::new(180)),
            (None, Minutes::new(45)),
            (Some("admin".to_owned()), Minutes::new(30)),
        ]
    );
}

#[test]
fn counts_sessions_per_bucket() {
    let report = filled().build(span(1, 31), GroupBy::Project);
    assert_eq!(report.buckets[0].sessions, 2);
    assert_eq!(report.buckets[1].sessions, 1);
}

#[test]
fn groups_by_day_in_date_order() {
    let report = filled().build(span(1, 31), GroupBy::Day);
    assert_eq!(
        keyed(&report),
        vec![
            (Some("2026-08-01".to_owned()), Minutes::new(150)),
            (Some("2026-08-03".to_owned()), Minutes::new(105)),
        ]
    );
}

#[test]
fn the_range_is_inclusive_at_both_ends() {
    let tree = filled();
    assert_eq!(tree.build(span(1, 1), GroupBy::Day).total, Minutes::new(150));
    assert_eq!(tree.build(span(3, 3), GroupBy::Day).total, Minutes::new(105));
}

#[test]
fn a_range_with_nothing_in_it_totals_zero() {
    let report = filled().build(span(10, 20), GroupBy::Project);
    assert_eq!(report.total, Minutes::new(0));
    assert_eq!(report.planned, Minutes::new(0));
    assert!(report.buckets.is_empty());
}

#[test]
fn an_empty_store_reports_nothing() {
    let report = Tree::empty().build(span(1, 31), GroupBy::Project);
    assert_eq!(report.total, Minutes::new(0));
    assert_eq!(report.planned, Minutes::new(0));
    assert!(report.buckets.is_empty());
}

#[test]
fn a_session_crossing_midnight_counts_once_on_its_start_day() {
    let mut tree = Tree::empty();
    tree.day(1).add_session(Session::new(at(23, 50), at(0, 20), slug("timemd"), "late"));

    let report = tree.build(span(1, 2), GroupBy::Day);
    assert_eq!(report.total, Minutes::new(30));
    assert_eq!(report.buckets.len(), 1);
    assert_eq!(report.buckets[0].key, Some("2026-08-01".to_owned()));
}

#[test]
fn planned_time_lands_in_the_same_bucket_as_the_work_done_on_it() {
    let mut tree = filled();
    tree.plan(1, "09:00-11:00 [[timemd]] Block");

    let report = tree.build(span(1, 31), GroupBy::Project);
    assert_eq!(report.total, Minutes::new(255));
    assert_eq!(report.planned, Minutes::new(120));
    assert_eq!(report.buckets[0].key, Some("timemd".to_owned()));
    assert_eq!(report.buckets[0].logged, Minutes::new(180));
    assert_eq!(report.buckets[0].planned, Minutes::new(120));
}

#[test]
fn a_project_that_was_only_planned_gets_a_bucket_and_sorts_last() {
    let mut tree = filled();
    tree.plan(2, "09:00-10:00 [[russian]] Block");

    let report = tree.build(span(1, 31), GroupBy::Project);
    assert_eq!(
        report.buckets.iter().map(|bucket| bucket.key.clone()).collect::<Vec<_>>(),
        vec![Some("timemd".to_owned()), None, Some("admin".to_owned()), Some("russian".to_owned())]
    );

    let only_planned = report.buckets.last().expect("has a bucket");
    assert_eq!(only_planned.logged, Minutes::new(0));
    assert_eq!(only_planned.planned, Minutes::new(60));
    assert_eq!(only_planned.sessions, 0);
}

#[test]
fn buckets_with_nothing_tracked_order_by_how_much_was_planned() {
    let mut tree = Tree::empty();
    tree.plan(1, "09:00-10:00 [[russian]] Block");
    tree.plan(1, "14:00-16:00 [[piano]] Block");

    let report = tree.build(span(1, 31), GroupBy::Project);
    assert_eq!(
        report.buckets.iter().map(|bucket| (bucket.key.clone(), bucket.planned)).collect::<Vec<_>>(),
        vec![(Some("piano".to_owned()), Minutes::new(120)), (Some("russian".to_owned()), Minutes::new(60))]
    );
}

#[test]
fn a_repeat_counts_on_every_day_it_falls_on_and_one_offs_join_it() {
    let mut tree = Tree::empty();
    tree.repeats("deep-work", "09:00-11:00 [[timemd]] Block");
    tree.plan(1, "14:00-15:00 [[timemd]] Block");

    let report = tree.build(span(1, 3), GroupBy::Project);
    assert_eq!(report.planned, Minutes::new(420));
    assert_eq!(report.buckets.len(), 1);
}

#[test]
fn a_skipped_repeat_is_not_planned_time() {
    let mut tree = Tree::empty();
    tree.repeats("deep-work", "09:00-11:00 [[timemd]] Block");
    tree.day(2).skip(BlockId::new("deep-work").expect("valid id"));

    let report = tree.build(span(1, 3), GroupBy::Project);
    assert_eq!(report.planned, Minutes::new(240));
}

#[test]
fn a_day_that_was_planned_and_never_worked_still_lands_in_date_order() {
    let mut tree = filled();
    tree.plan(2, "09:00-10:00 [[timemd]] Block");

    let report = tree.build(span(1, 31), GroupBy::Day);
    assert_eq!(
        report
            .buckets
            .iter()
            .map(|bucket| (bucket.key.clone(), bucket.logged, bucket.planned))
            .collect::<Vec<_>>(),
        vec![
            (Some("2026-08-01".to_owned()), Minutes::new(150), Minutes::new(0)),
            (Some("2026-08-02".to_owned()), Minutes::new(0), Minutes::new(60)),
            (Some("2026-08-03".to_owned()), Minutes::new(105), Minutes::new(0)),
        ]
    );
}

#[test]
fn a_block_crossing_midnight_counts_once_on_its_start_day() {
    let mut tree = Tree::empty();
    tree.plan(1, "23:50-00:20 [[timemd]] Block");

    let report = tree.build(span(1, 2), GroupBy::Day);
    assert_eq!(report.planned, Minutes::new(30));
    assert_eq!(report.buckets.len(), 1);
    assert_eq!(report.buckets[0].key, Some("2026-08-01".to_owned()));
}

#[test]
fn hand_written_sessions_are_counted_like_any_other() {
    let day = Day::parse(
        date(1),
        "---\ndate: 2026-08-01\n---\n\n## Sessions\n\n- 09:00-10:30 (90m) [[timemd]] by hand\n",
    )
    .expect("parses");
    let report = tally(span(1, 1), &[day], &Recurring::default(), GroupBy::Project);
    assert_eq!(report.total, Minutes::new(90));
}

#[test]
fn a_report_given_only_its_end_covers_the_seven_days_ending_there() {
    let to = timemd::clock::CalendarDate::from_ymd(2026, 3, 2).expect("valid date");
    let from = timemd::report::week_ending(to).expect("in range");
    assert_eq!(from, timemd::clock::CalendarDate::from_ymd(2026, 2, 24).expect("valid date"));
}
