use timemd::blocks::Recurring;
use timemd::clock::{CalendarDate, Moment, TimeOfDay};
use timemd::day::Day;
use timemd::ids::BlockId;
use timemd::minutes::Minutes;
use timemd::reminders::{due, Reminder, SentLog};
use timemd::settings::Settings;

const RECURRING: &str = "---\n---\n\n## Blocks\n\n- `deep-work` mon-fri 09:00-11:00 [[timemd]] Deep work !5m\n";

fn date() -> CalendarDate {
    // A Wednesday.
    CalendarDate::from_ymd(2026, 8, 5).expect("valid date")
}

fn moment(hour: u32, minute: u32) -> Moment {
    Moment::new(date(), TimeOfDay::from_hms(hour, minute, 0).expect("valid time"))
}

fn fixtures() -> (Day, Recurring, Settings) {
    (Day::new(date()), Recurring::parse(RECURRING).expect("parses"), Settings::default())
}

#[test]
fn nothing_is_due_outside_the_lead_window() {
    let (day, recurring, settings) = fixtures();
    let sent = SentLog::default();
    assert!(due(&day, &recurring, &settings, moment(8, 50), &sent).is_empty());
}

#[test]
fn a_block_is_due_inside_its_lead_window() {
    let (day, recurring, settings) = fixtures();
    let sent = SentLog::default();

    let reminders = due(&day, &recurring, &settings, moment(8, 56), &sent);
    assert_eq!(reminders.len(), 1);
    assert_eq!(reminders[0].title, "Deep work");
    assert_eq!(reminders[0].lead, Minutes::new(5));
    assert_eq!(reminders[0].key, "2026-08-05T09:00 deep-work");
    assert_eq!(reminders[0].body(), "09:00 · timemd");
}

#[test]
fn the_window_opens_exactly_at_the_lead_time() {
    let (day, recurring, settings) = fixtures();
    let sent = SentLog::default();

    assert_eq!(due(&day, &recurring, &settings, moment(8, 55), &sent).len(), 1);
    assert!(due(&day, &recurring, &settings, moment(8, 54), &sent).is_empty());
}

#[test]
fn nothing_is_due_once_the_block_has_started() {
    let (day, recurring, settings) = fixtures();
    let sent = SentLog::default();

    assert!(due(&day, &recurring, &settings, moment(9, 0), &sent).is_empty());
    assert!(due(&day, &recurring, &settings, moment(9, 30), &sent).is_empty());
}

#[test]
fn an_already_sent_reminder_is_not_due_again() {
    let (day, recurring, settings) = fixtures();
    let mut sent = SentLog::default();
    sent.record("2026-08-05T09:00 deep-work");

    assert!(due(&day, &recurring, &settings, moment(8, 56), &sent).is_empty());
}

#[test]
fn a_skipped_block_is_never_due() {
    let (mut day, recurring, settings) = fixtures();
    day.skip(BlockId::new("deep-work").expect("valid id"));

    assert!(due(&day, &recurring, &settings, moment(8, 56), &SentLog::default()).is_empty());
}

#[test]
fn a_one_off_block_uses_its_own_lead_and_its_title_as_the_key() {
    let text = "---\ndate: 2026-08-05\n---\n\n## Schedule\n\n- 16:00-17:00 [[reading]] Paper club !15m\n";
    let day = Day::parse(date(), text).expect("parses");
    let recurring = Recurring::default();

    let reminders = due(&day, &recurring, &Settings::default(), moment(15, 50), &SentLog::default());
    assert_eq!(reminders.len(), 1);
    assert_eq!(reminders[0].key, "2026-08-05T16:00 Paper club");
    assert_eq!(reminders[0].lead, Minutes::new(15));
}

#[test]
fn a_block_without_its_own_lead_takes_the_settings_default() {
    let text = "---\ndate: 2026-08-05\n---\n\n## Schedule\n\n- 16:00-17:00 Lunch\n";
    let day = Day::parse(date(), text).expect("parses");
    let settings = Settings::default();

    let reminders = due(&day, &Recurring::default(), &settings, moment(15, 56), &SentLog::default());
    assert_eq!(reminders.len(), 1);
    assert_eq!(reminders[0].lead, settings.remind_before);
}

#[test]
fn a_zero_lead_turns_reminders_off_for_that_block() {
    let text = "---\ndate: 2026-08-05\n---\n\n## Schedule\n\n- 16:00-17:00 Quiet block !0m\n";
    let day = Day::parse(date(), text).expect("parses");

    for minute in [45, 55, 59] {
        assert!(
            due(&day, &Recurring::default(), &Settings::default(), moment(15, minute), &SentLog::default())
                .is_empty(),
            "15:{minute} should be quiet"
        );
    }
}

#[test]
fn a_reminder_without_a_project_says_when_it_starts() {
    let reminder = Reminder {
        key: "k".to_owned(),
        title: "Lunch".to_owned(),
        project: None,
        starts_at: moment(12, 0),
        lead: Minutes::new(5),
    };
    assert_eq!(reminder.body(), "starts at 12:00");
}

#[test]
fn the_sent_log_round_trips() {
    let mut log = SentLog::default();
    log.record("2026-08-05T09:00 deep-work");
    log.record("2026-08-05T09:00 deep-work");
    assert_eq!(log.len(), 1);

    let rendered = log.render(moment(9, 0)).expect("renders");
    let reparsed = SentLog::parse(&rendered).expect("parses");

    assert!(reparsed.contains("2026-08-05T09:00 deep-work"));
    assert_eq!(reparsed.len(), 1);
}

#[test]
fn an_empty_log_reads_and_writes_cleanly() {
    let log = SentLog::default();
    assert!(log.is_empty());
    assert!(!log.contains("anything"));

    let reparsed = SentLog::parse(&log.render(moment(9, 0)).expect("renders")).expect("parses");
    assert!(reparsed.is_empty());
}

#[test]
fn old_entries_are_pruned_on_write() {
    let mut log = SentLog::default();
    log.record("2026-07-01T09:00 ancient");
    log.record("2026-08-05T09:00 deep-work");

    let reparsed = SentLog::parse(&log.render(moment(9, 0)).expect("renders")).expect("parses");

    assert!(!reparsed.contains("2026-07-01T09:00 ancient"));
    assert!(reparsed.contains("2026-08-05T09:00 deep-work"));
}
