use timemd::active::{ActiveSession, SessionKind};
use timemd::clock::{CalendarDate, Moment, TimeOfDay};
use timemd::day::{Day, Session};
use timemd::error::Error;
use timemd::ids::ProjectSlug;
use timemd::minutes::Minutes;
use timemd::settings::Settings;
use timemd::timer::{cancel, retire, settle_at, start, state_of, stop_at, StartRequest, Stopped, TimerState};

fn moment(hour: u32, minute: u32) -> Moment {
    Moment::new(
        CalendarDate::from_ymd(2026, 8, 1).expect("valid date"),
        TimeOfDay::from_hms(hour, minute, 0).expect("valid time"),
    )
}

fn slug(text: &str) -> Option<ProjectSlug> {
    Some(ProjectSlug::new(text).expect("valid slug"))
}

/// The running-block file, the day files and the settings, in memory, driven
/// through the timer's decisions the way the command line drives them.
struct Bench {
    active: Option<ActiveSession>,
    days: Vec<Day>,
    settings: Settings,
}

impl Bench {
    fn new() -> Self {
        Bench { active: None, days: Vec::new(), settings: Settings::default() }
    }

    fn day(&mut self, date: CalendarDate) -> &mut Day {
        match self.days.iter().position(|day| day.date() == date) {
            Some(index) => &mut self.days[index],
            None => {
                self.days.push(Day::new(date));
                self.days.last_mut().expect("just pushed")
            }
        }
    }

    fn sessions_on(&mut self, date: CalendarDate) -> usize {
        self.day(date).sessions().len()
    }

    fn retire(&mut self, ended: Moment) -> Stopped {
        let active = self.active.take().expect("running");
        let (logged, stopped) = retire(&active, ended);
        if let Some(session) = logged {
            self.day(active.started.date).add_session(session);
        }
        stopped
    }

    fn settle(&mut self, now: Moment) -> Option<Session> {
        let ended = settle_at(self.active.as_ref()?, now)?;
        match self.retire(ended) {
            Stopped::Logged(session) => Some(session),
            _ => None,
        }
    }

    fn stop(&mut self, now: Moment) -> Stopped {
        match &self.active {
            None => Stopped::Idle,
            Some(active) => {
                let ended = stop_at(active, now);
                self.retire(ended)
            }
        }
    }

    fn start(&mut self, now: Moment, request: StartRequest) -> Result<(), Error> {
        self.stop(now);
        let active = start(request, &self.settings, now)?;
        self.active = Some(active);
        Ok(())
    }

    fn cancel(&mut self) -> bool {
        let (running, next) = cancel(self.active.take());
        self.active = next;
        running
    }

    fn state(&mut self, now: Moment) -> TimerState {
        self.settle(now);
        let active = self.active.take();
        let date = now.date;
        let day = Day::parse(date, &self.day(date).render()).expect("reads back");
        let state = state_of(active, &day, &self.settings);
        self.active = state.active.as_ref().map(|a| ActiveSession::parse(&a.render()).expect("reads").expect("running"));
        state
    }
}

fn running_note(bench: &Bench) -> String {
    bench.active.as_ref().expect("running").note.clone()
}

#[test]
fn starting_writes_the_running_block_with_the_default_length() {
    let mut bench = Bench::new();
    bench.start(moment(9, 0), StartRequest::focus(slug("timemd"), "file store")).expect("starts");

    let active = bench.active.as_ref().expect("running");
    assert_eq!(active.duration, Minutes::new(25));
    assert_eq!(active.kind, SessionKind::Focus);
}

#[test]
fn an_explicit_length_wins_over_the_settings() {
    let mut bench = Bench::new();
    let request = StartRequest { duration: Some(Minutes::new(50)), ..StartRequest::focus(None, "long haul") };
    bench.start(moment(9, 0), request).expect("starts");
    assert_eq!(bench.active.as_ref().expect("running").duration, Minutes::new(50));
}

#[test]
fn breaks_take_their_own_lengths_from_the_settings() {
    let mut bench = Bench::new();
    for (kind, expected) in [(SessionKind::ShortBreak, Minutes::new(5)), (SessionKind::LongBreak, Minutes::new(15))] {
        let request = StartRequest { kind, duration: None, project: None, note: String::new() };
        bench.start(moment(9, 0), request).expect("starts");
        assert_eq!(bench.active.as_ref().expect("running").duration, expected, "{kind:?}");
    }
}

#[test]
fn stopping_early_logs_only_the_time_worked() {
    let mut bench = Bench::new();
    bench.start(moment(9, 0), StartRequest::focus(slug("timemd"), "partial")).expect("starts");

    let Stopped::Logged(logged) = bench.stop(moment(9, 10)) else {
        panic!("expected a logged session");
    };

    assert_eq!(logged.duration(), Minutes::new(10));
    assert!(bench.active.is_none());
    assert_eq!(bench.day(moment(9, 0).date).total(), Minutes::new(10));
}

#[test]
fn settling_is_a_no_op_before_the_block_is_due() {
    let mut bench = Bench::new();
    bench.start(moment(9, 0), StartRequest::focus(None, "")).expect("starts");

    assert_eq!(bench.settle(moment(9, 20)), None);
    assert!(bench.active.is_some());
}

#[test]
fn settling_logs_a_due_block_and_clears_it() {
    let mut bench = Bench::new();
    bench.start(moment(9, 0), StartRequest::focus(slug("timemd"), "done")).expect("starts");

    let logged = bench.settle(moment(9, 25)).expect("logged");
    assert_eq!(logged.duration(), Minutes::new(25));
    assert!(bench.active.is_none());
}

#[test]
fn a_long_overdue_block_is_logged_at_its_planned_length() {
    let mut bench = Bench::new();
    bench.start(moment(9, 0), StartRequest::focus(None, "")).expect("starts");

    let logged = bench.settle(moment(15, 0)).expect("logged");
    assert_eq!(logged.duration(), Minutes::new(25));
    assert_eq!(logged.end, TimeOfDay::from_hms(9, 25, 0).expect("valid time"));
}

#[test]
fn stopping_an_overdue_block_also_uses_its_planned_length() {
    let mut bench = Bench::new();
    bench.start(moment(9, 0), StartRequest::focus(None, "")).expect("starts");

    let Stopped::Logged(logged) = bench.stop(moment(15, 0)) else {
        panic!("expected a logged session");
    };
    assert_eq!(logged.duration(), Minutes::new(25));
}

#[test]
fn settling_twice_logs_once() {
    let mut bench = Bench::new();
    bench.start(moment(9, 0), StartRequest::focus(None, "")).expect("starts");

    assert!(bench.settle(moment(9, 25)).is_some());
    assert!(bench.settle(moment(9, 30)).is_none());
    assert_eq!(bench.sessions_on(moment(9, 0).date), 1);
}

#[test]
fn a_zero_length_request_is_refused_before_anything_is_written() {
    let mut bench = Bench::new();
    let request = StartRequest { duration: Some(Minutes::new(0)), ..StartRequest::focus(None, "") };

    assert!(bench.start(moment(9, 0), request).is_err());
    assert!(bench.active.is_none());
}

#[test]
fn stopping_after_settling_does_not_log_a_second_time() {
    let mut bench = Bench::new();
    bench.start(moment(9, 0), StartRequest::focus(None, "")).expect("starts");

    bench.settle(moment(9, 25));
    assert_eq!(bench.stop(moment(9, 25)), Stopped::Idle);
    assert_eq!(bench.sessions_on(moment(9, 0).date), 1);
}

#[test]
fn breaks_are_never_logged() {
    let mut bench = Bench::new();
    let request = StartRequest { kind: SessionKind::ShortBreak, duration: None, project: None, note: String::new() };
    bench.start(moment(9, 0), request).expect("starts");

    assert_eq!(bench.settle(moment(9, 5)), None);
    assert_eq!(bench.sessions_on(moment(9, 0).date), 0);
}

#[test]
fn starting_while_running_logs_what_was_interrupted() {
    let mut bench = Bench::new();
    bench.start(moment(9, 0), StartRequest::focus(slug("timemd"), "first")).expect("starts");
    bench.start(moment(9, 10), StartRequest::focus(slug("admin"), "second")).expect("starts");

    let day = bench.day(moment(9, 0).date);
    assert_eq!(day.sessions().len(), 1);
    assert_eq!(day.sessions()[0].note, "first");
    assert_eq!(day.sessions()[0].duration(), Minutes::new(10));

    assert_eq!(running_note(&bench), "second");
}

#[test]
fn cancelling_discards_without_logging() {
    let mut bench = Bench::new();
    bench.start(moment(9, 0), StartRequest::focus(None, "")).expect("starts");

    assert!(bench.cancel());
    assert!(!bench.cancel());
    assert_eq!(bench.sessions_on(moment(9, 0).date), 0);
}

#[test]
fn a_zero_length_block_is_not_worth_logging() {
    let mut bench = Bench::new();
    bench.start(moment(9, 0), StartRequest::focus(None, "")).expect("starts");

    assert_eq!(bench.stop(moment(9, 0)), Stopped::TooShort);
    assert_eq!(bench.sessions_on(moment(9, 0).date), 0);
}

#[test]
fn a_block_crossing_midnight_lands_on_the_day_it_started() {
    let mut bench = Bench::new();
    let started = moment(23, 50);
    bench.start(started, StartRequest::focus(slug("timemd"), "late night")).expect("starts");

    bench.settle(started.plus_minutes(30).expect("representable"));

    let day = bench.day(started.date);
    assert_eq!(day.sessions().len(), 1);
    assert_eq!(day.sessions()[0].duration(), Minutes::new(25));

    let next = started.date.succ().expect("valid date");
    assert_eq!(bench.sessions_on(next), 0);
}

#[test]
fn state_reports_the_day_and_settles_on_the_way() {
    let mut bench = Bench::new();
    bench.start(moment(9, 0), StartRequest::focus(slug("timemd"), "done")).expect("starts");

    let state = bench.state(moment(9, 30));

    assert_eq!(state.active, None, "a due block must not read as running");
    assert_eq!(state.completed_today, 1);
    assert_eq!(state.tracked_today, Minutes::new(25));
    assert_eq!(state.next_break, Minutes::new(5));
    assert_eq!(state.next_break_kind, SessionKind::ShortBreak);
}

#[test]
fn a_long_break_is_suggested_on_the_interval() {
    let mut bench = Bench::new();
    for hour in 9..13 {
        bench.start(moment(hour, 0), StartRequest::focus(slug("timemd"), "")).expect("starts");
        bench.settle(moment(hour, 25));
    }

    let state = bench.state(moment(13, 0));
    assert_eq!(state.completed_today, 4);
    assert_eq!(state.next_break, Minutes::new(15));
    assert_eq!(state.next_break_kind, SessionKind::LongBreak);
}

#[test]
fn an_idle_timer_reports_an_empty_day() {
    let mut bench = Bench::new();
    let state = bench.state(moment(9, 0));

    assert_eq!(state.active, None);
    assert_eq!(state.completed_today, 0);
    assert_eq!(state.tracked_today, Minutes::new(0));
    assert_eq!(state.next_break, Minutes::new(5));
}

#[test]
fn a_zero_length_request_says_a_session_must_last_a_minute() {
    let request = StartRequest { duration: Some(Minutes::new(0)), ..StartRequest::focus(None, "") };
    let refused = start(request, &Settings::default(), moment(9, 0)).expect_err("refused");
    assert!(matches!(refused, Error::Invalid { .. }));
    assert_eq!(refused.message(), "a session must last at least a minute");
}

#[test]
fn settling_a_finished_block_twice_logs_it_once() {
    let active = start(StartRequest::focus(None, "deep work"), &Settings::default(), moment(9, 0)).expect("starts");
    let (logged, still) = timemd::timer::settle(Some(active), moment(9, 40));
    let session = logged.expect("a session is logged");
    assert_eq!((session.start, session.end), (moment(9, 0).time, moment(9, 25).time));
    assert!(still.is_none());
    let (again, after) = timemd::timer::settle(still, moment(9, 50));
    assert!(again.is_none());
    assert!(after.is_none());
}

#[test]
fn a_block_still_running_is_kept_when_settling() {
    let active = start(StartRequest::focus(None, ""), &Settings::default(), moment(9, 0)).expect("starts");
    let (logged, still) = timemd::timer::settle(Some(active), moment(9, 10));
    assert!(logged.is_none());
    assert!(still.is_some());
}
