//! The pomodoro timer's requests.
//!
//! The server owns elapsed time, not the phone: a block that is already due
//! is logged at its planned end, never at "now", and a session lands on the
//! date it started.

use vstd::prelude::*;

use crate::active::{ActiveSession, SessionKind};
use crate::clock::{moment_before, moment_plus, Moment, MomentView};
use crate::day::{Session, SessionView};
use crate::error::Error;
use crate::grammar::{slug_view, span_minutes};
use crate::settings::Settings;
use crate::store::Store;
use crate::text::string_of;
use crate::ids::ProjectSlug;
use crate::minutes::Minutes;

verus! {

/// What to start. Absent values fall back to the stored settings.
#[derive(Debug)]
pub struct StartRequest {
    pub kind: SessionKind,
    pub duration: Option<Minutes>,
    pub project: Option<ProjectSlug>,
    pub note: String,
}

impl StartRequest {
    /// A focus block of the default length.
    pub fn focus(project: Option<ProjectSlug>, note: &str) -> (request: Self)
        ensures
            request.kind == SessionKind::Focus,
            request.duration is None,
            slug_view(request.project) == slug_view(project),
            request.note@ == note@,
    {
        StartRequest { kind: SessionKind::Focus, duration: None, project, note: note.to_owned() }
    }
}

} // verus!

verus! {

/// What stopping the timer did. "Nothing was running" and "ran, but rounded
/// to zero minutes" read very differently to a user, so they differ here.
#[derive(Debug, PartialEq, Eq)]
pub enum Stopped {
    /// Nothing was running.
    Idle,
    /// A block was running, but too short to be worth a line in the log.
    TooShort,
    /// The session that was written.
    Logged(Session),
}

/// The timer over a store; reading and writing its files is the caller's,
/// and what to do with them is decided here.
#[derive(Debug)]
pub struct Timer<'store> {
    store: &'store Store,
}

impl<'store> Timer<'store> {
    pub fn new(store: &'store Store) -> (timer: Self)
        ensures
            timer.store() == store,
    {
        Timer { store }
    }

    pub closed spec fn store(self) -> &'store Store {
        self.store
    }

    pub fn root(&self) -> (store: &'store Store)
        ensures
            store == self.store(),
    {
        self.store
    }
}

/// When a running block is settled: at its planned end, once that has come;
/// `None` while it still runs.
pub fn settle_at(active: &ActiveSession, now: Moment) -> (ended: Option<Moment>)
    ensures
        match ended {
            Some(end) => moment_plus(active.started@, active.duration.0 as nat) == Some(end@) && !moment_before(now@, end@),
            None => !(moment_plus(active.started@, active.duration.0 as nat) matches Some(end) && !moment_before(now@, end)),
        },
{
    match active.ends_at() {
        Some(end) => {
            if now.is_before(end) {
                None
            } else {
                Some(end)
            }
        },
        None => None,
    }
}

/// What settling gives at `now`: the session to log, if any, and what is left
/// running. A block whose time is up is retired at its planned end, logging a
/// focus block that lasted a minute and leaving nothing running; a block
/// still running is kept; with nothing running nothing happens.
pub open spec fn settled(active: Option<ActiveSession>, now: MomentView) -> (Option<SessionView>, Option<ActiveSession>) {
    match active {
        None => (None, None),
        Some(a) => match moment_plus(a.started@, a.duration.0 as nat) {
            Some(end) => if !moment_before(now, end) {
                (
                    if a.kind is Focus && span_minutes(a.started.time@, end.1) > 0 {
                        Some((a.started.time@, end.1, slug_view(a.project), a.note@))
                    } else {
                        None
                    },
                    None,
                )
            } else {
                (None, Some(a))
            },
            None => (None, Some(a)),
        },
    }
}

/// Settling twice logs once: once a block's time is up, settling logs it (a
/// focus block that lasted a minute) at its planned end however late it is
/// settled, and leaves nothing running, so settling again at any later moment
/// logs nothing and leaves nothing running.
pub proof fn law_settle_twice_logs_once(a: ActiveSession, first: MomentView, second: MomentView)
    requires
        moment_plus(a.started@, a.duration.0 as nat) matches Some(end) && !moment_before(first, end),
    ensures
        settled(Some(a), first).1 is None,
        settled(settled(Some(a), first).1, second) == (None::<SessionView>, None::<ActiveSession>),
        settled(Some(a), first).0 is Some <==> a.kind is Focus && span_minutes(
            a.started.time@,
            (moment_plus(a.started@, a.duration.0 as nat)->0).1,
        ) > 0,
        settled(Some(a), first).0 matches Some(s) ==> s.0 == a.started.time@ && s.1 == (moment_plus(
            a.started@,
            a.duration.0 as nat,
        )->0).1,
{
}

/// Settles what is running at `now`: a block whose time is up is retired at
/// its planned end, giving the session to log (a focus block that lasted a
/// minute) and leaving nothing running; a block still running is kept; with
/// nothing running there is nothing to log. So settling twice logs once.
pub fn settle(active: Option<ActiveSession>, now: Moment) -> (outcome: (Option<Session>, Option<ActiveSession>))
    ensures
        (
            match outcome.0 {
                Some(s) => Some(s@),
                None => None,
            },
            outcome.1,
        ) == settled(active, now@),
        match active {
            None => outcome.0 is None && outcome.1 is None,
            Some(a) => match moment_plus(a.started@, a.duration.0 as nat) {
                Some(end) => if !moment_before(now@, end) {
                    &&& outcome.1 is None
                    &&& match outcome.0 {
                        Some(s) => a.kind is Focus && span_minutes(a.started.time@, end.1) > 0 && s@ == (
                            a.started.time@,
                            end.1,
                            slug_view(a.project),
                            a.note@,
                        ),
                        None => !(a.kind is Focus) || span_minutes(a.started.time@, end.1) == 0,
                    }
                } else {
                    outcome.0 is None && outcome.1 == Some(a)
                },
                None => outcome.0 is None && outcome.1 == Some(a),
            },
        },
{
    match active {
        None => (None, None),
        Some(a) => match settle_at(&a, now) {
            Some(ended) => {
                let (logged, _) = retire(&a, ended);
                (logged, None)
            },
            None => (None, Some(a)),
        },
    }
}

/// When a block stopped at `now` ended: its planned end if that has passed,
/// so stopping late never inflates the log, and otherwise `now`.
pub fn stop_at(active: &ActiveSession, now: Moment) -> (ended: Moment)
    ensures
        ended@ == (match moment_plus(active.started@, active.duration.0 as nat) {
            Some(end) => if !moment_before(now@, end) {
                end
            } else {
                now@
            },
            None => now@,
        }),
{
    match settle_at(active, now) {
        Some(end) => end,
        None => now,
    }
}

/// What retiring a block leaves: the session to log on the date it started,
/// if it is a focus block that lasted a minute, and how the stop reads.
pub fn retire(active: &ActiveSession, ended: Moment) -> (outcome: (Option<Session>, Stopped))
    ensures
        match outcome.0 {
            Some(s) => {
                &&& active.kind is Focus
                &&& span_minutes(active.started.time@, ended.time@) > 0
                &&& s@ == (active.started.time@, ended.time@, slug_view(active.project), active.note@)
                &&& outcome.1 matches Stopped::Logged(t)
                &&& t@ == s@
            },
            None => (!(active.kind is Focus) || span_minutes(active.started.time@, ended.time@) == 0)
                && outcome.1 is TooShort,
        },
{
    match active.to_session(ended) {
        Some(session) => {
            let logged = session.clone();
            (Some(session), Stopped::Logged(logged))
        },
        None => (None, Stopped::TooShort),
    }
}

/// The block a start request begins at `now`: its own length, or the
/// settings' length for its kind. A zero length is refused, since such a
/// block could never log anything.
pub fn start(request: StartRequest, settings: &Settings, now: Moment) -> (result: Result<ActiveSession, Error>)
    ensures
        ({
            let length = match request.duration {
                Some(m) => m.0 as nat,
                None => match request.kind {
                    SessionKind::Focus => settings@.focus,
                    SessionKind::ShortBreak => settings@.short_break,
                    SessionKind::LongBreak => settings@.long_break,
                },
            };
            match result {
                Ok(a) => length > 0 && a.started == now && a.kind == request.kind && a.duration.0 == length
                    && slug_view(a.project) == slug_view(request.project) && a.note@ == request.note@,
                Err(e) => length == 0 && (e matches Error::Invalid { message } && message@ == "a session must last at least a minute"@),
            }
        }),
{
    let duration = match request.duration {
        Some(m) => m,
        None => settings.length_of(request.kind),
    };
    if duration.is_zero() {
        let message = "a session must last at least a minute";
        proof {
            reveal_strlit("a session must last at least a minute");
        }
        return Err(Error::Invalid { message: message.to_owned() });
    }
    Ok(ActiveSession::new(now, request.kind, duration, request.project, request.note.as_str()))
}

/// The break that follows the sessions logged so far today, or the first
/// one if none has been, with its length.
pub fn next_break(settings: &Settings, completed: u32) -> (next: (SessionKind, Minutes))
    requires
        settings@.long_break_every > 0,
    ensures
        ({
            let n = if completed > 1 {
                completed as nat
            } else {
                1
            };
            let kind = if n % settings@.long_break_every == 0 {
                SessionKind::LongBreak
            } else {
                SessionKind::ShortBreak
            };
            &&& next.0 == kind
            &&& next.1.0 == (match kind {
                SessionKind::LongBreak => settings@.long_break,
                _ => settings@.short_break,
            })
        }),
{
    let n = if completed > 1 {
        completed
    } else {
        1
    };
    let kind = settings.break_after(n);
    (kind, settings.length_of(kind))
}


/// What the timer looks like right now.
#[derive(Debug)]
pub struct TimerState {
    pub active: Option<ActiveSession>,
    /// Focus sessions already logged today.
    pub completed_today: u32,
    pub tracked_today: Minutes,
    /// Length of the break the settings would pick next.
    pub next_break: Minutes,
    pub next_break_kind: SessionKind,
}

/// The timer's state over today's file, the running block having been
/// settled first: the sessions logged, their total, and the break that would
/// follow.
pub fn state_of(active: Option<ActiveSession>, today: &crate::day::Day, settings: &Settings) -> (state: TimerState)
    requires
        settings@.long_break_every > 0,
    ensures
        state.active == active,
        state.completed_today == (if today@.sessions.len() <= u32::MAX {
            today@.sessions.len()
        } else {
            u32::MAX as nat
        }),
        state.tracked_today.0 == (if crate::day::tracked_total(today@.sessions) <= u32::MAX {
            crate::day::tracked_total(today@.sessions)
        } else {
            u32::MAX as nat
        }),
        ({
            let n = if state.completed_today > 1 {
                state.completed_today as nat
            } else {
                1
            };
            let kind = if n % settings@.long_break_every == 0 {
                SessionKind::LongBreak
            } else {
                SessionKind::ShortBreak
            };
            &&& state.next_break_kind == kind
            &&& state.next_break.0 == (match kind {
                SessionKind::LongBreak => settings@.long_break,
                _ => settings@.short_break,
            })
        }),
{
    let count = today.sessions().len();
    let completed: u32 = if count <= 0xffff_ffffusize {
        count as u32
    } else {
        0xffff_ffffu32
    };
    let (kind, length) = next_break(settings, completed);
    TimerState {
        active,
        completed_today: completed,
        tracked_today: today.total(),
        next_break: length,
        next_break_kind: kind,
    }
}

/// Drops the running block without logging it: answers whether one was
/// running, and what runs afterwards, which is nothing.
pub fn cancel(active: Option<ActiveSession>) -> (outcome: (bool, Option<ActiveSession>))
    ensures
        outcome.0 == active is Some,
        outcome.1 is None,
{
    (active.is_some(), None)
}
} // verus!
