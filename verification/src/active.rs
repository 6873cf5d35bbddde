//! `data/state/active.md`: the running timer.
//!
//! The server, not the phone, owns elapsed time: a focus block completes, gets
//! logged and fires its notification even while the tab is suspended.

use vstd::prelude::*;

use chrono::{Datelike, Timelike};

use crate::clock::{is_calendar_date, moment_before, moment_plus, seconds_between, CalendarDate, Moment, MomentView, TimeOfDay, SECONDS_PER_DAY};
use crate::day::Session;
use crate::document::{reads_document, refuses_document, strings_view, Document};
use crate::error::Error;
use crate::grammar::{copy_project, date_text, format_date_chars, format_time_chars, slug_view, span_minutes, time_text, two_digits};
use crate::ids::{is_slug, ProjectSlug};
use crate::minutes::{canonical, digit_to_char, duration_value, Minutes};
use crate::text::{append, chars_of, same, string_of};
use crate::yaml::front_text;

verus! {

/// What kind of block is running.
#[derive(Debug, Clone, Copy, PartialEq, Eq, Structural)]
pub enum SessionKind {
    Focus,
    ShortBreak,
    LongBreak,
}

/// How a kind is written: `focus`, `short_break`, `long_break`.
pub open spec fn kind_word(kind: SessionKind) -> Seq<char> {
    match kind {
        SessionKind::Focus => seq!['f', 'o', 'c', 'u', 's'],
        SessionKind::ShortBreak => seq!['s', 'h', 'o', 'r', 't', '_', 'b', 'r', 'e', 'a', 'k'],
        SessionKind::LongBreak => seq!['l', 'o', 'n', 'g', '_', 'b', 'r', 'e', 'a', 'k'],
    }
}

fn kind_chars(kind: SessionKind) -> (word: Vec<char>)
    ensures
        word@ == kind_word(kind),
{
    let w: Vec<char> = match kind {
        SessionKind::Focus => vec!['f', 'o', 'c', 'u', 's'],
        SessionKind::ShortBreak => vec!['s', 'h', 'o', 'r', 't', '_', 'b', 'r', 'e', 'a', 'k'],
        SessionKind::LongBreak => vec!['l', 'o', 'n', 'g', '_', 'b', 'r', 'e', 'a', 'k'],
    };
    assert(w@ =~= kind_word(kind));
    w
}

impl SessionKind {
    /// Only focus blocks become logged sessions; breaks are timer state.
    pub fn is_focus(self) -> (focus: bool)
        ensures
            focus == (self is Focus),
    {
        match self {
            SessionKind::Focus => true,
            _ => false,
        }
    }

    pub fn render(self) -> (text: String)
        ensures
            text@ == kind_word(self),
    {
        string_of(&kind_chars(self))
    }

    /// Reads one of the three kind words, exactly.
    pub fn parse(raw: &str) -> (result: Result<Self, Error>)
        ensures
            match result {
                Ok(kind) => kind_word(kind) == raw@,
                Err(e) => (forall|k: SessionKind| kind_word(k) != raw@) && e is UnknownWord && e->found@
                    == raw@,
            },
    {
        let chars = chars_of(raw);
        if same(&chars, &kind_chars(SessionKind::Focus)) {
            Ok(SessionKind::Focus)
        } else if same(&chars, &kind_chars(SessionKind::ShortBreak)) {
            Ok(SessionKind::ShortBreak)
        } else if same(&chars, &kind_chars(SessionKind::LongBreak)) {
            Ok(SessionKind::LongBreak)
        } else {
            proof {
                assert forall|k: SessionKind| kind_word(k) != raw@ by {
                    match k {
                        SessionKind::Focus => {},
                        SessionKind::ShortBreak => {},
                        SessionKind::LongBreak => {},
                    }
                }
            }
            let field: [char; 4] = ['k', 'i', 'n', 'd'];
            Err(Error::UnknownWord { field: string_of(&field), found: raw.to_owned() })
        }
    }
}

} // verus!

verus! {

/// What chrono reads a `YYYY-MM-DDTHH:MM:SS` text as: year, month, day and
/// seconds past midnight.
pub uninterp spec fn moment_value(text: Seq<char>) -> Option<(int, int, int, nat)>;

/// Asks chrono to read a date and time (`NaiveDateTime::from_str`), giving
/// its date and whole seconds past midnight.
///
/// Names the result; claims only that what chrono gives is a real date and a
/// time within the day.
#[verifier::external_body]
fn chrono_moment(text: &str) -> (parts: Option<(i32, u32, u32, u32)>)
    ensures
        match parts {
            Some((y, m, d, s)) => moment_value(text@) == Some((y as int, m as int, d as int, s as nat))
                && is_calendar_date(y as int, m as int, d as int) && s < SECONDS_PER_DAY,
            None => moment_value(text@) is None,
        },
{
    match text.parse::<chrono::NaiveDateTime>() {
        Ok(moment) => Some((moment.year(), moment.month(), moment.day(), moment.num_seconds_from_midnight())),
        Err(_) => None,
    }
}

/// The instant a text names, if chrono reads one.
pub fn moment_from(text: &str) -> (moment: Option<Moment>)
    ensures
        match moment {
            Some(m) => moment_value(text@) matches Some((y, mo, d, s)) && m@ == ((y, mo, d), s),
            None => moment_value(text@) is None,
        },
{
    match chrono_moment(text) {
        Some((y, m, d, s)) => {
            match CalendarDate::from_ymd(y, m, d) {
                Some(date) => Some(Moment::new(date, TimeOfDay::from_seconds(s))),
                None => None,
            }
        },
        None => None,
    }
}

/// `YYYY-MM-DDTHH:MM:SS`.
pub open spec fn moment_text(m: MomentView) -> Seq<char> {
    date_text(m.0) + seq!['T'] + time_text(m.1) + seq![':'] + two_digits(m.1 % 60)
}

pub fn format_moment(m: Moment) -> (text: Vec<char>)
    ensures
        text@ == moment_text(m@),
{
    let mut out = format_date_chars(m.date);
    out.push('T');
    append(&mut out, &format_time_chars(m.time));
    out.push(':');
    let s = m.time.seconds_from_midnight() % 60;
    out.push(digit_to_char(s / 10));
    out.push(digit_to_char(s % 10));
    assert(out@ =~= moment_text(m@));
    out
}

pub open spec fn started_key() -> Seq<char> {
    seq!['s', 't', 'a', 'r', 't', 'e', 'd']
}

pub open spec fn kind_key() -> Seq<char> {
    seq!['k', 'i', 'n', 'd']
}

pub open spec fn duration_key() -> Seq<char> {
    seq!['d', 'u', 'r', 'a', 't', 'i', 'o', 'n']
}

pub open spec fn project_key() -> Seq<char> {
    seq!['p', 'r', 'o', 'j', 'e', 'c', 't']
}

pub open spec fn note_key() -> Seq<char> {
    seq!['n', 'o', 't', 'e']
}

/// The running block.
#[derive(Debug, PartialEq, Eq)]
pub struct ActiveSession {
    pub started: Moment,
    pub kind: SessionKind,
    pub duration: Minutes,
    pub project: Option<ProjectSlug>,
    pub note: String,
}

/// The running block a state file's frontmatter describes, if it names
/// when it started; every other value falls back.
pub open spec fn active_read(t: Map<Seq<char>, Seq<char>>, a: Option<ActiveSession>) -> bool {
    match if t.contains_key(started_key()) {
        moment_value(t[started_key()])
    } else {
        None
    } {
        None => a is None,
        Some((y, mo, d, s)) => a matches Some(a) && {
            &&& a.started@ == ((y, mo, d), s)
            &&& a.kind == (if t.contains_key(kind_key()) && (exists|k: SessionKind| kind_word(k) == t[kind_key()]) {
                choose|k: SessionKind| kind_word(k) == t[kind_key()]
            } else {
                SessionKind::Focus
            })
            &&& a.duration.0 == (if t.contains_key(duration_key()) && duration_value(t[duration_key()]) is Some
                && duration_value(t[duration_key()])->0 <= u32::MAX {
                duration_value(t[duration_key()])->0
            } else {
                0
            })
            &&& slug_view(a.project) == (if t.contains_key(project_key()) && is_slug(t[project_key()]) {
                Some(t[project_key()])
            } else {
                None
            })
            &&& a.note@ == (if t.contains_key(note_key()) {
                t[note_key()]
            } else {
                Seq::empty()
            })
        },
    }
}

fn key_text(chars: &[char]) -> (key: String)
    ensures
        key@ == chars@,
{
    string_of(chars)
}

impl ActiveSession {
    pub fn new(started: Moment, kind: SessionKind, duration: Minutes, project: Option<ProjectSlug>, note: &str) -> (a: Self)
        ensures
            a.started == started,
            a.kind == kind,
            a.duration == duration,
            slug_view(a.project) == slug_view(project),
            a.note@ == note@,
    {
        ActiveSession { started, kind, duration, project, note: note.to_owned() }
    }

    /// Reads the state file; a file naming no start is idle.
    pub fn parse(text: &str) -> (result: Result<Option<Self>, Error>)
        ensures
            match result {
                Ok(a) => exists|doc: Document| #![auto] reads_document(text@, doc) && active_read(front_text(doc.front()), a),
                Err(e) => refuses_document(text@, e),
            },
    {
        let document = match Document::parse(text) {
            Ok(d) => d,
            Err(e) => return Err(e),
        };
        let k_started: [char; 7] = ['s', 't', 'a', 'r', 't', 'e', 'd'];
        let k_kind: [char; 4] = ['k', 'i', 'n', 'd'];
        let k_duration: [char; 8] = ['d', 'u', 'r', 'a', 't', 'i', 'o', 'n'];
        let k_project: [char; 7] = ['p', 'r', 'o', 'j', 'e', 'c', 't'];
        let k_note: [char; 4] = ['n', 'o', 't', 'e'];
        proof {
            assert(k_started@ =~= started_key());
            assert(k_kind@ =~= kind_key());
            assert(k_duration@ =~= duration_key());
            assert(k_project@ =~= project_key());
            assert(k_note@ =~= note_key());
        }
        let ghost t = front_text(document.front());
        let started = match document.front_text_value(key_text(&k_started).as_str()) {
            Some(raw) => match moment_from(raw.as_str()) {
                Some(m) => m,
                None => return Ok(None),
            },
            None => return Ok(None),
        };
        let kind = match document.front_text_value(key_text(&k_kind).as_str()) {
            Some(raw) => match SessionKind::parse(raw.as_str()) {
                Ok(k) => {
                    proof {
                        assert(kind_word(k) == t[kind_key()]);
                        assert forall|j: SessionKind| kind_word(j) == t[kind_key()] implies j == k by {
                            match j {
                                SessionKind::Focus => { match k { SessionKind::Focus => {}, SessionKind::ShortBreak => { assert(kind_word(j).len() != kind_word(k).len()); }, SessionKind::LongBreak => { assert(kind_word(j).len() != kind_word(k).len()); } } },
                                SessionKind::ShortBreak => { match k { SessionKind::Focus => { assert(kind_word(j).len() != kind_word(k).len()); }, SessionKind::ShortBreak => {}, SessionKind::LongBreak => { assert(kind_word(j).len() != kind_word(k).len()); } } },
                                SessionKind::LongBreak => { match k { SessionKind::Focus => { assert(kind_word(j).len() != kind_word(k).len()); }, SessionKind::ShortBreak => { assert(kind_word(j).len() != kind_word(k).len()); }, SessionKind::LongBreak => {} } },
                            }
                        }
                    }
                    k
                },
                Err(_) => SessionKind::Focus,
            },
            None => SessionKind::Focus,
        };
        let duration = match document.front_text_value(key_text(&k_duration).as_str()) {
            Some(raw) => match Minutes::parse(raw.as_str()) {
                Ok(m) => m,
                Err(_) => {
                    proof {
                        if duration_value(raw@) is Some {
                            assert(!crate::minutes::reads_as(raw@, duration_value(raw@)->0));
                        }
                    }
                    Minutes::new(0)
                },
            },
            None => Minutes::new(0),
        };
        let project = match document.front_text_value(key_text(&k_project).as_str()) {
            Some(raw) => match ProjectSlug::new(raw.as_str()) {
                Ok(slug) => Some(slug),
                Err(_) => None,
            },
            None => None,
        };
        let note = match document.front_text_value(key_text(&k_note).as_str()) {
            Some(raw) => raw,
            None => String::new(),
        };
        let active = ActiveSession { started, kind, duration, project, note };
        assert(active_read(t, Some(active)));
        Ok(Some(active))
    }

    /// The state file for this block: when it started, its kind, length,
    /// project and note under a `# Active session` title; an absent project
    /// and an empty note are left out.
    pub fn render(&self) -> (text: String)
        ensures
            exists|doc: Document| #![auto]
                front_text(doc.front()) == ({
                    let t = Map::<Seq<char>, Seq<char>>::empty()
                        .insert(started_key(), moment_text(self.started@))
                        .insert(kind_key(), kind_word(self.kind))
                        .insert(duration_key(), canonical(self.duration.0 as nat));
                    let t = match slug_view(self.project) {
                        Some(p) => t.insert(project_key(), p),
                        None => t,
                    };
                    if self.note@.len() > 0 {
                        t.insert(note_key(), self.note@)
                    } else {
                        t
                    }
                }) && doc.preamble_lines() == seq![
                    Seq::<char>::empty(),
                    "# Active session"@,
                    Seq::<char>::empty(),
                ] && doc.section_list().len() == 0 && doc.has_front() && text@ == doc.text(),
    {
        let mut document = Document::new();
        let k_started: [char; 7] = ['s', 't', 'a', 'r', 't', 'e', 'd'];
        let k_kind: [char; 4] = ['k', 'i', 'n', 'd'];
        let k_duration: [char; 8] = ['d', 'u', 'r', 'a', 't', 'i', 'o', 'n'];
        let k_project: [char; 7] = ['p', 'r', 'o', 'j', 'e', 'c', 't'];
        let k_note: [char; 4] = ['n', 'o', 't', 'e'];
        proof {
            assert(k_started@ =~= started_key());
            assert(k_kind@ =~= kind_key());
            assert(k_duration@ =~= duration_key());
            assert(k_project@ =~= project_key());
            assert(k_note@ =~= note_key());
        }
        document.set_front_text(key_text(&k_started).as_str(), string_of(&format_moment(self.started)).as_str());
        document.set_front_text(key_text(&k_kind).as_str(), self.kind.render().as_str());
        document.set_front_text(key_text(&k_duration).as_str(), self.duration.render().as_str());
        match &self.project {
            Some(slug) => document.set_front_text(key_text(&k_project).as_str(), slug.as_str()),
            None => {},
        }
        if chars_of(self.note.as_str()).len() > 0 {
            document.set_front_text(key_text(&k_note).as_str(), self.note.as_str());
        }
        let mut preamble: Vec<String> = Vec::new();
        preamble.push(String::new());
        preamble.push("# Active session".to_owned());
        preamble.push(String::new());
        assert(strings_view(preamble@) =~= seq![Seq::<char>::empty(), "# Active session"@, Seq::<char>::empty()]);
        document.set_preamble(preamble);
        proof {
            let t = Map::<Seq<char>, Seq<char>>::empty()
                .insert(started_key(), moment_text(self.started@))
                .insert(kind_key(), kind_word(self.kind))
                .insert(duration_key(), canonical(self.duration.0 as nat));
            let t = match slug_view(self.project) {
                Some(p) => t.insert(project_key(), p),
                None => t,
            };
            let t = if self.note@.len() > 0 {
                t.insert(note_key(), self.note@)
            } else {
                t
            };
            assert(front_text(document.front()) =~= t);
        }
        document.render()
    }

    /// When the block is due to end, if that instant is representable.
    pub fn ends_at(&self) -> (end: Option<Moment>)
        ensures
            match end {
                Some(m) => moment_plus(self.started@, self.duration.0 as nat) == Some(m@),
                None => moment_plus(self.started@, self.duration.0 as nat) is None,
            },
    {
        self.started.plus_minutes(self.duration.0)
    }

    /// Whole minutes elapsed, zero if the clock moved backwards.
    pub fn elapsed(&self, now: Moment) -> (elapsed: Minutes)
        ensures
            elapsed.0 == (if seconds_between(self.started@, now@) <= 0 {
                0
            } else if seconds_between(self.started@, now@) / 60 > u32::MAX {
                u32::MAX as int
            } else {
                seconds_between(self.started@, now@) / 60
            }),
    {
        let seconds = now.seconds_since(self.started);
        if seconds <= 0 {
            Minutes::new(0)
        } else if seconds / 60 > u32::MAX as i128 {
            Minutes::new(u32::MAX)
        } else {
            Minutes::new((seconds / 60) as u32)
        }
    }

    /// Whole minutes left, zero once due.
    pub fn remaining(&self, now: Moment) -> (left: Minutes)
        ensures
            left.0 == (if self.duration.0 >= self.elapsed_spec(now@) {
                self.duration.0 - self.elapsed_spec(now@)
            } else {
                0
            }),
    {
        let elapsed = self.elapsed(now);
        if self.duration.0 >= elapsed.0 {
            Minutes::new(self.duration.0 - elapsed.0)
        } else {
            Minutes::new(0)
        }
    }

    pub open spec fn elapsed_spec(&self, now: MomentView) -> nat {
        if seconds_between(self.started@, now) <= 0 {
            0
        } else if seconds_between(self.started@, now) / 60 > u32::MAX {
            u32::MAX as nat
        } else {
            (seconds_between(self.started@, now) / 60) as nat
        }
    }

    /// Whether the block's time is up: its end is not after `now`. A block
    /// whose end is past the last representable instant is never due.
    pub fn is_due(&self, now: Moment) -> (due: bool)
        ensures
            due == (moment_plus(self.started@, self.duration.0 as nat) matches Some(end) && !moment_before(now@, end)),
    {
        match self.ends_at() {
            Some(end) => !now.is_before(end),
            None => false,
        }
    }

    /// The session a finished block logs: none for a break, and none for a
    /// focus block that rounded to zero minutes. It runs from the start's
    /// time of day to the end's, on the day it started.
    pub fn to_session(&self, ended: Moment) -> (session: Option<Session>)
        ensures
            match session {
                Some(s) => self.kind is Focus && span_minutes(self.started.time@, ended.time@) > 0 && s@ == (
                    self.started.time@,
                    ended.time@,
                    slug_view(self.project),
                    self.note@,
                ),
                None => !(self.kind is Focus) || span_minutes(self.started.time@, ended.time@) == 0,
            },
    {
        if !self.kind.is_focus() {
            return None;
        }
        let session = Session::new(self.started.time, ended.time, copy_project(&self.project), self.note.as_str());
        if session.duration().is_zero() {
            None
        } else {
            Some(session)
        }
    }
}

} // verus!
