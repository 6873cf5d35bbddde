//! `data/settings.md`: pomodoro lengths, timezone and reminder defaults.
//!
//! The timezone lives here and nowhere else. Files store bare wall-clock
//! times, so this single value is what turns them into instants.

use vstd::prelude::*;

use chrono::{Datelike, Offset, TimeZone, Timelike};

use crate::active::SessionKind;
use crate::clock::{is_calendar_date, CalendarDate, Moment, TimeOfDay};
use crate::document::{reads_document, refuses_document, Document};
use crate::error::Error;
use crate::minutes::{duration_value, Minutes};
use crate::text::string_of;
use crate::yaml::{front_count, front_others, front_text, lemma_others_agree};

verus! {

pub const DEFAULT_FOCUS: u32 = 25;

pub const DEFAULT_SHORT_BREAK: u32 = 5;

pub const DEFAULT_LONG_BREAK: u32 = 15;

pub const DEFAULT_LONG_BREAK_EVERY: u32 = 4;

pub const DEFAULT_REMIND_BEFORE: u32 = 5;

/// Whether chrono-tz knows a zone by this name.
pub uninterp spec fn is_zone_name(name: Seq<char>) -> bool;

/// Asks chrono-tz whether a zone name is one it knows (`Tz::from_str`).
///
/// Claims only that the answer is a function of the name; which names the
/// database holds is left to it.
#[verifier::external_body]
fn zone_known(name: &str) -> (known: bool)
    ensures
        known == is_zone_name(name@),
{
    name.parse::<chrono_tz::Tz>().is_ok()
}

/// What a clock in the zone named `zone` reads at the UTC instant `utc` (a
/// date and seconds past midnight): its date and seconds past midnight, or
/// nothing where chrono-tz knows no such zone or chrono cannot hold the
/// instant.
pub uninterp spec fn zone_reading(zone: Seq<char>, utc: ((int, int, int), nat)) -> Option<((int, int, int), nat)>;

/// Reads the wall clock of a zone at a UTC instant through chrono-tz: the
/// zone's offset at that instant (`TimeZone::offset_from_utc_datetime`) added
/// to the instant (`NaiveDateTime::checked_add_offset`).
///
/// Claims that the reading is a function of the zone name and the instant,
/// that an unknown zone name gives nothing, and that a reading's seconds fall
/// within a day; which offset the database gives is left to it.
#[verifier::external_body]
fn chrono_wall_clock(zone: &str, year: i32, month: u32, day: u32, seconds: u32) -> (reading: Option<(i32, u32, u32, u32)>)
    ensures
        match reading {
            Some((y, m, d, t)) => zone_reading(zone@, ((year as int, month as int, day as int), seconds as nat)) == Some(
                ((y as int, m as int, d as int), t as nat),
            ) && t < 86400,
            None => zone_reading(zone@, ((year as int, month as int, day as int), seconds as nat)) is None,
        },
        !is_zone_name(zone@) ==> reading is None,
{
    let tz: chrono_tz::Tz = zone.parse().ok()?;
    let date = chrono::NaiveDate::from_ymd_opt(year, month, day)?;
    let time = chrono::NaiveTime::from_num_seconds_from_midnight_opt(seconds, 0)?;
    let utc = date.and_time(time);
    let local = utc.checked_add_offset(tz.offset_from_utc_datetime(&utc).fix())?;
    Some((local.year(), local.month(), local.day(), local.num_seconds_from_midnight()))
}

/// The machine's zone name as the operating system reports it
/// (`iana_time_zone::get_timezone`), if it reports one. Nothing is claimed of
/// it: it depends on the machine.
#[verifier::external_body]
fn local_zone() -> (zone: Option<String>)
{
    iana_time_zone::get_timezone().ok()
}

/// The zone a reported name settles on: the name itself when chrono-tz knows
/// it, else UTC.
pub open spec fn zone_choice(reported: Option<Seq<char>>) -> Seq<char> {
    match reported {
        Some(n) => if is_zone_name(n) {
            n
        } else {
            seq!['U', 'T', 'C']
        },
        None => seq!['U', 'T', 'C'],
    }
}

/// Settles on a zone from the name the machine reported, if any: that name
/// when chrono-tz knows it, else UTC.
pub fn zone_or_utc(reported: Option<String>) -> (zone: String)
    ensures
        zone@ == zone_choice(match reported {
            Some(n) => Some(n@),
            None => None,
        }),
{
    match reported {
        Some(name) => {
            if zone_known(name.as_str()) {
                return name;
            }
        },
        None => {},
    }
    let utc: [char; 3] = ['U', 'T', 'C'];
    assert(utc@ =~= seq!['U', 'T', 'C']);
    string_of(&utc)
}

/// The zone to fall back on: the machine's, if chrono-tz knows it, else UTC.
/// Which name the machine reports is not stated; whatever it reports, the
/// zone is settled on as `zone_or_utc` says.
pub fn system_timezone() -> (zone: String)
    ensures
        is_zone_name(zone@) || zone@ == seq!['U', 'T', 'C'],
{
    zone_or_utc(local_zone())
}

/// The frontmatter keys the settings file writes; every other key is the
/// user's and is written back as it was.
pub open spec fn settings_keys() -> Set<Seq<char>> {
    set![timezone_key(), focus_key(), short_break_key(), long_break_key(), long_break_every_key(), remind_before_key()]
}

pub open spec fn timezone_key() -> Seq<char> {
    seq!['t', 'i', 'm', 'e', 'z', 'o', 'n', 'e']
}

pub open spec fn focus_key() -> Seq<char> {
    seq!['f', 'o', 'c', 'u', 's']
}

pub open spec fn short_break_key() -> Seq<char> {
    seq!['s', 'h', 'o', 'r', 't', '_', 'b', 'r', 'e', 'a', 'k']
}

pub open spec fn long_break_key() -> Seq<char> {
    seq!['l', 'o', 'n', 'g', '_', 'b', 'r', 'e', 'a', 'k']
}

pub open spec fn long_break_every_key() -> Seq<char> {
    seq!['l', 'o', 'n', 'g', '_', 'b', 'r', 'e', 'a', 'k', '_', 'e', 'v', 'e', 'r', 'y']
}

pub open spec fn remind_before_key() -> Seq<char> {
    seq!['r', 'e', 'm', 'i', 'n', 'd', '_', 'b', 'e', 'f', 'o', 'r', 'e']
}

/// The length a frontmatter key gives, or `default` when it is missing,
/// unreadable or (for a block length) zero.
pub open spec fn length_setting(text: Map<Seq<char>, Seq<char>>, key: Seq<char>, default: nat, nonzero: bool) -> nat {
    if text.contains_key(key) {
        match duration_value(text[key]) {
            Some(n) => if n <= u32::MAX && (!nonzero || n > 0) {
                n
            } else {
                default
            },
            None => default,
        }
    } else {
        default
    }
}

fn key_text(chars: &[char]) -> (key: String)
    ensures
        key@ == chars@,
{
    string_of(chars)
}

fn length_from(doc: &Document, key: &[char], default: u32, nonzero: bool) -> (length: Minutes)
    ensures
        length.0 == length_setting(front_text(doc.front()), key@, default as nat, nonzero),
{
    let key = key_text(key);
    match doc.front_text_value(key.as_str()) {
        Some(raw) => match Minutes::parse(raw.as_str()) {
            Ok(m) => {
                if nonzero && m.is_zero() {
                    Minutes::new(default)
                } else {
                    m
                }
            },
            Err(_) => {
                proof {
                    let t = front_text(doc.front())[key@];
                    if duration_value(t) is Some {
                        let n = duration_value(t)->0;
                        assert(!crate::minutes::reads_as(raw@, n));
                    }
                }
                Minutes::new(default)
            },
        },
        None => Minutes::new(default),
    }
}

/// Pomodoro lengths, the timezone and the default reminder lead.
#[derive(Debug)]
pub struct Settings {
    /// The IANA zone name.
    pub timezone: String,
    pub focus: Minutes,
    pub short_break: Minutes,
    pub long_break: Minutes,
    /// Focus sessions between long breaks.
    pub long_break_every: u32,
    /// Reminder lead for schedule blocks that do not set their own.
    pub remind_before: Minutes,
    document: Document,
}

/// What may be changed about the settings; every field omitted leaves its
/// setting as it was. The timezone and the long-break interval are changed by
/// editing the file.
#[derive(Debug, Clone, Copy, PartialEq, Eq)]
pub struct SettingsPatch {
    pub focus: Option<Minutes>,
    pub short_break: Option<Minutes>,
    pub long_break: Option<Minutes>,
    pub remind_before: Option<Minutes>,
}

/// What the settings hold: the zone name and the lengths in minutes.
pub struct SettingsView {
    pub timezone: Seq<char>,
    pub focus: nat,
    pub short_break: nat,
    pub long_break: nat,
    pub long_break_every: nat,
    pub remind_before: nat,
}

impl View for Settings {
    type V = SettingsView;

    closed spec fn view(&self) -> SettingsView {
        SettingsView {
            timezone: self.timezone@,
            focus: self.focus.0 as nat,
            short_break: self.short_break.0 as nat,
            long_break: self.long_break.0 as nat,
            long_break_every: self.long_break_every as nat,
            remind_before: self.remind_before.0 as nat,
        }
    }
}

pub open spec fn minutes_or(patch: Option<Minutes>, current: nat) -> nat {
    match patch {
        Some(m) => m.0 as nat,
        None => current,
    }
}

pub open spec fn is_zero_length(patch: Option<Minutes>) -> bool {
    patch matches Some(m) && m.0 == 0
}

impl Default for SettingsPatch {
    fn default() -> (patch: Self)
        ensures
            patch.focus is None && patch.short_break is None && patch.long_break is None && patch.remind_before is None,
    {
        SettingsPatch { focus: None, short_break: None, long_break: None, remind_before: None }
    }
}

impl SettingsPatch {
    /// True when there is nothing to write.
    pub fn is_empty(&self) -> (empty: bool)
        ensures
            empty == (self.focus is None && self.short_break is None && self.long_break is None
                && self.remind_before is None),
    {
        self.focus.is_none() && self.short_break.is_none() && self.long_break.is_none()
            && self.remind_before.is_none()
    }
}

impl Settings {
    /// What the wall clock reads in this file's zone at the UTC instant
    /// `instant`: nothing where the zone is unknown or the reading is not a
    /// date the library holds.
    pub fn wall_clock(&self, instant: Moment) -> (local: Option<Moment>)
        ensures
            match local {
                Some(m) => zone_reading(self@.timezone, instant@) == Some(m@),
                None => match zone_reading(self@.timezone, instant@) {
                    Some(r) => !is_calendar_date(r.0.0, r.0.1, r.0.2),
                    None => true,
                },
            },
            !is_zone_name(self@.timezone) ==> local is None,
    {
        let date = instant.date;
        proof {
            date.lemma_valid();
        }
        let reading = chrono_wall_clock(
            self.timezone.as_str(),
            date.year(),
            date.month(),
            date.day(),
            instant.time.seconds_from_midnight(),
        );
        match reading {
            Some((y, m, d, t)) => match CalendarDate::from_ymd(y, m, d) {
                Some(local_date) => Some(Moment::new(local_date, TimeOfDay::from_seconds(t))),
                None => None,
            },
            None => None,
        }
    }

    pub closed spec fn document(self) -> Document {
        self.document
    }

    /// Reads settings, falling back to a default for any value that is
    /// missing or unreadable, and to `fallback_zone` for an unknown zone.
    /// A zero-length block would start and immediately retire itself, so it
    /// falls back too, as does a zero long-break interval.
    pub fn parse_with(text: &str, fallback_zone: &str) -> (result: Result<Self, Error>)
        ensures
            match result {
                Ok(s) => {
                    let t = front_text(s.document().front());
                    let c = front_count(s.document().front());
                    &&& reads_document(text@, s.document())
                    &&& s@.timezone == (if t.contains_key(timezone_key()) && is_zone_name(t[timezone_key()]) {
                        t[timezone_key()]
                    } else {
                        fallback_zone@
                    })
                    &&& s@.focus == length_setting(t, focus_key(), DEFAULT_FOCUS as nat, true)
                    &&& s@.short_break == length_setting(t, short_break_key(), DEFAULT_SHORT_BREAK as nat, true)
                    &&& s@.long_break == length_setting(t, long_break_key(), DEFAULT_LONG_BREAK as nat, true)
                    &&& s@.long_break_every == (if c.contains_key(long_break_every_key()) && c[long_break_every_key()] > 0 {
                        c[long_break_every_key()]
                    } else {
                        DEFAULT_LONG_BREAK_EVERY as nat
                    })
                    &&& s@.remind_before == length_setting(t, remind_before_key(), DEFAULT_REMIND_BEFORE as nat, false)
                },
                Err(e) => refuses_document(text@, e),
            },
    {
        let document = match Document::parse(text) {
            Ok(d) => d,
            Err(e) => return Err(e),
        };
        let tz: [char; 8] = ['t', 'i', 'm', 'e', 'z', 'o', 'n', 'e'];
        let focus: [char; 5] = ['f', 'o', 'c', 'u', 's'];
        let short_break: [char; 11] = ['s', 'h', 'o', 'r', 't', '_', 'b', 'r', 'e', 'a', 'k'];
        let long_break: [char; 10] = ['l', 'o', 'n', 'g', '_', 'b', 'r', 'e', 'a', 'k'];
        let every: [char; 16] = ['l', 'o', 'n', 'g', '_', 'b', 'r', 'e', 'a', 'k', '_', 'e', 'v', 'e', 'r', 'y'];
        let remind: [char; 13] = ['r', 'e', 'm', 'i', 'n', 'd', '_', 'b', 'e', 'f', 'o', 'r', 'e'];
        proof {
            assert(tz@ =~= timezone_key());
            assert(focus@ =~= focus_key());
            assert(short_break@ =~= short_break_key());
            assert(long_break@ =~= long_break_key());
            assert(every@ =~= long_break_every_key());
            assert(remind@ =~= remind_before_key());
        }
        let tz_key = key_text(&tz);
        let timezone = match document.front_text_value(tz_key.as_str()) {
            Some(name) => if zone_known(name.as_str()) {
                name
            } else {
                fallback_zone.to_owned()
            },
            None => fallback_zone.to_owned(),
        };
        let every_key = key_text(&every);
        let long_break_every = match document.front_count_value(every_key.as_str()) {
            Some(n) => if n > 0 {
                n
            } else {
                DEFAULT_LONG_BREAK_EVERY
            },
            None => DEFAULT_LONG_BREAK_EVERY,
        };
        let settings = Settings {
            timezone,
            focus: length_from(&document, &focus, DEFAULT_FOCUS, true),
            short_break: length_from(&document, &short_break, DEFAULT_SHORT_BREAK, true),
            long_break: length_from(&document, &long_break, DEFAULT_LONG_BREAK, true),
            long_break_every,
            remind_before: length_from(&document, &remind, DEFAULT_REMIND_BEFORE, false),
            document,
        };
        Ok(settings)
    }

    /// Reads settings, falling back to the machine's zone for an unknown one.
    pub fn parse(text: &str) -> (result: Result<Self, Error>)
        ensures
            match result {
                Ok(s) => {
                    let t = front_text(s.document().front());
                    let c = front_count(s.document().front());
                    &&& reads_document(text@, s.document())
                    &&& (t.contains_key(timezone_key()) && is_zone_name(t[timezone_key()]) ==> s@.timezone
                        == t[timezone_key()])
                    &&& s@.focus == length_setting(t, focus_key(), DEFAULT_FOCUS as nat, true)
                    &&& s@.short_break == length_setting(t, short_break_key(), DEFAULT_SHORT_BREAK as nat, true)
                    &&& s@.long_break == length_setting(t, long_break_key(), DEFAULT_LONG_BREAK as nat, true)
                    &&& s@.long_break_every == (if c.contains_key(long_break_every_key()) && c[long_break_every_key()] > 0 {
                        c[long_break_every_key()]
                    } else {
                        DEFAULT_LONG_BREAK_EVERY as nat
                    })
                    &&& s@.remind_before == length_setting(t, remind_before_key(), DEFAULT_REMIND_BEFORE as nat, false)
                },
                Err(e) => refuses_document(text@, e),
            },
    {
        let zone = system_timezone();
        Settings::parse_with(text, zone.as_str())
    }

    /// The defaults, in `fallback_zone`, with a `# Settings` title.
    pub fn default_with(fallback_zone: &str) -> (s: Self)
        ensures
            s@.timezone == fallback_zone@,
            s@.focus == DEFAULT_FOCUS,
            s@.short_break == DEFAULT_SHORT_BREAK,
            s@.long_break == DEFAULT_LONG_BREAK,
            s@.long_break_every == DEFAULT_LONG_BREAK_EVERY,
            s@.remind_before == DEFAULT_REMIND_BEFORE,
    {
        let mut document = Document::new();
        let title: [char; 10] = ['#', ' ', 'S', 'e', 't', 't', 'i', 'n', 'g', 's'];
        let mut preamble: Vec<String> = Vec::new();
        preamble.push(String::new());
        preamble.push(string_of(&title));
        preamble.push(String::new());
        document.set_preamble(preamble);
        Settings {
            timezone: fallback_zone.to_owned(),
            focus: Minutes::new(DEFAULT_FOCUS),
            short_break: Minutes::new(DEFAULT_SHORT_BREAK),
            long_break: Minutes::new(DEFAULT_LONG_BREAK),
            long_break_every: DEFAULT_LONG_BREAK_EVERY,
            remind_before: Minutes::new(DEFAULT_REMIND_BEFORE),
            document,
        }
    }

    /// The defaults, in the machine's zone.
    pub fn default() -> (s: Self)
        ensures
            s@.focus == DEFAULT_FOCUS,
            s@.short_break == DEFAULT_SHORT_BREAK,
            s@.long_break == DEFAULT_LONG_BREAK,
            s@.long_break_every == DEFAULT_LONG_BREAK_EVERY,
            s@.remind_before == DEFAULT_REMIND_BEFORE,
    {
        let zone = system_timezone();
        Settings::default_with(zone.as_str())
    }

    /// Writes the settings into their frontmatter, keeping any other key.
    pub fn render(&self) -> (text: String)
        ensures
            ({
                let t = front_text(self.document().front())
                    .insert(timezone_key(), self@.timezone)
                    .insert(focus_key(), crate::minutes::canonical(self@.focus))
                    .insert(short_break_key(), crate::minutes::canonical(self@.short_break))
                    .insert(long_break_key(), crate::minutes::canonical(self@.long_break))
                    .remove(long_break_every_key())
                    .insert(remind_before_key(), crate::minutes::canonical(self@.remind_before));
                let c = front_count(self.document().front())
                    .remove(timezone_key())
                    .remove(focus_key())
                    .remove(short_break_key())
                    .remove(long_break_key())
                    .insert(long_break_every_key(), self@.long_break_every)
                    .remove(remind_before_key());
                exists|written: Document| #![auto]
                    front_text(written.front()) == t && front_count(written.front()) == c
                        && written.preamble_lines() == self.document().preamble_lines()
                        && written.section_list() == self.document().section_list()
                        && written.has_front() == self.document().has_front() && text@ == written.text()
                        && front_others(written.front(), settings_keys()) == front_others(
                        self.document().front(),
                        settings_keys(),
                    )
            }),
    {
        let mut document = self.document.copy();
        let tz: [char; 8] = ['t', 'i', 'm', 'e', 'z', 'o', 'n', 'e'];
        let focus: [char; 5] = ['f', 'o', 'c', 'u', 's'];
        let short_break: [char; 11] = ['s', 'h', 'o', 'r', 't', '_', 'b', 'r', 'e', 'a', 'k'];
        let long_break: [char; 10] = ['l', 'o', 'n', 'g', '_', 'b', 'r', 'e', 'a', 'k'];
        let every: [char; 16] = ['l', 'o', 'n', 'g', '_', 'b', 'r', 'e', 'a', 'k', '_', 'e', 'v', 'e', 'r', 'y'];
        let remind: [char; 13] = ['r', 'e', 'm', 'i', 'n', 'd', '_', 'b', 'e', 'f', 'o', 'r', 'e'];
        proof {
            assert(tz@ =~= timezone_key());
            assert(focus@ =~= focus_key());
            assert(short_break@ =~= short_break_key());
            assert(long_break@ =~= long_break_key());
            assert(every@ =~= long_break_every_key());
            assert(remind@ =~= remind_before_key());
        }
        let ghost keys = settings_keys();
        let ghost f0 = document.front();
        document.set_front_text(key_text(&tz).as_str(), self.timezone.as_str());
        let ghost f1 = document.front();
        document.set_front_text(key_text(&focus).as_str(), self.focus.render().as_str());
        let ghost f2 = document.front();
        document.set_front_text(key_text(&short_break).as_str(), self.short_break.render().as_str());
        let ghost f3 = document.front();
        document.set_front_text(key_text(&long_break).as_str(), self.long_break.render().as_str());
        let ghost f4 = document.front();
        document.set_front_count(key_text(&every).as_str(), self.long_break_every);
        let ghost f5 = document.front();
        document.set_front_text(key_text(&remind).as_str(), self.remind_before.render().as_str());
        proof {
            lemma_others_agree(f0, f1, timezone_key(), keys);
            lemma_others_agree(f1, f2, focus_key(), keys);
            lemma_others_agree(f2, f3, short_break_key(), keys);
            lemma_others_agree(f3, f4, long_break_key(), keys);
            lemma_others_agree(f4, f5, long_break_every_key(), keys);
            lemma_others_agree(f5, document.front(), remind_before_key(), keys);
        }
        let text = document.render();
        proof {
            assert(front_text(document.front()) =~= front_text(self.document().front())
                .insert(timezone_key(), self@.timezone)
                .insert(focus_key(), crate::minutes::canonical(self@.focus))
                .insert(short_break_key(), crate::minutes::canonical(self@.short_break))
                .insert(long_break_key(), crate::minutes::canonical(self@.long_break))
                .remove(long_break_every_key())
                .insert(remind_before_key(), crate::minutes::canonical(self@.remind_before)));
            assert(front_count(document.front()) =~= front_count(self.document().front())
                .remove(timezone_key())
                .remove(focus_key())
                .remove(short_break_key())
                .remove(long_break_key())
                .insert(long_break_every_key(), self@.long_break_every)
                .remove(remind_before_key()));
        }
        text
    }

    /// Which break follows the `completed`-th focus session of the day,
    /// counting from one: a long one on every `long_break_every`-th.
    pub fn break_after(&self, completed: u32) -> (kind: SessionKind)
        requires
            self@.long_break_every > 0 || completed == 0,
        ensures
            kind == (if completed > 0 && (completed as nat) % self@.long_break_every == 0 {
                SessionKind::LongBreak
            } else {
                SessionKind::ShortBreak
            }),
    {
        if completed > 0 && completed % self.long_break_every == 0 {
            SessionKind::LongBreak
        } else {
            SessionKind::ShortBreak
        }
    }

    /// The reminder lead for blocks that do not set their own.
    pub fn reminder_lead(&self) -> (lead: Minutes)
        ensures
            lead.0 == self@.remind_before,
    {
        self.remind_before
    }

    /// How long a block of this kind runs by default.
    pub fn length_of(&self, kind: SessionKind) -> (length: Minutes)
        ensures
            length.0 == (match kind {
                SessionKind::Focus => self@.focus,
                SessionKind::ShortBreak => self@.short_break,
                SessionKind::LongBreak => self@.long_break,
            }),
    {
        match kind {
            SessionKind::Focus => self.focus,
            SessionKind::ShortBreak => self.short_break,
            SessionKind::LongBreak => self.long_break,
        }
    }

    /// Applies `patch`, leaving every field it does not name alone. A zero
    /// block length is refused, and a refusal changes nothing; a zero lead is
    /// meaningful (remind me as it starts) and accepted.
    pub fn apply(&mut self, patch: SettingsPatch) -> (result: Result<(), Error>)
        ensures
            match result {
                Ok(()) => !is_zero_length(patch.focus) && !is_zero_length(patch.short_break)
                    && !is_zero_length(patch.long_break) && final(self)@ == (SettingsView {
                    focus: minutes_or(patch.focus, old(self)@.focus),
                    short_break: minutes_or(patch.short_break, old(self)@.short_break),
                    long_break: minutes_or(patch.long_break, old(self)@.long_break),
                    remind_before: minutes_or(patch.remind_before, old(self)@.remind_before),
                    ..old(self)@
                }),
                Err(e) => (is_zero_length(patch.focus) || is_zero_length(patch.short_break)
                    || is_zero_length(patch.long_break)) && e is ZeroLength && final(self)@ == old(self)@,
            },
            final(self).document() == old(self).document(),
    {
        let focus: [char; 5] = ['f', 'o', 'c', 'u', 's'];
        let short_break: [char; 11] = ['s', 'h', 'o', 'r', 't', '_', 'b', 'r', 'e', 'a', 'k'];
        let long_break: [char; 10] = ['l', 'o', 'n', 'g', '_', 'b', 'r', 'e', 'a', 'k'];
        if let Some(m) = patch.focus {
            if m.is_zero() {
                return Err(Error::ZeroLength { setting: key_text(&focus) });
            }
        }
        if let Some(m) = patch.short_break {
            if m.is_zero() {
                return Err(Error::ZeroLength { setting: key_text(&short_break) });
            }
        }
        if let Some(m) = patch.long_break {
            if m.is_zero() {
                return Err(Error::ZeroLength { setting: key_text(&long_break) });
            }
        }
        if let Some(m) = patch.focus {
            self.focus = m;
        }
        if let Some(m) = patch.short_break {
            self.short_break = m;
        }
        if let Some(m) = patch.long_break {
            self.long_break = m;
        }
        if let Some(m) = patch.remind_before {
            self.remind_before = m;
        }
        Ok(())
    }

    /// The same settings, compared without the carried-through frontmatter.
    pub fn same(&self, other: &Self) -> (equal: bool)
        ensures
            equal == (self@ == other@),
    {
        let a = crate::text::chars_of(self.timezone.as_str());
        let b = crate::text::chars_of(other.timezone.as_str());
        crate::text::same(&a, &b) && self.focus.0 == other.focus.0 && self.short_break.0 == other.short_break.0
            && self.long_break.0 == other.long_break.0 && self.long_break_every == other.long_break_every
            && self.remind_before.0 == other.remind_before.0
    }
}

} // verus!
