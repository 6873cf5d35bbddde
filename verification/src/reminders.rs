//! Which schedule blocks are due a reminder, and which have already had one.
//!
//! The sent log is what makes reminders restart-safe: without it, a server
//! that restarts inside a block's lead window would notify again on the next
//! tick.

use vstd::prelude::*;

use crate::blocks::{planned, repeats_on, one_offs_on, Occurrence, OccurrenceView};
use crate::clock::{moment_before, moment_plus, previous_day, weekday_index, Moment, MomentView};
use crate::day::Day;
use crate::document::{fence, front_block, reads_document, refuses_document, section_content, sections_lines, strings_view, upserted, Document};
use crate::blocks::Recurring;
use crate::error::Error;
use crate::grammar::{copy_project, date_text, format_date_chars, format_time_chars, slug_view, time_text};
use crate::ids::ProjectSlug;
use crate::minutes::Minutes;
use crate::order::{sorted_by_key, views};
use crate::settings::Settings;
use crate::text::{append, chars_of, has_prefix, less, slice, starts_with, string_of, text_less, trim, trimmed};

verus! {

/// Days a sent entry is kept for.
pub const KEEP_DAYS: u32 = 3;

pub open spec fn sent_title() -> Seq<char> {
    seq!['S', 'e', 'n', 't']
}

/// A notification that should go out now.
#[derive(Debug, PartialEq, Eq)]
pub struct Reminder {
    /// Stable identity, used to avoid sending twice.
    pub key: String,
    pub title: String,
    pub project: Option<ProjectSlug>,
    pub starts_at: Moment,
    pub lead: Minutes,
}

/// Key, title, project, start and lead.
pub type ReminderView = (Seq<char>, Seq<char>, Option<Seq<char>>, MomentView, nat);

impl View for Reminder {
    type V = ReminderView;

    open spec fn view(&self) -> ReminderView {
        (self.key@, self.title@, slug_view(self.project), self.starts_at@, self.lead.0 as nat)
    }
}

pub open spec fn reminder_views(v: Seq<Reminder>) -> Seq<ReminderView> {
    v.map_values(|r: Reminder| r@)
}

impl Reminder {
    /// What the notification says: `09:00 · project`, or `starts at 09:00`.
    pub fn body(&self) -> (text: String)
        ensures
            text@ == match slug_view(self.project) {
                Some(p) => time_text(self.starts_at@.1) + " · "@ + p,
                None => "starts at "@ + time_text(self.starts_at@.1),
            },
    {
        let when = format_time_chars(self.starts_at.time);
        let mut out: Vec<char> = Vec::new();
        match &self.project {
            Some(project) => {
                append(&mut out, &when);
                append(&mut out, &chars_of(" · "));
                append(&mut out, &project.to_chars());
            },
            None => {
                append(&mut out, &chars_of("starts at "));
                append(&mut out, &when);
            },
        }
        string_of(&out)
    }
}

/// The lead an occurrence is reminded with: its own, or the default.
pub open spec fn lead_for(o: OccurrenceView, default: nat) -> nat {
    match o.5 {
        Some(n) => n,
        None => default,
    }
}

/// What a reminder is keyed and labelled by: the repeat's id, or the title.
pub open spec fn label_of(o: OccurrenceView) -> Seq<char> {
    match o.6 {
        Some(id) => id,
        None => o.4,
    }
}

/// `YYYY-MM-DDTHH:MM label`.
pub open spec fn reminder_key(o: OccurrenceView) -> Seq<char> {
    date_text(o.0) + seq!['T'] + time_text(o.1) + seq![' '] + label_of(o)
}

/// `now` lies in the lead window before `starts`: the window has opened and
/// the block has not begun.
pub open spec fn in_window(now: MomentView, starts: MomentView, lead: nat) -> bool {
    &&& moment_before(now, starts)
    &&& match moment_plus(now, lead) {
        Some(later) => !moment_before(later, starts),
        None => true,
    }
}

/// The reminders due now, in plan order.
pub open spec fn due_from(occurrences: Seq<OccurrenceView>, default_lead: nat, now: MomentView, sent: Seq<Seq<char>>) -> Seq<ReminderView>
    decreases occurrences.len(),
{
    if occurrences.len() == 0 {
        Seq::empty()
    } else {
        let before = due_from(occurrences.drop_last(), default_lead, now, sent);
        let o = occurrences.last();
        let lead = lead_for(o, default_lead);
        let starts = (o.0, o.1);
        if lead > 0 && in_window(now, starts, lead) && !sent.contains(reminder_key(o)) {
            before.push((reminder_key(o), if o.4.len() == 0 {
                label_of(o)
            } else {
                o.4
            }, o.3, starts, lead))
        } else {
            before
        }
    }
}

/// `data/state/reminders.md`: the keys already notified.
#[derive(Debug)]
pub struct SentLog {
    keys: Vec<String>,
    document: Option<Document>,
}

impl View for SentLog {
    type V = Seq<Seq<char>>;

    /// The keys, in the order they were recorded.
    closed spec fn view(&self) -> Seq<Seq<char>> {
        strings_view(self.keys@)
    }
}

/// The keys a `## Sent` section lists: each `- key` line, trimmed.
pub open spec fn sent_keys(entries: Seq<(nat, Seq<char>)>) -> Seq<Seq<char>>
    decreases entries.len(),
{
    if entries.len() == 0 {
        Seq::empty()
    } else {
        let before = sent_keys(entries.drop_last());
        let t = trim(entries.last().1);
        if starts_with(t, seq!['-', ' ']) {
            before.push(t.subrange(2, t.len() as int))
        } else {
            before
        }
    }
}

/// The keys not older than `cutoff`.
pub open spec fn kept_keys(keys: Seq<Seq<char>>, cutoff: Seq<char>) -> Seq<Seq<char>>
    decreases keys.len(),
{
    if keys.len() == 0 {
        Seq::empty()
    } else {
        let before = kept_keys(keys.drop_last(), cutoff);
        if !text_less(keys.last(), cutoff) {
            before.push(seq!['-', ' '] + keys.last())
        } else {
            before
        }
    }
}

/// `n` days before `d`.
pub open spec fn days_back(d: (int, int, int), n: nat) -> Option<(int, int, int)>
    decreases n,
{
    if n == 0 {
        Some(d)
    } else {
        match previous_day(d) {
            Some(p) => days_back(p, (n - 1) as nat),
            None => None,
        }
    }
}

impl SentLog {
    /// An empty log, with no file behind it yet: it is written over no
    /// sections.
    pub fn default() -> (log: Self)
        ensures
            log@ == Seq::<Seq<char>>::empty(),
            log.base_sections() == Seq::<(Seq<char>, Seq<Seq<char>>)>::empty(),
    {
        let log = SentLog { keys: Vec::new(), document: None };
        assert(log@ =~= Seq::<Seq<char>>::empty());
        log
    }

    /// Reads the log. Only a malformed frontmatter block fails.
    pub fn parse(text: &str) -> (result: Result<Self, Error>)
        ensures
            match result {
                Ok(log) => exists|doc: Document| #![auto] reads_document(text@, doc) && log@ == sent_keys(
                    section_content(doc.section_list(), sent_title()),
                ),
                Err(e) => refuses_document(text@, e),
            },
    {
        let document = match Document::parse(text) {
            Ok(d) => d,
            Err(e) => return Err(e),
        };
        let title: [char; 4] = ['S', 'e', 'n', 't'];
        assert(title@ =~= sent_title());
        let entries = document.content_lines(string_of(&title).as_str());
        let ghost all = crate::document::entries_view(entries@);
        let mut keys: Vec<String> = Vec::new();
        let dash: [char; 2] = ['-', ' '];
        assert(dash@ =~= seq!['-', ' ']);
        let mut k: usize = 0;
        while k < entries.len()
            invariant
                k <= entries@.len(),
                all == crate::document::entries_view(entries@),
                dash@ == seq!['-', ' '],
                strings_view(keys@) == sent_keys(all.subrange(0, k as int)),
            decreases entries.len() - k,
        {
            proof {
                assert(all.subrange(0, k + 1).drop_last() =~= all.subrange(0, k as int));
            }
            let t = trimmed(&entries[k].1);
            if has_prefix(&t, &dash) {
                let ghost before = strings_view(keys@);
                let key = string_of(&slice(&t, 2, t.len()));
                keys.push(key);
                assert(strings_view(keys@) =~= before.push(key@));
            }
            k = k + 1;
        }
        assert(all.subrange(0, all.len() as int) =~= all);
        Ok(SentLog { keys, document: Some(document) })
    }

    /// Writes the log, dropping entries more than three days older than
    /// `now`'s date so the file cannot grow without bound.
    pub fn render(&self, now: Moment) -> (text: Option<String>)
        ensures
            match days_back(now@.0, KEEP_DAYS as nat) {
                Some(cutoff) => text matches Some(t) && t@ == self.base_front() + crate::text::joined(
                    self.base_preamble() + sections_lines(
                        upserted(self.base_sections(), sent_title(), kept_keys(self@, date_text(cutoff)), Seq::empty()),
                    ),
                    '\n',
                ),
                None => text is None,
            },
    {
        let mut cutoff_date = now.date;
        let mut k: u32 = 0;
        while k < KEEP_DAYS
            invariant
                k <= KEEP_DAYS,
                days_back(now@.0, KEEP_DAYS as nat) == days_back(cutoff_date@, (KEEP_DAYS - k) as nat),
            decreases KEEP_DAYS - k,
        {
            match cutoff_date.pred() {
                Some(p) => {
                    cutoff_date = p;
                },
                None => {
                    return None;
                },
            }
            k = k + 1;
        }
        let cutoff = format_date_chars(cutoff_date);
        let mut lines: Vec<String> = Vec::new();
        let mut j: usize = 0;
        let ghost keys = self@;
        while j < self.keys.len()
            invariant
                j <= self.keys@.len(),
                keys == strings_view(self.keys@),
                strings_view(lines@) == kept_keys(keys.subrange(0, j as int), cutoff@),
            decreases self.keys.len() - j,
        {
            proof {
                assert(keys.subrange(0, j + 1).drop_last() =~= keys.subrange(0, j as int));
            }
            let key = chars_of(self.keys[j].as_str());
            if !less(&key, &cutoff) {
                let mut line: Vec<char> = Vec::new();
                line.push('-');
                line.push(' ');
                append(&mut line, &key);
                assert(key@ == keys[j as int]);
                assert(line@ =~= seq!['-', ' '] + keys[j as int]);
                let ghost before = strings_view(lines@);
                let text = string_of(&line);
                lines.push(text);
                assert(strings_view(lines@) =~= before.push(seq!['-', ' '] + keys[j as int]));
            }
            j = j + 1;
        }
        assert(keys.subrange(0, keys.len() as int) =~= keys);
        let mut document = self.base_document();
        let title: [char; 4] = ['S', 'e', 'n', 't'];
        assert(title@ =~= sent_title());
        let none: [&str; 0] = [];
        assert(crate::document::strs_view(none@) =~= Seq::<Seq<char>>::empty());
        document.upsert_section(string_of(&title).as_str(), lines, &none);
        Some(document.render())
    }

    /// The sections the log is written over: its file's, or none for a new
    /// one.
    pub closed spec fn base_sections(self) -> Seq<(Seq<char>, Seq<Seq<char>>)> {
        match self.document {
            Some(d) => d.section_list(),
            None => Seq::empty(),
        }
    }

    /// The frontmatter block the log is written with: its file's, or an
    /// empty one for a new log.
    pub closed spec fn base_front(self) -> Seq<char> {
        match self.document {
            Some(d) => front_block(d.has_front(), d.front()),
            None => fence().push('\n') + fence().push('\n'),
        }
    }

    /// The lines ahead of the first section: its file's, or a blank line,
    /// the `# Reminders already sent` title and a blank line for a new log.
    pub closed spec fn base_preamble(self) -> Seq<Seq<char>> {
        match self.document {
            Some(d) => d.preamble_lines(),
            None => seq![Seq::empty(), "# Reminders already sent"@, Seq::empty()],
        }
    }

    fn base_document(&self) -> (doc: Document)
        ensures
            doc.section_list() == self.base_sections(),
            front_block(doc.has_front(), doc.front()) == self.base_front(),
            doc.preamble_lines() == self.base_preamble(),
    {
        match &self.document {
            Some(d) => d.copy(),
            None => {
                let mut fresh = Document::new();
                let mut preamble: Vec<String> = Vec::new();
                preamble.push(String::new());
                preamble.push("# Reminders already sent".to_owned());
                preamble.push(String::new());
                proof {
                    assert(strings_view(preamble@) =~= seq![Seq::<char>::empty(), "# Reminders already sent"@, Seq::<char>::empty()]);
                    assert(front_block(fresh.has_front(), fresh.front()) =~= fence().push('\n') + fence().push('\n'));
                }
                fresh.set_preamble(preamble);
                fresh
            },
        }
    }

    pub fn contains(&self, key: &str) -> (found: bool)
        ensures
            found == self@.contains(key@),
    {
        let target = chars_of(key);
        let mut k: usize = 0;
        while k < self.keys.len()
            invariant
                k <= self.keys@.len(),
                target@ == key@,
                forall|j: int| 0 <= j < k ==> self@[j] != key@,
            decreases self.keys.len() - k,
        {
            let candidate = chars_of(self.keys[k].as_str());
            if crate::text::same(&candidate, &target) {
                assert(self@[k as int] == key@);
                return true;
            }
            k = k + 1;
        }
        false
    }

    /// Records a key as sent; recording it twice is recording it once.
    pub fn record(&mut self, key: &str)
        ensures
            final(self)@ == if old(self)@.contains(key@) {
                old(self)@
            } else {
                old(self)@.push(key@)
            },
    {
        if !self.contains(key) {
            let ghost before = self@;
            self.keys.push(key.to_owned());
            assert(self@ =~= before.push(key@));
        }
    }

    pub fn len(&self) -> (n: usize)
        ensures
            n == self@.len(),
    {
        self.keys.len()
    }

    pub fn is_empty(&self) -> (empty: bool)
        ensures
            empty == (self@.len() == 0),
    {
        self.keys.len() == 0
    }
}

/// Blocks whose lead window contains `now` and that have not been notified,
/// in plan order. A block that has already begun is not due, and a zero lead
/// turns reminders off for its block.
pub fn due(day: &Day, recurring: &Recurring, settings: &Settings, now: Moment, sent: &SentLog) -> (reminders: Vec<Reminder>)
    ensures
        reminder_views(reminders@) == due_from(
            sorted_by_key::<Occurrence>(
                repeats_on(recurring@.blocks, day@.date, weekday_index(day@.date.0, day@.date.1, day@.date.2), day@.skipped)
                    + one_offs_on(day@.date, day@.schedule),
            ),
            settings@.remind_before,
            now@,
            sent@,
        ),
{
    let occurrences = planned(day, recurring);
    let ghost all = views(occurrences@);
    let default_lead = settings.reminder_lead();
    let mut out: Vec<Reminder> = Vec::new();
    let mut k: usize = 0;
    while k < occurrences.len()
        invariant
            k <= occurrences@.len(),
            all == views(occurrences@),
            default_lead.0 == settings@.remind_before,
            reminder_views(out@) == due_from(all.subrange(0, k as int), settings@.remind_before, now@, sent@),
        decreases occurrences.len() - k,
    {
        proof {
            assert(all.subrange(0, k + 1).drop_last() =~= all.subrange(0, k as int));
        }
        let o = &occurrences[k];
        let lead = match o.remind_before {
            Some(m) => m,
            None => default_lead,
        };
        if lead.0 > 0 {
            let starts = Moment::new(o.date, o.start);
            let opened = match now.plus_minutes(lead.0) {
                Some(later) => !later.is_before(starts),
                None => true,
            };
            if now.is_before(starts) && opened {
                let label: Vec<char> = match &o.block {
                    Some(id) => id.to_chars(),
                    None => chars_of(o.title.as_str()),
                };
                let mut key = format_date_chars(o.date);
                key.push('T');
                append(&mut key, &format_time_chars(o.start));
                key.push(' ');
                append(&mut key, &label);
                let key_text = string_of(&key);
                assert(key_text@ =~= crate::reminders::reminder_key(all[k as int]));
                if !sent.contains(key_text.as_str()) {
                    let title_chars = chars_of(o.title.as_str());
                    let title = if title_chars.len() == 0 {
                        string_of(&label)
                    } else {
                        o.title.clone()
                    };
                    let ghost before = reminder_views(out@);
                    let reminder = Reminder { key: key_text, title, project: copy_project(&o.project), starts_at: starts, lead };
                    out.push(reminder);
                    assert(reminder_views(out@) =~= before.push(reminder@));
                }
            }
        }
        k = k + 1;
    }
    assert(all.subrange(0, all.len() as int) =~= all);
    out
}

} // verus!
