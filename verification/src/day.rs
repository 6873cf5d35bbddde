//! Day files: `data/days/YYYY/YYYY-MM-DD.md`.
//!
//! One file per day holds what was tracked (`## Sessions`), what was planned
//! for that day only (`## Schedule`) and which repeats it skips
//! (`## Skipped`), with `## Notes` and anything an agent adds carried
//! straight through.

use vstd::prelude::*;

use crate::blocks::{BlockView, DayBlock};
use crate::clock::{CalendarDate, TimeOfDay};
use crate::document::{front_block, front_split, reads_document, refuses_document, section_content, sections_lines, strings_view, upserted, Document};
use crate::error::{problem_kinds, problem_lines, Error, ParseError, ParseErrorKind};
use crate::grammar::{
    after_duration_group, copy_project, date_text, format_date_chars, format_time_chars, format_wikilink_chars, range_refusal, range_value,
    skip_duration_group, slug_view, span, span_minutes, time_range, time_text, wikilink, wikilink_parts,
    wikilink_text,
};
use crate::ids::{BlockId, ProjectSlug};
use crate::list::{line_refusal, read_entries, written_lines, ListLine};
use crate::minutes::{canonical, Minutes};
use crate::order::{inserted, insert_by_key, is_sorted, lemma_inserted_sorted, law_sorted_by_key, sort_by_key, sorted_by_key, views, Keyed};
use crate::text::{append, chars_of, joined, lower_all, string_of, trim, trim_end, trimmed_end};
use crate::yaml::{front_count, front_size, front_text, parsed_front};

verus! {

/// What a session holds: start and end (seconds past midnight), project and
/// note.
pub type SessionView = (nat, nat, Option<Seq<char>>, Seq<char>);

/// What a `- ` stripped session line reads as. The `(25m)` group is display
/// only: the length is always derived from the times.
pub open spec fn session_reads(content: Seq<char>) -> Option<SessionView> {
    match range_value(content) {
        Some((s, e, r)) => {
            let (project, note) = wikilink_parts(after_duration_group(r));
            Some((s, e, project, trim(note)))
        },
        None => None,
    }
}

/// The line a session is written as.
pub open spec fn session_line(v: SessionView) -> Seq<char> {
    trim_end(
        seq!['-', ' '] + time_text(v.0) + seq!['-'] + time_text(v.1) + seq![' ', '('] + canonical(
            span_minutes(v.0, v.1),
        ) + seq![')', ' '] + wikilink_text(v.2) + v.3,
    )
}

/// A tracked interval.
///
/// Focus blocks and hand-entered meetings are the same thing here. Breaks are
/// timer state and never become sessions.
#[derive(Debug, PartialEq, Eq)]
pub struct Session {
    pub start: TimeOfDay,
    pub end: TimeOfDay,
    pub project: Option<ProjectSlug>,
    pub note: String,
}

impl View for Session {
    type V = SessionView;

    open spec fn view(&self) -> SessionView {
        (self.start@, self.end@, slug_view(self.project), self.note@)
    }
}

impl Session {
    pub fn new(start: TimeOfDay, end: TimeOfDay, project: Option<ProjectSlug>, note: &str) -> (session: Self)
        ensures
            session@ == (start@, end@, slug_view(project), note@),
    {
        Session { start, end, project, note: note.to_owned() }
    }

    /// Wall-clock length, treating `end < start` as crossing midnight.
    pub fn duration(&self) -> (length: Minutes)
        ensures
            length.0 == span_minutes(self@.0, self@.1),
    {
        span(self.start, self.end)
    }

    /// Reads `HH:MM-HH:MM (25m) [[project]] note`, the bullet already
    /// stripped.
    pub fn parse(content: &str) -> (result: Result<Self, ParseErrorKind>)
        ensures
            match result {
                Ok(s) => session_reads(content@) == Some(s@),
                Err(kind) => session_reads(content@) is None && range_refusal(content@, kind),
            },
    {
        match time_range(content) {
            Ok(((start, end), rest)) => {
                let rest = skip_duration_group(rest.as_str());
                let (project, note) = wikilink(rest.as_str());
                let note = crate::blocks::trimmed_string(note.as_str());
                Ok(Session { start, end, project, note })
            },
            Err(kind) => Err(kind),
        }
    }

    /// Writes `- HH:MM-HH:MM (25m) [[project]] note`, the length recomputed
    /// from the times, with no trailing space.
    pub fn render(&self) -> (line: String)
        ensures
            line@ == session_line(self@),
    {
        let mut out: Vec<char> = Vec::new();
        out.push('-');
        out.push(' ');
        append(&mut out, &format_time_chars(self.start));
        out.push('-');
        append(&mut out, &format_time_chars(self.end));
        out.push(' ');
        out.push('(');
        append(&mut out, &self.duration().render_chars());
        out.push(')');
        out.push(' ');
        append(&mut out, &format_wikilink_chars(self.project.as_ref()));
        append(&mut out, &chars_of(self.note.as_str()));
        proof {
            let v = self@;
            assert(out@ =~= seq!['-', ' '] + time_text(v.0) + seq!['-'] + time_text(v.1) + seq![' ', '(']
                + canonical(span_minutes(v.0, v.1)) + seq![')', ' '] + wikilink_text(v.2) + v.3);
        }
        string_of(&trimmed_end(&out))
    }
}

impl Clone for Session {
    fn clone(&self) -> (copy: Self)
        ensures
            copy@ == self@,
    {
        Session { start: self.start, end: self.end, project: copy_project(&self.project), note: self.note.clone() }
    }
}

impl ListLine for Session {
    open spec fn refused(content: Seq<char>, kind: ParseErrorKind) -> bool {
        range_refusal(content, kind)
    }

    open spec fn reads(content: Seq<char>) -> Option<SessionView> {
        session_reads(content)
    }

    open spec fn line_of(v: SessionView) -> Seq<char> {
        session_line(v)
    }

    fn read_line(content: &str) -> (result: Result<Self, ParseErrorKind>) {
        Session::parse(content)
    }

    fn write_line(&self) -> (line: String) {
        self.render()
    }
}

impl Keyed for Session {
    open spec fn key(v: SessionView) -> int {
        v.0 as int
    }

    fn key_of(&self) -> (k: u64) {
        self.start.seconds_from_midnight() as u64
    }
}

} // verus!

verus! {

pub open spec fn sessions_title() -> Seq<char> {
    seq!['S', 'e', 's', 's', 'i', 'o', 'n', 's']
}

pub open spec fn schedule_title() -> Seq<char> {
    seq!['S', 'c', 'h', 'e', 'd', 'u', 'l', 'e']
}

pub open spec fn skipped_title() -> Seq<char> {
    seq!['S', 'k', 'i', 'p', 'p', 'e', 'd']
}

fn sessions_heading() -> (title: String)
    ensures
        title@ == sessions_title(),
{
    let chars: [char; 8] = ['S', 'e', 's', 's', 'i', 'o', 'n', 's'];
    assert(chars@ =~= sessions_title());
    string_of(&chars)
}

fn schedule_heading() -> (title: String)
    ensures
        title@ == schedule_title(),
{
    let chars: [char; 8] = ['S', 'c', 'h', 'e', 'd', 'u', 'l', 'e'];
    assert(chars@ =~= schedule_title());
    string_of(&chars)
}

fn skipped_heading() -> (title: String)
    ensures
        title@ == skipped_title(),
{
    let chars: [char; 7] = ['S', 'k', 'i', 'p', 'p', 'e', 'd'];
    assert(chars@ =~= skipped_title());
    string_of(&chars)
}

/// Everything a day holds besides its document: the date, its one-off
/// blocks, the repeats it skips, its sessions, the lines of each owned
/// section that did not read, and the line numbers of those lines with the
/// rule each broke.
pub struct DayView {
    pub date: (int, int, int),
    pub schedule: Seq<BlockView>,
    pub skipped: Seq<Seq<char>>,
    pub sessions: Seq<SessionView>,
    pub unparsed_sessions: Seq<Seq<char>>,
    pub unparsed_schedule: Seq<Seq<char>>,
    pub unparsed_skipped: Seq<Seq<char>>,
    pub problems: Seq<nat>,
    pub problem_kinds: Seq<ParseErrorKind>,
}

/// A day's file, with everything the app does not understand held intact.
#[derive(Debug)]
pub struct Day {
    date: CalendarDate,
    /// One-off blocks planned for this day only, in start order.
    schedule: Vec<DayBlock>,
    /// Repeating blocks suppressed for this day.
    skipped: Vec<BlockId>,
    /// In start order.
    sessions: Vec<Session>,
    /// Lines that did not read, per owned section, re-emitted at the end of
    /// their section so a typo costs one misplaced line, not the day.
    unparsed_sessions: Vec<String>,
    unparsed_schedule: Vec<String>,
    unparsed_skipped: Vec<String>,
    problems: Vec<ParseError>,
    document: Document,
}

impl View for Day {
    type V = DayView;

    closed spec fn view(&self) -> DayView {
        DayView {
            date: self.date@,
            schedule: views(self.schedule@),
            skipped: crate::list::views_of(self.skipped@),
            sessions: views(self.sessions@),
            unparsed_sessions: strings_view(self.unparsed_sessions@),
            unparsed_schedule: strings_view(self.unparsed_schedule@),
            unparsed_skipped: strings_view(self.unparsed_skipped@),
            problems: problem_lines(self.problems@),
            problem_kinds: problem_kinds(self.problems@),
        }
    }
}

impl Day {
    #[verifier::type_invariant]
    spec fn ordered(self) -> bool {
        &&& is_sorted::<Session>(views(self.sessions@))
        &&& is_sorted::<DayBlock>(views(self.schedule@))
    }

    /// The markdown document the day's owned sections are written into.
    pub closed spec fn document(self) -> Document {
        self.document
    }

    /// The sections the day writes: its document's, with the three owned
    /// sections replaced in their canonical order.
    pub open spec fn written_sections(self) -> Seq<(Seq<char>, Seq<Seq<char>>)> {
        let v = self@;
        let with_schedule = upserted(
            self.document().section_list(),
            schedule_title(),
            written_lines::<DayBlock>(v.schedule, v.unparsed_schedule),
            Seq::empty(),
        );
        let with_skipped = upserted(
            with_schedule,
            skipped_title(),
            written_lines::<BlockId>(v.skipped, v.unparsed_skipped),
            seq![schedule_title()],
        );
        upserted(
            with_skipped,
            sessions_title(),
            written_lines::<Session>(v.sessions, v.unparsed_sessions),
            seq![skipped_title(), schedule_title()],
        )
    }

    /// The text of the day's file.
    pub open spec fn text(self) -> Seq<char> {
        front_block(self.document().has_front(), self.document().front()) + joined(
            self.document().preamble_lines() + sections_lines(self.written_sections()),
            '\n',
        )
    }

    /// A fresh day file with a `date` key, the `# YYYY-MM-DD` title and
    /// nothing else.
    pub fn new(date: CalendarDate) -> (day: Self)
        ensures
            day@ == (DayView {
                date: date@,
                schedule: Seq::empty(),
                skipped: Seq::empty(),
                sessions: Seq::empty(),
                unparsed_sessions: Seq::empty(),
                unparsed_schedule: Seq::empty(),
                unparsed_skipped: Seq::empty(),
                problems: Seq::empty(),
                problem_kinds: Seq::empty(),
            }),
            day.document().has_front(),
            front_text(day.document().front()) == Map::<Seq<char>, Seq<char>>::empty().insert(
                seq!['d', 'a', 't', 'e'],
                date_text(date@),
            ),
            front_count(day.document().front()).is_empty(),
            day.document().preamble_lines() == seq![
                Seq::<char>::empty(),
                seq!['#', ' '] + date_text(date@),
                Seq::<char>::empty(),
            ],
            day.document().section_list().len() == 0,
    {
        let mut document = Document::new();
        let key: [char; 4] = ['d', 'a', 't', 'e'];
        let key_text = string_of(&key);
        let date_chars = format_date_chars(date);
        let date_string = string_of(&date_chars);
        document.set_front_text(key_text.as_str(), date_string.as_str());
        let mut title: Vec<char> = Vec::new();
        title.push('#');
        title.push(' ');
        append(&mut title, &date_chars);
        assert(title@ =~= seq!['#', ' '] + date_text(date@));
        let blank_before = String::new();
        let heading = string_of(&title);
        let blank_after = String::new();
        let mut preamble: Vec<String> = Vec::new();
        preamble.push(blank_before);
        preamble.push(heading);
        preamble.push(blank_after);
        proof {
            assert(key@ =~= seq!['d', 'a', 't', 'e']);
            assert(front_text(document.front()) =~= Map::<Seq<char>, Seq<char>>::empty().insert(
                seq!['d', 'a', 't', 'e'],
                date_text(date@),
            ));
            assert(front_count(document.front()) =~= Map::<Seq<char>, nat>::empty());
            assert(strings_view(preamble@) =~= seq![
                Seq::<char>::empty(),
                seq!['#', ' '] + date_text(date@),
                Seq::<char>::empty(),
            ]);
        }
        document.set_preamble(preamble);
        let day = Day {
            date,
            schedule: Vec::new(),
            skipped: Vec::new(),
            sessions: Vec::new(),
            unparsed_sessions: Vec::new(),
            unparsed_schedule: Vec::new(),
            unparsed_skipped: Vec::new(),
            problems: Vec::new(),
            document,
        };
        assert(day@.schedule =~= Seq::<BlockView>::empty());
        assert(day@.skipped =~= Seq::<Seq<char>>::empty());
        assert(day@.sessions =~= Seq::<SessionView>::empty());
        assert(day@.unparsed_sessions =~= Seq::<Seq<char>>::empty());
        assert(day@.unparsed_schedule =~= Seq::<Seq<char>>::empty());
        assert(day@.unparsed_skipped =~= Seq::<Seq<char>>::empty());
        assert(day@.problems =~= Seq::<nat>::empty());
        assert(day@.problem_kinds =~= Seq::<ParseErrorKind>::empty());
        day
    }
}


/// The tracked minutes of a list of sessions.
pub open spec fn tracked_total(sessions: Seq<SessionView>) -> nat
    decreases sessions.len(),
{
    if sessions.len() == 0 {
        0
    } else {
        tracked_total(sessions.drop_last()) + span_minutes(sessions.last().0, sessions.last().1)
    }
}

/// `ids` with every copy of `id` taken out.
pub open spec fn without(ids: Seq<Seq<char>>, id: Seq<char>) -> Seq<Seq<char>>
    decreases ids.len(),
{
    if ids.len() == 0 {
        ids
    } else if ids.last() == id {
        without(ids.drop_last(), id)
    } else {
        without(ids.drop_last(), id).push(ids.last())
    }
}

/// The skip list after skipping `id`.
pub open spec fn with_skip(ids: Seq<Seq<char>>, id: Seq<char>) -> Seq<Seq<char>> {
    if ids.contains(id) {
        ids
    } else {
        ids.push(id)
    }
}

/// Without `id`, nothing of `id` is left, and a list that never held it is
/// unchanged.
proof fn lemma_without(ids: Seq<Seq<char>>, id: Seq<char>)
    ensures
        !without(ids, id).contains(id),
        !ids.contains(id) ==> without(ids, id) == ids,
    decreases ids.len(),
{
    if ids.len() > 0 {
        lemma_without(ids.drop_last(), id);
        let w = without(ids.drop_last(), id);
        if ids.last() != id {
            assert forall|k: int| 0 <= k < w.push(ids.last()).len() implies w.push(ids.last())[k] != id by {
                if k < w.len() {
                    assert(w.push(ids.last())[k] == w[k]);
                }
            }
        }
        if !ids.contains(id) {
            assert(!ids.drop_last().contains(id)) by {
                if ids.drop_last().contains(id) {
                    let k = choose|k: int| 0 <= k < ids.drop_last().len() && ids.drop_last()[k] == id;
                    assert(ids[k] == id);
                }
            }
            assert(ids.last() == ids[ids.len() - 1]);
            assert(ids.drop_last().push(ids.last()) =~= ids);
        }
    }
}

/// Skipping is idempotent, and undone by unskipping: skipping twice skips
/// once, an unskipped id is gone from the list, and unskipping what was just
/// skipped gives back a list that did not hold it.
pub proof fn law_skip_idempotent_reversible(ids: Seq<Seq<char>>, id: Seq<char>)
    ensures
        with_skip(with_skip(ids, id), id) == with_skip(ids, id),
        !without(with_skip(ids, id), id).contains(id),
        !ids.contains(id) ==> without(with_skip(ids, id), id) == ids,
{
    assert(with_skip(ids, id).contains(id)) by {
        if !ids.contains(id) {
            assert(ids.push(id)[ids.len() as int] == id);
        }
    }
    lemma_without(with_skip(ids, id), id);
    if !ids.contains(id) {
        let p = ids.push(id);
        assert(p.drop_last() =~= ids);
        assert(p.last() == id);
        lemma_without(ids, id);
    }
}

/// A day read from a file and then changed only through `Day`'s own methods
/// (each of which keeps the document) writes back, ahead of its body, the
/// frontmatter mapping that was read from that file's frontmatter block:
/// the same string and count entries, under the same fences.
pub proof fn law_day_writes_back_its_front(text: Seq<char>, read: Day, edited: Day)
    requires
        reads_document(text, read.document()),
        edited.document() == read.document(),
    ensures
        edited.text().take(front_block(read.document().has_front(), read.document().front()).len() as int)
            == front_block(read.document().has_front(), read.document().front()),
        read.document().has_front() == front_split(text).0 is Some,
        front_split(text).0 matches Some(y) ==> trim(y).len() > 0 ==> parsed_front(y) == Some(
            (
                front_text(read.document().front()),
                front_count(read.document().front()),
                front_size(read.document().front()),
            ),
        ),
{
    let head = front_block(read.document().has_front(), read.document().front());
    let tail = joined(edited.document().preamble_lines() + sections_lines(edited.written_sections()), '\n');
    assert(edited.text() == head + tail);
    assert((head + tail).take(head.len() as int) =~= head);
}

/// A day read from a file and then changed only through `Day`'s own methods
/// writes back, with the frontmatter block and the preamble it read, every
/// section of that file that is not titled `Sessions`, `Schedule` or
/// `Skipped` (in any case), title and body unchanged.
pub proof fn law_day_keeps_other_sections(
    text: Seq<char>,
    read: Day,
    edited: Day,
    section: (Seq<char>, Seq<Seq<char>>),
)
    requires
        reads_document(text, read.document()),
        edited.document() == read.document(),
        read.document().section_list().contains(section),
        lower_all(section.0) != lower_all(sessions_title()),
        lower_all(section.0) != lower_all(schedule_title()),
        lower_all(section.0) != lower_all(skipped_title()),
    ensures
        edited.text() == front_block(read.document().has_front(), read.document().front()) + joined(
            read.document().preamble_lines() + sections_lines(edited.written_sections()),
            '\n',
        ),
        edited.written_sections().contains(section),
{
    let v = edited@;
    let secs = edited.document().section_list();
    let with_schedule = upserted(secs, schedule_title(), written_lines::<DayBlock>(v.schedule, v.unparsed_schedule), Seq::empty());
    crate::document::law_upsert_keeps_other_sections(
        secs,
        schedule_title(),
        written_lines::<DayBlock>(v.schedule, v.unparsed_schedule),
        Seq::empty(),
        section,
    );
    let with_skipped = upserted(
        with_schedule,
        skipped_title(),
        written_lines::<BlockId>(v.skipped, v.unparsed_skipped),
        seq![schedule_title()],
    );
    crate::document::law_upsert_keeps_other_sections(
        with_schedule,
        skipped_title(),
        written_lines::<BlockId>(v.skipped, v.unparsed_skipped),
        seq![schedule_title()],
        section,
    );
    crate::document::law_upsert_keeps_other_sections(
        with_skipped,
        sessions_title(),
        written_lines::<Session>(v.sessions, v.unparsed_sessions),
        seq![skipped_title(), schedule_title()],
        section,
    );
}

/// Adding a session to a day's sessions, kept in start order, leaves them in
/// start order: one longer, holding the old sessions and the new one, with the
/// new one after every session that starts no later than it.
pub proof fn law_add_session_keeps_order(sessions: Seq<SessionView>, session: SessionView)
    requires
        is_sorted::<Session>(sessions),
    ensures
        is_sorted::<Session>(inserted::<Session>(sessions, session)),
        inserted::<Session>(sessions, session).len() == sessions.len() + 1,
        inserted::<Session>(sessions, session).to_multiset() == sessions.to_multiset().insert(session),
        forall|i: int|
            0 <= i < sessions.len() && Session::key(#[trigger] sessions[i]) <= Session::key(session) ==> inserted::<
                Session,
            >(sessions, session)[i] == sessions[i],
{
    lemma_inserted_sorted::<Session>(sessions, session);
    crate::order::lemma_first_after_bound::<Session>(sessions, Session::key(session));
    let p = crate::order::first_after::<Session>(sessions, Session::key(session));
    vstd::seq_lib::to_multiset_insert(sessions, p, session);
    assert forall|i: int|
        0 <= i < sessions.len() && Session::key(#[trigger] sessions[i]) <= Session::key(session) implies inserted::<
            Session,
        >(sessions, session)[i] == sessions[i] by {
        if i >= p {
            assert(Session::key(sessions[p]) > Session::key(session));
            if i > p {
                assert(Session::key(sessions[p]) <= Session::key(sessions[i]));
            }
        }
    }
}

/// Sessions whose start times (seconds past midnight) never decrease.
pub open spec fn in_start_order(s: Seq<SessionView>) -> bool {
    forall|i: int, j: int| 0 <= i < j < s.len() ==> (#[trigger] s[i]).0 <= (#[trigger] s[j]).0
}

/// Sessions in key order are in start order.
pub proof fn lemma_sessions_in_start_order(s: Seq<SessionView>)
    requires
        is_sorted::<Session>(s),
    ensures
        in_start_order(s),
{
    assert forall|i: int, j: int| 0 <= i < j < s.len() implies (#[trigger] s[i]).0 <= (#[trigger] s[j]).0 by {
        assert(Session::key(s[i]) <= Session::key(s[j]));
    }
}

/// A day's sessions stay in start order: adding one to sessions in start
/// order, or sorting any sessions as reading a day file and replacing a
/// session do, gives sessions whose start times never decrease, holding
/// exactly the sessions given; an added session goes after every session
/// starting no later than it.
pub proof fn law_sessions_in_start_order(s: Seq<SessionView>, x: SessionView)
    ensures
        in_start_order(s) ==> in_start_order(inserted::<Session>(s, x)),
        inserted::<Session>(s, x).to_multiset() == s.to_multiset().insert(x),
        forall|i: int| 0 <= i < s.len() && (#[trigger] s[i]).0 <= x.0 && in_start_order(s) ==> inserted::<Session>(s, x)[i] == s[i],
        in_start_order(sorted_by_key::<Session>(s)),
        sorted_by_key::<Session>(s).to_multiset() == s.to_multiset(),
{
    law_sorted_by_key::<Session>(s);
    lemma_sessions_in_start_order(sorted_by_key::<Session>(s));
    crate::order::lemma_first_after_bound::<Session>(s, Session::key(x));
    let p = crate::order::first_after::<Session>(s, Session::key(x));
    vstd::seq_lib::to_multiset_insert(s, p, x);
    if in_start_order(s) {
        assert forall|i: int, j: int| 0 <= i < j < s.len() implies Session::key(#[trigger] s[i]) <= Session::key(
            #[trigger] s[j],
        ) by {
            assert(s[i].0 <= s[j].0);
        }
        law_add_session_keeps_order(s, x);
        lemma_sessions_in_start_order(inserted::<Session>(s, x));
    }
}

/// One-off blocks whose start times (seconds past midnight) never decrease.
pub open spec fn blocks_in_start_order(s: Seq<BlockView>) -> bool {
    forall|i: int, j: int| 0 <= i < j < s.len() ==> (#[trigger] s[i]).0 <= (#[trigger] s[j]).0
}

/// Blocks in key order are in start order.
pub proof fn lemma_blocks_in_start_order(s: Seq<BlockView>)
    requires
        is_sorted::<DayBlock>(s),
    ensures
        blocks_in_start_order(s),
{
    assert forall|i: int, j: int| 0 <= i < j < s.len() implies (#[trigger] s[i]).0 <= (#[trigger] s[j]).0 by {
        assert(DayBlock::key(s[i]) <= DayBlock::key(s[j]));
    }
}

/// A day's one-off blocks stay in start order: adding one to blocks in start
/// order, or sorting any blocks as reading a day file and replacing a block
/// do, gives blocks whose start times never decrease, holding exactly the
/// blocks given; an added block goes after every block starting no later
/// than it.
pub proof fn law_blocks_in_start_order(s: Seq<BlockView>, x: BlockView)
    ensures
        blocks_in_start_order(s) ==> blocks_in_start_order(inserted::<DayBlock>(s, x)),
        inserted::<DayBlock>(s, x).to_multiset() == s.to_multiset().insert(x),
        forall|i: int|
            0 <= i < s.len() && (#[trigger] s[i]).0 <= x.0 && blocks_in_start_order(s) ==> inserted::<DayBlock>(s, x)[i]
                == s[i],
        blocks_in_start_order(sorted_by_key::<DayBlock>(s)),
        sorted_by_key::<DayBlock>(s).to_multiset() == s.to_multiset(),
{
    law_sorted_by_key::<DayBlock>(s);
    lemma_blocks_in_start_order(sorted_by_key::<DayBlock>(s));
    crate::order::lemma_first_after_bound::<DayBlock>(s, DayBlock::key(x));
    let p = crate::order::first_after::<DayBlock>(s, DayBlock::key(x));
    vstd::seq_lib::to_multiset_insert(s, p, x);
    if blocks_in_start_order(s) {
        assert forall|i: int, j: int| 0 <= i < j < s.len() implies DayBlock::key(#[trigger] s[i]) <= DayBlock::key(
            #[trigger] s[j],
        ) by {
            assert(s[i].0 <= s[j].0);
        }
        lemma_inserted_sorted::<DayBlock>(s, x);
        lemma_blocks_in_start_order(inserted::<DayBlock>(s, x));
        assert forall|i: int|
            0 <= i < s.len() && (#[trigger] s[i]).0 <= x.0 implies inserted::<DayBlock>(s, x)[i] == s[i] by {
            if i >= p {
                assert(DayBlock::key(s[p]) > DayBlock::key(x));
                if i > p {
                    assert(DayBlock::key(s[p]) <= DayBlock::key(s[i]));
                }
            }
        }
    }
}

/// Removing an entry from a sorted sequence leaves it sorted.
pub proof fn lemma_remove_sorted<T: Keyed>(s: Seq<T::V>, i: int)
    requires
        is_sorted::<T>(s),
        0 <= i < s.len(),
    ensures
        is_sorted::<T>(s.remove(i)),
{
    let r = s.remove(i);
    assert forall|a: int, b: int| 0 <= a < b < r.len() implies T::key(#[trigger] r[a]) <= T::key(#[trigger] r[b]) by {
        let a0 = if a < i { a } else { a + 1 };
        let b0 = if b < i { b } else { b + 1 };
        assert(r[a] == s[a0]);
        assert(r[b] == s[b0]);
    }
}

impl Day {
    /// Reads a day file. Only a malformed frontmatter block fails; sessions
    /// and one-off blocks come out in start order, keeping file order between
    /// equal starts.
    pub fn parse(date: CalendarDate, text: &str) -> (result: Result<Self, Error>)
        ensures
            match result {
                Ok(day) => {
                    let secs = day.document().section_list();
                    let sessions = read_entries::<Session>(section_content(secs, sessions_title()));
                    let schedule = read_entries::<DayBlock>(section_content(secs, schedule_title()));
                    let skipped = read_entries::<BlockId>(section_content(secs, skipped_title()));
                    &&& reads_document(text@, day.document())
                    &&& day@ == (DayView {
                        date: date@,
                        schedule: sorted_by_key::<DayBlock>(schedule.0),
                        skipped: skipped.0,
                        sessions: sorted_by_key::<Session>(sessions.0),
                        unparsed_sessions: sessions.1,
                        unparsed_schedule: schedule.1,
                        unparsed_skipped: skipped.1,
                        problems: sessions.2 + schedule.2 + skipped.2,
                        problem_kinds: day@.problem_kinds,
                    })
                    &&& in_start_order(day@.sessions)
                    &&& blocks_in_start_order(day@.schedule)
                    &&& day@.problem_kinds.len() == day@.problems.len()
                    &&& forall|i: int|
                        0 <= i < sessions.1.len() ==> line_refusal::<Session>(
                            #[trigger] sessions.1[i],
                            day@.problem_kinds[i],
                        )
                    &&& forall|i: int|
                        0 <= i < schedule.1.len() ==> line_refusal::<DayBlock>(
                            #[trigger] schedule.1[i],
                            day@.problem_kinds[sessions.1.len() + i],
                        )
                    &&& forall|i: int|
                        0 <= i < skipped.1.len() ==> line_refusal::<BlockId>(
                            #[trigger] skipped.1[i],
                            day@.problem_kinds[sessions.1.len() + schedule.1.len() + i],
                        )
                },
                Err(e) => refuses_document(text@, e),
            },
    {
        let document = match Document::parse(text) {
            Ok(document) => document,
            Err(e) => return Err(e),
        };
        let mut problems: Vec<ParseError> = Vec::new();
        let sessions_name = sessions_heading();
        let schedule_name = schedule_heading();
        let skipped_name = skipped_heading();
        let ghost secs = document.section_list();
        let (sessions, unparsed_sessions) = document.parse_list_section::<Session>(sessions_name.as_str(), &mut problems);
        let ghost after_sessions = problems@;
        let (schedule, unparsed_schedule) = document.parse_list_section::<DayBlock>(schedule_name.as_str(), &mut problems);
        let ghost after_schedule = problems@;
        let (skipped, unparsed_skipped) = document.parse_list_section::<BlockId>(skipped_name.as_str(), &mut problems);
        let sessions = sort_by_key(sessions);
        let schedule = sort_by_key(schedule);
        proof {
            let s1 = read_entries::<Session>(section_content(secs, sessions_title()));
            let s2 = read_entries::<DayBlock>(section_content(secs, schedule_title()));
            let s3 = read_entries::<BlockId>(section_content(secs, skipped_title()));
            assert(crate::list::views_of(sessions@) =~= views(sessions@));
            law_sorted_by_key::<Session>(s1.0);
            law_sorted_by_key::<DayBlock>(s2.0);
            lemma_sessions_in_start_order(sorted_by_key::<Session>(s1.0));
            lemma_blocks_in_start_order(sorted_by_key::<DayBlock>(s2.0));
            assert(problem_lines(Seq::<ParseError>::empty()) =~= Seq::<nat>::empty());
            assert(Seq::<nat>::empty() + s1.2 =~= s1.2);
            let fin = problems@;
            let a1 = after_sessions.len() as int;
            let a2 = after_schedule.len() as int;
            assert(fin.subrange(0, a2) == after_schedule);
            assert(after_schedule.subrange(0, a1) == after_sessions);
            assert forall|i: int| 0 <= i < s1.1.len() implies line_refusal::<Session>(
                #[trigger] s1.1[i],
                problem_kinds(fin)[i],
            ) by {
                assert(fin.subrange(0, a2)[i] == fin[i]);
                assert(after_schedule.subrange(0, a1)[i] == after_schedule[i]);
            }
            assert forall|i: int| 0 <= i < s2.1.len() implies line_refusal::<DayBlock>(
                #[trigger] s2.1[i],
                problem_kinds(fin)[s1.1.len() + i],
            ) by {
                assert(fin.subrange(0, a2)[a1 + i] == fin[a1 + i]);
            }
            assert forall|i: int| 0 <= i < s3.1.len() implies line_refusal::<BlockId>(
                #[trigger] s3.1[i],
                problem_kinds(fin)[s1.1.len() + s2.1.len() + i],
            ) by {
            }
        }
        let day = Day {
            date,
            schedule,
            skipped,
            sessions,
            unparsed_sessions,
            unparsed_schedule,
            unparsed_skipped,
            problems,
            document,
        };
        Ok(day)
    }

    /// Writes the owned sections back and reassembles the file text.
    pub fn render(&self) -> (text: String)
        ensures
            text@ == self.text(),
    {
        let mut document = self.document.copy();
        let sessions_name = sessions_heading();
        let schedule_name = schedule_heading();
        let skipped_name = skipped_heading();
        let none: [&str; 0] = [];
        let after_skipped: [&str; 1] = [schedule_name.as_str()];
        let after_sessions: [&str; 2] = [skipped_name.as_str(), schedule_name.as_str()];
        proof {
            assert(crate::document::strs_view(none@) =~= Seq::<Seq<char>>::empty());
            assert(crate::document::strs_view(after_skipped@) =~= seq![schedule_title()]);
            assert(crate::document::strs_view(after_sessions@) =~= seq![skipped_title(), schedule_title()]);
            assert(crate::list::views_of(self.schedule@) =~= views(self.schedule@));
            assert(crate::list::views_of(self.sessions@) =~= views(self.sessions@));
        }
        document.write_list_section(schedule_name.as_str(), self.schedule.as_slice(), self.unparsed_schedule.as_slice(), &none);
        document.write_list_section(skipped_name.as_str(), self.skipped.as_slice(), self.unparsed_skipped.as_slice(), &after_skipped);
        document.write_list_section(sessions_name.as_str(), self.sessions.as_slice(), self.unparsed_sessions.as_slice(), &after_sessions);
        document.render()
    }

    pub fn date(&self) -> (date: CalendarDate)
        ensures
            date@ == self@.date,
    {
        self.date
    }

    /// The sessions, in start order.
    pub fn sessions(&self) -> (sessions: &[Session])
        ensures
            views(sessions@) == self@.sessions,
            is_sorted::<Session>(self@.sessions),
            in_start_order(self@.sessions),
    {
        proof {
            use_type_invariant(self);
            lemma_sessions_in_start_order(self@.sessions);
        }
        self.sessions.as_slice()
    }

    /// The one-off blocks, in start order.
    pub fn schedule(&self) -> (blocks: &[DayBlock])
        ensures
            views(blocks@) == self@.schedule,
            is_sorted::<DayBlock>(self@.schedule),
            blocks_in_start_order(self@.schedule),
    {
        proof {
            use_type_invariant(self);
            lemma_blocks_in_start_order(self@.schedule);
        }
        self.schedule.as_slice()
    }

    pub fn skipped(&self) -> (ids: &[BlockId])
        ensures
            crate::list::views_of(ids@) == self@.skipped,
    {
        self.skipped.as_slice()
    }

    /// Lines the app could not read, with the reason, so a broken file is
    /// visible rather than silently half-loaded.
    pub fn problems(&self) -> (problems: &[ParseError])
        ensures
            problem_lines(problems@) == self@.problems,
            problem_kinds(problems@) == self@.problem_kinds,
    {
        self.problems.as_slice()
    }

    /// Total tracked time for the day, saturating rather than wrapping.
    pub fn total(&self) -> (total: Minutes)
        ensures
            total.0 == (if tracked_total(self@.sessions) <= u32::MAX {
                tracked_total(self@.sessions)
            } else {
                u32::MAX as nat
            }),
    {
        let mut total = Minutes::new(0);
        let mut i: usize = 0;
        let ghost all = views(self.sessions@);
        while i < self.sessions.len()
            invariant
                i <= self.sessions@.len(),
                all == views(self.sessions@),
                total.0 == (if tracked_total(all.subrange(0, i as int)) <= u32::MAX {
                    tracked_total(all.subrange(0, i as int))
                } else {
                    u32::MAX as nat
                }),
            decreases self.sessions.len() - i,
        {
            proof {
                assert(all.subrange(0, i + 1).drop_last() =~= all.subrange(0, i as int));
            }
            total = total.plus(self.sessions[i].duration());
            i = i + 1;
        }
        assert(all.subrange(0, all.len() as int) =~= all);
        total
    }

    /// Inserts a session after every session starting no later, keeping the
    /// list in start order.
    pub fn add_session(&mut self, session: Session)
        ensures
            final(self)@ == (DayView { sessions: inserted::<Session>(old(self)@.sessions, session@), ..old(self)@ }),
            in_start_order(final(self)@.sessions),
            final(self).document() == old(self).document(),
    {
        proof {
            use_type_invariant(&*self);
            lemma_inserted_sorted::<Session>(views(self.sessions@), session@);
        }
        let mut sessions: Vec<Session> = Vec::new();
        std::mem::swap(&mut sessions, &mut self.sessions);
        insert_by_key(&mut sessions, session);
        self.sessions = sessions;
        proof {
            use_type_invariant(&*self);
            lemma_sessions_in_start_order(self@.sessions);
        }
    }

    /// Replaces the session at `index` and restores start order, giving back
    /// the one replaced; an index past the end changes nothing.
    ///
    /// The list is re-sorted, so an index held across the call may afterwards
    /// name a different session.
    pub fn replace_session(&mut self, index: usize, session: Session) -> (previous: Option<Session>)
        ensures
            match previous {
                Some(p) => index < old(self)@.sessions.len() && p@ == old(self)@.sessions[index as int]
                    && final(self)@ == (DayView {
                    sessions: sorted_by_key::<Session>(old(self)@.sessions.update(index as int, session@)),
                    ..old(self)@
                }),
                None => index >= old(self)@.sessions.len() && final(self)@ == old(self)@,
            },
            in_start_order(final(self)@.sessions),
            final(self).document() == old(self).document(),
    {
        proof {
            use_type_invariant(&*self);
            lemma_sessions_in_start_order(self@.sessions);
        }
        proof {
            use_type_invariant(&*self);
        }
        if index >= self.sessions.len() {
            return None;
        }
        let previous = self.sessions[index].clone();
        let mut sessions: Vec<Session> = Vec::new();
        std::mem::swap(&mut sessions, &mut self.sessions);
        let ghost before = views(sessions@);
        sessions.set(index, session);
        assert(views(sessions@) =~= before.update(index as int, session@));
        let sorted = sort_by_key(sessions);
        proof {
            law_sorted_by_key::<Session>(before.update(index as int, session@));
        }
        self.sessions = sorted;
        proof {
            use_type_invariant(&*self);
            lemma_sessions_in_start_order(self@.sessions);
        }
        Some(previous)
    }

    /// Removes the session at `index`, giving it back; an index past the end
    /// changes nothing.
    pub fn remove_session(&mut self, index: usize) -> (removed: Option<Session>)
        ensures
            match removed {
                Some(s) => index < old(self)@.sessions.len() && s@ == old(self)@.sessions[index as int]
                    && final(self)@ == (DayView { sessions: old(self)@.sessions.remove(index as int), ..old(self)@ }),
                None => index >= old(self)@.sessions.len() && final(self)@ == old(self)@,
            },
            in_start_order(final(self)@.sessions),
            final(self).document() == old(self).document(),
    {
        proof {
            use_type_invariant(&*self);
            lemma_sessions_in_start_order(self@.sessions);
        }
        if index >= self.sessions.len() {
            return None;
        }
        proof {
            use_type_invariant(&*self);
            lemma_remove_sorted::<Session>(views(self.sessions@), index as int);
        }
        let mut sessions: Vec<Session> = Vec::new();
        std::mem::swap(&mut sessions, &mut self.sessions);
        let ghost before = views(sessions@);
        let removed = sessions.remove(index);
        assert(views(sessions@) =~= before.remove(index as int));
        self.sessions = sessions;
        proof {
            use_type_invariant(&*self);
            lemma_sessions_in_start_order(self@.sessions);
        }
        Some(removed)
    }

    /// Adds a one-off block after every block starting no later, keeping the
    /// list in start order.
    pub fn add_block(&mut self, block: DayBlock)
        ensures
            final(self)@ == (DayView { schedule: inserted::<DayBlock>(old(self)@.schedule, block@), ..old(self)@ }),
            blocks_in_start_order(final(self)@.schedule),
            final(self).document() == old(self).document(),
    {
        proof {
            use_type_invariant(&*self);
            lemma_inserted_sorted::<DayBlock>(views(self.schedule@), block@);
        }
        let mut schedule: Vec<DayBlock> = Vec::new();
        std::mem::swap(&mut schedule, &mut self.schedule);
        insert_by_key(&mut schedule, block);
        self.schedule = schedule;
        proof {
            use_type_invariant(&*self);
            lemma_blocks_in_start_order(self@.schedule);
        }
    }

    /// Replaces the one-off block at `index` and restores start order, giving
    /// back the one replaced; an index past the end changes nothing.
    pub fn replace_block(&mut self, index: usize, block: DayBlock) -> (previous: Option<DayBlock>)
        ensures
            match previous {
                Some(p) => index < old(self)@.schedule.len() && p@ == old(self)@.schedule[index as int]
                    && final(self)@ == (DayView {
                    schedule: sorted_by_key::<DayBlock>(old(self)@.schedule.update(index as int, block@)),
                    ..old(self)@
                }),
                None => index >= old(self)@.schedule.len() && final(self)@ == old(self)@,
            },
            blocks_in_start_order(final(self)@.schedule),
            final(self).document() == old(self).document(),
    {
        proof {
            use_type_invariant(&*self);
            lemma_blocks_in_start_order(self@.schedule);
        }
        proof {
            use_type_invariant(&*self);
        }
        if index >= self.schedule.len() {
            return None;
        }
        let previous = self.schedule[index].clone();
        let mut schedule: Vec<DayBlock> = Vec::new();
        std::mem::swap(&mut schedule, &mut self.schedule);
        let ghost before = views(schedule@);
        schedule.set(index, block);
        assert(views(schedule@) =~= before.update(index as int, block@));
        let sorted = sort_by_key(schedule);
        proof {
            law_sorted_by_key::<DayBlock>(before.update(index as int, block@));
        }
        self.schedule = sorted;
        proof {
            use_type_invariant(&*self);
            lemma_blocks_in_start_order(self@.schedule);
        }
        Some(previous)
    }

    /// Removes the one-off block at `index`, giving it back; an index past the
    /// end changes nothing.
    pub fn remove_block(&mut self, index: usize) -> (removed: Option<DayBlock>)
        ensures
            match removed {
                Some(b) => index < old(self)@.schedule.len() && b@ == old(self)@.schedule[index as int]
                    && final(self)@ == (DayView { schedule: old(self)@.schedule.remove(index as int), ..old(self)@ }),
                None => index >= old(self)@.schedule.len() && final(self)@ == old(self)@,
            },
            blocks_in_start_order(final(self)@.schedule),
            final(self).document() == old(self).document(),
    {
        proof {
            use_type_invariant(&*self);
            lemma_blocks_in_start_order(self@.schedule);
        }
        if index >= self.schedule.len() {
            return None;
        }
        proof {
            use_type_invariant(&*self);
            lemma_remove_sorted::<DayBlock>(views(self.schedule@), index as int);
        }
        let mut schedule: Vec<DayBlock> = Vec::new();
        std::mem::swap(&mut schedule, &mut self.schedule);
        let ghost before = views(schedule@);
        let removed = schedule.remove(index);
        assert(views(schedule@) =~= before.remove(index as int));
        self.schedule = schedule;
        proof {
            use_type_invariant(&*self);
            lemma_blocks_in_start_order(self@.schedule);
        }
        Some(removed)
    }

    fn skips(&self, id: &BlockId) -> (found: bool)
        ensures
            found == self@.skipped.contains(id@),
    {
        let mut k: usize = 0;
        while k < self.skipped.len()
            invariant
                k <= self.skipped@.len(),
                forall|j: int| 0 <= j < k ==> #[trigger] self@.skipped[j] != id@,
            decreases self.skipped.len() - k,
        {
            if self.skipped[k].same(id) {
                assert(self@.skipped[k as int] == id@);
                return true;
            }
            k = k + 1;
        }
        false
    }

    /// Suppresses a repeating block for this day. Skipping twice is skipping
    /// once.
    pub fn skip(&mut self, id: BlockId)
        ensures
            final(self)@ == (DayView { skipped: with_skip(old(self)@.skipped, id@), ..old(self)@ }),
            final(self).document() == old(self).document(),
    {
        proof {
            use_type_invariant(&*self);
        }
        if !self.skips(&id) {
            let mut skipped: Vec<BlockId> = Vec::new();
            std::mem::swap(&mut skipped, &mut self.skipped);
            let ghost before = crate::list::views_of(skipped@);
            skipped.push(id);
            assert(crate::list::views_of(skipped@) =~= before.push(id@));
            self.skipped = skipped;
        }
    }

    /// Restores a suppressed block, reporting whether it had been skipped.
    pub fn unskip(&mut self, id: &BlockId) -> (was_skipped: bool)
        ensures
            was_skipped == old(self)@.skipped.contains(id@),
            final(self)@ == (DayView { skipped: without(old(self)@.skipped, id@), ..old(self)@ }),
            final(self).document() == old(self).document(),
    {
        proof {
            use_type_invariant(&*self);
        }
        let found = self.skips(id);
        let mut kept: Vec<BlockId> = Vec::new();
        let mut k: usize = 0;
        let ghost all = crate::list::views_of(self.skipped@);
        while k < self.skipped.len()
            invariant
                k <= self.skipped@.len(),
                all == crate::list::views_of(self.skipped@),
                crate::list::views_of(kept@) == without(all.subrange(0, k as int), id@),
            decreases self.skipped.len() - k,
        {
            proof {
                assert(all.subrange(0, k + 1).drop_last() =~= all.subrange(0, k as int));
            }
            if !self.skipped[k].same(id) {
                let ghost before = crate::list::views_of(kept@);
                kept.push(self.skipped[k].clone());
                assert(crate::list::views_of(kept@) =~= before.push(all[k as int]));
            }
            k = k + 1;
        }
        assert(all.subrange(0, all.len() as int) =~= all);
        self.skipped = kept;
        found
    }
}
} // verus!
