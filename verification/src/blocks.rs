//! Planned time blocks.
//!
//! Repeating blocks live once in `data/schedule/recurring.md`; a day file adds
//! its own one-offs under `## Schedule` and suppresses a repeat under
//! `## Skipped`. Expanding those three sources is what the schedule screen and
//! the reminder scheduler both read.

use vstd::prelude::*;

use crate::clock::{weekday_index, CalendarDate, TimeOfDay};
use crate::day::Day;
use crate::document::{front_block, reads_document, refuses_document, section_content, sections_lines, strings_view, strs_view, upserted, Document};
use crate::error::{problem_kinds, problem_lines, Error, ParseError, ParseErrorKind};
use crate::grammar::{
    backtick_parts, copy_project, split_token, take_backtick_id, token_split, format_time_chars, format_wikilink_chars, lead_chars, lead_text, lead_view,
    range_refusal, range_value, reminder_parts, reminder_suffix, slug_view, time_range, time_text, wikilink,
    wikilink_parts, wikilink_text,
};
use crate::ids::{BlockId, ProjectSlug};
use crate::schedule::{days_text, days_value, DaySet};
use crate::list::{line_refusal, read_entries, views_of, written_lines, ListLine};
use crate::minutes::Minutes;
use crate::order::{is_sorted, sort_by_key, sorted_by_key, views, Keyed};
use crate::text::{append, chars_of, joined, string_of, trim, trim_end, trimmed, trimmed_end};

verus! {

/// What a one-off block holds: start and end (seconds past midnight),
/// project, title and reminder lead.
pub type BlockView = (nat, nat, Option<Seq<char>>, Seq<char>, Option<nat>);

/// What a `- ` stripped one-off block line reads as.
pub open spec fn day_block_reads(content: Seq<char>) -> Option<BlockView> {
    match range_value(content) {
        Some((s, e, r)) => {
            let (project, rest) = wikilink_parts(r);
            let (lead, title) = reminder_parts(rest);
            Some((s, e, project, trim(title), lead))
        },
        None => None,
    }
}

/// The line a one-off block is written as.
pub open spec fn day_block_line(b: BlockView) -> Seq<char> {
    trim_end(
        seq!['-', ' '] + time_text(b.0) + seq!['-'] + time_text(b.1) + seq![' '] + wikilink_text(b.2) + b.3
            + lead_text(b.4),
    )
}

/// A block written directly into a day file, happening only that once.
#[derive(Debug, PartialEq, Eq)]
pub struct DayBlock {
    pub start: TimeOfDay,
    pub end: TimeOfDay,
    pub project: Option<ProjectSlug>,
    pub title: String,
    pub remind_before: Option<Minutes>,
}

impl View for DayBlock {
    type V = BlockView;

    open spec fn view(&self) -> BlockView {
        (self.start@, self.end@, slug_view(self.project), self.title@, lead_view(self.remind_before))
    }
}

/// Trims a text.
pub fn trimmed_string(text: &str) -> (t: String)
    ensures
        t@ == trim(text@),
{
    let chars = chars_of(text);
    string_of(&trimmed(&chars))
}

impl DayBlock {
    /// Reads `HH:MM-HH:MM [[project]] Title !5m`, the bullet already stripped.
    pub fn parse(content: &str) -> (result: Result<Self, ParseErrorKind>)
        ensures
            match result {
                Ok(b) => day_block_reads(content@) == Some(b@),
                Err(kind) => day_block_reads(content@) is None && range_refusal(content@, kind),
            },
    {
        match time_range(content) {
            Ok(((start, end), rest)) => {
                let (project, rest) = wikilink(rest.as_str());
                let (remind_before, title) = reminder_suffix(rest.as_str());
                Ok(DayBlock { start, end, project, title: trimmed_string(title.as_str()), remind_before })
            },
            Err(kind) => Err(kind),
        }
    }

    /// Writes `- HH:MM-HH:MM [[project]] Title !5m`, with no trailing space.
    pub fn render(&self) -> (line: String)
        ensures
            line@ == day_block_line(self@),
    {
        let mut out: Vec<char> = Vec::new();
        out.push('-');
        out.push(' ');
        append(&mut out, &format_time_chars(self.start));
        out.push('-');
        append(&mut out, &format_time_chars(self.end));
        out.push(' ');
        append(&mut out, &format_wikilink_chars(self.project.as_ref()));
        append(&mut out, &chars_of(self.title.as_str()));
        append(&mut out, &lead_chars(self.remind_before));
        proof {
            let b = self@;
            assert(out@ =~= seq!['-', ' '] + time_text(b.0) + seq!['-'] + time_text(b.1) + seq![' ']
                + wikilink_text(b.2) + b.3 + lead_text(b.4));
        }
        string_of(&trimmed_end(&out))
    }
}

impl Clone for DayBlock {
    fn clone(&self) -> (copy: Self)
        ensures
            copy@ == self@,
    {
        DayBlock {
            start: self.start,
            end: self.end,
            project: copy_project(&self.project),
            title: self.title.clone(),
            remind_before: self.remind_before,
        }
    }
}

/// Amends a one-off block: only the fields given change. A given title is
/// trimmed; `Some(None)` clears the project or the reminder.
pub fn edited_block(
    existing: &DayBlock,
    from: Option<TimeOfDay>,
    to: Option<TimeOfDay>,
    project: Option<Option<ProjectSlug>>,
    title: Option<String>,
    remind: Option<Option<Minutes>>,
) -> (block: DayBlock)
    ensures
        block@ == (
            match from {
                Some(t) => t@,
                None => existing@.0,
            },
            match to {
                Some(t) => t@,
                None => existing@.1,
            },
            match project {
                Some(p) => slug_view(p),
                None => existing@.2,
            },
            match title {
                Some(t) => trim(t@),
                None => existing@.3,
            },
            match remind {
                Some(r) => lead_view(r),
                None => existing@.4,
            },
        ),
{
    let start = match from {
        Some(t) => t,
        None => existing.start,
    };
    let end = match to {
        Some(t) => t,
        None => existing.end,
    };
    let project = match project {
        Some(p) => p,
        None => copy_project(&existing.project),
    };
    let title = match title {
        Some(t) => trimmed_string(t.as_str()),
        None => existing.title.clone(),
    };
    let remind_before = match remind {
        Some(r) => r,
        None => existing.remind_before,
    };
    DayBlock { start, end, project, title, remind_before }
}

impl ListLine for DayBlock {
    open spec fn refused(content: Seq<char>, kind: ParseErrorKind) -> bool {
        range_refusal(content, kind)
    }

    open spec fn reads(content: Seq<char>) -> Option<BlockView> {
        day_block_reads(content)
    }

    open spec fn line_of(v: BlockView) -> Seq<char> {
        day_block_line(v)
    }

    fn read_line(content: &str) -> (result: Result<Self, ParseErrorKind>) {
        DayBlock::parse(content)
    }

    fn write_line(&self) -> (line: String) {
        self.render()
    }
}

impl Keyed for DayBlock {
    open spec fn key(v: BlockView) -> int {
        v.0 as int
    }

    fn key_of(&self) -> (k: u64) {
        self.start.seconds_from_midnight() as u64
    }
}

/// A skipped repeat's line: `` - `id` ``.
pub open spec fn skip_line(id: Seq<char>) -> Seq<char> {
    seq!['-', ' ', '`'] + id + seq!['`']
}

impl ListLine for BlockId {
    open spec fn refused(content: Seq<char>, kind: ParseErrorKind) -> bool {
        kind is MissingBlockId && kind.found_text() == content
    }

    open spec fn reads(content: Seq<char>) -> Option<Seq<char>> {
        match backtick_parts(content) {
            Some((id, rest)) => if rest.len() == 0 {
                Some(id)
            } else {
                None
            },
            None => None,
        }
    }

    open spec fn line_of(v: Seq<char>) -> Seq<char> {
        skip_line(v)
    }

    fn read_line(content: &str) -> (result: Result<Self, ParseErrorKind>) {
        crate::grammar::backtick_id(content)
    }

    fn write_line(&self) -> (line: String) {
        let mut out: Vec<char> = Vec::new();
        out.push('-');
        out.push(' ');
        out.push('`');
        append(&mut out, &self.to_chars());
        out.push('`');
        assert(out@ =~= skip_line(self@));
        string_of(&out)
    }
}

} // verus!

verus! {

/// What a repeating block holds: id, weekdays, start and end, project, title
/// and reminder lead.
pub type RecurringView = (Seq<char>, Set<nat>, nat, nat, Option<Seq<char>>, Seq<char>, Option<nat>);

/// What a `- ` stripped repeating block line reads as:
/// `` `id` days HH:MM-HH:MM [[project]] Title !5m ``.
pub open spec fn recurring_reads(content: Seq<char>) -> Option<RecurringView> {
    match backtick_parts(content) {
        Some((id, r1)) => {
            let (days_word, r2) = token_split(r1);
            match days_value(days_word) {
                Some(days) => match range_value(r2) {
                    Some((s, e, r3)) => {
                        let (project, r4) = wikilink_parts(r3);
                        let (lead, title) = reminder_parts(r4);
                        Some((id, days, s, e, project, trim(title), lead))
                    },
                    None => None,
                },
                None => None,
            }
        },
        None => None,
    }
}

/// `text` with every run of two spaces, read left to right, made one, as
/// `str::replace("  ", " ")` does.
pub open spec fn collapse_pairs(text: Seq<char>) -> Seq<char>
    decreases text.len(),
{
    if text.len() >= 2 && text[0] == ' ' && text[1] == ' ' {
        seq![' '] + collapse_pairs(text.subrange(2, text.len() as int))
    } else if text.len() > 0 {
        seq![text[0]] + collapse_pairs(text.drop_first())
    } else {
        text
    }
}

/// The line a repeating block is written as.
pub open spec fn recurring_line(b: RecurringView) -> Seq<char> {
    trim_end(
        collapse_pairs(
            seq!['-', ' ', '`'] + b.0 + seq!['`', ' '] + days_text(b.1) + seq![' '] + time_text(b.2) + seq!['-']
                + time_text(b.3) + seq![' '] + wikilink_text(b.4) + b.5 + lead_text(b.6),
        ),
    )
}

fn collapse(text: &[char]) -> (out: Vec<char>)
    ensures
        out@ == collapse_pairs(text@),
{
    let mut out: Vec<char> = Vec::new();
    let mut i: usize = 0;
    assert(text@.subrange(0, text@.len() as int) =~= text@);
    assert(out@ + collapse_pairs(text@) =~= collapse_pairs(text@));
    while i < text.len()
        invariant
            i <= text@.len(),
            out@ + collapse_pairs(text@.subrange(i as int, text@.len() as int)) == collapse_pairs(text@),
        decreases text.len() - i,
    {
        let ghost rest = text@.subrange(i as int, text@.len() as int);
        if i + 1 < text.len() && text[i] == ' ' && text[i + 1] == ' ' {
            out.push(' ');
            assert(rest.subrange(2, rest.len() as int) =~= text@.subrange(i + 2, text@.len() as int));
            i = i + 2;
        } else {
            out.push(text[i]);
            assert(rest.drop_first() =~= text@.subrange(i + 1, text@.len() as int));
            i = i + 1;
        }
    }
    assert(text@.subrange(i as int, text@.len() as int) =~= Seq::<char>::empty());
    assert(out@ + Seq::<char>::empty() =~= out@);
    out
}

/// A repeating block, defined once in `recurring.md`.
#[derive(Debug, PartialEq, Eq)]
pub struct RecurringBlock {
    pub id: BlockId,
    pub days: DaySet,
    pub start: TimeOfDay,
    pub end: TimeOfDay,
    pub project: Option<ProjectSlug>,
    pub title: String,
    pub remind_before: Option<Minutes>,
}

impl View for RecurringBlock {
    type V = RecurringView;

    open spec fn view(&self) -> RecurringView {
        (self.id@, self.days@, self.start@, self.end@, slug_view(self.project), self.title@, lead_view(self.remind_before))
    }
}

impl RecurringBlock {
    /// Reads a repeating block line, the bullet already stripped.
    pub fn parse(content: &str) -> (result: Result<Self, ParseErrorKind>)
        ensures
            match result {
                Ok(b) => recurring_reads(content@) == Some(b@),
                Err(kind) => recurring_reads(content@) is None && (backtick_parts(content@) is None ==> kind is MissingBlockId),
            },
    {
        let (id, rest) = match take_backtick_id(content) {
            Ok(found) => found,
            Err(kind) => return Err(kind),
        };
        let (days_word, rest) = split_token(rest.as_str());
        let days = match DaySet::parse(days_word.as_str()) {
            Ok(d) => d,
            Err(kind) => return Err(kind),
        };
        match time_range(rest.as_str()) {
            Ok(((start, end), rest)) => {
                let (project, rest) = wikilink(rest.as_str());
                let (remind_before, title) = reminder_suffix(rest.as_str());
                Ok(RecurringBlock { id, days, start, end, project, title: trimmed_string(title.as_str()), remind_before })
            },
            Err(kind) => Err(kind),
        }
    }

    /// Writes `` - `id` days HH:MM-HH:MM [[project]] Title !5m ``, double
    /// spaces made single and no trailing space.
    pub fn render(&self) -> (line: String)
        ensures
            line@ == recurring_line(self@),
    {
        let mut out: Vec<char> = Vec::new();
        out.push('-');
        out.push(' ');
        out.push('`');
        append(&mut out, &self.id.to_chars());
        out.push('`');
        out.push(' ');
        append(&mut out, &self.days.render_chars());
        out.push(' ');
        append(&mut out, &format_time_chars(self.start));
        out.push('-');
        append(&mut out, &format_time_chars(self.end));
        out.push(' ');
        append(&mut out, &format_wikilink_chars(self.project.as_ref()));
        append(&mut out, &chars_of(self.title.as_str()));
        append(&mut out, &lead_chars(self.remind_before));
        proof {
            let b = self@;
            assert(out@ =~= seq!['-', ' ', '`'] + b.0 + seq!['`', ' '] + days_text(b.1) + seq![' '] + time_text(b.2)
                + seq!['-'] + time_text(b.3) + seq![' '] + wikilink_text(b.4) + b.5 + lead_text(b.6));
        }
        string_of(&trimmed_end(&collapse(&out)))
    }
}

impl Clone for RecurringBlock {
    fn clone(&self) -> (copy: Self)
        ensures
            copy@ == self@,
    {
        RecurringBlock {
            id: self.id.clone(),
            days: self.days,
            start: self.start,
            end: self.end,
            project: copy_project(&self.project),
            title: self.title.clone(),
            remind_before: self.remind_before,
        }
    }
}

impl ListLine for RecurringBlock {
    open spec fn refused(content: Seq<char>, kind: ParseErrorKind) -> bool {
        crate::grammar::backtick_parts(content) is None ==> kind is MissingBlockId
    }

    open spec fn reads(content: Seq<char>) -> Option<RecurringView> {
        recurring_reads(content)
    }

    open spec fn line_of(v: RecurringView) -> Seq<char> {
        recurring_line(v)
    }

    fn read_line(content: &str) -> (result: Result<Self, ParseErrorKind>) {
        RecurringBlock::parse(content)
    }

    fn write_line(&self) -> (line: String) {
        self.render()
    }
}

/// What one concrete instance of a block holds: date, start, end, project,
/// title, lead, the repeat it came from, and its place among the day's
/// one-offs.
pub type OccurrenceView = ((int, int, int), nat, nat, Option<Seq<char>>, Seq<char>, Option<nat>, Option<Seq<char>>, Option<nat>);

/// One concrete instance of a block on a date.
#[derive(Debug, PartialEq, Eq)]
pub struct Occurrence {
    pub date: CalendarDate,
    pub start: TimeOfDay,
    pub end: TimeOfDay,
    pub project: Option<ProjectSlug>,
    pub title: String,
    pub remind_before: Option<Minutes>,
    /// The repeating block this came from, or `None` for a one-off.
    pub block: Option<BlockId>,
    /// Position among that day's one-offs, the handle `Day::replace_block`
    /// and `Day::remove_block` take, or `None` for a repeat.
    pub one_off_index: Option<usize>,
}

pub open spec fn id_view(id: Option<BlockId>) -> Option<Seq<char>> {
    match id {
        Some(i) => Some(i@),
        None => None,
    }
}

pub open spec fn index_view(i: Option<usize>) -> Option<nat> {
    match i {
        Some(n) => Some(n as nat),
        None => None,
    }
}

impl View for Occurrence {
    type V = OccurrenceView;

    open spec fn view(&self) -> OccurrenceView {
        (
            self.date@,
            self.start@,
            self.end@,
            slug_view(self.project),
            self.title@,
            lead_view(self.remind_before),
            id_view(self.block),
            index_view(self.one_off_index),
        )
    }
}

impl Occurrence {
    pub fn duration(&self) -> (length: Minutes)
        ensures
            length.0 == crate::grammar::span_minutes(self@.1, self@.2),
    {
        crate::grammar::span(self.start, self.end)
    }
}

impl Keyed for Occurrence {
    /// Start, then end.
    open spec fn key(v: OccurrenceView) -> int {
        (v.1 * 86400 + v.2) as int
    }

    fn key_of(&self) -> (k: u64) {
        let s = self.start.seconds_from_midnight() as u64;
        let e = self.end.seconds_from_midnight() as u64;
        s * 86400 + e
    }
}

/// Occurrences ordered by start time, and by end time where two start
/// together, both as seconds past midnight.
pub open spec fn in_time_order(s: Seq<OccurrenceView>) -> bool {
    forall|i: int, j: int|
        0 <= i < j < s.len() ==> (#[trigger] s[i]).1 < (#[trigger] s[j]).1 || (s[i].1 == s[j].1 && s[i].2 <= s[j].2)
}

/// Occurrences whose start and end fall within a day.
pub open spec fn within_day(s: Seq<OccurrenceView>) -> bool {
    forall|k: int| 0 <= k < s.len() ==> (#[trigger] s[k]).1 < 86400 && s[k].2 < 86400
}

/// Occurrences within a day in key order are in time order.
pub proof fn lemma_occurrences_in_time_order(s: Seq<OccurrenceView>)
    requires
        is_sorted::<Occurrence>(s),
        within_day(s),
    ensures
        in_time_order(s),
{
    assert forall|i: int, j: int| 0 <= i < j < s.len() implies (#[trigger] s[i]).1 < (#[trigger] s[j]).1 || (s[i].1
        == s[j].1 && s[i].2 <= s[j].2) by {
        let (a, b, c, d) = (s[i].1 as int, s[i].2 as int, s[j].1 as int, s[j].2 as int);
        assert(Occurrence::key(s[i]) <= Occurrence::key(s[j]));
        assert(a * 86400 + b <= c * 86400 + d);
        assert(a < c || (a == c && b <= d)) by (nonlinear_arith)
            requires
                a * 86400 + b <= c * 86400 + d,
                0 <= b < 86400,
                0 <= d < 86400,
                0 <= a,
                0 <= c,
        {
            if a > c {
                assert(a * 86400 >= (c + 1) * 86400);
            }
        }
    }
}

/// A day's plan comes out in time order: sorting occurrences within a day,
/// as `planned` does with a day's repeats and one-offs, orders them by start
/// time and then by end time, holding exactly the occurrences given.
pub proof fn law_planned_in_time_order(s: Seq<OccurrenceView>)
    requires
        within_day(s),
    ensures
        in_time_order(sorted_by_key::<Occurrence>(s)),
        sorted_by_key::<Occurrence>(s).to_multiset() == s.to_multiset(),
{
    crate::order::law_sorted_by_key::<Occurrence>(s);
    let r = sorted_by_key::<Occurrence>(s);
    assert forall|k: int| 0 <= k < r.len() implies (#[trigger] r[k]).1 < 86400 && r[k].2 < 86400 by {
        vstd::seq_lib::to_multiset_contains(r, r[k]);
        vstd::seq_lib::to_multiset_contains(s, r[k]);
        assert(r.contains(r[k]));
        let m = choose|m: int| 0 <= m < s.len() && s[m] == r[k];
    }
    lemma_occurrences_in_time_order(r);
}

/// The occurrence of a repeating block on a date.
pub open spec fn repeat_on(date: (int, int, int), b: RecurringView) -> OccurrenceView {
    (date, b.2, b.3, b.4, b.5, b.6, Some(b.0), None)
}

/// The occurrence of the day's `index`-th one-off block.
pub open spec fn one_off_on(date: (int, int, int), b: BlockView, index: nat) -> OccurrenceView {
    (date, b.0, b.1, b.2, b.3, b.4, None, Some(index))
}

/// The repeats that fall on weekday `weekday` and are not skipped, in file
/// order.
pub open spec fn repeats_on(
    blocks: Seq<RecurringView>,
    date: (int, int, int),
    weekday: nat,
    skipped: Seq<Seq<char>>,
) -> Seq<OccurrenceView>
    decreases blocks.len(),
{
    if blocks.len() == 0 {
        Seq::empty()
    } else {
        let before = repeats_on(blocks.drop_last(), date, weekday, skipped);
        let b = blocks.last();
        if b.1.contains(weekday) && !skipped.contains(b.0) {
            before.push(repeat_on(date, b))
        } else {
            before
        }
    }
}

/// The day's one-offs as occurrences, numbered in order.
pub open spec fn one_offs_on(date: (int, int, int), blocks: Seq<BlockView>) -> Seq<OccurrenceView> {
    Seq::new(blocks.len(), |i: int| one_off_on(date, blocks[i], i as nat))
}

} // verus!

verus! {

pub open spec fn blocks_title() -> Seq<char> {
    seq!['B', 'l', 'o', 'c', 'k', 's']
}

/// The first block carrying this id.
pub open spec fn id_position(blocks: Seq<RecurringView>, id: Seq<char>) -> Option<int>
    decreases blocks.len(),
{
    if blocks.len() == 0 {
        None
    } else {
        match id_position(blocks.drop_last(), id) {
            Some(i) => Some(i),
            None => if blocks.last().0 == id {
                Some(blocks.len() - 1)
            } else {
                None
            },
        }
    }
}

/// `blocks` with `b` replacing the first block that carries its id, or
/// added last.
pub open spec fn upserted_block(blocks: Seq<RecurringView>, b: RecurringView) -> Seq<RecurringView> {
    match id_position(blocks, b.0) {
        Some(i) => blocks.update(i, b),
        None => blocks.push(b),
    }
}

/// Each of `added` upserted in turn.
pub open spec fn upserted_blocks(blocks: Seq<RecurringView>, added: Seq<RecurringView>) -> Seq<RecurringView>
    decreases added.len(),
{
    if added.len() == 0 {
        blocks
    } else {
        upserted_block(upserted_blocks(blocks, added.drop_last()), added.last())
    }
}

/// `blocks` without those carrying this id.
pub open spec fn without_id(blocks: Seq<RecurringView>, id: Seq<char>) -> Seq<RecurringView>
    decreases blocks.len(),
{
    if blocks.len() == 0 {
        blocks
    } else if blocks.last().0 == id {
        without_id(blocks.drop_last(), id)
    } else {
        without_id(blocks.drop_last(), id).push(blocks.last())
    }
}

/// What the recurring file holds besides its document.
pub struct RecurringFileView {
    pub blocks: Seq<RecurringView>,
    pub unparsed: Seq<Seq<char>>,
    /// The line numbers of the lines that did not read, and the rule each
    /// broke.
    pub problems: Seq<nat>,
    pub problem_kinds: Seq<ParseErrorKind>,
}

/// `data/schedule/recurring.md`.
#[derive(Debug)]
pub struct Recurring {
    blocks: Vec<RecurringBlock>,
    unparsed: Vec<String>,
    problems: Vec<ParseError>,
    document: Document,
}

impl View for Recurring {
    type V = RecurringFileView;

    closed spec fn view(&self) -> RecurringFileView {
        RecurringFileView {
            blocks: views_of(self.blocks@),
            unparsed: strings_view(self.unparsed@),
            problems: problem_lines(self.problems@),
            problem_kinds: problem_kinds(self.problems@),
        }
    }
}

fn blocks_heading() -> (title: String)
    ensures
        title@ == blocks_title(),
{
    let chars: [char; 6] = ['B', 'l', 'o', 'c', 'k', 's'];
    assert(chars@ =~= blocks_title());
    string_of(&chars)
}

fn same_id(a: &BlockId, b: &BlockId) -> (equal: bool)
    ensures
        equal == (a@ == b@),
{
    a.same(b)
}

impl Recurring {
    pub closed spec fn document(self) -> Document {
        self.document
    }

    /// The sections the file writes.
    pub open spec fn written_sections(self) -> Seq<(Seq<char>, Seq<Seq<char>>)> {
        upserted(
            self.document().section_list(),
            blocks_title(),
            written_lines::<RecurringBlock>(self@.blocks, self@.unparsed),
            Seq::empty(),
        )
    }

    /// Reads the file. Only a malformed frontmatter block fails.
    pub fn parse(text: &str) -> (result: Result<Self, Error>)
        ensures
            match result {
                Ok(r) => {
                    let blocks = read_entries::<RecurringBlock>(section_content(r.document().section_list(), blocks_title()));
                    &&& reads_document(text@, r.document())
                    &&& r@ == (RecurringFileView {
                        blocks: blocks.0,
                        unparsed: blocks.1,
                        problems: blocks.2,
                        problem_kinds: r@.problem_kinds,
                    })
                    &&& r@.problem_kinds.len() == r@.problems.len()
                    &&& forall|i: int|
                        0 <= i < r@.unparsed.len() ==> line_refusal::<RecurringBlock>(
                            #[trigger] r@.unparsed[i],
                            r@.problem_kinds[i],
                        )
                },
                Err(e) => refuses_document(text@, e),
            },
    {
        let document = match Document::parse(text) {
            Ok(d) => d,
            Err(e) => return Err(e),
        };
        let mut problems: Vec<ParseError> = Vec::new();
        let (blocks, unparsed) = document.parse_list_section::<RecurringBlock>(blocks_heading().as_str(), &mut problems);
        proof {
            assert(problem_lines(Seq::<ParseError>::empty()) =~= Seq::<nat>::empty());
            let b = read_entries::<RecurringBlock>(section_content(document.section_list(), blocks_title()));
            assert(Seq::<nat>::empty() + b.2 =~= b.2);
        }
        Ok(Recurring { blocks, unparsed, problems, document })
    }

    /// Writes the blocks section back and reassembles the file text.
    pub fn render(&self) -> (text: String)
        ensures
            text@ == front_block(self.document().has_front(), self.document().front()) + joined(
                self.document().preamble_lines() + sections_lines(self.written_sections()),
                '\n',
            ),
    {
        let mut document = self.document.copy();
        let none: [&str; 0] = [];
        assert(strs_view(none@) =~= Seq::<Seq<char>>::empty());
        document.write_list_section::<RecurringBlock>(blocks_heading().as_str(), self.blocks.as_slice(), self.unparsed.as_slice(), &none);
        document.render()
    }

    /// A new file with a `# Recurring schedule` title and no blocks.
    pub fn default() -> (r: Self)
        ensures
            r@ == (RecurringFileView {
                blocks: Seq::empty(),
                unparsed: Seq::empty(),
                problems: Seq::empty(),
                problem_kinds: Seq::empty(),
            }),
            r.document().section_list().len() == 0,
    {
        let mut document = Document::new();
        let title: [char; 20] = ['#', ' ', 'R', 'e', 'c', 'u', 'r', 'r', 'i', 'n', 'g', ' ', 's', 'c', 'h', 'e', 'd', 'u', 'l', 'e'];
        let mut preamble: Vec<String> = Vec::new();
        preamble.push(String::new());
        preamble.push(string_of(&title));
        preamble.push(String::new());
        document.set_preamble(preamble);
        let r = Recurring { blocks: Vec::new(), unparsed: Vec::new(), problems: Vec::new(), document };
        assert(r@.blocks =~= Seq::<RecurringView>::empty());
        assert(r@.unparsed =~= Seq::<Seq<char>>::empty());
        assert(r@.problems =~= Seq::<nat>::empty());
        assert(r@.problem_kinds =~= Seq::<ParseErrorKind>::empty());
        r
    }

    pub fn blocks(&self) -> (blocks: &[RecurringBlock])
        ensures
            views_of(blocks@) == self@.blocks,
    {
        self.blocks.as_slice()
    }

    pub fn problems(&self) -> (problems: &[ParseError])
        ensures
            problem_lines(problems@) == self@.problems,
            problem_kinds(problems@) == self@.problem_kinds,
    {
        self.problems.as_slice()
    }

    fn position_of(&self, id: &BlockId) -> (found: Option<usize>)
        ensures
            match found {
                Some(i) => id_position(self@.blocks, id@) == Some(i as int) && i < self@.blocks.len(),
                None => id_position(self@.blocks, id@) is None,
            },
    {
        let ghost v = self@.blocks;
        let mut k: usize = 0;
        while k < self.blocks.len()
            invariant
                k <= self.blocks@.len(),
                v == views_of(self.blocks@),
                id_position(v.subrange(0, k as int), id@) is None,
            decreases self.blocks.len() - k,
        {
            proof {
                assert(v.subrange(0, k + 1).drop_last() =~= v.subrange(0, k as int));
            }
            if same_id(&self.blocks[k].id, id) {
                proof {
                    lemma_id_position_prefix(v, id@, k as int);
                }
                return Some(k);
            }
            k = k + 1;
        }
        assert(v.subrange(0, k as int) =~= v);
        None
    }

    /// Adds a block, or replaces the one with the same id.
    pub fn upsert(&mut self, block: RecurringBlock)
        ensures
            final(self)@ == (RecurringFileView { blocks: upserted_block(old(self)@.blocks, block@), ..old(self)@ }),
            final(self).document() == old(self).document(),
    {
        let ghost before = self@.blocks;
        let ghost added = block@;
        match self.position_of(&block.id) {
            Some(i) => {
                self.blocks.set(i, block);
                assert(views_of(self.blocks@) =~= before.update(i as int, added));
            },
            None => {
                self.blocks.push(block);
                assert(views_of(self.blocks@) =~= before.push(added));
            },
        }
    }

    /// Replaces every block: the list becomes `blocks`, each upserted in
    /// turn, so a later block replaces an earlier one with the same id.
    pub fn replace_all(&mut self, blocks: Vec<RecurringBlock>)
        ensures
            final(self)@ == (RecurringFileView {
                blocks: upserted_blocks(Seq::empty(), views_of(blocks@)),
                ..old(self)@
            }),
            final(self).document() == old(self).document(),
    {
        self.blocks = Vec::new();
        let ghost all = views_of(blocks@);
        let mut blocks = blocks;
        let mut reversed: Vec<RecurringBlock> = Vec::new();
        while blocks.len() > 0
            invariant
                views_of(blocks@) + views_of(reversed@).reverse() == all,
            decreases blocks.len(),
        {
            let ghost before_rest = blocks@;
            let ghost before_rev = reversed@;
            let x = blocks.pop().unwrap();
            reversed.push(x);
            assert(views_of(blocks@) =~= views_of(before_rest).drop_last());
            assert(views_of(reversed@).reverse() =~= seq![x@] + views_of(before_rev).reverse());
            assert(views_of(before_rest) =~= views_of(blocks@).push(x@));
            assert(views_of(blocks@) + views_of(reversed@).reverse() =~= views_of(before_rest) + views_of(before_rev).reverse());
        }
        assert(views_of(blocks@) =~= Seq::<RecurringView>::empty());
        assert(views_of(self.blocks@) =~= Seq::<RecurringView>::empty());
        assert(views_of(reversed@).reverse() =~= all);
        assert(all.subrange(0, 0) =~= Seq::<RecurringView>::empty());
        while reversed.len() > 0
            invariant
                self@.blocks == upserted_blocks(Seq::empty(), all.subrange(0, all.len() - views_of(reversed@).len())),
                views_of(reversed@).reverse() =~= all.subrange(all.len() - views_of(reversed@).len(), all.len() as int),
                views_of(reversed@).len() <= all.len(),
                self@.unparsed == old(self)@.unparsed,
                self@.problems == old(self)@.problems,
                self@.problem_kinds == old(self)@.problem_kinds,
                self.document() == old(self).document(),
            decreases reversed.len(),
        {
            let ghost before_rev = reversed@;
            let ghost done = all.len() - before_rev.len();
            let x = reversed.pop().unwrap();
            proof {
                assert(views_of(before_rev) =~= views_of(reversed@).push(x@));
                assert(views_of(before_rev).reverse()[0] == x@);
                assert(all[done] == x@);
                assert(all.subrange(0, done + 1).drop_last() =~= all.subrange(0, done));
                assert(views_of(reversed@).reverse() =~= views_of(before_rev).reverse().drop_first());
            }
            self.upsert(x);
        }
        assert(all.subrange(0, all.len() as int) =~= all);
    }

    /// Drops every block with this id, reporting whether there was one.
    pub fn remove(&mut self, id: &BlockId) -> (removed: bool)
        ensures
            removed == (id_position(old(self)@.blocks, id@) is Some),
            final(self)@ == (RecurringFileView { blocks: without_id(old(self)@.blocks, id@), ..old(self)@ }),
            final(self).document() == old(self).document(),
    {
        let found = self.position_of(id);
        let ghost all = self@.blocks;
        let mut kept: Vec<RecurringBlock> = Vec::new();
        let mut k: usize = 0;
        while k < self.blocks.len()
            invariant
                k <= self.blocks@.len(),
                all == views_of(self.blocks@),
                views_of(kept@) == without_id(all.subrange(0, k as int), id@),
            decreases self.blocks.len() - k,
        {
            proof {
                assert(all.subrange(0, k + 1).drop_last() =~= all.subrange(0, k as int));
            }
            if !same_id(&self.blocks[k].id, id) {
                let ghost before = views_of(kept@);
                kept.push(self.blocks[k].clone());
                assert(views_of(kept@) =~= before.push(all[k as int]));
            }
            k = k + 1;
        }
        assert(all.subrange(0, all.len() as int) =~= all);
        self.blocks = kept;
        found.is_some()
    }

    /// The repeats that fall on `date` and are not skipped, in file order.
    pub fn on(&self, date: CalendarDate, skipped: &[BlockId]) -> (occurrences: Vec<Occurrence>)
        ensures
            views(occurrences@) == repeats_on(self@.blocks, date@, weekday_index(date@.0, date@.1, date@.2), views_of(skipped@)),
    {
        let weekday = date.weekday();
        let ghost all = self@.blocks;
        let ghost skips = views_of(skipped@);
        let mut out: Vec<Occurrence> = Vec::new();
        let mut k: usize = 0;
        while k < self.blocks.len()
            invariant
                k <= self.blocks@.len(),
                all == views_of(self.blocks@),
                skips == views_of(skipped@),
                weekday == weekday_index(date@.0, date@.1, date@.2),
                weekday < 7,
                views(out@) == repeats_on(all.subrange(0, k as int), date@, weekday as nat, skips),
            decreases self.blocks.len() - k,
        {
            proof {
                assert(all.subrange(0, k + 1).drop_last() =~= all.subrange(0, k as int));
            }
            let block = &self.blocks[k];
            if block.days.contains_index(weekday as usize) && !contains_id(skipped, &block.id) {
                let ghost before = views(out@);
                let occurrence = Occurrence {
                    date,
                    start: block.start,
                    end: block.end,
                    project: copy_project(&block.project),
                    title: block.title.clone(),
                    remind_before: block.remind_before,
                    block: Some(block.id.clone()),
                    one_off_index: None,
                };
                out.push(occurrence);
                assert(views(out@) =~= before.push(repeat_on(date@, all[k as int])));
            }
            k = k + 1;
        }
        assert(all.subrange(0, all.len() as int) =~= all);
        out
    }
}

fn contains_id(ids: &[BlockId], id: &BlockId) -> (found: bool)
    ensures
        found == views_of(ids@).contains(id@),
{
    let mut k: usize = 0;
    while k < ids.len()
        invariant
            k <= ids@.len(),
            forall|j: int| 0 <= j < k ==> views_of(ids@)[j] != id@,
        decreases ids.len() - k,
    {
        if same_id(&ids[k], id) {
            assert(views_of(ids@)[k as int] == id@);
            return true;
        }
        k = k + 1;
    }
    false
}

proof fn lemma_id_position_prefix(v: Seq<RecurringView>, id: Seq<char>, k: int)
    requires
        0 <= k < v.len(),
        id_position(v.subrange(0, k), id) is None,
        v[k].0 == id,
    ensures
        id_position(v, id) == Some(k),
    decreases v.len(),
{
    if k + 1 < v.len() {
        assert(v.drop_last().subrange(0, k) =~= v.subrange(0, k));
        lemma_id_position_prefix(v.drop_last(), id, k);
    } else {
        assert(v.drop_last() =~= v.subrange(0, k));
    }
}

/// Everything planned for one day: the repeats that survive its skip list,
/// then its own one-offs numbered in their order, all in order of start and
/// then end, equal ones keeping that order.
///
/// The one definition of "what is scheduled", shared by the schedule screen
/// and the reminder scheduler.
pub fn planned(day: &Day, recurring: &Recurring) -> (occurrences: Vec<Occurrence>)
    ensures
        views(occurrences@) == sorted_by_key::<Occurrence>(
            repeats_on(recurring@.blocks, day@.date, weekday_index(day@.date.0, day@.date.1, day@.date.2), day@.skipped)
                + one_offs_on(day@.date, day@.schedule),
        ),
        in_time_order(views(occurrences@)),
{
    let date = day.date();
    let mut occurrences = recurring.on(date, day.skipped());
    let ghost repeats = views(occurrences@);
    let schedule = day.schedule();
    let mut k: usize = 0;
    while k < schedule.len()
        invariant
            k <= schedule@.len(),
            views(schedule@) == day@.schedule,
            date@ == day@.date,
            views(occurrences@) == repeats + one_offs_on(day@.date, day@.schedule.subrange(0, k as int)),
        decreases schedule.len() - k,
    {
        let block = &schedule[k];
        let ghost before = views(occurrences@);
        let occurrence = Occurrence {
            date,
            start: block.start,
            end: block.end,
            project: copy_project(&block.project),
            title: block.title.clone(),
            remind_before: block.remind_before,
            block: None,
            one_off_index: Some(k),
        };
        occurrences.push(occurrence);
        assert(one_offs_on(day@.date, day@.schedule.subrange(0, k + 1)) =~= one_offs_on(day@.date, day@.schedule.subrange(0, k as int)).push(one_off_on(day@.date, day@.schedule[k as int], k as nat)));
        assert(views(occurrences@) =~= before.push(one_off_on(day@.date, day@.schedule[k as int], k as nat)));
        k = k + 1;
    }
    assert(day@.schedule.subrange(0, day@.schedule.len() as int) =~= day@.schedule);
    let ghost unsorted = views(occurrences@);
    let sorted = sort_by_key(occurrences);
    proof {
        crate::order::law_sorted_by_key::<Occurrence>(unsorted);
        assert forall|k: int| 0 <= k < views(sorted@).len() implies (#[trigger] views(sorted@)[k]).1 < 86400
            && views(sorted@)[k].2 < 86400 by {
            sorted@[k].start.lemma_bounded();
            sorted@[k].end.lemma_bounded();
        }
        lemma_occurrences_in_time_order(views(sorted@));
    }
    sorted
}

} // verus!

verus! {

/// Everything planned across several days, each day's plan in turn.
pub fn planned_days(days: &[Day], recurring: &Recurring) -> (occurrences: Vec<Occurrence>)
    ensures
        views(occurrences@) == days@.fold_left(
            Seq::<OccurrenceView>::empty(),
            |acc: Seq<OccurrenceView>, day: Day| acc + sorted_by_key::<Occurrence>(
                repeats_on(recurring@.blocks, day@.date, weekday_index(day@.date.0, day@.date.1, day@.date.2), day@.skipped)
                    + one_offs_on(day@.date, day@.schedule),
            ),
        ),
{
    let mut out: Vec<Occurrence> = Vec::new();
    let mut k: usize = 0;
    while k < days.len()
        invariant
            k <= days@.len(),
            views(out@) == days@.subrange(0, k as int).fold_left(
                Seq::<OccurrenceView>::empty(),
                |acc: Seq<OccurrenceView>, day: Day| acc + sorted_by_key::<Occurrence>(
                    repeats_on(recurring@.blocks, day@.date, weekday_index(day@.date.0, day@.date.1, day@.date.2), day@.skipped)
                        + one_offs_on(day@.date, day@.schedule),
                ),
            ),
        decreases days.len() - k,
    {
        let mut today = planned(&days[k], recurring);
        let ghost before = views(out@);
        let ghost added = views(today@);
        out.append(&mut today);
        proof {
            assert(views(out@) =~= before + added);
            assert(days@.subrange(0, k + 1).drop_last() =~= days@.subrange(0, k as int));
        }
        k = k + 1;
    }
    assert(days@.subrange(0, days@.len() as int) =~= days@);
    out
}

} // verus!
