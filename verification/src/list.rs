//! Owned list sections, read leniently and written strictly.
//!
//! Every section the app owns (sessions, one-off blocks, skips, milestones,
//! todos, recurring blocks) is a markdown list whose items each read as one
//! entry. This module is the one place the central rule lives: a line that
//! does not read is kept verbatim and reported, never dropped, and written
//! back at the end of its section.

use vstd::prelude::*;

use crate::document::{
    content_of, law_section_write_then_read, padded_body, section_content, strings_view, strs_view, titled_once, upserted,
    Document,
};
use crate::error::{problem_lines, ParseError, ParseErrorKind};
use crate::grammar::{list_item, list_item_content};
use crate::text::{chars_of, string_of, trim, trim_end};

verus! {

/// An entry of an owned list section.
pub trait ListLine: Sized + View {
    /// What the content of a list item (bullet stripped) reads as.
    spec fn reads(content: Seq<char>) -> Option<Self::V>;

    /// The whole line an entry is written as, bullet included.
    spec fn line_of(v: Self::V) -> Seq<char>;

    /// What a refusal of the content of a list item says of it.
    spec fn refused(content: Seq<char>, kind: ParseErrorKind) -> bool;

    /// Reads the content of a list item.
    fn read_line(content: &str) -> (result: Result<Self, ParseErrorKind>)
        ensures
            match result {
                Ok(x) => Self::reads(content@) == Some(x@),
                Err(kind) => Self::reads(content@) is None && Self::refused(content@, kind),
            },
    ;

    /// Writes the entry's line.
    fn write_line(&self) -> (line: String)
        ensures
            line@ == Self::line_of(self@),
    ;
}

pub open spec fn views_of<T: ListLine>(items: Seq<T>) -> Seq<T::V> {
    items.map_values(|x: T| x@)
}

/// How the numbered content lines of a section sort into entries, lines that
/// did not read, and the numbers of those lines, each in file order.
pub open spec fn read_entries<T: ListLine>(entries: Seq<(nat, Seq<char>)>) -> (Seq<T::V>, Seq<Seq<char>>, Seq<nat>)
    decreases entries.len(),
{
    if entries.len() == 0 {
        (Seq::empty(), Seq::empty(), Seq::empty())
    } else {
        let (items, bad, numbers) = read_entries::<T>(entries.drop_last());
        let (n, line) = entries.last();
        match list_item_content(line) {
            Some(c) => match T::reads(c) {
                Some(v) => (items.push(v), bad, numbers),
                None => (items, bad.push(line), numbers.push(n)),
            },
            None => (items, bad.push(line), numbers.push(n)),
        }
    }
}

/// What the report of a line that did not read says of it: a line that is
/// no list item is refused as such, with its trimmed text; otherwise the
/// entry's reader refused the item's content.
pub open spec fn line_refusal<T: ListLine>(line: Seq<char>, kind: ParseErrorKind) -> bool {
    match list_item_content(line) {
        Some(c) => T::refused(c, kind),
        None => kind is NotAListItem && kind.found_text() == trim(line),
    }
}

/// Every line of a section that does not read is reported once: the lines
/// kept and the line numbers reported pair up one to one, each number the
/// one that line stood on.
pub proof fn law_one_problem_per_unread_line<T: ListLine>(entries: Seq<(nat, Seq<char>)>)
    ensures
        read_entries::<T>(entries).1.len() == read_entries::<T>(entries).2.len(),
        forall|i: int|
            0 <= i < read_entries::<T>(entries).1.len() ==> entries.contains(
                (#[trigger] read_entries::<T>(entries).2[i], read_entries::<T>(entries).1[i]),
            ),
    decreases entries.len(),
{
    if entries.len() > 0 {
        let init = entries.drop_last();
        law_one_problem_per_unread_line::<T>(init);
        let r0 = read_entries::<T>(init);
        let r = read_entries::<T>(entries);
        assert(entries.last() == entries[entries.len() - 1]);
        assert forall|i: int| 0 <= i < r.1.len() implies entries.contains((#[trigger] r.2[i], r.1[i])) by {
            if i < r0.1.len() {
                assert(r.1[i] == r0.1[i]);
                assert(r.2[i] == r0.2[i]);
                let j = choose|j: int| 0 <= j < init.len() && init[j] == (r0.2[i], r0.1[i]);
                assert(entries[j] == init[j]);
            } else {
                assert(entries[entries.len() - 1] == (r.2[i], r.1[i]));
            }
        }
    }
}

/// The lines a list section is written with: one per entry, then the lines
/// that did not read.
pub open spec fn written_lines<T: ListLine>(items: Seq<T::V>, unparsed: Seq<Seq<char>>) -> Seq<Seq<char>> {
    items.map_values(|v: T::V| T::line_of(v)) + unparsed
}

/// An entry whose line is a non-blank list item, with no trailing
/// whitespace, that reads back as the entry.
pub open spec fn reads_back<T: ListLine>(v: T::V) -> bool {
    let line = T::line_of(v);
    &&& trim_end(line) == line
    &&& trim(line).len() > 0
    &&& list_item_content(line) matches Some(c) && T::reads(c) == Some(v)
}

/// A non-blank line, with no trailing whitespace, that does not read as an
/// entry.
pub open spec fn stays_unread<T: ListLine>(line: Seq<char>) -> bool {
    &&& trim_end(line) == line
    &&& trim(line).len() > 0
    &&& !(list_item_content(line) matches Some(c) && T::reads(c) is Some)
}

/// Lines numbered from `base` on.
pub open spec fn numbered(lines: Seq<Seq<char>>, base: nat) -> Seq<(nat, Seq<char>)> {
    Seq::new(lines.len(), |i: int| ((i + base) as nat, lines[i]))
}

impl Document {
    /// Reads the section titled `title` as a list of entries.
    ///
    /// Returns the entries and the lines that did not read, in file order;
    /// each line that did not read is also reported in `problems`, with its
    /// line number in the section body.
    pub fn parse_list_section<T: ListLine>(&self, title: &str, problems: &mut Vec<ParseError>) -> (parsed: (Vec<T>, Vec<String>))
        ensures
            ({
                let (items, bad, numbers) = read_entries::<T>(section_content(self.section_list(), title@));
                &&& views_of(parsed.0@) == items
                &&& strings_view(parsed.1@) == bad
                &&& problem_lines(final(problems)@) == problem_lines(old(problems)@) + numbers
                &&& final(problems)@.subrange(0, old(problems)@.len() as int) == old(problems)@
                &&& final(problems)@.len() == old(problems)@.len() + bad.len()
                &&& forall|i: int|
                    0 <= i < bad.len() ==> line_refusal::<T>(#[trigger] bad[i], final(problems)@[old(problems)@.len() + i].kind)
            }),
    {
        let entries = self.content_lines(title);
        let ghost all = section_content(self.section_list(), title@);
        let ghost start = problems@.len();
        let mut items: Vec<T> = Vec::new();
        let mut unparsed: Vec<String> = Vec::new();
        let mut k: usize = 0;
        assert(problems@.subrange(0, start as int) =~= old(problems)@);
        assert(problem_lines(problems@) =~= problem_lines(old(problems)@) + Seq::<nat>::empty());
        while k < entries.len()
            invariant
                k <= entries@.len(),
                crate::document::entries_view(entries@) == all,
                start <= problems@.len(),
                ({
                    let (its, bad, numbers) = read_entries::<T>(all.subrange(0, k as int));
                    &&& views_of(items@) == its
                    &&& strings_view(unparsed@) == bad
                    &&& problem_lines(problems@) == problem_lines(old(problems)@) + numbers
                    &&& problems@.len() == start + bad.len()
                    &&& forall|i: int| 0 <= i < bad.len() ==> line_refusal::<T>(#[trigger] bad[i], problems@[start + i].kind)
                }),
                problems@.subrange(0, start as int) == old(problems)@,
            decreases entries.len() - k,
        {
            let ghost before_items = items@;
            let ghost before_bad = unparsed@;
            let ghost before_problems = problems@;
            let (n, ref chars) = entries[k];
            let ghost was = problems@;
            let line = string_of(chars);
            proof {
                assert(all.subrange(0, k + 1).drop_last() =~= all.subrange(0, k as int));
                assert(all[k as int] == (n as nat, line@));
            }
            match list_item(line.as_str()) {
                Ok(content) => match T::read_line(content.as_str()) {
                    Ok(item) => {
                        items.push(item);
                        assert(views_of(items@) =~= views_of(before_items).push(item@));
                    },
                    Err(kind) => {
                        problems.push(ParseError::new(n, kind));
                        unparsed.push(line);
                        assert(strings_view(unparsed@) =~= strings_view(before_bad).push(line@));
                        assert(problems@[problems@.len() - 1].kind == kind);
                        assert(problem_lines(problems@) =~= problem_lines(was).push(n as nat));
                        assert(problems@.subrange(0, start as int) =~= was.subrange(0, start as int));
                    },
                },
                Err(kind) => {
                    problems.push(ParseError::new(n, kind));
                    unparsed.push(line);
                    assert(strings_view(unparsed@) =~= strings_view(before_bad).push(line@));
                    assert(problems@[problems@.len() - 1].kind == kind);
                    assert(problem_lines(problems@) =~= problem_lines(was).push(n as nat));
                    assert(problems@.subrange(0, start as int) =~= was.subrange(0, start as int));
                },
            }
            k = k + 1;
        }
        assert(all.subrange(0, entries@.len() as int) =~= all);
        (items, unparsed)
    }

    /// Writes the section titled `title` back: one line per entry, then the
    /// lines that did not read, which is where a user looking for what went
    /// wrong will find them. With nothing to write, the section goes.
    pub fn write_list_section<T: ListLine>(&mut self, title: &str, items: &[T], unparsed: &[String], after: &[&str])
        ensures
            final(self).section_list() == upserted(
                old(self).section_list(),
                title@,
                written_lines::<T>(views_of(items@), strings_view(unparsed@)),
                strs_view(after@),
            ),
            final(self).preamble_lines() == old(self).preamble_lines(),
            final(self).has_front() == old(self).has_front(),
            final(self).front() == old(self).front(),
    {
        let mut lines: Vec<String> = Vec::new();
        let mut k: usize = 0;
        while k < items.len()
            invariant
                k <= items@.len(),
                strings_view(lines@) == views_of(items@).subrange(0, k as int).map_values(|v: T::V| T::line_of(v)),
            decreases items.len() - k,
        {
            let ghost before = lines@;
            let line = items[k].write_line();
            lines.push(line);
            assert(strings_view(lines@) =~= strings_view(before).push(line@));
            assert(views_of(items@).subrange(0, k + 1).map_values(|v: T::V| T::line_of(v)) =~= views_of(items@).subrange(0, k as int).map_values(|v: T::V| T::line_of(v)).push(T::line_of(items@[k as int]@)));
            k = k + 1;
        }
        let ghost written = strings_view(lines@);
        let mut j: usize = 0;
        while j < unparsed.len()
            invariant
                j <= unparsed@.len(),
                strings_view(lines@) == written + strings_view(unparsed@).subrange(0, j as int),
            decreases unparsed.len() - j,
        {
            let ghost before = lines@;
            let line = unparsed[j].clone();
            lines.push(line);
            assert(strings_view(lines@) =~= strings_view(before).push(line@));
            assert(strings_view(unparsed@).subrange(0, j + 1) =~= strings_view(unparsed@).subrange(0, j as int).push(unparsed@[j as int]@));
            j = j + 1;
        }
        proof {
            assert(views_of(items@).subrange(0, items@.len() as int) =~= views_of(items@));
            assert(strings_view(unparsed@).subrange(0, unparsed@.len() as int) =~= strings_view(unparsed@));
            assert(strings_view(lines@) =~= written_lines::<T>(views_of(items@), strings_view(unparsed@)));
        }
        self.upsert_section(title, lines, after);
    }
}

/// The body lines of a written section, each non-blank with no trailing
/// whitespace, come back from `content_of` as they were, numbered from two.
pub proof fn lemma_content_of_padded(c: Seq<Seq<char>>)
    requires
        forall|i: int| 0 <= i < c.len() ==> trim_end(#[trigger] c[i]) == c[i] && trim(c[i]).len() > 0,
    ensures
        content_of(padded_body(c)) == numbered(c, 2),
{
    let e = Seq::<char>::empty();
    assert(trim_end(e) == e);
    assert(crate::text::trim_start(e) == e);
    assert(trim(e) == e);
    assert(padded_body(c).drop_last() =~= seq![e] + c);
    lemma_content_of_lead(c);
}

proof fn lemma_content_of_lead(c: Seq<Seq<char>>)
    requires
        forall|i: int| 0 <= i < c.len() ==> trim_end(#[trigger] c[i]) == c[i] && trim(c[i]).len() > 0,
    ensures
        content_of(seq![Seq::<char>::empty()] + c) == numbered(c, 2),
    decreases c.len(),
{
    let e = Seq::<char>::empty();
    assert(trim_end(e) == e);
    assert(crate::text::trim_start(e) == e);
    assert(trim(e) == e);
    if c.len() == 0 {
        assert(seq![e] + c =~= seq![e]);
        assert(seq![e].drop_last() =~= Seq::<Seq<char>>::empty());
        assert(content_of(Seq::<Seq<char>>::empty()) == Seq::<(nat, Seq<char>)>::empty());
        assert(content_of(seq![e]) == content_of(seq![e].drop_last()));
        assert(numbered(c, 2) =~= Seq::<(nat, Seq<char>)>::empty());
    } else {
        lemma_content_of_lead(c.drop_last());
        assert((seq![e] + c).drop_last() =~= seq![e] + c.drop_last());
        assert((seq![e] + c).last() == c.last());
        assert(trim_end(c[c.len() - 1]) == c[c.len() - 1]);
        assert(numbered(c, 2) =~= numbered(c.drop_last(), 2).push(((c.len() + 1) as nat, c.last())));
        assert(content_of(seq![e] + c) == content_of(seq![e] + c.drop_last()).push(((c.len() + 1) as nat, c.last())));
    }
}

/// Written entries and unread lines, numbered, read back as themselves.
pub proof fn lemma_read_written<T: ListLine>(items: Seq<T::V>, unparsed: Seq<Seq<char>>, base: nat)
    requires
        forall|i: int| 0 <= i < items.len() ==> reads_back::<T>(#[trigger] items[i]),
        forall|j: int| 0 <= j < unparsed.len() ==> stays_unread::<T>(#[trigger] unparsed[j]),
    ensures
        read_entries::<T>(numbered(written_lines::<T>(items, unparsed), base)).0 == items,
        read_entries::<T>(numbered(written_lines::<T>(items, unparsed), base)).1 == unparsed,
    decreases items.len() + unparsed.len(),
{
    let lines = written_lines::<T>(items, unparsed);
    let entries = numbered(lines, base);
    if unparsed.len() > 0 {
        lemma_read_written::<T>(items, unparsed.drop_last(), base);
        assert(lines.drop_last() =~= written_lines::<T>(items, unparsed.drop_last()));
        assert(entries.drop_last() =~= numbered(lines.drop_last(), base));
        assert(entries.last().1 == unparsed.last());
        assert(stays_unread::<T>(unparsed[unparsed.len() - 1]));
        assert(unparsed.drop_last().push(unparsed.last()) =~= unparsed);
    } else if items.len() > 0 {
        lemma_read_written::<T>(items.drop_last(), unparsed, base);
        assert(lines.drop_last() =~= written_lines::<T>(items.drop_last(), unparsed));
        assert(entries.drop_last() =~= numbered(lines.drop_last(), base));
        assert(entries.last().1 == T::line_of(items.last()));
        assert(reads_back::<T>(items[items.len() - 1]));
        assert(items.drop_last().push(items.last()) =~= items);
    } else {
        assert(entries =~= Seq::<(nat, Seq<char>)>::empty());
    }
}

/// What a list section writes, it reads back: entries that read back as
/// themselves and lines that did not read come back unchanged, entries first.
pub proof fn law_list_round_trip<T: ListLine>(items: Seq<T::V>, unparsed: Seq<Seq<char>>)
    requires
        forall|i: int| 0 <= i < items.len() ==> reads_back::<T>(#[trigger] items[i]),
        forall|j: int| 0 <= j < unparsed.len() ==> stays_unread::<T>(#[trigger] unparsed[j]),
    ensures
        read_entries::<T>(content_of(padded_body(written_lines::<T>(items, unparsed)))).0 == items,
        read_entries::<T>(content_of(padded_body(written_lines::<T>(items, unparsed)))).1 == unparsed,
{
    let lines = written_lines::<T>(items, unparsed);
    assert forall|i: int| 0 <= i < lines.len() implies trim_end(#[trigger] lines[i]) == lines[i] && trim(lines[i]).len() > 0 by {
        if i < items.len() {
            assert(reads_back::<T>(items[i]));
        } else {
            assert(stays_unread::<T>(unparsed[i - items.len()]));
        }
    }
    lemma_content_of_padded(lines);
    lemma_read_written::<T>(items, unparsed, 2);
}

/// A list section written into a document reads back as what was written:
/// the entries, then the lines that did not read. With nothing to write the
/// section goes, and reads as empty where no other section has its title.
pub proof fn law_list_write_then_read<T: ListLine>(
    secs: Seq<(Seq<char>, Seq<Seq<char>>)>,
    title: Seq<char>,
    items: Seq<T::V>,
    unparsed: Seq<Seq<char>>,
    after: Seq<Seq<char>>,
)
    requires
        forall|i: int| 0 <= i < items.len() ==> reads_back::<T>(#[trigger] items[i]),
        forall|j: int| 0 <= j < unparsed.len() ==> stays_unread::<T>(#[trigger] unparsed[j]),
        items.len() + unparsed.len() == 0 ==> titled_once(secs, title),
    ensures
        read_entries::<T>(section_content(upserted(secs, title, written_lines::<T>(items, unparsed), after), title)).0
            == items,
        read_entries::<T>(section_content(upserted(secs, title, written_lines::<T>(items, unparsed), after), title)).1
            == unparsed,
{
    let written = written_lines::<T>(items, unparsed);
    law_section_write_then_read(secs, title, written, after);
    if written.len() > 0 {
        law_list_round_trip::<T>(items, unparsed);
    } else {
        assert(items =~= Seq::<T::V>::empty());
        assert(unparsed =~= Seq::<Seq<char>>::empty());
    }
}

/// Every entry the reader yields from a list item's content has a line that
/// reads back as it.
pub open spec fn reads_are_written_back<T: ListLine>() -> bool {
    forall|c: Seq<char>| trim(c) == c && (#[trigger] T::reads(c)) is Some ==> reads_back::<T>(T::reads(c)->0)
}

/// The lines a section holds, once read, are non-blank with no trailing
/// blank.
pub open spec fn solid_lines(entries: Seq<(nat, Seq<char>)>) -> bool {
    forall|i: int| 0 <= i < entries.len() ==> trim_end((#[trigger] entries[i]).1) == entries[i].1 && trim(entries[i].1).len() > 0
}

/// What the reader takes from solid lines is what a write reads back: every
/// entry reads back as itself and every line that did not read stays unread.
proof fn lemma_read_then_writable<T: ListLine>(entries: Seq<(nat, Seq<char>)>)
    requires
        reads_are_written_back::<T>(),
        solid_lines(entries),
    ensures
        forall|i: int| 0 <= i < read_entries::<T>(entries).0.len() ==> reads_back::<T>(
            #[trigger] read_entries::<T>(entries).0[i],
        ),
        forall|j: int| 0 <= j < read_entries::<T>(entries).1.len() ==> stays_unread::<T>(
            #[trigger] read_entries::<T>(entries).1[j],
        ),
    decreases entries.len(),
{
    if entries.len() > 0 {
        let init = entries.drop_last();
        assert forall|i: int| 0 <= i < init.len() implies trim_end((#[trigger] init[i]).1) == init[i].1 && trim(
            init[i].1,
        ).len() > 0 by {
            assert(init[i] == entries[i]);
        }
        lemma_read_then_writable::<T>(init);
        let (items, bad, numbers) = read_entries::<T>(init);
        let (n, line) = entries.last();
        assert(trim_end(line) == line && trim(line).len() > 0) by {
            assert(entries.last() == entries[entries.len() - 1]);
        }
        match list_item_content(line) {
            Some(c) => {
                crate::text::lemma_trim_idempotent(trim(line).subrange(2, trim(line).len() as int));
                assert(trim(c) == c);
                match T::reads(c) {
                    Some(v) => {
                        assert(reads_back::<T>(T::reads(c)->0));
                        let now = items.push(v);
                        assert forall|i: int| 0 <= i < now.len() implies reads_back::<T>(#[trigger] now[i]) by {
                            if i < items.len() {
                                assert(now[i] == items[i]);
                            }
                        }
                    },
                    None => {
                        let now = bad.push(line);
                        assert forall|j: int| 0 <= j < now.len() implies stays_unread::<T>(#[trigger] now[j]) by {
                            if j < bad.len() {
                                assert(now[j] == bad[j]);
                            }
                        }
                    },
                }
            },
            None => {
                let now = bad.push(line);
                assert forall|j: int| 0 <= j < now.len() implies stays_unread::<T>(#[trigger] now[j]) by {
                    if j < bad.len() {
                        assert(now[j] == bad[j]);
                    }
                }
            },
        }
    }
}

/// A section's lines hold no blank line and none with a trailing blank.
proof fn lemma_content_solid(lines: Seq<Seq<char>>)
    ensures
        solid_lines(content_of(lines)),
    decreases lines.len(),
{
    if lines.len() > 0 {
        lemma_content_solid(lines.drop_last());
        let before = content_of(lines.drop_last());
        let line = trim_end(lines.last());
        crate::text::lemma_trim_idempotent(lines.last());
        if trim(line).len() > 0 {
            let now = before.push((lines.len(), line));
            assert forall|i: int| 0 <= i < now.len() implies trim_end((#[trigger] now[i]).1) == now[i].1 && trim(
                now[i].1,
            ).len() > 0 by {
                if i < before.len() {
                    assert(now[i] == before[i]);
                }
            }
        }
    }
}

/// Writing a list section that was read, and reading it again, gives what
/// the first read gave: once written, a section is a fixed point of reading
/// and writing, whenever every entry the reader yields reads back.
pub proof fn law_list_fixed_point<T: ListLine>(lines: Seq<Seq<char>>)
    requires
        reads_are_written_back::<T>(),
    ensures
        ({
            let (items, bad, numbers) = read_entries::<T>(content_of(lines));
            let again = read_entries::<T>(content_of(padded_body(written_lines::<T>(items, bad))));
            again.0 == items && again.1 == bad
        }),
{
    lemma_content_solid(lines);
    lemma_read_then_writable::<T>(content_of(lines));
    let (items, bad, numbers) = read_entries::<T>(content_of(lines));
    law_list_round_trip::<T>(items, bad);
}

} // verus!
