//! The markdown document model every stored file is built on.
//!
//! A document is YAML frontmatter plus a body split into `##` sections. Typed
//! layers read and replace only the sections they understand; everything else
//! (unknown sections, prose, unknown frontmatter keys) is carried through a
//! write untouched.

use vstd::prelude::*;

use crate::error::{Error, ParseError, ParseErrorKind};
use crate::text::{append, chars_of, joined, lower_all, same_ignoring_ascii_case, slice, split_on, starts_with, string_of, trim, trim_end, trimmed, trimmed_end};
use crate::yaml::{front_count, front_entries, front_size, front_text, front_yaml, parsed_front};

verus! {

/// A `##` section: its title and its raw body lines, heading excluded.
#[derive(Debug, PartialEq, Eq)]
pub struct Section {
    pub title: String,
    pub lines: Vec<String>,
}

pub open spec fn strings_view(v: Seq<String>) -> Seq<Seq<char>> {
    v.map_values(|s: String| s@)
}

pub open spec fn section_view(s: Section) -> (Seq<char>, Seq<Seq<char>>) {
    (s.title@, strings_view(s.lines@))
}

pub open spec fn sections_view(v: Seq<Section>) -> Seq<(Seq<char>, Seq<Seq<char>>)> {
    v.map_values(|s: Section| section_view(s))
}

/// The non-blank body lines, trailing whitespace trimmed, each with its
/// 1-based number in the section body.
pub open spec fn content_of(lines: Seq<Seq<char>>) -> Seq<(nat, Seq<char>)>
    decreases lines.len(),
{
    if lines.len() == 0 {
        Seq::empty()
    } else {
        let before = content_of(lines.drop_last());
        let line = trim_end(lines.last());
        if trim(line).len() > 0 {
            before.push((lines.len(), line))
        } else {
            before
        }
    }
}

pub open spec fn heading(title: Seq<char>) -> Seq<char> {
    seq!['#', '#', ' '] + title
}

/// The body lines the sections write: each heading, then its lines.
pub open spec fn sections_lines(secs: Seq<(Seq<char>, Seq<Seq<char>>)>) -> Seq<Seq<char>>
    decreases secs.len(),
{
    if secs.len() == 0 {
        Seq::empty()
    } else {
        sections_lines(secs.drop_last()) + seq![heading(secs.last().0)] + secs.last().1
    }
}

/// How body lines fall into a preamble and `##` sections.
pub open spec fn parse_body(lines: Seq<Seq<char>>) -> (Seq<Seq<char>>, Seq<(Seq<char>, Seq<Seq<char>>)>)
    decreases lines.len(),
{
    if lines.len() == 0 {
        (Seq::empty(), Seq::empty())
    } else {
        let (pre, secs) = parse_body(lines.drop_last());
        let line = lines.last();
        if starts_with(line, seq!['#', '#', ' ']) {
            (pre, secs.push((trim(line.subrange(3, line.len() as int)), Seq::empty())))
        } else if secs.len() > 0 {
            (pre, secs.update(secs.len() - 1, (secs.last().0, secs.last().1.push(line))))
        } else {
            (pre.push(line), secs)
        }
    }
}

pub open spec fn fence() -> Seq<char> {
    seq!['-', '-', '-']
}

/// Where the line starting at `off` ends, newline included.
pub open spec fn line_end(s: Seq<char>, off: int) -> int
    decreases s.len() - off,
{
    if off >= s.len() {
        s.len() as int
    } else if s[off] == '\n' {
        off + 1
    } else {
        line_end(s, off + 1)
    }
}

/// The first line from `off` on that is a closing fence: its start and end.
pub open spec fn closing_from(s: Seq<char>, off: int) -> Option<(int, int)>
    decreases s.len() - off,
{
    if off < 0 || off >= s.len() {
        None
    } else {
        let e = line_end(s, off);
        if e <= off || e > s.len() {
            None
        } else if trim_end(s.subrange(off, e)) == fence() {
            Some((off, e))
        } else {
            closing_from(s, e)
        }
    }
}

/// The YAML text of a leading frontmatter block and the body after it; a
/// text with no complete block is all body.
pub open spec fn front_split(text: Seq<char>) -> (Option<Seq<char>>, Seq<char>) {
    if text.len() >= 4 && text.subrange(0, 3) == fence() && text[3] == '\n' {
        let rest = text.subrange(4, text.len() as int);
        match closing_from(rest, 0) {
            Some((a, b)) => (Some(rest.subrange(0, a)), rest.subrange(b, rest.len() as int)),
            None => (None, text),
        }
    } else {
        (None, text)
    }
}

/// The frontmatter block a document writes.
pub open spec fn front_block(has_front: bool, m: yaml_serde::Mapping) -> Seq<char> {
    if has_front || front_size(m) > 0 {
        fence().push('\n') + (if front_size(m) > 0 {
            front_yaml(m)
        } else {
            Seq::empty()
        }) + fence().push('\n')
    } else {
        Seq::empty()
    }
}

#[derive(Debug)]
pub struct Document {
    front: yaml_serde::Mapping,
    has_frontmatter: bool,
    /// Lines before the first `##` heading, e.g. the `# 2026-08-01` title.
    preamble: Vec<String>,
    sections: Vec<Section>,
}

impl Document {
    pub closed spec fn front(self) -> yaml_serde::Mapping {
        self.front
    }

    pub closed spec fn has_front(self) -> bool {
        self.has_frontmatter
    }

    pub closed spec fn preamble_lines(self) -> Seq<Seq<char>> {
        strings_view(self.preamble@)
    }

    pub closed spec fn section_list(self) -> Seq<(Seq<char>, Seq<Seq<char>>)> {
        sections_view(self.sections@)
    }

    /// The full text the document writes.
    pub open spec fn text(self) -> Seq<char> {
        front_block(self.has_front(), self.front()) + joined(
            self.preamble_lines() + sections_lines(self.section_list()),
            '\n',
        )
    }
}

} // verus!

verus! {

pub open spec fn char_views(v: Seq<Vec<char>>) -> Seq<Seq<char>> {
    v.map_values(|x: Vec<char>| x@)
}

/// Cuts text at every `sep`, as `str::split` does.
pub fn split_by(s: &[char], sep: char) -> (lines: Vec<Vec<char>>)
    ensures
        char_views(lines@) == split_on(s@, sep),
{
    let mut lines: Vec<Vec<char>> = Vec::new();
    let mut current: Vec<char> = Vec::new();
    let mut i: usize = 0;
    assert(s@.subrange(0, 0) =~= Seq::<char>::empty());
    assert(split_on(Seq::<char>::empty(), sep) == seq![Seq::<char>::empty()]);
    while i < s.len()
        invariant
            i <= s@.len(),
            char_views(lines@).push(current@) == split_on(s@.subrange(0, i as int), sep),
        decreases s.len() - i,
    {
        let c = s[i];
        let ghost before = split_on(s@.subrange(0, i as int), sep);
        assert(s@.subrange(0, i + 1).drop_last() =~= s@.subrange(0, i as int));
        if c == sep {
            let done = current;
            lines.push(done);
            current = Vec::new();
            assert(char_views(lines@).push(current@) =~= before.push(Seq::<char>::empty()));
        } else {
            current.push(c);
            assert(char_views(lines@).push(current@) =~= before.update(before.len() - 1, before.last().push(c)));
        }
        i = i + 1;
    }
    assert(s@.subrange(0, s@.len() as int) =~= s@);
    lines.push(current);
    assert(char_views(lines@) =~= split_on(s@, sep));
    lines
}

/// Cuts text into lines at every newline, as `str::split('\n')` does.
pub fn split_lines(s: &[char]) -> (lines: Vec<Vec<char>>)
    ensures
        char_views(lines@) == split_on(s@, '\n'),
{
    split_by(s, '\n')
}

fn strings_of(lines: &[Vec<char>]) -> (out: Vec<String>)
    ensures
        strings_view(out@) == char_views(lines@),
{
    let mut out: Vec<String> = Vec::new();
    let mut k: usize = 0;
    while k < lines.len()
        invariant
            k <= lines@.len(),
            strings_view(out@) == char_views(lines@.subrange(0, k as int)),
        decreases lines.len() - k,
    {
        let ghost before = out@;
        let line = string_of(&lines[k]);
        out.push(line);
        assert(strings_view(out@) =~= strings_view(before).push(line@));
        assert(char_views(lines@.subrange(0, k + 1)) =~= char_views(lines@.subrange(0, k as int)).push(lines@[k as int]@));
        k = k + 1;
    }
    assert(lines@.subrange(0, lines@.len() as int) =~= lines@);
    out
}

/// The lines of a section body, blanks included.
fn string_lines(section: &Section) -> (lines: Vec<Vec<char>>)
    ensures
        char_views(lines@) == strings_view(section.lines@),
{
    let mut out: Vec<Vec<char>> = Vec::new();
    let mut k: usize = 0;
    while k < section.lines.len()
        invariant
            k <= section.lines@.len(),
            char_views(out@) == strings_view(section.lines@.subrange(0, k as int)),
        decreases section.lines.len() - k,
    {
        let ghost before = out@;
        let line = chars_of(section.lines[k].as_str());
        out.push(line);
        assert(char_views(out@) =~= char_views(before).push(line@));
        assert(strings_view(section.lines@.subrange(0, k + 1)) =~= strings_view(section.lines@.subrange(0, k as int)).push(section.lines@[k as int]@));
        k = k + 1;
    }
    assert(section.lines@.subrange(0, section.lines@.len() as int) =~= section.lines@);
    out
}

impl Section {
    /// Body lines with blanks dropped, paired with their 1-based line number in
    /// the section body. Typed parsers work from this.
    pub fn content(&self) -> (entries: Vec<(usize, String)>)
        ensures
            entries@.len() == content_of(strings_view(self.lines@)).len(),
            forall|k: int| 0 <= k < entries@.len() ==> (#[trigger] entries@[k]).0 == content_of(
                strings_view(self.lines@),
            )[k].0 && entries@[k].1@ == content_of(strings_view(self.lines@))[k].1,
    {
        let lines = string_lines(self);
        let chars = content_lines_of(&lines);
        let mut out: Vec<(usize, String)> = Vec::new();
        let mut k: usize = 0;
        while k < chars.len()
            invariant
                k <= chars@.len(),
                out@.len() == k,
                forall|j: int| 0 <= j < k ==> (#[trigger] out@[j]).0 == chars@[j].0 && out@[j].1@
                    == chars@[j].1@,
            decreases chars.len() - k,
        {
            let (n, ref line) = chars[k];
            out.push((n, string_of(line)));
            k = k + 1;
        }
        out
    }
}

pub open spec fn entries_view(v: Seq<(usize, Vec<char>)>) -> Seq<(nat, Seq<char>)> {
    v.map_values(|e: (usize, Vec<char>)| (e.0 as nat, e.1@))
}

/// The non-blank lines of a body, numbered.
pub fn content_lines_of(lines: &[Vec<char>]) -> (entries: Vec<(usize, Vec<char>)>)
    ensures
        entries_view(entries@) == content_of(char_views(lines@)),
        forall|k: int| 0 <= k < entries@.len() ==> (#[trigger] entries@[k]).0 == entries_view(entries@)[k].0,
{
    let mut out: Vec<(usize, Vec<char>)> = Vec::new();
    let mut k: usize = 0;
    while k < lines.len()
        invariant
            k <= lines@.len(),
            entries_view(out@) == content_of(char_views(lines@.subrange(0, k as int))),
        decreases lines.len() - k,
    {
        let line = trimmed_end(&lines[k]);
        let t = trimmed(&line);
        proof {
            assert(char_views(lines@.subrange(0, k + 1)).drop_last() =~= char_views(lines@.subrange(0, k as int)));
        }
        if t.len() > 0 {
            out.push((k + 1, line));
            assert(entries_view(out@) =~= content_of(char_views(lines@.subrange(0, k + 1))));
        }
        k = k + 1;
    }
    assert(lines@.subrange(0, lines@.len() as int) =~= lines@);
    out
}

} // verus!

verus! {

proof fn lemma_line_end(s: Seq<char>, off: int)
    requires
        0 <= off < s.len(),
    ensures
        off < line_end(s, off) <= s.len(),
    decreases s.len() - off,
{
    reveal_with_fuel(line_end, 2);
    if s[off] != '\n' && off + 1 < s.len() {
        lemma_line_end(s, off + 1);
    }
}

fn line_end_exec(s: &[char], off: usize) -> (end: usize)
    requires
        off < s@.len(),
    ensures
        end == line_end(s@, off as int),
        off < end <= s@.len(),
{
    proof {
        lemma_line_end(s@, off as int);
    }
    let mut i: usize = off;
    while i < s.len() && s[i] != '\n'
        invariant
            off <= i <= s@.len(),
            line_end(s@, off as int) == line_end(s@, i as int),
        decreases s.len() - i,
    {
        i = i + 1;
    }
    if i < s.len() {
        i + 1
    } else {
        i
    }
}

fn is_fence(s: &[char]) -> (b: bool)
    ensures
        b == (s@ == fence()),
{
    let f: [char; 3] = ['-', '-', '-'];
    assert(f@ =~= fence());
    crate::text::same(s, &f)
}

/// Splits a file into its frontmatter text, if it opens with a `---` block,
/// and the body after that block.
pub fn frontmatter_parts(text: &str) -> (parts: (Option<String>, String))
    ensures
        (match parts.0 {
            Some(y) => Some(y@),
            None => None::<Seq<char>>,
        }, parts.1@) == front_split(text@),
{
    let (yaml, body) = split_front(&chars_of(text));
    let yaml_text = match yaml {
        Some(y) => Some(string_of(&y)),
        None => None,
    };
    (yaml_text, string_of(&body))
}

/// A frontmatter block around YAML text, then the body: what a file holding
/// frontmatter the library does not model is written as. Empty YAML writes
/// just the two fences.
pub fn framed(yaml: &str, body: &str) -> (text: String)
    ensures
        text@ == fence().push('\n') + yaml@ + fence().push('\n') + body@,
{
    let mut out: Vec<char> = Vec::new();
    out.push('-');
    out.push('-');
    out.push('-');
    out.push('\n');
    append(&mut out, &chars_of(yaml));
    out.push('-');
    out.push('-');
    out.push('-');
    out.push('\n');
    append(&mut out, &chars_of(body));
    assert(out@ =~= fence().push('\n') + yaml@ + fence().push('\n') + body@);
    string_of(&out)
}

/// Splits off a leading frontmatter block.
fn split_front(text: &[char]) -> (parts: (Option<Vec<char>>, Vec<char>))
    ensures
        (match parts.0 {
            Some(y) => Some(y@),
            None => None::<Seq<char>>,
        }, parts.1@) == front_split(text@),
{
    if text.len() >= 4 && text[0] == '-' && text[1] == '-' && text[2] == '-' && text[3] == '\n' {
        assert(text@.subrange(0, 3) =~= fence());
        let rest = slice(text, 4, text.len());
        let mut off: usize = 0;
        while off < rest.len()
            invariant
                off <= rest@.len(),
                text@.len() >= 4,
                text@.subrange(0, 3) == fence(),
                text@[3] == '\n',
                rest@ == text@.subrange(4, text@.len() as int),
                closing_from(rest@, 0) == closing_from(rest@, off as int),
            decreases rest.len() - off,
        {
            let e = line_end_exec(&rest, off);
            let line = slice(&rest, off, e);
            let t = trimmed_end(&line);
            if is_fence(&t) {
                return (Some(slice(&rest, 0, off)), slice(&rest, e, rest.len()));
            }
            off = e;
        }
        (None, slice(text, 0, text.len()))
    } else {
        proof {
            if text@.len() >= 4 && text@[3] == '\n' {
                assert(text@.subrange(0, 3) != fence()) by {
                    if text@[0] != '-' {
                        assert(text@.subrange(0, 3)[0] != fence()[0]);
                    } else if text@[1] != '-' {
                        assert(text@.subrange(0, 3)[1] != fence()[1]);
                    } else {
                        assert(text@.subrange(0, 3)[2] != fence()[2]);
                    }
                }
            }
        }
        (None, slice(text, 0, text.len()))
    }
}

/// Sorts body lines into the preamble and the sections.
fn sort_body(lines: &[Vec<char>]) -> (parts: (Vec<String>, Vec<Section>))
    ensures
        (strings_view(parts.0@), sections_view(parts.1@)) == parse_body(char_views(lines@)),
{
    let mut preamble: Vec<String> = Vec::new();
    let mut sections: Vec<Section> = Vec::new();
    let mut k: usize = 0;
    let mark: [char; 3] = ['#', '#', ' '];
    assert(mark@ =~= seq!['#', '#', ' ']);
    while k < lines.len()
        invariant
            k <= lines@.len(),
            mark@ == seq!['#', '#', ' '],
            (strings_view(preamble@), sections_view(sections@)) == parse_body(char_views(lines@.subrange(0, k as int))),
        decreases lines.len() - k,
    {
        let line = &lines[k];
        let ghost pre_v = strings_view(preamble@);
        let ghost secs_v = sections_view(sections@);
        proof {
            assert(char_views(lines@.subrange(0, k + 1)).drop_last() =~= char_views(lines@.subrange(0, k as int)));
            assert(char_views(lines@.subrange(0, k + 1)).last() == line@);
        }
        if crate::text::has_prefix(line, &mark) {
            let rest = slice(line, 3, line.len());
            let title = trimmed(&rest);
            let fresh = Section { title: string_of(&title), lines: Vec::new() };
            assert(strings_view(fresh.lines@) =~= Seq::<Seq<char>>::empty());
            sections.push(fresh);
            proof {
                assert(sections_view(sections@) =~= secs_v.push((trim(line@.subrange(3, line@.len() as int)), Seq::empty())));
            }
        } else if sections.len() > 0 {
            let mut last = sections.pop().unwrap();
            let ghost last_v = section_view(last);
            let text = string_of(line);
            last.lines.push(text);
            sections.push(last);
            proof {
                assert(secs_v.last() == last_v);
                assert(strings_view(last.lines@) =~= last_v.1.push(line@));
                assert(sections_view(sections@) =~= secs_v.update(secs_v.len() - 1, (secs_v.last().0, secs_v.last().1.push(line@))));
            }
        } else {
            let text = string_of(line);
            preamble.push(text);
            proof {
                assert(strings_view(preamble@) =~= pre_v.push(line@));
            }
        }
        k = k + 1;
    }
    assert(lines@.subrange(0, lines@.len() as int) =~= lines@);
    (preamble, sections)
}

} // verus!

verus! {

/// Every heading line names its section with no surrounding whitespace.
pub open spec fn headings_trimmed(lines: Seq<Seq<char>>) -> bool {
    forall|k: int|
        0 <= k < lines.len() && starts_with(#[trigger] lines[k], seq!['#', '#', ' ']) ==> trim(
            lines[k].subrange(3, lines[k].len() as int),
        ) == lines[k].subrange(3, lines[k].len() as int)
}

/// Read back, the body lines of trimmed headings give themselves.
pub proof fn lemma_body_round_trip(lines: Seq<Seq<char>>)
    requires
        headings_trimmed(lines),
    ensures
        parse_body(lines).0 + sections_lines(parse_body(lines).1) == lines,
    decreases lines.len(),
{
    if lines.len() > 0 {
        let init = lines.drop_last();
        assert(headings_trimmed(init)) by {
            assert forall|k: int| 0 <= k < init.len() && starts_with(#[trigger] init[k], seq!['#', '#', ' ']) implies trim(
                init[k].subrange(3, init[k].len() as int),
            ) == init[k].subrange(3, init[k].len() as int) by {
                assert(init[k] == lines[k]);
            }
        }
        lemma_body_round_trip(init);
        let (pre, secs) = parse_body(init);
        let line = lines.last();
        if starts_with(line, seq!['#', '#', ' ']) {
            let title = trim(line.subrange(3, line.len() as int));
            assert(lines[lines.len() - 1] == line);
            assert(title == line.subrange(3, line.len() as int));
            let secs2 = secs.push((title, Seq::<Seq<char>>::empty()));
            assert(secs2.drop_last() =~= secs);
            assert(heading(title) =~= line) by {
                assert(line.subrange(0, 3) =~= seq!['#', '#', ' ']);
            }
            assert(sections_lines(secs2) =~= sections_lines(secs) + seq![line]);
            assert(lines =~= init.push(line));
            assert(pre + (sections_lines(secs) + seq![line]) =~= (pre + sections_lines(secs)).push(line));
        } else if secs.len() > 0 {
            let secs2 = secs.update(secs.len() - 1, (secs.last().0, secs.last().1.push(line)));
            assert(secs2.drop_last() =~= secs.drop_last());
            assert(secs =~= secs.drop_last().push(secs.last()));
            assert(sections_lines(secs2) =~= sections_lines(secs).push(line)) by {
                let a = secs.drop_last();
                assert(sections_lines(secs) == sections_lines(a) + seq![heading(secs.last().0)] + secs.last().1);
                assert(sections_lines(secs2) == sections_lines(a) + seq![heading(secs.last().0)] + secs.last().1.push(line));
            }
            assert(lines =~= init.push(line));
            assert(pre + sections_lines(secs).push(line) =~= (pre + sections_lines(secs)).push(line));
        } else {
            assert(sections_lines(secs) =~= Seq::<Seq<char>>::empty());
            assert(pre.push(line) + sections_lines(secs) =~= lines);
        }
    }
}

/// Joining the lines a text was cut into gives the text back.
pub proof fn lemma_split_join(s: Seq<char>)
    ensures
        joined(split_on(s, '\n'), '\n') == s,
        split_on(s, '\n').len() > 0,
    decreases s.len(),
{
    if s.len() > 0 {
        let init = s.drop_last();
        lemma_split_join(init);
        let parts = split_on(init, '\n');
        if s.last() == '\n' {
            crate::text::lemma_joined_push(parts, Seq::empty(), '\n');
            assert(joined(parts, '\n').push('\n') + Seq::<char>::empty() =~= s);
        } else {
            let p2 = parts.update(parts.len() - 1, parts.last().push(s.last()));
            assert(parts =~= parts.drop_last().push(parts.last()));
            assert(p2 =~= parts.drop_last().push(parts.last().push(s.last())));
            crate::text::lemma_joined_push(parts.drop_last(), parts.last(), '\n');
            crate::text::lemma_joined_push(parts.drop_last(), parts.last().push(s.last()), '\n');
            if parts.drop_last().len() == 0 {
                assert(joined(p2, '\n') =~= s);
            } else {
                assert(joined(p2, '\n') =~= joined(parts, '\n').push(s.last()));
            }
        }
    } else {
        assert(split_on(s, '\n') == seq![Seq::<char>::empty()]);
    }
}

/// What a document read from `text` holds: the frontmatter block's keys, the
/// preamble and the sections. A text with no frontmatter block whose headings
/// carry no stray whitespace is also what the document writes back.
pub open spec fn reads_document(text: Seq<char>, doc: Document) -> bool {
    let (yaml, body) = front_split(text);
    &&& doc.has_front() == yaml is Some
    &&& (doc.preamble_lines(), doc.section_list()) == parse_body(split_on(body, '\n'))
    &&& (if yaml is Some && trim(yaml->0).len() > 0 {
        parsed_front(yaml->0) == Some((front_text(doc.front()), front_count(doc.front()), front_size(doc.front())))
    } else {
        front_size(doc.front()) == 0 && front_text(doc.front()).is_empty() && front_count(doc.front()).is_empty()
    })
    &&& (yaml is None && headings_trimmed(split_on(text, '\n')) ==> doc.text() == text)
}

/// A text is refused only for a frontmatter block that is not a YAML mapping.
pub open spec fn refuses_document(text: Seq<char>, e: Error) -> bool {
    &&& front_split(text).0 matches Some(y) && trim(y).len() > 0 && parsed_front(y) is None
    &&& e is Frontmatter
}

impl Document {
    /// An empty document that will render with a frontmatter block.
    pub fn new() -> (doc: Self)
        ensures
            doc.has_front(),
            front_size(doc.front()) == 0,
            front_text(doc.front()).is_empty(),
            front_count(doc.front()).is_empty(),
            doc.preamble_lines() == Seq::<Seq<char>>::empty(),
            doc.section_list() == Seq::<(Seq<char>, Seq<Seq<char>>)>::empty(),
    {
        let doc = Document {
            front: crate::yaml::empty_front(),
            has_frontmatter: true,
            preamble: Vec::new(),
            sections: Vec::new(),
        };
        assert(strings_view(doc.preamble@) =~= Seq::<Seq<char>>::empty());
        assert(sections_view(doc.sections@) =~= Seq::<(Seq<char>, Seq<Seq<char>>)>::empty());
        doc
    }

    /// Splits raw file text into frontmatter and sections. Only a frontmatter
    /// block that is not a YAML mapping fails; body text is never rejected.
    ///
    /// A text with no frontmatter block whose headings carry no stray
    /// whitespace renders back byte for byte.
    pub fn parse(text: &str) -> (result: Result<Self, Error>)
        ensures
            match result {
                Ok(doc) => reads_document(text@, doc),
                Err(e) => refuses_document(text@, e),
            },
    {
        let chars = chars_of(text);
        let (yaml, body) = split_front(&chars);
        let (front, has) = match yaml {
            Some(y) => {
                let t = trimmed(&y);
                if t.len() == 0 {
                    (crate::yaml::empty_front(), true)
                } else {
                    let y_text = string_of(&y);
                    match crate::yaml::read_front(y_text.as_str()) {
                        Ok(m) => (m, true),
                        Err(e) => {
                            return Err(Error::Frontmatter { message: crate::yaml::yaml_error_message(&e) });
                        },
                    }
                }
            },
            None => (crate::yaml::empty_front(), false),
        };
        let lines = split_lines(&body);
        let (preamble, sections) = sort_body(&lines);
        let doc = Document { front, has_frontmatter: has, preamble, sections };
        proof {
            if front_split(text@).0 is None && headings_trimmed(split_on(text@, '\n')) {
                assert(body@ == text@);
                lemma_body_round_trip(split_on(text@, '\n'));
                lemma_split_join(text@);
                assert(front_block(false, doc.front()) =~= Seq::<char>::empty());
                assert(doc.text() =~= text@);
            }
        }
        Ok(doc)
    }

    /// Reassembles the file text.
    pub fn render(&self) -> (text: String)
        ensures
            text@ == self.text(),
    {
        string_of(&self.render_chars())
    }

    pub fn render_chars(&self) -> (text: Vec<char>)
        ensures
            text@ == self.text(),
    {
        let mut out: Vec<char> = Vec::new();
        let empty = crate::yaml::front_is_empty(&self.front);
        if self.has_frontmatter || !empty {
            out.push('-');
            out.push('-');
            out.push('-');
            out.push('\n');
            if !empty {
                let yaml = crate::yaml::write_front(&self.front);
                append(&mut out, &chars_of(yaml.as_str()));
            }
            out.push('-');
            out.push('-');
            out.push('-');
            out.push('\n');
        }
        let ghost head = out@;
        assert(head =~= front_block(self.has_front(), self.front()));
        let ghost mut emitted: Seq<Seq<char>> = Seq::empty();
        let mut first = true;
        let mut k: usize = 0;
        while k < self.preamble.len()
            invariant
                k <= self.preamble@.len(),
                first == (emitted.len() == 0),
                emitted == strings_view(self.preamble@).subrange(0, k as int),
                out@ == head + joined(emitted, '\n'),
            decreases self.preamble.len() - k,
        {
            let line = chars_of(self.preamble[k].as_str());
            emit_line(&mut out, Ghost(head), Ghost(emitted), first, &line);
            proof {
                emitted = emitted.push(line@);
                assert(emitted =~= strings_view(self.preamble@).subrange(0, k + 1));
            }
            first = false;
            k = k + 1;
        }
        assert(emitted =~= self.preamble_lines());
        let ghost pre = emitted;
        let mut j: usize = 0;
        while j < self.sections.len()
            invariant
                j <= self.sections@.len(),
                first == (emitted.len() == 0),
                pre == self.preamble_lines(),
                emitted == pre + sections_lines(sections_view(self.sections@).subrange(0, j as int)),
                out@ == head + joined(emitted, '\n'),
            decreases self.sections.len() - j,
        {
            let section = &self.sections[j];
            let mut heading_line: Vec<char> = Vec::new();
            heading_line.push('#');
            heading_line.push('#');
            heading_line.push(' ');
            append(&mut heading_line, &chars_of(section.title.as_str()));
            assert(heading_line@ =~= heading(section.title@));
            emit_line(&mut out, Ghost(head), Ghost(emitted), first, &heading_line);
            proof {
                emitted = emitted.push(heading_line@);
            }
            first = false;
            let ghost base = emitted;
            let mut i: usize = 0;
            while i < section.lines.len()
                invariant
                    i <= section.lines@.len(),
                    first == (emitted.len() == 0),
                    !first,
                    emitted == base + strings_view(section.lines@).subrange(0, i as int),
                    out@ == head + joined(emitted, '\n'),
                decreases section.lines.len() - i,
            {
                let line = chars_of(section.lines[i].as_str());
                emit_line(&mut out, Ghost(head), Ghost(emitted), first, &line);
                proof {
                    emitted = emitted.push(line@);
                    assert(emitted =~= base + strings_view(section.lines@).subrange(0, i + 1));
                }
                i = i + 1;
            }
            proof {
                let secs = sections_view(self.sections@);
                assert(secs.subrange(0, j + 1).drop_last() =~= secs.subrange(0, j as int));
                assert(secs.subrange(0, j + 1).last() == section_view(*section));
                assert(strings_view(section.lines@).subrange(0, section.lines@.len() as int) =~= strings_view(section.lines@));
                assert(emitted =~= pre + sections_lines(secs.subrange(0, j + 1)));
            }
            j = j + 1;
        }
        assert(sections_view(self.sections@).subrange(0, self.sections@.len() as int) =~= self.section_list());
        out
    }
}

fn emit_line(out: &mut Vec<char>, head: Ghost<Seq<char>>, emitted: Ghost<Seq<Seq<char>>>, first: bool, line: &[char])
    requires
        old(out)@ == head@ + joined(emitted@, '\n'),
        first == (emitted@.len() == 0),
    ensures
        final(out)@ == head@ + joined(emitted@.push(line@), '\n'),
{
    proof {
        crate::text::lemma_joined_push(emitted@, line@, '\n');
    }
    if first {
        append(out, line);
        assert(out@ =~= head@ + line@);
    } else {
        out.push('\n');
        append(out, line);
        assert(out@ =~= head@ + (joined(emitted@, '\n').push('\n') + line@));
    }
}

} // verus!

verus! {

/// The first section from `k` on whose title matches `title` without regard
/// to ASCII case.
pub open spec fn position_from(secs: Seq<(Seq<char>, Seq<Seq<char>>)>, title: Seq<char>, k: int) -> Option<int>
    decreases secs.len() - k,
{
    if k < 0 || k >= secs.len() {
        None
    } else if lower_all(secs[k].0) == lower_all(title) {
        Some(k)
    } else {
        position_from(secs, title, k + 1)
    }
}

pub open spec fn position_of(secs: Seq<(Seq<char>, Seq<Seq<char>>)>, title: Seq<char>) -> Option<int> {
    position_from(secs, title, 0)
}

/// Where a new section goes: just after the last of `after` that exists, or
/// first.
pub open spec fn insert_point(secs: Seq<(Seq<char>, Seq<Seq<char>>)>, after: Seq<Seq<char>>) -> int
    decreases after.len(),
{
    if after.len() == 0 {
        0
    } else {
        let before = insert_point(secs, after.drop_last());
        match position_of(secs, after.last()) {
            Some(i) => if i + 1 > before {
                i + 1
            } else {
                before
            },
            None => before,
        }
    }
}

/// The body a section is written with: its content between blank lines.
pub open spec fn padded_body(content: Seq<Seq<char>>) -> Seq<Seq<char>> {
    seq![Seq::<char>::empty()] + content + seq![Seq::<char>::empty()]
}

/// The sections after replacing, inserting or (for empty content) removing
/// the one titled `title`.
pub open spec fn upserted(
    secs: Seq<(Seq<char>, Seq<Seq<char>>)>,
    title: Seq<char>,
    content: Seq<Seq<char>>,
    after: Seq<Seq<char>>,
) -> Seq<(Seq<char>, Seq<Seq<char>>)> {
    if content.len() == 0 {
        match position_of(secs, title) {
            Some(i) => secs.remove(i),
            None => secs,
        }
    } else {
        match position_of(secs, title) {
            Some(i) => secs.update(i, (secs[i].0, padded_body(content))),
            None => secs.insert(insert_point(secs, after), (title, padded_body(content))),
        }
    }
}

/// The numbered non-blank lines of the section titled `title`, if any.
pub open spec fn section_content(secs: Seq<(Seq<char>, Seq<Seq<char>>)>, title: Seq<char>) -> Seq<(nat, Seq<char>)> {
    match position_of(secs, title) {
        Some(i) => content_of(secs[i].1),
        None => Seq::empty(),
    }
}

pub open spec fn strs_view(v: Seq<&str>) -> Seq<Seq<char>> {
    v.map_values(|s: &str| s@)
}

proof fn lemma_position_bound(secs: Seq<(Seq<char>, Seq<Seq<char>>)>, title: Seq<char>, k: int)
    requires
        0 <= k,
    ensures
        position_from(secs, title, k) matches Some(i) ==> k <= i < secs.len(),
    decreases secs.len() - k,
{
    if k < secs.len() && lower_all(secs[k].0) != lower_all(title) {
        lemma_position_bound(secs, title, k + 1);
    }
}

proof fn lemma_insert_point_bound(secs: Seq<(Seq<char>, Seq<Seq<char>>)>, after: Seq<Seq<char>>)
    ensures
        0 <= insert_point(secs, after) <= secs.len(),
    decreases after.len(),
{
    if after.len() > 0 {
        lemma_insert_point_bound(secs, after.drop_last());
        lemma_position_bound(secs, after.last(), 0);
    }
}

/// The section at `j` is titled `title`, ignoring ASCII case.
pub open spec fn titled_at(secs: Seq<(Seq<char>, Seq<Seq<char>>)>, title: Seq<char>, j: int) -> bool {
    lower_all(secs[j].0) == lower_all(title)
}

/// At most one section is titled `title`.
pub open spec fn titled_once(secs: Seq<(Seq<char>, Seq<Seq<char>>)>, title: Seq<char>) -> bool {
    forall|j: int, k: int|
        0 <= j < secs.len() && 0 <= k < secs.len() && #[trigger] titled_at(secs, title, j) && #[trigger] titled_at(
            secs,
            title,
            k,
        ) ==> j == k
}

/// The search from `k` finds nothing exactly when no section from `k` on is
/// titled `title`, and otherwise the first that is.
proof fn lemma_position_none(secs: Seq<(Seq<char>, Seq<Seq<char>>)>, title: Seq<char>, k: int)
    requires
        0 <= k,
    ensures
        position_from(secs, title, k) is None <==> forall|j: int| k <= j < secs.len() ==> !titled_at(secs, title, j),
        position_from(secs, title, k) matches Some(i) ==> k <= i < secs.len() && titled_at(secs, title, i) && forall|
            j: int,
        | k <= j < i ==> !titled_at(secs, title, j),
    decreases secs.len() - k,
{
    if k < secs.len() && !titled_at(secs, title, k) {
        lemma_position_none(secs, title, k + 1);
    }
}

/// Sections with the same titles are searched alike.
proof fn lemma_position_titles(
    a: Seq<(Seq<char>, Seq<Seq<char>>)>,
    b: Seq<(Seq<char>, Seq<Seq<char>>)>,
    title: Seq<char>,
    k: int,
)
    requires
        0 <= k,
        a.len() == b.len(),
        forall|j: int| 0 <= j < a.len() ==> (#[trigger] a[j]).0 == b[j].0,
    ensures
        position_from(a, title, k) == position_from(b, title, k),
    decreases a.len() - k,
{
    if k < a.len() {
        assert(a[k].0 == b[k].0);
        lemma_position_titles(a, b, title, k + 1);
    }
}

/// Writing one section leaves every section under another title in place:
/// each is still there, with the same title and body.
pub proof fn law_upsert_keeps_other_sections(
    secs: Seq<(Seq<char>, Seq<Seq<char>>)>,
    title: Seq<char>,
    content: Seq<Seq<char>>,
    after: Seq<Seq<char>>,
    section: (Seq<char>, Seq<Seq<char>>),
)
    requires
        secs.contains(section),
        lower_all(section.0) != lower_all(title),
    ensures
        upserted(secs, title, content, after).contains(section),
{
    let j = choose|j: int| 0 <= j < secs.len() && secs[j] == section;
    lemma_position_none(secs, title, 0);
    let r = upserted(secs, title, content, after);
    match position_of(secs, title) {
        Some(i) => {
            assert(i != j);
            if content.len() == 0 {
                let k = if j < i { j } else { j - 1 };
                assert(r[k] == section);
            } else {
                assert(r[j] == section);
            }
        },
        None => {
            if content.len() > 0 {
                lemma_insert_point_bound(secs, after);
                let p = insert_point(secs, after);
                let k = if j < p { j } else { j + 1 };
                assert(r[k] == section);
            }
        },
    }
}

/// A section written with content reads back as that content, and one
/// removed reads as nothing where no other section has its title.
pub proof fn law_section_write_then_read(
    secs: Seq<(Seq<char>, Seq<Seq<char>>)>,
    title: Seq<char>,
    content: Seq<Seq<char>>,
    after: Seq<Seq<char>>,
)
    requires
        content.len() == 0 ==> titled_once(secs, title),
    ensures
        section_content(upserted(secs, title, content, after), title) == if content.len() > 0 {
            content_of(padded_body(content))
        } else {
            Seq::empty()
        },
{
    let body = padded_body(content);
    lemma_position_none(secs, title, 0);
    if content.len() == 0 {
        match position_of(secs, title) {
            Some(i) => {
                let r = secs.remove(i);
                assert forall|j: int| 0 <= j < r.len() implies !titled_at(r, title, j) by {
                    if j < i {
                        assert(r[j] == secs[j]);
                        if titled_at(secs, title, j) {
                            assert(titled_at(secs, title, i));
                        }
                    } else {
                        assert(r[j] == secs[j + 1]);
                        if titled_at(secs, title, j + 1) {
                            assert(titled_at(secs, title, i));
                        }
                    }
                }
                lemma_position_none(r, title, 0);
            },
            None => {},
        }
    } else {
        match position_of(secs, title) {
            Some(i) => {
                let u = secs.update(i, (secs[i].0, body));
                lemma_position_titles(u, secs, title, 0);
            },
            None => {
                let k = insert_point(secs, after);
                lemma_insert_point_bound(secs, after);
                let n = secs.insert(k, (title, body));
                assert(titled_at(n, title, k));
                assert forall|j: int| 0 <= j < k implies !titled_at(n, title, j) by {
                    assert(n[j] == secs[j]);
                    assert(!titled_at(secs, title, j));
                }
                lemma_position_none(n, title, 0);
                if position_of(n, title) != Some(k) {
                    let f = position_of(n, title);
                    assert(f is Some);
                    let i = f.unwrap();
                    assert(titled_at(n, title, i));
                    assert(!(i < k));
                    assert(!(k < i));
                }
            },
        }
    }
}

impl Document {
    fn position(&self, title: &[char]) -> (index: Option<usize>)
        ensures
            match index {
                Some(i) => position_of(self.section_list(), title@) == Some(i as int) && i
                    < self.section_list().len(),
                None => position_of(self.section_list(), title@) is None,
            },
    {
        let mut k: usize = 0;
        while k < self.sections.len()
            invariant
                k <= self.sections@.len(),
                position_of(self.section_list(), title@) == position_from(self.section_list(), title@, k as int),
            decreases self.sections.len() - k,
        {
            let name = chars_of(self.sections[k].title.as_str());
            if same_ignoring_ascii_case(&name, title) {
                return Some(k);
            }
            k = k + 1;
        }
        None
    }

    /// The section with this title, compared without ASCII case.
    pub fn section(&self, title: &str) -> (found: Option<&Section>)
        ensures
            match found {
                Some(s) => position_of(self.section_list(), title@) matches Some(i)
                    && self.section_list()[i] == section_view(*s),
                None => position_of(self.section_list(), title@) is None,
            },
    {
        let t = chars_of(title);
        match self.position(&t) {
            Some(i) => Some(&self.sections[i]),
            None => None,
        }
    }

    /// The numbered non-blank lines of the section titled `title`.
    pub fn content_lines(&self, title: &str) -> (entries: Vec<(usize, Vec<char>)>)
        ensures
            entries_view(entries@) == section_content(self.section_list(), title@),
    {
        let t = chars_of(title);
        match self.position(&t) {
            Some(i) => {
                let lines = string_lines(&self.sections[i]);
                content_lines_of(&lines)
            },
            None => {
                let empty: Vec<(usize, Vec<char>)> = Vec::new();
                assert(entries_view(empty@) =~= Seq::<(nat, Seq<char>)>::empty());
                empty
            },
        }
    }

    /// Replaces a section's content, or inserts the section if absent.
    ///
    /// A new section lands just after the last of `after` that exists, which
    /// keeps known sections in canonical order; empty content removes the
    /// section, so an emptied list leaves no bare heading.
    pub fn upsert_section(&mut self, title: &str, content: Vec<String>, after: &[&str])
        ensures
            final(self).section_list() == upserted(
                old(self).section_list(),
                title@,
                strings_view(content@),
                strs_view(after@),
            ),
            final(self).preamble_lines() == old(self).preamble_lines(),
            final(self).has_front() == old(self).has_front(),
            final(self).front() == old(self).front(),
    {
        let t = chars_of(title);
        let position = self.position(&t);
        let ghost secs = old(self).section_list();
        if content.len() == 0 {
            assert(strings_view(content@).len() == 0);
            match position {
                Some(i) => {
                    self.sections.remove(i);
                    assert(sections_view(self.sections@) =~= secs.remove(i as int));
                },
                None => {},
            }
            return;
        }
        let mut lines: Vec<String> = Vec::new();
        lines.push(String::new());
        let mut k: usize = 0;
        let n = content.len();
        let mut content = content;
        let ghost given = strings_view(content@);
        let mut rest: Vec<String> = Vec::new();
        while k < n
            invariant
                k <= n,
                n == content@.len(),
                given == strings_view(content@),
                strings_view(lines@) == seq![Seq::<char>::empty()] + given.subrange(0, k as int),
            decreases n - k,
        {
            let ghost before = lines@;
            let copy = content[k].clone();
            lines.push(copy);
            assert(strings_view(lines@) =~= strings_view(before).push(copy@));
            assert(given.subrange(0, k + 1) =~= given.subrange(0, k as int).push(given[k as int]));
            assert(strings_view(lines@) =~= seq![Seq::<char>::empty()] + given.subrange(0, k + 1));
            k = k + 1;
        }
        let ghost before = lines@;
        let blank = String::new();
        lines.push(blank);
        assert(strings_view(lines@) =~= strings_view(before).push(blank@));
        assert(given.subrange(0, n as int) =~= given);
        assert(strings_view(lines@) =~= padded_body(given));
        match position {
            Some(i) => {
                let old_title = self.sections[i].title.clone();
                let replaced = Section { title: old_title, lines };
                self.sections.set(i, replaced);
                assert(sections_view(self.sections@) =~= secs.update(i as int, (secs[i as int].0, padded_body(given))));
            },
            None => {
                let mut at: usize = 0;
                let mut j: usize = 0;
                proof {
                    lemma_insert_point_bound(secs, strs_view(after@));
                    assert(strs_view(after@).subrange(0, 0) =~= Seq::<Seq<char>>::empty());
                }
                while j < after.len()
                    invariant
                        j <= after@.len(),
                        secs == self.section_list(),
                        at as int == insert_point(secs, strs_view(after@).subrange(0, j as int)),
                        at <= self.sections@.len(),
                        secs.len() == self.sections@.len(),
                    decreases after.len() - j,
                {
                    let name = chars_of(after[j]);
                    proof {
                        assert(strs_view(after@).subrange(0, j + 1).drop_last() =~= strs_view(after@).subrange(0, j as int));
                        assert(strs_view(after@).subrange(0, j + 1).last() == name@);
                    }
                    let total = self.sections.len();
                    match self.position(&name) {
                        Some(i) => {
                            assert(i < total);
                            if i + 1 > at {
                                at = i + 1;
                            }
                        },
                        None => {},
                    }
                    j = j + 1;
                }
                assert(strs_view(after@).subrange(0, after@.len() as int) =~= strs_view(after@));
                let fresh = Section { title: string_of(&t), lines };
                self.sections.insert(at, fresh);
                assert(sections_view(self.sections@) =~= secs.insert(at as int, (title@, padded_body(given))));
            },
        }
    }

    /// Replaces the preamble, used when creating a file from a template.
    pub fn set_preamble(&mut self, lines: Vec<String>)
        ensures
            final(self).preamble_lines() == strings_view(lines@),
            final(self).section_list() == old(self).section_list(),
            final(self).has_front() == old(self).has_front(),
            final(self).front() == old(self).front(),
    {
        self.preamble = lines;
    }

    /// No frontmatter entries, no sections and a blank preamble.
    pub fn is_empty(&self) -> (empty: bool)
        ensures
            empty == (front_size(self.front()) == 0 && self.section_list().len() == 0 && forall|k: int|
                0 <= k < self.preamble_lines().len() ==> trim(#[trigger] self.preamble_lines()[k]).len() == 0),
    {
        if !crate::yaml::front_is_empty(&self.front) || self.sections.len() != 0 {
            return false;
        }
        let mut k: usize = 0;
        while k < self.preamble.len()
            invariant
                k <= self.preamble@.len(),
                forall|j: int| 0 <= j < k ==> trim(#[trigger] self.preamble_lines()[j]).len() == 0,
            decreases self.preamble.len() - k,
        {
            let line = chars_of(self.preamble[k].as_str());
            let kept = trimmed(&line);
            if kept.len() != 0 {
                assert(self.preamble_lines()[k as int] == line@);
                assert(trim(self.preamble_lines()[k as int]).len() != 0);
                return false;
            }
            k = k + 1;
        }
        true
    }

    /// Reads one text-valued frontmatter key. Absent and unreadable are both
    /// `None`, so a garbled value falls back rather than failing the file.
    pub fn front_text_value(&self, key: &str) -> (value: Option<String>)
        ensures
            value is Some <==> front_text(self.front()).contains_key(key@),
            value matches Some(v) ==> front_text(self.front())[key@] == v@,
    {
        crate::yaml::get_text(&self.front, key)
    }

    /// Reads one number-valued frontmatter key.
    pub fn front_count_value(&self, key: &str) -> (value: Option<u32>)
        ensures
            value is Some <==> front_count(self.front()).contains_key(key@),
            value matches Some(v) ==> front_count(self.front())[key@] == v,
    {
        crate::yaml::get_count(&self.front, key)
    }

    /// Writes one text-valued frontmatter key, leaving every other key alone.
    pub fn set_front_text(&mut self, key: &str, value: &str)
        ensures
            front_text(final(self).front()) == front_text(old(self).front()).insert(key@, value@),
            front_count(final(self).front()) == front_count(old(self).front()).remove(key@),
            front_entries(final(self).front()).remove((true, key@)) == front_entries(old(self).front()).remove((true, key@)),
            front_size(final(self).front()) > 0,
            final(self).section_list() == old(self).section_list(),
            final(self).preamble_lines() == old(self).preamble_lines(),
            final(self).has_front() == old(self).has_front(),
    {
        crate::yaml::set_text(&mut self.front, key, value);
    }

    /// Writes one number-valued frontmatter key, leaving every other key alone.
    pub fn set_front_count(&mut self, key: &str, value: u32)
        ensures
            front_count(final(self).front()) == front_count(old(self).front()).insert(key@, value as nat),
            front_text(final(self).front()) == front_text(old(self).front()).remove(key@),
            front_entries(final(self).front()).remove((true, key@)) == front_entries(old(self).front()).remove((true, key@)),
            front_size(final(self).front()) > 0,
            final(self).section_list() == old(self).section_list(),
            final(self).preamble_lines() == old(self).preamble_lines(),
            final(self).has_front() == old(self).has_front(),
    {
        crate::yaml::set_count(&mut self.front, key, value);
    }

    pub fn remove_front_key(&mut self, key: &str)
        ensures
            front_text(final(self).front()) == front_text(old(self).front()).remove(key@),
            front_count(final(self).front()) == front_count(old(self).front()).remove(key@),
            front_entries(final(self).front()) == front_entries(old(self).front()).remove((true, key@)),
            final(self).section_list() == old(self).section_list(),
            final(self).preamble_lines() == old(self).preamble_lines(),
            final(self).has_front() == old(self).has_front(),
    {
        crate::yaml::remove_key(&mut self.front, key);
    }

    /// A copy, holding the same frontmatter, preamble and sections.
    pub fn copy(&self) -> (copy: Self)
        ensures
            copy.section_list() == self.section_list(),
            copy.preamble_lines() == self.preamble_lines(),
            copy.has_front() == self.has_front(),
            front_text(copy.front()) == front_text(self.front()),
            front_count(copy.front()) == front_count(self.front()),
            front_size(copy.front()) == front_size(self.front()),
            front_yaml(copy.front()) == front_yaml(self.front()),
            front_entries(copy.front()) == front_entries(self.front()),
            copy.text() == self.text(),
    {
        let mut preamble: Vec<String> = Vec::new();
        let mut k: usize = 0;
        while k < self.preamble.len()
            invariant
                k <= self.preamble@.len(),
                strings_view(preamble@) == strings_view(self.preamble@).subrange(0, k as int),
            decreases self.preamble.len() - k,
        {
            let ghost before = preamble@;
            let line = self.preamble[k].clone();
            preamble.push(line);
            assert(strings_view(preamble@) =~= strings_view(before).push(line@));
            assert(strings_view(preamble@) =~= strings_view(self.preamble@).subrange(0, k + 1));
            k = k + 1;
        }
        let mut sections: Vec<Section> = Vec::new();
        let mut j: usize = 0;
        while j < self.sections.len()
            invariant
                j <= self.sections@.len(),
                sections_view(sections@) == sections_view(self.sections@).subrange(0, j as int),
            decreases self.sections.len() - j,
        {
            let lines = strings_of(&string_lines(&self.sections[j]));
            let ghost before = sections@;
            let copy = Section { title: self.sections[j].title.clone(), lines };
            sections.push(copy);
            assert(sections_view(sections@) =~= sections_view(before).push(section_view(copy)));
            assert(sections_view(sections@) =~= sections_view(self.sections@).subrange(0, j + 1));
            j = j + 1;
        }
        assert(strings_view(self.preamble@).subrange(0, self.preamble@.len() as int) =~= strings_view(self.preamble@));
        assert(sections_view(self.sections@).subrange(0, self.sections@.len() as int) =~= sections_view(self.sections@));
        let copy = Document {
            front: crate::yaml::copy_front(&self.front),
            has_frontmatter: self.has_frontmatter,
            preamble,
            sections,
        };
        copy
    }
}

} // verus!
