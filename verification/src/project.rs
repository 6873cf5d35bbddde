//! Projects: `data/projects/<slug>.md`.
//!
//! Project metadata is key/value and lives in frontmatter; milestones are a
//! body list, `- [x] Title`. The rest of the body is prose the app never
//! touches.

use vstd::prelude::*;

use crate::clock::CalendarDate;
use crate::document::{reads_document, refuses_document, section_content, strings_view, upserted, Document};
use crate::error::{problem_kinds, problem_lines, Error, ParseError, ParseErrorKind};
use crate::grammar::list_item_content;
use crate::ids::ProjectSlug;
use crate::list::{line_refusal, read_entries, reads_are_written_back, reads_back, written_lines, ListLine};
use crate::minutes::Minutes;
use crate::yaml::{front_count, front_entries, front_others, front_text, lemma_others_agree};
use crate::text::{append, chars_of, has_char, is_ws, lemma_trim_fixed, same, slice, starts_with, string_of, trim, trim_end, trim_start, trimmed};

verus! {

pub open spec fn is_hex(c: char) -> bool {
    ('0' <= c <= '9') || ('a' <= c <= 'f') || ('A' <= c <= 'F')
}

fn all_hex(chars: &[char]) -> (hex: bool)
    requires
        chars@.len() == 7,
    ensures
        hex == forall|i: int| 1 <= i < 7 ==> is_hex(#[trigger] chars@[i]),
{
    let mut i: usize = 1;
    while i < 7
        invariant
            chars@.len() == 7,
            1 <= i <= 7,
            forall|k: int| 1 <= k < i ==> is_hex(#[trigger] chars@[k]),
        decreases 7 - i,
    {
        let c = chars[i];
        if !(('0' <= c && c <= '9') || ('a' <= c && c <= 'f') || ('A' <= c && c <= 'F')) {
            return false;
        }
        i = i + 1;
    }
    true
}

/// `#rrggbb`, any case.
pub open spec fn is_color(s: Seq<char>) -> bool {
    s.len() == 7 && s[0] == '#' && forall|i: int| 1 <= i < 7 ==> is_hex(#[trigger] s[i])
}

/// A `#rrggbb` colour, stored lowercase, used to tint the project in the UI.
#[derive(Debug, PartialEq, Eq, Hash)]
pub struct Color(String);

impl View for Color {
    type V = Seq<char>;

    closed spec fn view(&self) -> Seq<char> {
        self.0@
    }
}

impl Color {
    /// Validates a colour, folding it to lowercase.
    pub fn new(candidate: &str) -> (result: Result<Self, ParseErrorKind>)
        ensures
            result is Ok <==> is_color(candidate@),
            result matches Ok(color) ==> color@ == crate::text::lower_all(candidate@),
            result matches Err(kind) ==> kind is InvalidSlug && kind.found_text() == candidate@,
    {
        let chars = chars_of(candidate);
        let valid = chars.len() == 7 && chars[0] == '#' && all_hex(&chars);
        if valid {
            let lower = crate::text::lowered(&chars);
            Ok(Color(string_of(&lower)))
        } else {
            Err(ParseErrorKind::InvalidSlug { found: candidate.to_owned() })
        }
    }

    pub fn as_str(&self) -> (text: &str)
        ensures
            text@ == self@,
    {
        self.0.as_str()
    }
}

impl Clone for Color {
    fn clone(&self) -> (copy: Self)
        ensures
            copy@ == self@,
    {
        Color(self.0.clone())
    }
}

#[derive(Debug, Clone, Copy, PartialEq, Eq, Structural)]
pub enum ProjectStatus {
    Active,
    Archived,
}

pub open spec fn status_word(status: ProjectStatus) -> Seq<char> {
    match status {
        ProjectStatus::Active => seq!['a', 'c', 't', 'i', 'v', 'e'],
        ProjectStatus::Archived => seq!['a', 'r', 'c', 'h', 'i', 'v', 'e', 'd'],
    }
}

/// A word, spelt out as a `&'static str`.
fn word_of(chars: &[char]) -> (text: String)
    ensures
        text@ == chars@,
{
    string_of(chars)
}

impl ProjectStatus {
    pub fn default() -> (status: Self)
        ensures
            status == ProjectStatus::Active,
    {
        ProjectStatus::Active
    }

    pub fn is_archived(self) -> (archived: bool)
        ensures
            archived == (self == ProjectStatus::Archived),
    {
        match self {
            ProjectStatus::Archived => true,
            ProjectStatus::Active => false,
        }
    }

    /// `active` or `archived`.
    pub fn render(self) -> (text: String)
        ensures
            text@ == status_word(self),
    {
        match self {
            ProjectStatus::Active => {
                let w: [char; 6] = ['a', 'c', 't', 'i', 'v', 'e'];
                assert(w@ =~= status_word(self));
                word_of(&w)
            },
            ProjectStatus::Archived => {
                let w: [char; 8] = ['a', 'r', 'c', 'h', 'i', 'v', 'e', 'd'];
                assert(w@ =~= status_word(self));
                word_of(&w)
            },
        }
    }

    /// Reads `active` or `archived`, exactly.
    pub fn parse(raw: &str) -> (result: Result<Self, Error>)
        ensures
            match result {
                Ok(status) => status_word(status) == raw@,
                Err(e) => (forall|s: ProjectStatus| status_word(s) != raw@) && e
                    == Error::UnknownWord { field: e->field, found: e->found } && e->found@ == raw@,
            },
    {
        let chars = chars_of(raw);
        let active: [char; 6] = ['a', 'c', 't', 'i', 'v', 'e'];
        let archived: [char; 8] = ['a', 'r', 'c', 'h', 'i', 'v', 'e', 'd'];
        assert(active@ =~= status_word(ProjectStatus::Active));
        assert(archived@ =~= status_word(ProjectStatus::Archived));
        if same(&chars, &active) {
            Ok(ProjectStatus::Active)
        } else if same(&chars, &archived) {
            Ok(ProjectStatus::Archived)
        } else {
            proof {
                assert forall|s: ProjectStatus| status_word(s) != raw@ by {
                    match s {
                        ProjectStatus::Active => {},
                        ProjectStatus::Archived => {},
                    }
                }
            }
            let field: [char; 6] = ['s', 't', 'a', 't', 'u', 's'];
            Err(Error::UnknownWord { field: string_of(&field), found: raw.to_owned() })
        }
    }
}

/// The geometric mark a project is drawn as.
#[derive(Debug, Clone, Copy, PartialEq, Eq, Structural)]
pub enum Mark {
    Square,
    Circle,
    Triangle,
    Diamond,
    Bar,
}

pub open spec fn mark_word(mark: Mark) -> Seq<char> {
    match mark {
        Mark::Square => seq!['s', 'q', 'u', 'a', 'r', 'e'],
        Mark::Circle => seq!['c', 'i', 'r', 'c', 'l', 'e'],
        Mark::Triangle => seq!['t', 'r', 'i', 'a', 'n', 'g', 'l', 'e'],
        Mark::Diamond => seq!['d', 'i', 'a', 'm', 'o', 'n', 'd'],
        Mark::Bar => seq!['b', 'a', 'r'],
    }
}

/// Each mark has its own word, so a written mark reads back as itself.
pub proof fn law_mark_words_distinct(a: Mark, b: Mark)
    ensures
        mark_word(a) == mark_word(b) ==> a == b,
{
    if mark_word(a) == mark_word(b) && a != b {
        assert(mark_word(a).len() != mark_word(b).len() || mark_word(a)[0] != mark_word(b)[0]);
    }
}

/// Each project status has its own word, so a written status reads back as
/// itself.
pub proof fn law_status_words_distinct(a: ProjectStatus, b: ProjectStatus)
    ensures
        status_word(a) == status_word(b) ==> a == b,
{
    if status_word(a) == status_word(b) && a != b {
        assert(status_word(a).len() != status_word(b).len());
    }
}

fn mark_chars(mark: Mark) -> (word: Vec<char>)
    ensures
        word@ == mark_word(mark),
{
    let mut w: Vec<char> = Vec::new();
    match mark {
        Mark::Square => {
            w.push('s');
            w.push('q');
            w.push('u');
            w.push('a');
            w.push('r');
            w.push('e');
        },
        Mark::Circle => {
            w.push('c');
            w.push('i');
            w.push('r');
            w.push('c');
            w.push('l');
            w.push('e');
        },
        Mark::Triangle => {
            w.push('t');
            w.push('r');
            w.push('i');
            w.push('a');
            w.push('n');
            w.push('g');
            w.push('l');
            w.push('e');
        },
        Mark::Diamond => {
            w.push('d');
            w.push('i');
            w.push('a');
            w.push('m');
            w.push('o');
            w.push('n');
            w.push('d');
        },
        Mark::Bar => {
            w.push('b');
            w.push('a');
            w.push('r');
        },
    }
    assert(w@ =~= mark_word(mark));
    w
}

impl Mark {
    pub fn default() -> (mark: Self)
        ensures
            mark == Mark::Square,
    {
        Mark::Square
    }

    pub fn render(self) -> (text: String)
        ensures
            text@ == mark_word(self),
    {
        string_of(&mark_chars(self))
    }

    /// Reads one of the five mark names, exactly.
    pub fn parse(raw: &str) -> (result: Result<Self, Error>)
        ensures
            match result {
                Ok(mark) => mark_word(mark) == raw@,
                Err(e) => (forall|m: Mark| mark_word(m) != raw@) && e is UnknownWord && e->found@
                    == raw@,
            },
    {
        let chars = chars_of(raw);
        if same(&chars, &mark_chars(Mark::Square)) {
            Ok(Mark::Square)
        } else if same(&chars, &mark_chars(Mark::Circle)) {
            Ok(Mark::Circle)
        } else if same(&chars, &mark_chars(Mark::Triangle)) {
            Ok(Mark::Triangle)
        } else if same(&chars, &mark_chars(Mark::Diamond)) {
            Ok(Mark::Diamond)
        } else if same(&chars, &mark_chars(Mark::Bar)) {
            Ok(Mark::Bar)
        } else {
            proof {
                assert forall|m: Mark| mark_word(m) != raw@ by {
                    match m {
                        Mark::Square => {},
                        Mark::Circle => {},
                        Mark::Triangle => {},
                        Mark::Diamond => {},
                        Mark::Bar => {},
                    }
                }
            }
            let field: [char; 4] = ['m', 'a', 'r', 'k'];
            Err(Error::UnknownWord { field: string_of(&field), found: raw.to_owned() })
        }
    }
}

/// A title a milestone line can carry and give back: trimmed, non-empty, on
/// one line.
pub open spec fn is_milestone_title(t: Seq<char>) -> bool {
    &&& t.len() > 0
    &&& trim(t) == t
    &&& !has_char(t, '\n')
    &&& !has_char(t, '\r')
}

/// What `Milestone::new` keeps of a title, if it keeps it.
pub open spec fn milestone_title_of(title: Seq<char>) -> Option<Seq<char>> {
    let t = trim(title);
    if t.len() > 0 && !has_char(t, '\n') && !has_char(t, '\r') {
        Some(t)
    } else {
        None
    }
}

/// One entry in a project's `## Milestones` list: a checkbox and a title.
#[derive(Debug, PartialEq, Eq)]
pub struct Milestone {
    pub done: bool,
    title: String,
}

/// The parts of a milestone.
pub open spec fn milestone_view(done: bool, title: Seq<char>) -> (bool, Seq<char>) {
    (done, title)
}

impl View for Milestone {
    type V = (bool, Seq<char>);

    closed spec fn view(&self) -> (bool, Seq<char>) {
        if is_milestone_title(self.title@) {
            (self.done, self.title@)
        } else {
            (self.done, seq!['?'])
        }
    }
}

/// The checkbox text of a milestone line, bullet stripped.
pub open spec fn milestone_content(done: bool, title: Seq<char>) -> Seq<char> {
    (if done {
        seq!['[', 'x', ']', ' ']
    } else {
        seq!['[', ' ', ']', ' ']
    }) + title
}

/// A whole milestone line.
pub open spec fn milestone_line(done: bool, title: Seq<char>) -> Seq<char> {
    seq!['-', ' '] + milestone_content(done, title)
}

/// What a milestone line's content reads as.
pub open spec fn milestone_parsed(content: Seq<char>) -> Option<(bool, Seq<char>)> {
    if content.len() >= 3 {
        let head = content.subrange(0, 3);
        let done = if head == seq!['[', 'x', ']'] || head == seq!['[', 'X', ']'] {
            Some(true)
        } else if head == seq!['[', ' ', ']'] {
            Some(false)
        } else {
            None
        };
        match done {
            Some(d) => match milestone_title_of(content.subrange(3, content.len() as int)) {
                Some(t) => Some((d, t)),
                None => None,
            },
            None => None,
        }
    } else {
        None
    }
}

impl Milestone {
    pub proof fn lemma_valid(&self)
        ensures
            is_milestone_title(self@.1),
    {
        assert(is_milestone_title(seq!['?'])) by {
            lemma_trim_fixed(seq!['?']);
            assert(!has_char(seq!['?'], '\n'));
            assert(!has_char(seq!['?'], '\r'));
        }
    }

    #[verifier::type_invariant]
    spec fn valid(self) -> bool {
        is_milestone_title(self.title@)
    }

    /// The one way to build a milestone: a title that is blank or spans lines
    /// could not be written and read back, so it is refused.
    pub fn new(done: bool, title: &str) -> (result: Result<Self, ParseErrorKind>)
        ensures
            match result {
                Ok(m) => milestone_title_of(title@) == Some(m@.1) && m@.0 == done,
                Err(kind) => milestone_title_of(title@) is None && kind is MissingCheckbox
                    && kind.found_text() == trim(title@),
            },
    {
        let chars = chars_of(title);
        let t = trimmed(&chars);
        if t.len() == 0 || crate::text::contains_char(&t, '\n') || crate::text::contains_char(&t, '\r') {
            return Err(ParseErrorKind::MissingCheckbox { found: string_of(&t) });
        }
        proof {
            crate::text::lemma_trim_idempotent(chars@);
        }
        Ok(Milestone { done, title: string_of(&t) })
    }

    pub fn title(&self) -> (text: &str)
        ensures
            text@ == self@.1,
    {
        proof {
            use_type_invariant(self);
        }
        self.title.as_str()
    }

    pub fn is_done(&self) -> (done: bool)
        ensures
            done == self@.0,
    {
        self.done
    }

    /// Reads `[x] Title` or `[ ] Title`, the bullet already stripped.
    pub fn parse(content: &str) -> (result: Result<Self, ParseErrorKind>)
        ensures
            match result {
                Ok(m) => milestone_parsed(content@) == Some(m@),
                Err(kind) => milestone_parsed(content@) is None && kind is MissingCheckbox
                    && kind.found_text() == content@,
            },
    {
        let chars = chars_of(content);
        if chars.len() < 3 {
            return Err(ParseErrorKind::MissingCheckbox { found: content.to_owned() });
        }
        let head = slice(&chars, 0, 3);
        let ticked: [char; 3] = ['[', 'x', ']'];
        let ticked_upper: [char; 3] = ['[', 'X', ']'];
        let open: [char; 3] = ['[', ' ', ']'];
        assert(ticked@ =~= seq!['[', 'x', ']']);
        assert(ticked_upper@ =~= seq!['[', 'X', ']']);
        assert(open@ =~= seq!['[', ' ', ']']);
        let done = if same(&head, &ticked) || same(&head, &ticked_upper) {
            true
        } else if same(&head, &open) {
            false
        } else {
            return Err(ParseErrorKind::MissingCheckbox { found: content.to_owned() });
        };
        let rest = slice(&chars, 3, chars.len());
        let rest_text = string_of(&rest);
        match Milestone::new(done, rest_text.as_str()) {
            Ok(m) => Ok(m),
            Err(_) => Err(ParseErrorKind::MissingCheckbox { found: content.to_owned() }),
        }
    }

    /// Writes `- [x] Title` or `- [ ] Title`.
    pub fn render(&self) -> (line: String)
        ensures
            line@ == milestone_line(self@.0, self@.1),
    {
        string_of(&self.render_chars())
    }

    pub fn render_chars(&self) -> (line: Vec<char>)
        ensures
            line@ == milestone_line(self@.0, self@.1),
    {
        proof {
            use_type_invariant(self);
        }
        let mut out: Vec<char> = Vec::new();
        out.push('-');
        out.push(' ');
        out.push('[');
        out.push(if self.done {
            'x'
        } else {
            ' '
        });
        out.push(']');
        out.push(' ');
        let title = chars_of(self.title.as_str());
        append(&mut out, &title);
        assert(out@ =~= milestone_line(self@.0, self@.1));
        out
    }
}

impl Clone for Milestone {
    fn clone(&self) -> (copy: Self)
        ensures
            copy@ == self@,
    {
        proof {
            use_type_invariant(self);
        }
        Milestone { done: self.done, title: self.title.clone() }
    }
}

} // verus!

verus! {

/// A trimmed non-empty text neither begins nor ends in whitespace.
pub proof fn lemma_trimmed_ends(t: Seq<char>)
    requires
        trim(t) == t,
        t.len() > 0,
    ensures
        !is_ws(t[0]),
        !is_ws(t.last()),
{
    crate::text::lemma_trim_start_shape(t);
    crate::text::lemma_trim_end_shape(trim_start(t));
}

/// A milestone's line reads back as the same milestone: its list-item content
/// is the checkbox text, and that text parses to the same tick and title. Any
/// title a milestone can hold is such a title.
pub proof fn law_milestone_round_trip(v: MilestoneView)
    requires
        is_milestone_title(v.1),
    ensures
        reads_back::<Milestone>(v),
{
    let t = v.1;
    lemma_trimmed_ends(t);
    let line = milestone_line(v.0, t);
    let content = milestone_content(v.0, t);
    assert(line[0] == '-');
    assert(line.last() == t.last());
    lemma_trim_fixed(line);
    assert(starts_with(line, seq!['-', ' '])) by {
        assert(line.subrange(0, 2) =~= seq!['-', ' ']);
    }
    assert(line.subrange(2, line.len() as int) =~= content);
    assert(content[0] == '[');
    assert(content.last() == t.last());
    lemma_trim_fixed(content);
    let rest = content.subrange(3, content.len() as int);
    assert(rest =~= seq![' '] + t);
    assert(trim_start(rest) == trim_start(rest.drop_first()));
    assert(rest.drop_first() =~= t);
    lemma_trim_fixed(t);
    assert(trim(rest) == t);
    if v.0 {
        assert(content.subrange(0, 3) =~= seq!['[', 'x', ']']);
    } else {
        assert(content.subrange(0, 3) =~= seq!['[', ' ', ']']);
    }
    assert(list_item_content(line) == Some(content));
    assert(milestone_parsed(content) == Some(v));
}

/// Whatever the reader takes from a `## Milestones` list, its line reads back
/// as it; so, with `law_list_fixed_point`, a milestone list once written is
/// read and written unchanged.
pub proof fn law_milestones_written_back()
    ensures
        reads_are_written_back::<Milestone>(),
{
    assert forall|c: Seq<char>| trim(c) == c && (#[trigger] Milestone::reads(c)) is Some implies reads_back::<Milestone>(
        Milestone::reads(c)->0,
    ) by {
        let v = Milestone::reads(c)->0;
        crate::text::lemma_trim_idempotent(c.subrange(3, c.len() as int));
        law_milestone_round_trip(v);
    }
}

} // verus!

verus! {

impl ListLine for Milestone {
    open spec fn refused(content: Seq<char>, kind: ParseErrorKind) -> bool {
        kind is MissingCheckbox && kind.found_text() == content
    }

    open spec fn reads(content: Seq<char>) -> Option<(bool, Seq<char>)> {
        milestone_parsed(content)
    }

    open spec fn line_of(v: (bool, Seq<char>)) -> Seq<char> {
        milestone_line(v.0, v.1)
    }

    fn read_line(content: &str) -> (result: Result<Self, ParseErrorKind>) {
        Milestone::parse(content)
    }

    fn write_line(&self) -> (line: String) {
        self.render()
    }
}

/// A tick and a title.
pub type MilestoneView = (bool, Seq<char>);

pub open spec fn milestones_view(v: Seq<Milestone>) -> Seq<MilestoneView> {
    v.map_values(|m: Milestone| m@)
}

/// How many milestones carry this title.
pub open spec fn count_titled(ms: Seq<MilestoneView>, title: Seq<char>) -> nat
    decreases ms.len(),
{
    if ms.len() == 0 {
        0
    } else {
        count_titled(ms.drop_last(), title) + if ms.last().1 == title {
            1nat
        } else {
            0nat
        }
    }
}

/// The first milestone carrying this title.
pub open spec fn first_titled(ms: Seq<MilestoneView>, title: Seq<char>) -> Option<int>
    decreases ms.len(),
{
    if ms.len() == 0 {
        None
    } else {
        match first_titled(ms.drop_last(), title) {
            Some(i) => Some(i),
            None => if ms.last().1 == title {
                Some(ms.len() - 1)
            } else {
                None
            },
        }
    }
}

/// No two milestones share a title, so every one can be addressed by its
/// title.
pub open spec fn distinct_titles(ms: Seq<MilestoneView>) -> bool {
    forall|i: int, j: int| 0 <= i < j < ms.len() ==> (#[trigger] ms[i]).1 != (#[trigger] ms[j]).1
}

/// Some milestone other than the one at `except` carries this title.
pub open spec fn taken_by_other(ms: Seq<MilestoneView>, title: Seq<char>, except: Option<int>) -> bool {
    exists|i: int| 0 <= i < ms.len() && (#[trigger] ms[i]).1 == title && except != Some(i)
}

/// Where a milestone moved from `from` to `to` lands: `to` in the resulting
/// list, or last when `to` is past its end.
pub open spec fn moved(ms: Seq<MilestoneView>, from: int, to: int) -> Seq<MilestoneView> {
    let rest = ms.remove(from);
    let at = if to < rest.len() {
        to
    } else {
        rest.len() as int
    };
    rest.insert(at, ms[from])
}

/// Moving a milestone only reorders the list: the same milestones, each as
/// often as before.
pub proof fn law_move_permutes(ms: Seq<MilestoneView>, from: int, to: int)
    requires
        0 <= from < ms.len(),
        0 <= to,
    ensures
        moved(ms, from, to).to_multiset() == ms.to_multiset(),
        moved(ms, from, to).len() == ms.len(),
{
    let rest = ms.remove(from);
    let at = if to < rest.len() {
        to
    } else {
        rest.len() as int
    };
    vstd::seq_lib::to_multiset_remove(ms, from);
    vstd::seq_lib::to_multiset_insert(rest, at, ms[from]);
    vstd::seq_lib::to_multiset_contains(ms, ms[from]);
    assert(ms.to_multiset().remove(ms[from]).insert(ms[from]) =~= ms.to_multiset()) by {
        broadcast use vstd::multiset::group_multiset_axioms;
    }
}

proof fn lemma_count_first(ms: Seq<MilestoneView>, title: Seq<char>)
    ensures
        (count_titled(ms, title) == 0) <==> first_titled(ms, title) is None,
        first_titled(ms, title) matches Some(i) ==> 0 <= i < ms.len() && ms[i].1 == title,
        count_titled(ms, title) == 0 <==> !taken_by_other(ms, title, None),
        count_titled(ms, title) == 1 ==> (first_titled(ms, title) matches Some(i) && !taken_by_other(
            ms,
            title,
            Some(i),
        )),
        count_titled(ms, title) >= 2 ==> (first_titled(ms, title) matches Some(i) && taken_by_other(
            ms,
            title,
            Some(i),
        )),
    decreases ms.len(),
{
    if ms.len() > 0 {
        let init = ms.drop_last();
        lemma_count_first(init, title);
        assert forall|i: int| 0 <= i < init.len() implies init[i] == ms[i] by {}
        if count_titled(init, title) == 0 {
            assert(!taken_by_other(init, title, None));
            if ms.last().1 == title {
                assert(ms[ms.len() - 1].1 == title);
            } else {
                assert forall|i: int| 0 <= i < ms.len() implies (#[trigger] ms[i]).1 != title by {
                    if i < init.len() {
                        assert(ms[i] == init[i]);
                        assert(!(0 <= i < init.len() && init[i].1 == title && None::<int> != Some(i)));
                    }
                }
            }
        } else {
            let f = first_titled(init, title)->0;
            assert(ms[f] == init[f]);
            if count_titled(init, title) == 1 {
                if ms.last().1 == title {
                    assert(ms[ms.len() - 1].1 == title);
                    assert(taken_by_other(ms, title, Some(f)));
                } else {
                    assert forall|i: int| 0 <= i < ms.len() && (#[trigger] ms[i]).1 == title implies i == f by {
                        if i < init.len() {
                            assert(ms[i] == init[i]);
                            if i != f {
                                assert(taken_by_other(init, title, Some(f)));
                            }
                        }
                    }
                }
            } else {
                let w = choose|i: int| 0 <= i < init.len() && (#[trigger] init[i]).1 == title && Some(f) != Some(i);
                assert(ms[w] == init[w]);
                assert(taken_by_other(ms, title, Some(f)));
            }
        }
    }
}

/// What [`Project::update_milestone`] may change about one milestone. Every
/// field omitted leaves it as it was.
#[derive(Debug, PartialEq, Eq)]
pub struct MilestoneEdit {
    pub done: Option<bool>,
    pub title: Option<String>,
    pub position: Option<usize>,
}

impl MilestoneEdit {
    /// An edit that changes nothing.
    pub fn none() -> (edit: Self)
        ensures
            edit.done is None && edit.title is None && edit.position is None,
    {
        MilestoneEdit { done: None, title: None, position: None }
    }
}

} // verus!

verus! {

pub open spec fn milestones_title() -> Seq<char> {
    seq!['M', 'i', 'l', 'e', 's', 't', 'o', 'n', 'e', 's']
}

/// Everything a project holds besides its document.
pub struct ProjectView {
    pub slug: Seq<char>,
    pub name: Seq<char>,
    pub color: Option<Seq<char>>,
    pub mark: Mark,
    /// Minutes a week, or no target.
    pub target: Option<nat>,
    pub status: ProjectStatus,
    pub created: Option<(int, int, int)>,
    pub milestones: Seq<MilestoneView>,
    /// Milestone lines that did not read, kept and written back.
    pub unparsed: Seq<Seq<char>>,
    /// The line numbers of those lines, and the rule each broke.
    pub problems: Seq<nat>,
    pub problem_kinds: Seq<ParseErrorKind>,
}

pub open spec fn color_view(c: Option<Color>) -> Option<Seq<char>> {
    match c {
        Some(color) => Some(color@),
        None => None,
    }
}

pub open spec fn date_view(d: Option<CalendarDate>) -> Option<(int, int, int)> {
    match d {
        Some(date) => Some(date@),
        None => None,
    }
}

/// A project, with its prose body and any agent-authored frontmatter intact.
#[derive(Debug)]
pub struct Project {
    slug: ProjectSlug,
    pub name: String,
    pub color: Option<Color>,
    pub mark: Mark,
    /// Time to spend on this project each week, or `None` for no target.
    pub target: Option<Minutes>,
    pub status: ProjectStatus,
    pub created: Option<CalendarDate>,
    pub milestones: Vec<Milestone>,
    unparsed_milestones: Vec<String>,
    problems: Vec<ParseError>,
    document: Document,
}

impl View for Project {
    type V = ProjectView;

    closed spec fn view(&self) -> ProjectView {
        ProjectView {
            slug: self.slug@,
            name: self.name@,
            color: color_view(self.color),
            mark: self.mark,
            target: crate::grammar::lead_view(self.target),
            status: self.status,
            created: date_view(self.created),
            milestones: milestones_view(self.milestones@),
            unparsed: strings_view(self.unparsed_milestones@),
            problems: problem_lines(self.problems@),
            problem_kinds: problem_kinds(self.problems@),
        }
    }
}

fn text_of(chars: &[char]) -> (text: String)
    ensures
        text@ == chars@,
{
    string_of(chars)
}

impl Project {
    pub closed spec fn document(self) -> Document {
        self.document
    }

    pub fn slug(&self) -> (slug: &ProjectSlug)
        ensures
            slug@ == self@.slug,
    {
        &self.slug
    }

    /// Milestone lines the app could not read.
    pub fn problems(&self) -> (problems: &[ParseError])
        ensures
            problem_lines(problems@) == self@.problems,
            problem_kinds(problems@) == self@.problem_kinds,
    {
        self.problems.as_slice()
    }

    fn titled(&self, title: &[char]) -> (found: (usize, Option<usize>))
        ensures
            found.0 == count_titled(self@.milestones, title@),
            match found.1 {
                Some(i) => first_titled(self@.milestones, title@) == Some(i as int),
                None => first_titled(self@.milestones, title@) is None,
            },
    {
        let ghost ms = self@.milestones;
        let mut count: usize = 0;
        let mut first: Option<usize> = None;
        let mut k: usize = 0;
        while k < self.milestones.len()
            invariant
                k <= self.milestones@.len(),
                ms == milestones_view(self.milestones@),
                count == count_titled(ms.subrange(0, k as int), title@),
                count <= k,
                match first {
                    Some(i) => first_titled(ms.subrange(0, k as int), title@) == Some(i as int),
                    None => first_titled(ms.subrange(0, k as int), title@) is None,
                },
            decreases self.milestones.len() - k,
        {
            proof {
                assert(ms.subrange(0, k + 1).drop_last() =~= ms.subrange(0, k as int));
            }
            let name = chars_of(self.milestones[k].title());
            if same(&name, title) {
                count = count + 1;
                if first.is_none() {
                    first = Some(k);
                }
            }
            k = k + 1;
        }
        assert(ms.subrange(0, ms.len() as int) =~= ms);
        (count, first)
    }

    /// The position of the one milestone carrying this title, trimmed.
    ///
    /// Reads are lenient, so a file may carry a title twice; addressing such a
    /// title is refused rather than resolved by picking one.
    pub fn milestone_titled(&self, title: &str) -> (result: Result<usize, Error>)
        ensures
            ({
                let t = trim(title@);
                match result {
                    Ok(i) => count_titled(self@.milestones, t) == 1 && first_titled(self@.milestones, t) == Some(
                        i as int,
                    ),
                    Err(e) => {
                        ||| {
                            &&& count_titled(self@.milestones, t) == 0
                            &&& e matches Error::NoSuchMilestone { project, title }
                            &&& project@ == self@.slug
                            &&& title@ == t
                        }
                        ||| {
                            &&& count_titled(self@.milestones, t) >= 2
                            &&& e matches Error::AmbiguousMilestone { project, title, count }
                            &&& project@ == self@.slug
                            &&& title@ == t
                            &&& count == count_titled(self@.milestones, t)
                        }
                    },
                }
            }),
    {
        let t = trimmed(&chars_of(title));
        let (count, first) = self.titled(&t);
        proof {
            lemma_count_first(self@.milestones, t@);
        }
        if count == 1 {
            match first {
                Some(i) => Ok(i),
                None => Ok(0),
            }
        } else if count == 0 {
            Err(Error::NoSuchMilestone { project: self.slug.as_str().to_owned(), title: text_of(&t) })
        } else {
            Err(Error::AmbiguousMilestone { project: self.slug.as_str().to_owned(), title: text_of(&t), count })
        }
    }

    fn taken(&self, title: &[char], except: Option<usize>) -> (taken: bool)
        ensures
            taken == taken_by_other(self@.milestones, title@, match except {
                Some(i) => Some(i as int),
                None => None,
            }),
    {
        let ghost ms = self@.milestones;
        let ghost ex = match except {
            Some(i) => Some(i as int),
            None => None::<int>,
        };
        let mut k: usize = 0;
        while k < self.milestones.len()
            invariant
                k <= self.milestones@.len(),
                ms == milestones_view(self.milestones@),
                ex == match except {
                    Some(i) => Some(i as int),
                    None => None::<int>,
                },
                forall|i: int| 0 <= i < k ==> !((#[trigger] ms[i]).1 == title@ && ex != Some(i)),
            decreases self.milestones.len() - k,
        {
            let name = chars_of(self.milestones[k].title());
            assert(name@ == ms[k as int].1);
            let here = match except {
                Some(i) => i == k,
                None => false,
            };
            if same(&name, title) && !here {
                assert(ms[k as int].1 == title@ && ex != Some(k as int));
                return true;
            }
            k = k + 1;
        }
        false
    }

    /// Adds a milestone at `position`, or last when `position` is past the
    /// end, returning where it landed. A title another milestone carries is
    /// refused, and a refusal changes nothing.
    pub fn insert_milestone(&mut self, position: usize, milestone: Milestone) -> (result: Result<usize, Error>)
        ensures
            match result {
                Ok(at) => !taken_by_other(old(self)@.milestones, milestone@.1, None) && at == (if position
                    <= old(self)@.milestones.len() {
                    position as int
                } else {
                    old(self)@.milestones.len() as int
                }) && final(self)@ == (ProjectView {
                    milestones: old(self)@.milestones.insert(at as int, milestone@),
                    ..old(self)@
                }),
                Err(e) => taken_by_other(old(self)@.milestones, milestone@.1, None) && e is DuplicateMilestone
                    && final(self)@ == old(self)@,
            },
            final(self).document() == old(self).document(),
    {
        let title = chars_of(milestone.title());
        if self.taken(&title, None) {
            return Err(Error::DuplicateMilestone { project: self.slug.as_str().to_owned(), title: text_of(&title) });
        }
        let at = if position <= self.milestones.len() {
            position
        } else {
            self.milestones.len()
        };
        let ghost before = self@.milestones;
        self.milestones.insert(at, milestone);
        assert(milestones_view(self.milestones@) =~= before.insert(at as int, milestone@));
        Ok(at)
    }

    /// Removes the milestone carrying `title`, giving it back.
    pub fn remove_milestone(&mut self, title: &str) -> (result: Result<Milestone, Error>)
        ensures
            ({
                let t = trim(title@);
                match result {
                    Ok(m) => {
                        &&& count_titled(old(self)@.milestones, t) == 1
                        &&& first_titled(old(self)@.milestones, t) matches Some(i)
                        &&& m@ == old(self)@.milestones[i]
                        &&& final(self)@ == (ProjectView { milestones: old(self)@.milestones.remove(i), ..old(self)@ })
                    },
                    Err(e) => count_titled(old(self)@.milestones, t) != 1 && final(self)@ == old(self)@,
                }
            }),
            final(self).document() == old(self).document(),
    {
        let index = match self.milestone_titled(title) {
            Ok(i) => i,
            Err(e) => return Err(e),
        };
        proof {
            lemma_count_first(self@.milestones, trim(title@));
        }
        let ghost before = self@.milestones;
        let removed = self.milestones.remove(index);
        assert(milestones_view(self.milestones@) =~= before.remove(index as int));
        Ok(removed)
    }

    /// Replaces the whole list, refusing one that carries a title twice.
    pub fn set_milestones(&mut self, milestones: Vec<Milestone>) -> (result: Result<(), Error>)
        ensures
            match result {
                Ok(()) => distinct_titles(milestones_view(milestones@)) && final(self)@ == (ProjectView {
                    milestones: milestones_view(milestones@),
                    ..old(self)@
                }),
                Err(e) => !distinct_titles(milestones_view(milestones@)) && e is DuplicateMilestone
                    && final(self)@ == old(self)@,
            },
            final(self).document() == old(self).document(),
    {
        let ghost ms = milestones_view(milestones@);
        let mut j: usize = 0;
        while j < milestones.len()
            invariant
                j <= milestones@.len(),
                ms == milestones_view(milestones@),
                forall|a: int, b: int| 0 <= a < b < j ==> (#[trigger] ms[a]).1 != (#[trigger] ms[b]).1,
            decreases milestones.len() - j,
        {
            let later = chars_of(milestones[j].title());
            let mut i: usize = 0;
            while i < j
                invariant
                    i <= j < milestones@.len(),
                    ms == milestones_view(milestones@),
                    later@ == ms[j as int].1,
                    forall|a: int| 0 <= a < i ==> (#[trigger] ms[a]).1 != ms[j as int].1,
                decreases j - i,
            {
                let earlier = chars_of(milestones[i].title());
                if same(&earlier, &later) {
                    assert(ms[i as int].1 == ms[j as int].1);
                    return Err(Error::DuplicateMilestone { project: self.slug.as_str().to_owned(), title: text_of(&earlier) });
                }
                i = i + 1;
            }
            j = j + 1;
        }
        self.milestones = milestones;
        Ok(())
    }

    /// Retitles the milestone at `index`, through the same gate as
    /// [`Milestone::new`], keeping its tick. A title another milestone
    /// carries is refused, and a refusal changes nothing.
    pub fn rename_milestone(&mut self, index: usize, title: &str) -> (result: Result<(), Error>)
        ensures
            match result {
                Ok(()) => {
                    &&& index < old(self)@.milestones.len()
                    &&& milestone_title_of(title@) matches Some(t)
                    &&& !taken_by_other(old(self)@.milestones, t, Some(index as int))
                    &&& final(self)@ == (ProjectView {
                        milestones: old(self)@.milestones.update(index as int, (old(self)@.milestones[index as int].0, t)),
                        ..old(self)@
                    })
                },
                Err(e) => final(self)@ == old(self)@ && (if index >= old(self)@.milestones.len() {
                    e is NoMilestoneAt
                } else if milestone_title_of(title@) is None {
                    e is Grammar
                } else {
                    e is DuplicateMilestone && taken_by_other(
                        old(self)@.milestones,
                        milestone_title_of(title@)->0,
                        Some(index as int),
                    )
                }),
            },
            final(self).document() == old(self).document(),
    {
        if index >= self.milestones.len() {
            return Err(Error::NoMilestoneAt { project: self.slug.as_str().to_owned(), index });
        }
        let done = self.milestones[index].done;
        let renamed = match Milestone::new(done, title) {
            Ok(m) => m,
            Err(kind) => return Err(Error::Grammar(kind)),
        };
        let name = chars_of(renamed.title());
        if self.taken(&name, Some(index)) {
            return Err(Error::DuplicateMilestone { project: self.slug.as_str().to_owned(), title: text_of(&name) });
        }
        let ghost before = self@.milestones;
        self.milestones.set(index, renamed);
        assert(milestones_view(self.milestones@) =~= before.update(index as int, (before[index as int].0, renamed@.1)));
        Ok(())
    }

    /// Moves the milestone at `from` to sit at `to` in the resulting list,
    /// last when `to` is past its end, returning where it landed; `None` when
    /// `from` names nothing.
    pub fn move_milestone(&mut self, from: usize, to: usize) -> (landed: Option<usize>)
        ensures
            match landed {
                Some(at) => from < old(self)@.milestones.len() && at == (if to < old(self)@.milestones.len() - 1 {
                    to as int
                } else {
                    old(self)@.milestones.len() - 1
                }) && final(self)@ == (ProjectView {
                    milestones: moved(old(self)@.milestones, from as int, to as int),
                    ..old(self)@
                }),
                None => from >= old(self)@.milestones.len() && final(self)@ == old(self)@,
            },
            final(self).document() == old(self).document(),
    {
        if from >= self.milestones.len() {
            return None;
        }
        let ghost before = self@.milestones;
        let milestone = self.milestones.remove(from);
        let at = if to < self.milestones.len() {
            to
        } else {
            self.milestones.len()
        };
        self.milestones.insert(at, milestone);
        assert(milestones_view(self.milestones@) =~= moved(before, from as int, to as int));
        Some(at)
    }

    /// Retitles, ticks and moves the milestone carrying `title`, in that
    /// order, returning where it ended up. The rename goes first because it
    /// is the only step that can refuse, and a refusal leaves everything as
    /// it was; `position` is read against the list after the rename.
    pub fn update_milestone(&mut self, title: &str, edit: MilestoneEdit) -> (result: Result<usize, Error>)
        ensures
            ({
                let ms = old(self)@.milestones;
                let t = trim(title@);
                match result {
                    Ok(at) => {
                        &&& count_titled(ms, t) == 1
                        &&& first_titled(ms, t) matches Some(i)
                        &&& {
                        let new_title = match edit.title {
                            Some(n) => milestone_title_of(n@)->0,
                            None => ms[i].1,
                        };
                        let new_done = match edit.done {
                            Some(d) => d,
                            None => ms[i].0,
                        };
                        let edited = ms.update(i, (new_done, new_title));
                        &&& (edit.title matches Some(n) ==> milestone_title_of(n@) is Some && !taken_by_other(
                            ms,
                            new_title,
                            Some(i),
                        ))
                        &&& match edit.position {
                            Some(p) => final(self)@ == (ProjectView { milestones: moved(edited, i, p as int), ..old(self)@ })
                                && at == (if p < ms.len() - 1 {
                                p as int
                            } else {
                                ms.len() - 1
                            }),
                            None => final(self)@ == (ProjectView { milestones: edited, ..old(self)@ }) && at == i,
                        }
                        }
                    },
                    Err(e) => {
                        &&& final(self)@ == old(self)@
                        &&& {
                            ||| count_titled(ms, t) == 0 && e is NoSuchMilestone
                            ||| count_titled(ms, t) >= 2 && e is AmbiguousMilestone
                            ||| {
                                &&& count_titled(ms, t) == 1
                                &&& first_titled(ms, t) matches Some(i)
                                &&& edit.title matches Some(n)
                                &&& match milestone_title_of(n@) {
                                    None => e is Grammar,
                                    Some(nt) => taken_by_other(ms, nt, Some(i)) && e is DuplicateMilestone,
                                }
                            }
                        }
                    },
                }
            }),
            final(self).document() == old(self).document(),
    {
        let index = match self.milestone_titled(title) {
            Ok(i) => i,
            Err(e) => return Err(e),
        };
        proof {
            lemma_count_first(self@.milestones, trim(title@));
        }
        let ghost ms = self@.milestones;
        let ghost i = index as int;
        let ghost new_title = if edit.title is Some {
            milestone_title_of(edit.title->0@)->0
        } else {
            ms[i].1
        };
        let ghost new_done = match edit.done {
            Some(d) => d,
            None => ms[i].0,
        };
        match &edit.title {
            Some(n) => {
                match self.rename_milestone(index, n.as_str()) {
                    Ok(()) => {},
                    Err(e) => return Err(e),
                }
            },
            None => {},
        }
        assert(self@.milestones =~= ms.update(i, (ms[i].0, new_title)));
        if let Some(done) = edit.done {
            let ghost before = self@.milestones;
            let mut m = self.milestones.remove(index);
            proof {
                use_type_invariant(&m);
            }
            m.done = done;
            self.milestones.insert(index, m);
            assert(milestones_view(self.milestones@) =~= before.update(i, (done, before[i].1)));
        }
        assert(self@.milestones =~= ms.update(i, (new_done, new_title)));
        match edit.position {
            Some(position) => {
                match self.move_milestone(index, position) {
                    Some(at) => Ok(at),
                    None => Ok(index),
                }
            },
            None => Ok(index),
        }
    }
}

} // verus!

verus! {

/// The frontmatter keys a project file writes; every other key is the
/// user's and is written back as it was.
pub open spec fn project_keys() -> Set<Seq<char>> {
    set![name_key(), color_key(), mark_key(), target_key(), status_key(), created_key()]
}

pub open spec fn name_key() -> Seq<char> {
    seq!['n', 'a', 'm', 'e']
}

pub open spec fn color_key() -> Seq<char> {
    seq!['c', 'o', 'l', 'o', 'r']
}

pub open spec fn mark_key() -> Seq<char> {
    seq!['m', 'a', 'r', 'k']
}

pub open spec fn target_key() -> Seq<char> {
    seq!['t', 'a', 'r', 'g', 'e', 't']
}

pub open spec fn status_key() -> Seq<char> {
    seq!['s', 't', 'a', 't', 'u', 's']
}

pub open spec fn created_key() -> Seq<char> {
    seq!['c', 'r', 'e', 'a', 't', 'e', 'd']
}

fn key_of(chars: &[char]) -> (key: String)
    ensures
        key@ == chars@,
{
    string_of(chars)
}

/// What a frontmatter value names as a mark, falling back to a square.
pub open spec fn mark_read(raw: Option<Seq<char>>) -> Mark {
    match raw {
        Some(r) => if r == mark_word(Mark::Circle) {
            Mark::Circle
        } else if r == mark_word(Mark::Triangle) {
            Mark::Triangle
        } else if r == mark_word(Mark::Diamond) {
            Mark::Diamond
        } else if r == mark_word(Mark::Bar) {
            Mark::Bar
        } else {
            Mark::Square
        },
        None => Mark::Square,
    }
}

pub open spec fn status_read(raw: Option<Seq<char>>) -> ProjectStatus {
    match raw {
        Some(r) => if r == status_word(ProjectStatus::Archived) {
            ProjectStatus::Archived
        } else {
            ProjectStatus::Active
        },
        None => ProjectStatus::Active,
    }
}

pub open spec fn value_of(t: Map<Seq<char>, Seq<char>>, key: Seq<char>) -> Option<Seq<char>> {
    if t.contains_key(key) {
        Some(t[key])
    } else {
        None
    }
}

/// The project a file's frontmatter describes, leniently: an unreadable
/// value falls back to its default rather than failing the file.
pub open spec fn project_fields_read(slug: Seq<char>, t: Map<Seq<char>, Seq<char>>, v: ProjectView) -> bool {
    &&& v.slug == slug
    &&& v.name == (match value_of(t, name_key()) {
        Some(n) => n,
        None => slug,
    })
    &&& v.color == (match value_of(t, color_key()) {
        Some(c) => if is_color(c) {
            Some(crate::text::lower_all(c))
        } else {
            None
        },
        None => None,
    })
    &&& v.mark == mark_read(value_of(t, mark_key()))
    &&& v.target == (match value_of(t, target_key()) {
        Some(raw) => match crate::minutes::duration_value(raw) {
            Some(n) => if n <= u32::MAX {
                Some(n)
            } else {
                None
            },
            None => None,
        },
        None => None,
    })
    &&& v.status == status_read(value_of(t, status_key()))
    &&& v.created == (match value_of(t, created_key()) {
        Some(raw) => crate::grammar::date_value(raw),
        None => None,
    })
}

/// The frontmatter text keys a project writes over those it carries.
pub open spec fn project_front_text(t: Map<Seq<char>, Seq<char>>, v: ProjectView) -> Map<Seq<char>, Seq<char>> {
    let t1 = t.insert(name_key(), v.name);
    let t2 = match v.color {
        Some(c) => t1.insert(color_key(), c),
        None => t1.remove(color_key()),
    };
    let t3 = t2.insert(mark_key(), mark_word(v.mark));
    let t4 = match v.target {
        Some(n) => t3.insert(target_key(), crate::minutes::canonical(n)),
        None => t3.remove(target_key()),
    };
    let t5 = t4.insert(status_key(), status_word(v.status));
    match v.created {
        Some(d) => t5.insert(created_key(), crate::grammar::date_text(d)),
        None => t5.remove(created_key()),
    }
}

pub open spec fn project_front_count(c: Map<Seq<char>, nat>) -> Map<Seq<char>, nat> {
    c.remove(name_key()).remove(color_key()).remove(mark_key()).remove(target_key()).remove(status_key()).remove(
        created_key(),
    )
}

impl Project {
    /// A new project with a `# Name` title, no milestones and today's date.
    pub fn new(slug: ProjectSlug, name: &str, created: CalendarDate) -> (project: Self)
        ensures
            project@ == (ProjectView {
                slug: slug@,
                name: name@,
                color: None,
                mark: Mark::Square,
                target: None,
                status: ProjectStatus::Active,
                created: Some(created@),
                milestones: Seq::empty(),
                unparsed: Seq::empty(),
                problems: Seq::empty(),
                problem_kinds: Seq::empty(),
            }),
            project.document().preamble_lines() == seq![
                Seq::<char>::empty(),
                seq!['#', ' '] + name@,
                Seq::<char>::empty(),
            ],
            project.document().section_list().len() == 0,
            project.document().has_front(),
            front_text(project.document().front()).is_empty(),
            front_count(project.document().front()).is_empty(),
    {
        let mut document = Document::new();
        let mut title: Vec<char> = Vec::new();
        title.push('#');
        title.push(' ');
        append(&mut title, &chars_of(name));
        assert(title@ =~= seq!['#', ' '] + name@);
        let blank_before = String::new();
        let heading = string_of(&title);
        let blank_after = String::new();
        let mut preamble: Vec<String> = Vec::new();
        preamble.push(blank_before);
        preamble.push(heading);
        preamble.push(blank_after);
        assert(strings_view(preamble@) =~= seq![Seq::<char>::empty(), seq!['#', ' '] + name@, Seq::<char>::empty()]);
        document.set_preamble(preamble);
        let project = Project {
            slug,
            name: name.to_owned(),
            color: None,
            mark: Mark::Square,
            target: None,
            status: ProjectStatus::Active,
            created: Some(created),
            milestones: Vec::new(),
            unparsed_milestones: Vec::new(),
            problems: Vec::new(),
            document,
        };
        assert(project@.milestones =~= Seq::<MilestoneView>::empty());
        assert(project@.unparsed =~= Seq::<Seq<char>>::empty());
        assert(project@.problems =~= Seq::<nat>::empty());
        assert(project@.problem_kinds =~= Seq::<ParseErrorKind>::empty());
        project
    }

    /// Reads a project file. Only a malformed frontmatter block fails;
    /// unreadable values fall back to their defaults.
    pub fn parse(slug: ProjectSlug, text: &str) -> (result: Result<Self, Error>)
        ensures
            match result {
                Ok(p) => {
                    let milestones = read_entries::<Milestone>(section_content(p.document().section_list(), milestones_title()));
                    &&& reads_document(text@, p.document())
                    &&& project_fields_read(slug@, front_text(p.document().front()), p@)
                    &&& p@.milestones == milestones.0
                    &&& p@.unparsed == milestones.1
                    &&& p@.problems == milestones.2
                    &&& p@.problem_kinds.len() == p@.problems.len()
                    &&& forall|i: int|
                        0 <= i < p@.unparsed.len() ==> line_refusal::<Milestone>(
                            #[trigger] p@.unparsed[i],
                            p@.problem_kinds[i],
                        )
                },
                Err(e) => refuses_document(text@, e),
            },
    {
        let document = match Document::parse(text) {
            Ok(d) => d,
            Err(e) => return Err(e),
        };
        let mut problems: Vec<ParseError> = Vec::new();
        let section: [char; 10] = ['M', 'i', 'l', 'e', 's', 't', 'o', 'n', 'e', 's'];
        assert(section@ =~= milestones_title());
        let (milestones, unparsed_milestones) = document.parse_list_section::<Milestone>(key_of(&section).as_str(), &mut problems);
        let k_name: [char; 4] = ['n', 'a', 'm', 'e'];
        let k_color: [char; 5] = ['c', 'o', 'l', 'o', 'r'];
        let k_mark: [char; 4] = ['m', 'a', 'r', 'k'];
        let k_target: [char; 6] = ['t', 'a', 'r', 'g', 'e', 't'];
        let k_status: [char; 6] = ['s', 't', 'a', 't', 'u', 's'];
        let k_created: [char; 7] = ['c', 'r', 'e', 'a', 't', 'e', 'd'];
        proof {
            assert(k_name@ =~= name_key());
            assert(k_color@ =~= color_key());
            assert(k_mark@ =~= mark_key());
            assert(k_target@ =~= target_key());
            assert(k_status@ =~= status_key());
            assert(k_created@ =~= created_key());
        }
        let name = match document.front_text_value(key_of(&k_name).as_str()) {
            Some(n) => n,
            None => slug.as_str().to_owned(),
        };
        let color = match document.front_text_value(key_of(&k_color).as_str()) {
            Some(raw) => match Color::new(raw.as_str()) {
                Ok(c) => Some(c),
                Err(_) => None,
            },
            None => None,
        };
        let mark = match document.front_text_value(key_of(&k_mark).as_str()) {
            Some(raw) => match Mark::parse(raw.as_str()) {
                Ok(m) => {
                    proof {
                        match m {
                            Mark::Square => { assert(mark_word(m) != mark_word(Mark::Circle)); assert(mark_word(m) != mark_word(Mark::Triangle)); assert(mark_word(m) != mark_word(Mark::Diamond)); assert(mark_word(m) != mark_word(Mark::Bar)); },
                            Mark::Circle => {},
                            Mark::Triangle => { assert(mark_word(m) != mark_word(Mark::Circle)); },
                            Mark::Diamond => { assert(mark_word(m) != mark_word(Mark::Circle)); assert(mark_word(m) != mark_word(Mark::Triangle)); },
                            Mark::Bar => { assert(mark_word(m) != mark_word(Mark::Circle)); assert(mark_word(m) != mark_word(Mark::Triangle)); assert(mark_word(m) != mark_word(Mark::Diamond)); },
                        }
                    }
                    m
                },
                Err(_) => {
                    proof {
                        assert(mark_word(Mark::Circle) != raw@);
                        assert(mark_word(Mark::Triangle) != raw@);
                        assert(mark_word(Mark::Diamond) != raw@);
                        assert(mark_word(Mark::Bar) != raw@);
                    }
                    Mark::Square
                },
            },
            None => Mark::Square,
        };
        let target = match document.front_text_value(key_of(&k_target).as_str()) {
            Some(raw) => match Minutes::parse(raw.as_str()) {
                Ok(m) => Some(m),
                Err(_) => {
                    proof {
                        if crate::minutes::duration_value(raw@) is Some {
                            let n = crate::minutes::duration_value(raw@)->0;
                            assert(!crate::minutes::reads_as(raw@, n));
                        }
                    }
                    None
                },
            },
            None => None,
        };
        let status = match document.front_text_value(key_of(&k_status).as_str()) {
            Some(raw) => match ProjectStatus::parse(raw.as_str()) {
                Ok(s) => {
                    proof {
                        if s == ProjectStatus::Active {
                            assert(status_word(s) != status_word(ProjectStatus::Archived));
                        }
                    }
                    s
                },
                Err(_) => {
                    proof {
                        assert(status_word(ProjectStatus::Archived) != raw@);
                    }
                    ProjectStatus::Active
                },
            },
            None => ProjectStatus::Active,
        };
        let created = match document.front_text_value(key_of(&k_created).as_str()) {
            Some(raw) => match crate::grammar::date(raw.as_str()) {
                Ok(d) => Some(d),
                Err(_) => None,
            },
            None => None,
        };
        let project = Project {
            slug,
            name,
            color,
            mark,
            target,
            status,
            created,
            milestones,
            unparsed_milestones,
            problems,
            document,
        };
        proof {
            assert(crate::list::views_of(project.milestones@) =~= milestones_view(project.milestones@));
            assert(problem_lines(Seq::<ParseError>::empty()) =~= Seq::<nat>::empty());
            assert(Seq::<nat>::empty() + read_entries::<Milestone>(section_content(project.document().section_list(), milestones_title())).2
                =~= read_entries::<Milestone>(section_content(project.document().section_list(), milestones_title())).2);
        }
        Ok(project)
    }

    /// The sections the project writes: its document's, with the milestone
    /// list replaced.
    pub open spec fn written_sections(self) -> Seq<(Seq<char>, Seq<Seq<char>>)> {
        upserted(
            self.document().section_list(),
            milestones_title(),
            written_lines::<Milestone>(self@.milestones, self@.unparsed),
            Seq::empty(),
        )
    }

    /// Writes the fields into the frontmatter and the milestones into their
    /// section, keeping every other key, the prose and any other section.
    pub fn render(&self) -> (text: String)
        ensures
            exists|written: Document| #![auto]
                front_text(written.front()) == project_front_text(front_text(self.document().front()), self@)
                    && front_count(written.front()) == project_front_count(front_count(self.document().front()))
                    && written.preamble_lines() == self.document().preamble_lines()
                    && written.section_list() == self.written_sections()
                    && written.has_front() == self.document().has_front() && text@ == written.text()
                    && front_others(written.front(), project_keys()) == front_others(
                    self.document().front(),
                    project_keys(),
                ),
    {
        let mut document = self.document.copy();
        let k_name: [char; 4] = ['n', 'a', 'm', 'e'];
        let k_color: [char; 5] = ['c', 'o', 'l', 'o', 'r'];
        let k_mark: [char; 4] = ['m', 'a', 'r', 'k'];
        let k_target: [char; 6] = ['t', 'a', 'r', 'g', 'e', 't'];
        let k_status: [char; 6] = ['s', 't', 'a', 't', 'u', 's'];
        let k_created: [char; 7] = ['c', 'r', 'e', 'a', 't', 'e', 'd'];
        proof {
            assert(k_name@ =~= name_key());
            assert(k_color@ =~= color_key());
            assert(k_mark@ =~= mark_key());
            assert(k_target@ =~= target_key());
            assert(k_status@ =~= status_key());
            assert(k_created@ =~= created_key());
        }
        let ghost t0 = front_text(document.front());
        let ghost c0 = front_count(document.front());
        let ghost keys = project_keys();
        let ghost f0 = document.front();
        document.set_front_text(key_of(&k_name).as_str(), self.name.as_str());
        let ghost f1 = document.front();
        match &self.color {
            Some(c) => document.set_front_text(key_of(&k_color).as_str(), c.as_str()),
            None => document.remove_front_key(key_of(&k_color).as_str()),
        }
        let ghost f2 = document.front();
        document.set_front_text(key_of(&k_mark).as_str(), self.mark.render().as_str());
        let ghost f3 = document.front();
        match self.target {
            Some(m) => document.set_front_text(key_of(&k_target).as_str(), m.render().as_str()),
            None => document.remove_front_key(key_of(&k_target).as_str()),
        }
        let ghost f4 = document.front();
        document.set_front_text(key_of(&k_status).as_str(), self.status.render().as_str());
        let ghost f5 = document.front();
        match self.created {
            Some(d) => document.set_front_text(key_of(&k_created).as_str(), crate::grammar::format_date(d).as_str()),
            None => document.remove_front_key(key_of(&k_created).as_str()),
        }
        proof {
            lemma_others_agree(f0, f1, name_key(), keys);
            assert(front_entries(f2).remove((true, color_key())) =~= front_entries(f1).remove((true, color_key())));
            lemma_others_agree(f1, f2, color_key(), keys);
            lemma_others_agree(f2, f3, mark_key(), keys);
            assert(front_entries(f4).remove((true, target_key())) =~= front_entries(f3).remove((true, target_key())));
            lemma_others_agree(f3, f4, target_key(), keys);
            lemma_others_agree(f4, f5, status_key(), keys);
            assert(front_entries(document.front()).remove((true, created_key())) =~= front_entries(f5).remove((true, created_key())));
            lemma_others_agree(f5, document.front(), created_key(), keys);
        }
        proof {
            assert(front_text(document.front()) =~= project_front_text(t0, self@));
            assert(front_count(document.front()) =~= project_front_count(c0));
        }
        let section: [char; 10] = ['M', 'i', 'l', 'e', 's', 't', 'o', 'n', 'e', 's'];
        assert(section@ =~= milestones_title());
        let none: [&str; 0] = [];
        assert(crate::document::strs_view(none@) =~= Seq::<Seq<char>>::empty());
        assert(crate::list::views_of(self.milestones@) =~= milestones_view(self.milestones@));
        document.write_list_section::<Milestone>(key_of(&section).as_str(), self.milestones.as_slice(), self.unparsed_milestones.as_slice(), &none);
        document.render()
    }
}

/// What a project starts from before an upsert: the one that exists, else a
/// new one named `name` (or its slug) and created today.
pub open spec fn upsert_base(
    existing: Option<ProjectView>,
    slug: Seq<char>,
    today: (int, int, int),
    name: Option<Seq<char>>,
) -> ProjectView {
    match existing {
        Some(p) => p,
        None => ProjectView {
            slug,
            name: match name {
                Some(n) => n,
                None => slug,
            },
            color: None,
            mark: Mark::Square,
            target: None,
            status: ProjectStatus::Active,
            created: Some(today),
            milestones: Seq::empty(),
            unparsed: Seq::empty(),
            problems: Seq::empty(),
            problem_kinds: Seq::empty(),
        },
    }
}

/// Creates a project, or updates only the fields given on the one that
/// exists: each field given replaces the one there, every other is kept. A
/// milestone list, when given, replaces the whole list, and is refused when
/// two of its milestones share a title.
pub fn upserted_project(
    existing: Option<Project>,
    slug: ProjectSlug,
    today: CalendarDate,
    name: Option<String>,
    color: Option<Color>,
    mark: Option<Mark>,
    target: Option<Minutes>,
    status: Option<ProjectStatus>,
    milestones: Option<Vec<Milestone>>,
) -> (result: Result<Project, Error>)
    ensures
        ({
            let base = upsert_base(
                match existing {
                    Some(p) => Some(p@),
                    None => None,
                },
                slug@,
                today@,
                match name {
                    Some(n) => Some(n@),
                    None => None,
                },
            );
            match result {
                Ok(p) => {
                    &&& milestones matches Some(ms) ==> distinct_titles(milestones_view(ms@))
                    &&& p@ == (ProjectView {
                        name: match name {
                            Some(n) => n@,
                            None => base.name,
                        },
                        color: match color {
                            Some(c) => Some(c@),
                            None => base.color,
                        },
                        mark: match mark {
                            Some(m) => m,
                            None => base.mark,
                        },
                        target: match target {
                            Some(m) => Some(m.0 as nat),
                            None => base.target,
                        },
                        status: match status {
                            Some(s) => s,
                            None => base.status,
                        },
                        milestones: match milestones {
                            Some(ms) => milestones_view(ms@),
                            None => base.milestones,
                        },
                        ..base
                    })
                    &&& existing matches Some(e) ==> p.document() == e.document()
                },
                Err(e) => milestones matches Some(ms) && !distinct_titles(milestones_view(ms@)) && e is DuplicateMilestone,
            }
        }),
{
    let mut project = match existing {
        Some(p) => p,
        None => {
            let first_name = match &name {
                Some(n) => n.clone(),
                None => slug.as_str().to_owned(),
            };
            Project::new(slug, first_name.as_str(), today)
        },
    };
    if let Some(n) = name {
        project.name = n;
    }
    if let Some(c) = color {
        project.color = Some(c);
    }
    if let Some(m) = mark {
        project.mark = m;
    }
    if let Some(t) = target {
        project.target = Some(t);
    }
    if let Some(s) = status {
        project.status = s;
    }
    match milestones {
        Some(ms) => match project.set_milestones(ms) {
            Ok(()) => Ok(project),
            Err(e) => Err(e),
        },
        None => Ok(project),
    }
}

/// The projects' views, in order.
pub open spec fn projects_view(v: Seq<Project>) -> Seq<ProjectView> {
    v.map_values(|p: Project| p@)
}

/// Projects ordered by slug, as the project list shows them.
pub open spec fn by_slug(v: Seq<ProjectView>) -> bool {
    forall|i: int, j: int| 0 <= i < j < v.len() ==> !crate::text::text_less(#[trigger] v[j].slug, #[trigger] v[i].slug)
}

/// The projects, ordered by slug: the same projects, each as often as
/// before.
pub fn sorted_projects(projects: Vec<Project>) -> (sorted: Vec<Project>)
    ensures
        projects_view(sorted@).to_multiset() == projects_view(projects@).to_multiset(),
        by_slug(projects_view(sorted@)),
{
    let ghost all = projects_view(projects@);
    let mut rest = projects;
    let mut out: Vec<Project> = Vec::new();
    proof {
        assert(projects_view(out@) =~= Seq::<ProjectView>::empty());
        broadcast use vstd::multiset::group_multiset_axioms, vstd::seq_lib::group_to_multiset_ensures;
        assert(projects_view(out@).to_multiset().add(projects_view(rest@).to_multiset()) =~= all.to_multiset());
    }
    while rest.len() > 0
        invariant
            by_slug(projects_view(out@)),
            projects_view(out@).to_multiset().add(projects_view(rest@).to_multiset()) == all.to_multiset(),
        decreases rest.len(),
    {
        let ghost before_rest = projects_view(rest@);
        let ghost before_out = projects_view(out@);
        let p = match rest.pop() {
            Some(p) => p,
            None => {
                assert(false);
                return out;
            },
        };
        let ps = chars_of(p.slug().as_str());
        let mut k: usize = 0;
        while k < out.len()
            invariant
                k <= out@.len(),
                projects_view(out@) == before_out,
                ps@ == p@.slug,
                forall|i: int| 0 <= i < k ==> !crate::text::text_less(ps@, #[trigger] before_out[i].slug),
            ensures
                k <= out@.len(),
                projects_view(out@) == before_out,
                forall|i: int| 0 <= i < k ==> !crate::text::text_less(ps@, #[trigger] before_out[i].slug),
                k < out@.len() ==> crate::text::text_less(ps@, before_out[k as int].slug),
            decreases out.len() - k,
        {
            let os = chars_of(out[k].slug().as_str());
            assert(os@ == before_out[k as int].slug);
            if crate::text::less(&ps, &os) {
                break;
            }
            k = k + 1;
        }
        let ghost pv = p@;
        out.insert(k, p);
        proof {
            let now = projects_view(out@);
            assert(now =~= before_out.insert(k as int, pv));
            assert(projects_view(rest@) =~= before_rest.drop_last());
            assert(before_rest =~= projects_view(rest@).push(pv));
            vstd::seq_lib::to_multiset_build(projects_view(rest@), pv);
            vstd::seq_lib::to_multiset_insert(before_out, k as int, pv);
            broadcast use vstd::multiset::group_multiset_axioms;
            assert(now.to_multiset().add(projects_view(rest@).to_multiset()) =~= before_out.to_multiset().add(
                before_rest.to_multiset(),
            ));
            assert forall|i: int, j: int| 0 <= i < j < now.len() implies !crate::text::text_less(
                #[trigger] now[j].slug,
                #[trigger] now[i].slug,
            ) by {
                let kk = k as int;
                if j < kk {
                    assert(now[i] == before_out[i] && now[j] == before_out[j]);
                } else if j == kk {
                    assert(now[i] == before_out[i]);
                } else if i == kk {
                    assert(now[j] == before_out[j - 1]);
                    assert(kk < before_out.len());
                    assert(crate::text::text_less(pv.slug, before_out[kk].slug));
                    crate::report::lemma_text_less_strict(before_out[j - 1].slug, pv.slug, before_out[kk].slug);
                    if j - 1 > kk {
                        assert(!crate::text::text_less(before_out[j - 1].slug, before_out[kk].slug));
                    } else {
                        crate::report::lemma_text_less_strict(pv.slug, before_out[kk].slug, pv.slug);
                    }
                } else if i < kk {
                    assert(now[i] == before_out[i] && now[j] == before_out[j - 1]);
                } else {
                    assert(now[i] == before_out[i - 1] && now[j] == before_out[j - 1]);
                }
            }
        }
    }
    proof {
        assert(projects_view(rest@) =~= Seq::<ProjectView>::empty());
        broadcast use vstd::multiset::group_multiset_axioms, vstd::seq_lib::group_to_multiset_ensures;
        assert(projects_view(out@).to_multiset().add(vstd::multiset::Multiset::<ProjectView>::empty()) =~= projects_view(out@).to_multiset());
    }
    out
}

/// The slug a file in the projects directory stands for: `<slug>.md`, the
/// stem a valid slug; any other file stands for no project.
pub open spec fn file_slug(name: Seq<char>) -> Option<Seq<char>> {
    if name.len() > 3 && name.subrange(name.len() - 3, name.len() as int) == seq!['.', 'm', 'd'] && crate::ids::is_slug(
        name.subrange(0, name.len() - 3),
    ) {
        Some(name.subrange(0, name.len() - 3))
    } else {
        None
    }
}

/// The project a file name stands for, if it is `<slug>.md`.
pub fn project_file_slug(file_name: &str) -> (slug: Option<ProjectSlug>)
    ensures
        match slug {
            Some(s) => file_slug(file_name@) == Some(s@),
            None => file_slug(file_name@) is None,
        },
{
    let name = chars_of(file_name);
    let n = name.len();
    if n <= 3 || name[n - 3] != '.' || name[n - 2] != 'm' || name[n - 1] != 'd' {
        proof {
            if n > 3 {
                let tail = name@.subrange(n - 3, n as int);
                if tail == seq!['.', 'm', 'd'] {
                    assert(tail[0] == name@[n - 3] && tail[1] == name@[n - 2] && tail[2] == name@[n - 1]);
                }
            }
        }
        return None;
    }
    assert(name@.subrange(n - 3, n as int) =~= seq!['.', 'm', 'd']);
    let stem = crate::text::slice(&name, 0, n - 3);
    match ProjectSlug::new(string_of(&stem).as_str()) {
        Ok(s) => Some(s),
        Err(_) => None,
    }
}

} // verus!
