//! The todo list: `data/todos.md`.
//!
//! One global file, in the Obsidian Tasks emoji format, so the same file is
//! editable by hand, by an agent and by Obsidian. Reads accept the signifiers
//! in any order; writes emit one canonical order, which is what makes a
//! second write a no-op.

use vstd::prelude::*;

use crate::clock::{CalendarDate, TimeOfDay};
use crate::error::{Error, ParseErrorKind};
use crate::document::{char_views, split_by};
use crate::grammar::{copy_project, format_wikilink_chars, slug_view, wikilink_chars, date, date_text, date_value, format_date_chars, format_time_chars, time_chars, time_text, time_value, wikilink_parts, wikilink_text};
use crate::ids::{ids_view, is_todo_id, minted_id, ProjectSlug, TodoId};
use crate::document::{reads_document, refuses_document, section_content, strings_view, upserted, Document};
use crate::error::{problem_kinds, problem_lines, ParseError};
use crate::list::{line_refusal, read_entries, views_of, written_lines, ListLine};
use crate::yaml::{front_count, front_text};
use crate::text::{append, chars_of, contains_char, has_prefix, trimmed_end, trimmed_start, first_where, first_whitespace, has_char, joined, lemma_first_where_is, lemma_first_where_none, same, slice, split_on, starts_with, string_of, trim, trim_end, trim_start, trimmed, ws_pred};

verus! {

pub const PRIORITY_HIGHEST: char = '🔺';

pub const PRIORITY_HIGH: char = '⏫';

pub const PRIORITY_MEDIUM: char = '🔼';

pub const PRIORITY_LOW: char = '🔽';

pub const PRIORITY_LOWEST: char = '⏬';

/// A todo's checkbox.
///
/// `Other` exists because the checkbox charset is not ours: Obsidian lets a
/// user define any single character as a status, and a line carrying one must
/// survive a write. An unknown character counts as not yet done.
#[derive(Debug, Clone, Copy, PartialEq, Eq, Structural)]
pub enum TodoStatus {
    Open,
    Done,
    Cancelled,
    Other(char),
}

/// The status a checkbox character stands for.
pub open spec fn status_of_symbol(symbol: char) -> TodoStatus {
    if symbol == ' ' {
        TodoStatus::Open
    } else if symbol == 'x' || symbol == 'X' {
        TodoStatus::Done
    } else if symbol == '-' {
        TodoStatus::Cancelled
    } else {
        TodoStatus::Other(symbol)
    }
}

pub open spec fn status_symbol(status: TodoStatus) -> char {
    match status {
        TodoStatus::Open => ' ',
        TodoStatus::Done => 'x',
        TodoStatus::Cancelled => '-',
        TodoStatus::Other(symbol) => symbol,
    }
}

/// The word a status is written as; an unknown one as its own character.
pub open spec fn status_word(status: TodoStatus) -> Seq<char> {
    match status {
        TodoStatus::Open => seq!['o', 'p', 'e', 'n'],
        TodoStatus::Done => seq!['d', 'o', 'n', 'e'],
        TodoStatus::Cancelled => seq!['c', 'a', 'n', 'c', 'e', 'l', 'l', 'e', 'd'],
        TodoStatus::Other(symbol) => seq![symbol],
    }
}

/// What a status word reads as: `open` or `todo`, `done`, `cancelled`, or a
/// single checkbox character.
pub open spec fn status_read(raw: Seq<char>) -> Option<TodoStatus> {
    if raw == seq!['o', 'p', 'e', 'n'] || raw == seq!['t', 'o', 'd', 'o'] {
        Some(TodoStatus::Open)
    } else if raw == seq!['d', 'o', 'n', 'e'] {
        Some(TodoStatus::Done)
    } else if raw == seq!['c', 'a', 'n', 'c', 'e', 'l', 'l', 'e', 'd'] {
        Some(TodoStatus::Cancelled)
    } else if raw.len() == 1 {
        Some(status_of_symbol(raw[0]))
    } else {
        None
    }
}

/// A status that reads back as itself: a known one, or an unknown character
/// that is not one of the known checkbox characters.
pub open spec fn canonical_status(status: TodoStatus) -> bool {
    match status {
        TodoStatus::Other(symbol) => status_of_symbol(symbol) == status,
        _ => true,
    }
}

fn text_of(chars: &[char]) -> (text: String)
    ensures
        text@ == chars@,
{
    string_of(chars)
}

impl TodoStatus {
    /// The character between the brackets.
    pub fn symbol(self) -> (symbol: char)
        ensures
            symbol == status_symbol(self),
    {
        match self {
            TodoStatus::Open => ' ',
            TodoStatus::Done => 'x',
            TodoStatus::Cancelled => '-',
            TodoStatus::Other(symbol) => symbol,
        }
    }

    /// Whether this todo still wants doing. Cancelled counts as settled.
    pub fn is_open(self) -> (open: bool)
        ensures
            open == !(self is Done || self is Cancelled),
    {
        match self {
            TodoStatus::Done => false,
            TodoStatus::Cancelled => false,
            _ => true,
        }
    }

    pub fn from_symbol(symbol: char) -> (status: Self)
        ensures
            status == status_of_symbol(symbol),
    {
        if symbol == ' ' {
            TodoStatus::Open
        } else if symbol == 'x' || symbol == 'X' {
            TodoStatus::Done
        } else if symbol == '-' {
            TodoStatus::Cancelled
        } else {
            TodoStatus::Other(symbol)
        }
    }

    /// `open`, `done`, `cancelled`, or the unknown character itself.
    pub fn render(self) -> (text: String)
        ensures
            text@ == status_word(self),
    {
        match self {
            TodoStatus::Open => {
                let w: [char; 4] = ['o', 'p', 'e', 'n'];
                assert(w@ =~= status_word(self));
                text_of(&w)
            },
            TodoStatus::Done => {
                let w: [char; 4] = ['d', 'o', 'n', 'e'];
                assert(w@ =~= status_word(self));
                text_of(&w)
            },
            TodoStatus::Cancelled => {
                let w: [char; 9] = ['c', 'a', 'n', 'c', 'e', 'l', 'l', 'e', 'd'];
                assert(w@ =~= status_word(self));
                text_of(&w)
            },
            TodoStatus::Other(symbol) => {
                let w: [char; 1] = [symbol];
                assert(w@ =~= status_word(self));
                text_of(&w)
            },
        }
    }

    /// Reads a status word or a single checkbox character.
    pub fn parse(raw: &str) -> (result: Result<Self, Error>)
        ensures
            match result {
                Ok(status) => status_read(raw@) == Some(status),
                Err(e) => status_read(raw@) is None && e is UnknownWord && e->found@ == raw@,
            },
    {
        let chars = chars_of(raw);
        let open: [char; 4] = ['o', 'p', 'e', 'n'];
        let todo: [char; 4] = ['t', 'o', 'd', 'o'];
        let done: [char; 4] = ['d', 'o', 'n', 'e'];
        let cancelled: [char; 9] = ['c', 'a', 'n', 'c', 'e', 'l', 'l', 'e', 'd'];
        assert(open@ =~= seq!['o', 'p', 'e', 'n']);
        assert(todo@ =~= seq!['t', 'o', 'd', 'o']);
        assert(done@ =~= seq!['d', 'o', 'n', 'e']);
        assert(cancelled@ =~= seq!['c', 'a', 'n', 'c', 'e', 'l', 'l', 'e', 'd']);
        if same(&chars, &open) || same(&chars, &todo) {
            Ok(TodoStatus::Open)
        } else if same(&chars, &done) {
            Ok(TodoStatus::Done)
        } else if same(&chars, &cancelled) {
            Ok(TodoStatus::Cancelled)
        } else if chars.len() == 1 {
            Ok(TodoStatus::from_symbol(chars[0]))
        } else {
            let field: [char; 6] = ['s', 't', 'a', 't', 'u', 's'];
            Err(Error::UnknownWord { field: text_of(&field), found: raw.to_owned() })
        }
    }
}

/// How urgent a todo is. `Normal` is the absence of a signifier.
#[derive(Debug, Clone, Copy, PartialEq, Eq, PartialOrd, Ord, Structural)]
pub enum Priority {
    Highest,
    High,
    Medium,
    Normal,
    Low,
    Lowest,
}

pub open spec fn priority_symbol(priority: Priority) -> Option<char> {
    match priority {
        Priority::Highest => Some(PRIORITY_HIGHEST),
        Priority::High => Some(PRIORITY_HIGH),
        Priority::Medium => Some(PRIORITY_MEDIUM),
        Priority::Normal => None,
        Priority::Low => Some(PRIORITY_LOW),
        Priority::Lowest => Some(PRIORITY_LOWEST),
    }
}

pub open spec fn priority_of_symbol(symbol: char) -> Option<Priority> {
    if symbol == PRIORITY_HIGHEST {
        Some(Priority::Highest)
    } else if symbol == PRIORITY_HIGH {
        Some(Priority::High)
    } else if symbol == PRIORITY_MEDIUM {
        Some(Priority::Medium)
    } else if symbol == PRIORITY_LOW {
        Some(Priority::Low)
    } else if symbol == PRIORITY_LOWEST {
        Some(Priority::Lowest)
    } else {
        None
    }
}

pub open spec fn priority_word(priority: Priority) -> Seq<char> {
    match priority {
        Priority::Highest => seq!['h', 'i', 'g', 'h', 'e', 's', 't'],
        Priority::High => seq!['h', 'i', 'g', 'h'],
        Priority::Medium => seq!['m', 'e', 'd', 'i', 'u', 'm'],
        Priority::Normal => seq!['n', 'o', 'r', 'm', 'a', 'l'],
        Priority::Low => seq!['l', 'o', 'w'],
        Priority::Lowest => seq!['l', 'o', 'w', 'e', 's', 't'],
    }
}

fn priority_chars(priority: Priority) -> (word: Vec<char>)
    ensures
        word@ == priority_word(priority),
{
    let w: Vec<char> = match priority {
        Priority::Highest => vec!['h', 'i', 'g', 'h', 'e', 's', 't'],
        Priority::High => vec!['h', 'i', 'g', 'h'],
        Priority::Medium => vec!['m', 'e', 'd', 'i', 'u', 'm'],
        Priority::Normal => vec!['n', 'o', 'r', 'm', 'a', 'l'],
        Priority::Low => vec!['l', 'o', 'w'],
        Priority::Lowest => vec!['l', 'o', 'w', 'e', 's', 't'],
    };
    assert(w@ =~= priority_word(priority));
    w
}

impl Priority {
    pub fn default() -> (priority: Self)
        ensures
            priority == Priority::Normal,
    {
        Priority::Normal
    }

    /// The signifier, or nothing for `Normal`.
    pub fn symbol(self) -> (symbol: Option<char>)
        ensures
            symbol == priority_symbol(self),
    {
        match self {
            Priority::Highest => Some(PRIORITY_HIGHEST),
            Priority::High => Some(PRIORITY_HIGH),
            Priority::Medium => Some(PRIORITY_MEDIUM),
            Priority::Normal => None,
            Priority::Low => Some(PRIORITY_LOW),
            Priority::Lowest => Some(PRIORITY_LOWEST),
        }
    }

    pub fn from_symbol(symbol: char) -> (priority: Option<Self>)
        ensures
            priority == priority_of_symbol(symbol),
    {
        if symbol == PRIORITY_HIGHEST {
            Some(Priority::Highest)
        } else if symbol == PRIORITY_HIGH {
            Some(Priority::High)
        } else if symbol == PRIORITY_MEDIUM {
            Some(Priority::Medium)
        } else if symbol == PRIORITY_LOW {
            Some(Priority::Low)
        } else if symbol == PRIORITY_LOWEST {
            Some(Priority::Lowest)
        } else {
            None
        }
    }

    pub fn render(self) -> (text: String)
        ensures
            text@ == priority_word(self),
    {
        text_of(&priority_chars(self))
    }

    /// Reads one of the six priority words, exactly.
    pub fn parse(raw: &str) -> (result: Result<Self, Error>)
        ensures
            match result {
                Ok(p) => priority_word(p) == raw@,
                Err(e) => (forall|p: Priority| priority_word(p) != raw@) && e is UnknownWord && e->found@
                    == raw@,
            },
    {
        let chars = chars_of(raw);
        if same(&chars, &priority_chars(Priority::Highest)) {
            Ok(Priority::Highest)
        } else if same(&chars, &priority_chars(Priority::High)) {
            Ok(Priority::High)
        } else if same(&chars, &priority_chars(Priority::Medium)) {
            Ok(Priority::Medium)
        } else if same(&chars, &priority_chars(Priority::Normal)) {
            Ok(Priority::Normal)
        } else if same(&chars, &priority_chars(Priority::Low)) {
            Ok(Priority::Low)
        } else if same(&chars, &priority_chars(Priority::Lowest)) {
            Ok(Priority::Lowest)
        } else {
            proof {
                assert forall|p: Priority| priority_word(p) != raw@ by {
                    match p {
                        Priority::Highest => {},
                        Priority::High => {},
                        Priority::Medium => {},
                        Priority::Normal => {},
                        Priority::Low => {},
                        Priority::Lowest => {},
                    }
                }
            }
            let field: [char; 8] = ['p', 'r', 'i', 'o', 'r', 'i', 't', 'y'];
            Err(Error::UnknownWord { field: text_of(&field), found: raw.to_owned() })
        }
    }
}

/// What Obsidian does with a todo once it is ticked. Parsed and written back;
/// timemd itself does nothing with it.
#[derive(Debug, Clone, Copy, PartialEq, Eq, Structural)]
pub enum OnCompletion {
    Keep,
    Delete,
}

pub open spec fn completion_word(c: OnCompletion) -> Seq<char> {
    match c {
        OnCompletion::Keep => seq!['k', 'e', 'e', 'p'],
        OnCompletion::Delete => seq!['d', 'e', 'l', 'e', 't', 'e'],
    }
}

fn completion_chars(c: OnCompletion) -> (word: Vec<char>)
    ensures
        word@ == completion_word(c),
{
    let w: Vec<char> = match c {
        OnCompletion::Keep => vec!['k', 'e', 'e', 'p'],
        OnCompletion::Delete => vec!['d', 'e', 'l', 'e', 't', 'e'],
    };
    assert(w@ =~= completion_word(c));
    w
}

impl OnCompletion {
    pub fn default() -> (c: Self)
        ensures
            c == OnCompletion::Keep,
    {
        OnCompletion::Keep
    }

    pub fn render(self) -> (text: String)
        ensures
            text@ == completion_word(self),
    {
        text_of(&completion_chars(self))
    }

    /// Reads `keep` or `delete`, exactly.
    pub fn parse(raw: &str) -> (result: Result<Self, Error>)
        ensures
            match result {
                Ok(c) => completion_word(c) == raw@,
                Err(e) => (forall|c: OnCompletion| completion_word(c) != raw@) && e is UnknownWord
                    && e->found@ == raw@,
            },
    {
        let chars = chars_of(raw);
        if same(&chars, &completion_chars(OnCompletion::Keep)) {
            Ok(OnCompletion::Keep)
        } else if same(&chars, &completion_chars(OnCompletion::Delete)) {
            Ok(OnCompletion::Delete)
        } else {
            proof {
                assert forall|c: OnCompletion| completion_word(c) != raw@ by {
                    match c {
                        OnCompletion::Keep => {},
                        OnCompletion::Delete => {},
                    }
                }
            }
            let field: [char; 13] = ['o', 'n', '_', 'c', 'o', 'm', 'p', 'l', 'e', 't', 'i', 'o', 'n'];
            Err(Error::UnknownWord { field: text_of(&field), found: raw.to_owned() })
        }
    }
}

/// A status written as its word reads back as itself, so long as an unknown
/// checkbox character is not one of the known ones.
pub proof fn law_status_word_round_trip(status: TodoStatus)
    requires
        canonical_status(status),
    ensures
        status_read(status_word(status)) == Some(status),
{
    match status {
        TodoStatus::Open => {
            assert(status_word(status) =~= seq!['o', 'p', 'e', 'n']);
        },
        TodoStatus::Done => {
            assert(status_word(status) != seq!['o', 'p', 'e', 'n']);
            assert(status_word(status) != seq!['t', 'o', 'd', 'o']);
        },
        TodoStatus::Cancelled => {},
        TodoStatus::Other(symbol) => {
            assert(status_word(status).len() == 1);
            assert(status_word(status)[0] == symbol);
        },
    }
}

/// A checkbox character reads back as the status it was written from, for
/// every status that reads back at all.
pub proof fn law_status_symbol_round_trip(status: TodoStatus)
    requires
        canonical_status(status),
    ensures
        status_of_symbol(status_symbol(status)) == status,
{
}

/// A priority written as its word, or as its signifier, reads back as itself.
pub proof fn law_priority_round_trip(priority: Priority)
    ensures
        forall|p: Priority| priority_word(p) == priority_word(priority) ==> p == priority,
        priority_symbol(priority) matches Some(symbol) ==> priority_of_symbol(symbol) == Some(priority),
{
    assert forall|p: Priority| priority_word(p) == priority_word(priority) implies p == priority by {
        match p {
            Priority::Highest => { assert(priority_word(p).len() == 7); },
            Priority::High => { assert(priority_word(p).len() == 4); },
            Priority::Medium => { assert(priority_word(p)[0] == 'm'); },
            Priority::Normal => { assert(priority_word(p)[0] == 'n'); },
            Priority::Low => { assert(priority_word(p).len() == 3); },
            Priority::Lowest => { assert(priority_word(p)[0] == 'l' && priority_word(p).len() == 6); },
        }
        match priority {
            Priority::Highest => { assert(priority_word(priority).len() == 7); },
            Priority::High => { assert(priority_word(priority).len() == 4); },
            Priority::Medium => { assert(priority_word(priority)[0] == 'm'); },
            Priority::Normal => { assert(priority_word(priority)[0] == 'n'); },
            Priority::Low => { assert(priority_word(priority).len() == 3); },
            Priority::Lowest => { assert(priority_word(priority)[0] == 'l' && priority_word(priority).len() == 6); },
        }
    }
}

} // verus!

verus! {

pub const CREATED: char = '➕';

pub const START: char = '🛫';

pub const SCHEDULED: char = '⏳';

pub const DUE: char = '📅';

pub const DONE: char = '✅';

pub const CANCELLED: char = '❌';

pub const RECURRENCE: char = '🔁';

pub const ID: char = '🆔';

pub const DEPENDS_ON: char = '⛔';

pub const ON_COMPLETION: char = '🏁';

/// The emoji-presentation selector some editors append to a signifier: read
/// and dropped, never written.
pub const VARIATION_SELECTOR: char = '\u{fe0f}';

/// A character that opens a field, and so closes the one before it.
pub open spec fn is_signifier(c: char) -> bool {
    ||| c == PRIORITY_HIGHEST
    ||| c == PRIORITY_HIGH
    ||| c == PRIORITY_MEDIUM
    ||| c == PRIORITY_LOW
    ||| c == PRIORITY_LOWEST
    ||| c == CREATED
    ||| c == START
    ||| c == SCHEDULED
    ||| c == DUE
    ||| c == DONE
    ||| c == CANCELLED
    ||| c == RECURRENCE
    ||| c == ID
    ||| c == DEPENDS_ON
    ||| c == ON_COMPLETION
}

pub open spec fn signifier_pred() -> spec_fn(char) -> bool {
    |c: char| is_signifier(c)
}

pub fn signifier(c: char) -> (is: bool)
    ensures
        is == is_signifier(c),
{
    c == PRIORITY_HIGHEST || c == PRIORITY_HIGH || c == PRIORITY_MEDIUM || c == PRIORITY_LOW || c == PRIORITY_LOWEST
        || c == CREATED || c == START || c == SCHEDULED || c == DUE || c == DONE || c == CANCELLED || c
        == RECURRENCE || c == ID || c == DEPENDS_ON || c == ON_COMPLETION
}

/// Where the first signifier in `s` is.
pub fn first_signifier(s: &[char]) -> (found: Option<usize>)
    ensures
        match found {
            Some(i) => first_where(s@, signifier_pred()) == Some(i as int),
            None => first_where(s@, signifier_pred()) is None,
        },
{
    let mut i: usize = 0;
    while i < s.len()
        invariant
            i <= s@.len(),
            forall|k: int| 0 <= k < i ==> !is_signifier(#[trigger] s@[k]),
        decreases s.len() - i,
    {
        if signifier(s[i]) {
            proof {
                lemma_first_where_is(s@, signifier_pred(), i as int);
            }
            return Some(i);
        }
        i = i + 1;
    }
    proof {
        lemma_first_where_none(s@, signifier_pred());
    }
    None
}

/// A date, with a time of day or not.
pub type StampView = ((int, int, int), Option<nat>);

/// What a stamp text reads as: `YYYY-MM-DD`, or that and `HH:MM` after the
/// first whitespace.
pub open spec fn stamp_read(raw: Seq<char>) -> Option<StampView> {
    let t = trim(raw);
    match first_where(t, ws_pred()) {
        None => match date_value(t) {
            Some(d) => Some((d, None)),
            None => None,
        },
        Some(i) => match date_value(t.subrange(0, i)) {
            Some(d) => match time_value(trim(t.subrange(i + 1, t.len() as int))) {
                Some(s) => Some((d, Some(s))),
                None => None,
            },
            None => None,
        },
    }
}

pub open spec fn stamp_text(s: StampView) -> Seq<char> {
    date_text(s.0) + match s.1 {
        Some(t) => seq![' '] + time_text(t),
        None => Seq::empty(),
    }
}

/// A date, optionally narrowed to a time of day: Obsidian's dates carry no
/// time, and a stamp without one renders exactly as Obsidian writes it.
#[derive(Debug, Clone, Copy, PartialEq, Eq)]
pub struct Stamp {
    pub date: CalendarDate,
    pub time: Option<TimeOfDay>,
}

pub open spec fn time_view(t: Option<TimeOfDay>) -> Option<nat> {
    match t {
        Some(x) => Some(x@),
        None => None,
    }
}

impl View for Stamp {
    type V = StampView;

    open spec fn view(&self) -> StampView {
        (self.date@, time_view(self.time))
    }
}

pub open spec fn stamp_view(s: Option<Stamp>) -> Option<StampView> {
    match s {
        Some(x) => Some(x@),
        None => None,
    }
}

impl Stamp {
    pub fn on(date: CalendarDate) -> (stamp: Self)
        ensures
            stamp@ == (date@, None::<nat>),
            stamp == (Stamp { date, time: None }),
    {
        Stamp { date, time: None }
    }

    pub fn at(date: CalendarDate, time: TimeOfDay) -> (stamp: Self)
        ensures
            stamp@ == (date@, Some(time@)),
    {
        Stamp { date, time: Some(time) }
    }

    pub fn render_chars(&self) -> (text: Vec<char>)
        ensures
            text@ == stamp_text(self@),
    {
        let mut out = format_date_chars(self.date);
        match self.time {
            Some(t) => {
                out.push(' ');
                append(&mut out, &format_time_chars(t));
            },
            None => {},
        }
        assert(out@ =~= stamp_text(self@));
        out
    }

    pub fn render(&self) -> (text: String)
        ensures
            text@ == stamp_text(self@),
    {
        string_of(&self.render_chars())
    }

    /// Reads `YYYY-MM-DD` or `YYYY-MM-DD HH:MM`.
    pub fn parse(raw: &str) -> (result: Result<Self, ParseErrorKind>)
        ensures
            match result {
                Ok(s) => stamp_read(raw@) == Some(s@),
                Err(kind) => stamp_read(raw@) is None && kind is InvalidDate,
            },
    {
        let t = trimmed(&chars_of(raw));
        match first_whitespace(&t) {
            None => match date(string_of(&t).as_str()) {
                Ok(d) => Ok(Stamp::on(d)),
                Err(kind) => Err(kind),
            },
            Some(i) => {
                let day = slice(&t, 0, i);
                let d = match date(string_of(&day).as_str()) {
                    Ok(d) => d,
                    Err(kind) => return Err(kind),
                };
                let rest = trimmed(&slice(&t, i + 1, t.len()));
                match time_chars(&rest) {
                    Some(time) => Ok(Stamp::at(d, time)),
                    None => Err(ParseErrorKind::InvalidDate { found: string_of(&t) }),
                }
            },
        }
    }
}

/// A todo's fields.
pub struct TodoView {
    pub status: TodoStatus,
    pub project: Option<Seq<char>>,
    pub description: Seq<char>,
    pub priority: Priority,
    pub recurrence: Option<Seq<char>>,
    pub id: Option<Seq<char>>,
    pub depends_on: Seq<Seq<char>>,
    pub created: Option<StampView>,
    pub start: Option<StampView>,
    pub scheduled: Option<StampView>,
    pub due: Option<StampView>,
    pub cancelled: Option<StampView>,
    pub done: Option<StampView>,
    pub on_completion: Option<OnCompletion>,
}

/// A description a todo line can carry and give back: trimmed, non-empty,
/// on one line, with no signifier to open a field and no leading `[[` to be
/// taken for the project link.
pub open spec fn is_description(d: Seq<char>) -> bool {
    &&& d.len() > 0
    &&& trim(d) == d
    &&& !has_char(d, '\n')
    &&& !has_char(d, '\r')
    &&& first_where(d, signifier_pred()) is None
    &&& !starts_with(d, seq!['[', '['])
}

/// A fresh todo with this status and description, if the description is
/// one a line can carry once trimmed.
pub open spec fn new_todo(status: TodoStatus, description: Seq<char>) -> Option<TodoView> {
    if is_description(trim(description)) {
        Some(TodoView {
            status,
            project: None,
            description: trim(description),
            priority: Priority::Normal,
            recurrence: None,
            id: None,
            depends_on: Seq::empty(),
            created: None,
            start: None,
            scheduled: None,
            due: None,
            cancelled: None,
            done: None,
            on_completion: None,
        })
    } else {
        None
    }
}

/// The `(signifier, value)` pairs of a field region, each value running to
/// the next signifier, trimmed, with a variation selector after its
/// signifier dropped.
pub open spec fn field_list(region: Seq<char>) -> Seq<(char, Seq<char>)>
    decreases region.len(),
{
    if region.len() == 0 {
        Seq::empty()
    } else {
        let sig = region[0];
        let v0 = region.drop_first();
        let v1 = if v0.len() > 0 && v0[0] == VARIATION_SELECTOR {
            v0.drop_first()
        } else {
            v0
        };
        let end = match first_where(v1, signifier_pred()) {
            Some(e) => e,
            None => v1.len() as int,
        };
        if 0 <= end <= v1.len() {
            seq![(sig, trim(v1.subrange(0, end)))] + field_list(v1.subrange(end, v1.len() as int))
        } else {
            Seq::empty()
        }
    }
}

/// The ids a `⛔` value lists, comma-separated, blanks skipped; `None` if one
/// is not an id.
pub open spec fn dep_ids(parts: Seq<Seq<char>>) -> Option<Seq<Seq<char>>>
    decreases parts.len(),
{
    if parts.len() == 0 {
        Some(Seq::empty())
    } else {
        match dep_ids(parts.drop_last()) {
            Some(ids) => {
                let t = trim(parts.last());
                if t.len() == 0 {
                    Some(ids)
                } else if is_todo_id(t) {
                    Some(ids.push(t))
                } else {
                    None
                }
            },
            None => None,
        }
    }
}

pub open spec fn completion_read(raw: Seq<char>) -> Option<OnCompletion> {
    if raw == completion_word(OnCompletion::Keep) {
        Some(OnCompletion::Keep)
    } else if raw == completion_word(OnCompletion::Delete) {
        Some(OnCompletion::Delete)
    } else {
        None
    }
}

/// Fills a stamp that may appear at most once.
pub open spec fn once_stamp(slot: Option<StampView>, value: Seq<char>) -> Option<StampView> {
    if slot is None {
        stamp_read(value)
    } else {
        None
    }
}

/// One field read onto a todo, or `None` when the field is refused: a field
/// given twice, a value that does not read, text after a priority, or a
/// character that is no field.
#[verifier::opaque]
pub open spec fn field_step(t: TodoView, sig: char, v: Seq<char>) -> Option<TodoView> {
    if sig == CREATED {
        match once_stamp(t.created, v) {
            Some(s) => Some(TodoView { created: Some(s), ..t }),
            None => None,
        }
    } else if sig == START {
        match once_stamp(t.start, v) {
            Some(s) => Some(TodoView { start: Some(s), ..t }),
            None => None,
        }
    } else if sig == SCHEDULED {
        match once_stamp(t.scheduled, v) {
            Some(s) => Some(TodoView { scheduled: Some(s), ..t }),
            None => None,
        }
    } else if sig == DUE {
        match once_stamp(t.due, v) {
            Some(s) => Some(TodoView { due: Some(s), ..t }),
            None => None,
        }
    } else if sig == DONE {
        match once_stamp(t.done, v) {
            Some(s) => Some(TodoView { done: Some(s), ..t }),
            None => None,
        }
    } else if sig == CANCELLED {
        match once_stamp(t.cancelled, v) {
            Some(s) => Some(TodoView { cancelled: Some(s), ..t }),
            None => None,
        }
    } else if sig == ID {
        if is_todo_id(v) && t.id is None {
            Some(TodoView { id: Some(v), ..t })
        } else {
            None
        }
    } else if sig == ON_COMPLETION {
        match completion_read(v) {
            Some(c) => if t.on_completion is None {
                Some(TodoView { on_completion: Some(c), ..t })
            } else {
                None
            },
            None => None,
        }
    } else if sig == RECURRENCE && v.len() > 0 {
        if t.recurrence is None {
            Some(TodoView { recurrence: Some(v), ..t })
        } else {
            None
        }
    } else if sig == DEPENDS_ON && v.len() > 0 {
        if t.depends_on.len() > 0 {
            None
        } else {
            match dep_ids(split_on(v, ',')) {
                Some(ids) => Some(TodoView { depends_on: ids, ..t }),
                None => None,
            }
        }
    } else if v.len() == 0 {
        match priority_of_symbol(sig) {
            Some(p) => if t.priority == Priority::Normal {
                Some(TodoView { priority: p, ..t })
            } else {
                None
            },
            None => None,
        }
    } else {
        None
    }
}

/// The fields read onto a todo in order, the first refusal refusing all.
pub open spec fn read_fields(t: TodoView, fields: Seq<(char, Seq<char>)>) -> Option<TodoView>
    decreases fields.len(),
{
    if fields.len() == 0 {
        Some(t)
    } else {
        match field_step(t, fields[0].0, fields[0].1) {
            Some(next) => read_fields(next, fields.drop_first()),
            None => None,
        }
    }
}

/// What the content of a todo line (bullet stripped) reads as: a checkbox,
/// an optional project link, the description up to the first signifier, and
/// the fields after it in any order.
pub open spec fn todo_reads(content: Seq<char>) -> Option<TodoView> {
    if content.len() >= 3 && content[0] == '[' && content[2] == ']' {
        let symbol = content[1];
        let (project, rest) = wikilink_parts(trim_start(content.subrange(3, content.len() as int)));
        let (description, fields) = match first_where(rest, signifier_pred()) {
            Some(i) => (trim_end(rest.subrange(0, i)), rest.subrange(i, rest.len() as int)),
            None => (trim_end(rest), Seq::<char>::empty()),
        };
        match new_todo(status_of_symbol(symbol), description) {
            Some(base) => read_fields(TodoView { project, ..base }, field_list(fields)),
            None => None,
        }
    } else {
        None
    }
}

/// ` <signifier>`, and ` <value>` when there is one.
pub open spec fn field_text(sig: char, value: Seq<char>) -> Seq<char> {
    seq![' ', sig] + if value.len() > 0 {
        seq![' '] + value
    } else {
        Seq::empty()
    }
}

pub open spec fn stamp_field(sig: char, s: Option<StampView>) -> Seq<char> {
    match s {
        Some(x) => field_text(sig, stamp_text(x)),
        None => Seq::empty(),
    }
}

/// The field region a todo writes, in the one canonical order.
#[verifier::opaque]
pub open spec fn fields_text(t: TodoView) -> Seq<char> {
    (match priority_symbol(t.priority) {
        Some(c) => field_text(c, Seq::empty()),
        None => Seq::empty(),
    }) + (match t.recurrence {
        Some(r) => field_text(RECURRENCE, r),
        None => Seq::empty(),
    }) + (match t.id {
        Some(i) => field_text(ID, i),
        None => Seq::empty(),
    }) + (if t.depends_on.len() > 0 {
        field_text(DEPENDS_ON, joined(t.depends_on, ','))
    } else {
        Seq::empty()
    }) + stamp_field(CREATED, t.created) + stamp_field(START, t.start) + stamp_field(SCHEDULED, t.scheduled)
        + stamp_field(DUE, t.due) + stamp_field(CANCELLED, t.cancelled) + stamp_field(DONE, t.done) + (match t.on_completion {
        Some(c) => field_text(ON_COMPLETION, completion_word(c)),
        None => Seq::empty(),
    })
}

/// The line a todo is written as.
pub open spec fn todo_line(t: TodoView) -> Seq<char> {
    seq!['-', ' ', '[', status_symbol(t.status), ']', ' '] + wikilink_text(t.project) + t.description + fields_text(t)
}

} // verus!

verus! {

pub open spec fn text_view(s: Option<String>) -> Option<Seq<char>> {
    match s {
        Some(x) => Some(x@),
        None => None,
    }
}

pub open spec fn id_of(id: Option<TodoId>) -> Option<Seq<char>> {
    match id {
        Some(x) => Some(x@),
        None => None,
    }
}

/// One entry in `## Todos`. The description is private for the same reason a
/// milestone title is: [`Todo::new`] is the one way in.
#[derive(Debug, PartialEq, Eq)]
pub struct Todo {
    pub status: TodoStatus,
    pub project: Option<ProjectSlug>,
    description: String,
    pub priority: Priority,
    pub recurrence: Option<String>,
    /// `None` until something writes this todo, at which point it is minted.
    id: Option<TodoId>,
    pub depends_on: Vec<TodoId>,
    pub created: Option<Stamp>,
    pub start: Option<Stamp>,
    pub scheduled: Option<Stamp>,
    pub due: Option<Stamp>,
    pub cancelled: Option<Stamp>,
    pub done: Option<Stamp>,
    pub on_completion: Option<OnCompletion>,
}

impl View for Todo {
    type V = TodoView;

    closed spec fn view(&self) -> TodoView {
        TodoView {
            status: self.status,
            project: slug_view(self.project),
            description: if is_description(self.description@) {
                self.description@
            } else {
                seq!['?']
            },
            priority: self.priority,
            recurrence: text_view(self.recurrence),
            id: id_of(self.id),
            depends_on: ids_view(self.depends_on@),
            created: stamp_view(self.created),
            start: stamp_view(self.start),
            scheduled: stamp_view(self.scheduled),
            due: stamp_view(self.due),
            cancelled: stamp_view(self.cancelled),
            done: stamp_view(self.done),
            on_completion: self.on_completion,
        }
    }
}

fn ids_copy(ids: &Vec<TodoId>) -> (copy: Vec<TodoId>)
    ensures
        ids_view(copy@) == ids_view(ids@),
{
    let mut out: Vec<TodoId> = Vec::new();
    let mut k: usize = 0;
    while k < ids.len()
        invariant
            k <= ids@.len(),
            ids_view(out@) == ids_view(ids@).subrange(0, k as int),
        decreases ids.len() - k,
    {
        let ghost before = ids_view(out@);
        let id = ids[k].clone();
        out.push(id);
        assert(ids_view(out@) =~= before.push(id@));
        assert(ids_view(ids@).subrange(0, k + 1) =~= ids_view(ids@).subrange(0, k as int).push(ids@[k as int]@));
        k = k + 1;
    }
    assert(ids_view(ids@).subrange(0, ids@.len() as int) =~= ids_view(ids@));
    out
}

fn text_copy(s: &Option<String>) -> (copy: Option<String>)
    ensures
        text_view(copy) == text_view(*s),
{
    match s {
        Some(x) => Some(x.clone()),
        None => None,
    }
}

fn description_ok(t: &[char]) -> (ok: bool)
    requires
        trim(t@) == t@,
    ensures
        ok == is_description(t@),
{
    let open: [char; 2] = ['[', '['];
    assert(open@ =~= seq!['[', '[']);
    t.len() > 0 && !contains_char(t, '\n') && !contains_char(t, '\r') && first_signifier(t).is_none() && !has_prefix(t, &open)
}

/// Appends ` <signifier>` and ` <value>` when there is one.
fn push_field(out: &mut Vec<char>, sig: char, value: &[char])
    ensures
        final(out)@ == old(out)@ + field_text(sig, value@),
{
    out.push(' ');
    out.push(sig);
    if value.len() > 0 {
        out.push(' ');
        append(out, value);
    }
    assert(final(out)@ =~= old(out)@ + field_text(sig, value@));
}

fn push_stamp(out: &mut Vec<char>, sig: char, stamp: Option<Stamp>)
    ensures
        final(out)@ == old(out)@ + stamp_field(sig, stamp_view(stamp)),
{
    match stamp {
        Some(s) => push_field(out, sig, &s.render_chars()),
        None => {
            assert(old(out)@ + Seq::<char>::empty() =~= old(out)@);
        },
    }
}

/// The ids joined with commas.
fn joined_ids(ids: &Vec<TodoId>) -> (text: Vec<char>)
    ensures
        text@ == joined(ids_view(ids@), ','),
{
    let ghost all = ids_view(ids@);
    let mut out: Vec<char> = Vec::new();
    let mut k: usize = 0;
    while k < ids.len()
        invariant
            k <= ids@.len(),
            all == ids_view(ids@),
            out@ == joined(all.subrange(0, k as int), ','),
        decreases ids.len() - k,
    {
        let part = ids[k].to_chars();
        let ghost before = out@;
        if k > 0 {
            out.push(',');
        }
        append(&mut out, &part);
        proof {
            let p = all.subrange(0, k + 1);
            assert(p.drop_last() =~= all.subrange(0, k as int));
            assert(p.last() == part@);
            if k == 0 {
                assert(p.len() == 1);
                assert(out@ =~= p[0]);
            } else {
                assert(out@ =~= before.push(',') + part@);
            }
        }
        k = k + 1;
    }
    assert(all.subrange(0, all.len() as int) =~= all);
    out
}

/// A part that refuses refuses the whole list.
proof fn lemma_dep_ids_refused(s: Seq<Seq<char>>, j: int)
    requires
        0 <= j <= s.len(),
        dep_ids(s.subrange(0, j)) is None,
    ensures
        dep_ids(s) is None,
    decreases s.len() - j,
{
    if j < s.len() {
        assert(s.subrange(0, j + 1).drop_last() =~= s.subrange(0, j));
        lemma_dep_ids_refused(s, j + 1);
    } else {
        assert(s.subrange(0, j) =~= s);
    }
}

/// The ids a `⛔` value lists.
fn dep_ids_of(value: &[char]) -> (ids: Option<Vec<TodoId>>)
    ensures
        match ids {
            Some(v) => dep_ids(split_on(value@, ',')) == Some(ids_view(v@)),
            None => dep_ids(split_on(value@, ',')) is None,
        },
{
    let parts = split_by(value, ',');
    let ghost all = char_views(parts@);
    let mut out: Vec<TodoId> = Vec::new();
    let mut k: usize = 0;
    assert(all.subrange(0, 0) =~= Seq::<Seq<char>>::empty());
    while k < parts.len()
        invariant
            k <= parts@.len(),
            all == char_views(parts@),
            all == split_on(value@, ','),
            dep_ids(all.subrange(0, k as int)) == Some(ids_view(out@)),
        decreases parts.len() - k,
    {
        proof {
            assert(all.subrange(0, k + 1).drop_last() =~= all.subrange(0, k as int));
        }
        let t = trimmed(&parts[k]);
        if t.len() > 0 {
            match TodoId::from_checked(&t) {
                Some(id) => {
                    let ghost before = ids_view(out@);
                    out.push(id);
                    assert(ids_view(out@) =~= before.push(t@));
                },
                None => {
                    proof {
                        let p = all.subrange(0, k + 1);
                        assert(all[k as int] == parts@[k as int]@);
                        assert(p.last() == all[k as int]);
                        assert(p.drop_last() =~= all.subrange(0, k as int));
                        assert(dep_ids(p) is None);
                        lemma_dep_ids_refused(all, k + 1);
                    }
                    return None;
                },
            }
        }
        k = k + 1;
    }
    assert(all.subrange(0, all.len() as int) =~= all);
    Some(out)
}

/// The first field of a non-empty field region: its signifier, its value and
/// where the next field starts.
fn next_field(fields: &Vec<char>, pos: usize) -> (next: (char, Vec<char>, usize))
    requires
        pos < fields@.len(),
    ensures
        pos < next.2 <= fields@.len(),
        field_list(fields@.subrange(pos as int, fields@.len() as int)) == seq![(next.0, next.1@)] + field_list(
            fields@.subrange(next.2 as int, fields@.len() as int),
        ),
{
    let ghost region = fields@.subrange(pos as int, fields@.len() as int);
    let n = fields.len();
    let sig = fields[pos];
    let mut from = pos + 1;
    if from < fields.len() && fields[from] == VARIATION_SELECTOR {
        from = from + 1;
    }
    let tail = slice(fields, from, fields.len());
    let end = match first_signifier(&tail) {
        Some(e) => from + e,
        None => fields.len(),
    };
    let value = trimmed(&slice(fields, from, end));
    proof {
        let v0 = region.drop_first();
        let v1 = if v0.len() > 0 && v0[0] == VARIATION_SELECTOR {
            v0.drop_first()
        } else {
            v0
        };
        assert(v1 =~= tail@);
        assert(v1.subrange(0, end - from) =~= fields@.subrange(from as int, end as int));
        assert(v1.subrange(end - from, v1.len() as int) =~= fields@.subrange(end as int, fields@.len() as int));
    }
    (sig, value, end)
}

/// The whitespace-separated words of a text, in order.
pub open spec fn words(s: Seq<char>) -> Seq<Seq<char>>
    decreases s.len(),
{
    if s.len() == 0 {
        Seq::empty()
    } else {
        let w = words(s.drop_last());
        let c = s.last();
        if crate::text::is_ws(c) {
            w
        } else if s.len() > 1 && !crate::text::is_ws(s[s.len() - 2]) && w.len() > 0 {
            w.drop_last().push(w.last().push(c))
        } else {
            w.push(seq![c])
        }
    }
}

/// The `#tag`s among some words, the `#` dropped, empty tags skipped.
pub open spec fn tags_of(ws: Seq<Seq<char>>) -> Seq<Seq<char>>
    decreases ws.len(),
{
    if ws.len() == 0 {
        Seq::empty()
    } else {
        let rest = tags_of(ws.drop_last());
        let w = ws.last();
        if w.len() > 1 && w[0] == '#' {
            rest.push(w.drop_first())
        } else {
            rest
        }
    }
}

/// The words of a text.
fn words_of(s: &[char]) -> (found: Vec<Vec<char>>)
    ensures
        char_views(found@) == words(s@),
{
    let mut out: Vec<Vec<char>> = Vec::new();
    let mut k: usize = 0;
    while k < s.len()
        invariant
            k <= s@.len(),
            char_views(out@) == words(s@.subrange(0, k as int)),
        decreases s.len() - k,
    {
        let ghost before = char_views(out@);
        let c = s[k];
        proof {
            let p = s@.subrange(0, k + 1);
            assert(p.drop_last() =~= s@.subrange(0, k as int));
            assert(p.last() == c);
            if k > 0 {
                assert(p[p.len() - 2] == s@[k - 1]);
            }
        }
        if crate::text::is_whitespace(c) {
        } else if k > 0 && !crate::text::is_whitespace(s[k - 1]) && out.len() > 0 {
            let last = out.len() - 1;
            let mut word = out[last].clone();
            word.push(c);
            out.set(last, word);
            assert(char_views(out@) =~= before.drop_last().push(before.last().push(c)));
        } else {
            let mut word: Vec<char> = Vec::new();
            word.push(c);
            out.push(word);
            assert(char_views(out@) =~= before.push(seq![c]));
        }
        k = k + 1;
    }
    assert(s@.subrange(0, s@.len() as int) =~= s@);
    out
}

/// What an edit may change about one todo. Every field omitted leaves it
/// exactly as it was; a field set to `Some(None)` clears it.
#[derive(Debug)]
pub struct TodoEdit {
    pub status: Option<TodoStatus>,
    pub description: Option<String>,
    pub project: Option<Option<ProjectSlug>>,
    pub priority: Option<Priority>,
    pub recurrence: Option<Option<String>>,
    pub depends_on: Option<Vec<TodoId>>,
    pub created: Option<Option<Stamp>>,
    pub start: Option<Option<Stamp>>,
    pub scheduled: Option<Option<Stamp>>,
    pub due: Option<Option<Stamp>>,
    pub cancelled: Option<Option<Stamp>>,
    pub done: Option<Option<Stamp>>,
    pub on_completion: Option<Option<OnCompletion>>,
}

impl Default for TodoEdit {
    fn default() -> (edit: Self)
        ensures
            edit.status is None && edit.description is None && edit.project is None && edit.priority is None
                && edit.recurrence is None && edit.depends_on is None && edit.created is None && edit.start is None
                && edit.scheduled is None && edit.due is None && edit.cancelled is None && edit.done is None
                && edit.on_completion is None,
    {
        TodoEdit {
            status: None,
            description: None,
            project: None,
            priority: None,
            recurrence: None,
            depends_on: None,
            created: None,
            start: None,
            scheduled: None,
            due: None,
            cancelled: None,
            done: None,
            on_completion: None,
        }
    }
}

/// A field's new value if the edit sets it, else its old one.
pub open spec fn or_keep<T>(edit: Option<T>, old: T) -> T {
    match edit {
        Some(v) => v,
        None => old,
    }
}

/// A field's new value if the edit sets it, else its old one.
fn pick<T>(edit: Option<T>, old: T) -> (v: T)
    ensures
        v == or_keep(edit, old),
{
    match edit {
        Some(v) => v,
        None => old,
    }
}

/// A recurrence rule as an edit writes it: a blank rule clears the field.
pub open spec fn recurrence_set(rule: Option<String>) -> Option<Seq<char>> {
    match rule {
        Some(r) => if trim(r@).len() > 0 {
            Some(r@)
        } else {
            None
        },
        None => None,
    }
}

/// A todo after an edit that was not refused.
pub open spec fn edited(t: TodoView, e: TodoEdit) -> TodoView {
    TodoView {
        status: or_keep(e.status, t.status),
        project: match e.project {
            Some(p) => slug_view(p),
            None => t.project,
        },
        description: match e.description {
            Some(d) => trim(d@),
            None => t.description,
        },
        priority: or_keep(e.priority, t.priority),
        recurrence: match e.recurrence {
            Some(r) => recurrence_set(r),
            None => t.recurrence,
        },
        id: t.id,
        depends_on: match e.depends_on {
            Some(v) => ids_view(v@),
            None => t.depends_on,
        },
        created: match e.created {
            Some(s) => stamp_view(s),
            None => t.created,
        },
        start: match e.start {
            Some(s) => stamp_view(s),
            None => t.start,
        },
        scheduled: match e.scheduled {
            Some(s) => stamp_view(s),
            None => t.scheduled,
        },
        due: match e.due {
            Some(s) => stamp_view(s),
            None => t.due,
        },
        cancelled: match e.cancelled {
            Some(s) => stamp_view(s),
            None => t.cancelled,
        },
        done: match e.done {
            Some(s) => stamp_view(s),
            None => t.done,
        },
        on_completion: or_keep(e.on_completion, t.on_completion),
    }
}

/// Whether an edit is refused: only a description can be.
pub open spec fn edit_refused(t: TodoView, e: TodoEdit) -> bool {
    match e.description {
        Some(d) => new_todo(t.status, d@) is None,
        None => false,
    }
}

/// What a surface narrows the list by. Every field absent means every todo.
#[derive(Debug)]
pub struct TodoQuery {
    pub project: Option<ProjectSlug>,
    pub status: Option<TodoStatus>,
    /// Only todos that still want doing; an unknown checkbox counts as open.
    pub only_open: bool,
    /// Only todos due on or before this day, the time of day ignored.
    pub due_before: Option<Stamp>,
    /// Only todos scheduled for this day, the time of day ignored.
    pub scheduled_on: Option<Stamp>,
}

impl Default for TodoQuery {
    fn default() -> (query: Self)
        ensures
            query.project is None && query.status is None && !query.only_open && query.due_before is None
                && query.scheduled_on is None,
    {
        TodoQuery { project: None, status: None, only_open: false, due_before: None, scheduled_on: None }
    }
}

/// Whether a todo is still open.
pub open spec fn view_open(t: TodoView) -> bool {
    !(t.status is Done || t.status is Cancelled)
}

/// Whether a query keeps a todo.
pub open spec fn keeps(q: TodoQuery, t: TodoView) -> bool {
    &&& (!q.only_open || view_open(t))
    &&& (q.project is None || t.project == slug_view(q.project))
    &&& (match q.status {
        Some(s) => t.status == s,
        None => true,
    })
    &&& (match q.due_before {
        Some(limit) => match t.due {
            Some(due) => !crate::clock::date_before(limit@.0, due.0),
            None => false,
        },
        None => true,
    })
    &&& (match q.scheduled_on {
        Some(day) => match t.scheduled {
            Some(s) => s.0 == day@.0,
            None => false,
        },
        None => true,
    })
}

impl Todo {
    #[verifier::type_invariant]
    spec fn valid(self) -> bool {
        is_description(self.description@)
    }

    /// The one way to build a todo, and so the one place the write-side rule
    /// lives: a description that is blank, spans lines, holds a signifier or
    /// opens with `[[` could not be written and read back, so it is refused.
    pub fn new(status: TodoStatus, description: &str) -> (result: Result<Self, ParseErrorKind>)
        ensures
            match result {
                Ok(t) => new_todo(status, description@) == Some(t@),
                Err(kind) => new_todo(status, description@) is None && kind is InvalidTodo && kind.found_text()
                    == trim(description@),
            },
    {
        let t = trimmed(&chars_of(description));
        proof {
            crate::text::lemma_trim_idempotent(description@);
        }
        if !description_ok(&t) {
            return Err(ParseErrorKind::InvalidTodo { found: string_of(&t) });
        }
        let todo = Todo {
            status,
            project: None,
            description: string_of(&t),
            priority: Priority::Normal,
            recurrence: None,
            id: None,
            depends_on: Vec::new(),
            created: None,
            start: None,
            scheduled: None,
            due: None,
            cancelled: None,
            done: None,
            on_completion: None,
        };
        assert(todo@.depends_on =~= Seq::<Seq<char>>::empty());
        Ok(todo)
    }

    pub fn description(&self) -> (text: &str)
        ensures
            text@ == self@.description,
    {
        proof {
            use_type_invariant(self);
        }
        self.description.as_str()
    }

    pub fn id(&self) -> (id: Option<&TodoId>)
        ensures
            match id {
                Some(i) => self@.id == Some(i@),
                None => self@.id is None,
            },
    {
        self.id.as_ref()
    }

    /// Whether this todo still wants doing.
    pub fn is_open(&self) -> (open: bool)
        ensures
            open == !(self@.status is Done || self@.status is Cancelled),
    {
        self.status.is_open()
    }

    /// Replaces the description under the rule `new` applies; a refusal changes
    /// nothing.
    pub fn set_description(&mut self, description: &str) -> (result: Result<(), ParseErrorKind>)
        ensures
            match result {
                Ok(()) => new_todo(old(self)@.status, description@) is Some && final(self)@ == (TodoView {
                    description: trim(description@),
                    ..old(self)@
                }),
                Err(kind) => new_todo(old(self)@.status, description@) is None && final(self)@ == old(self)@
                    && kind is InvalidTodo,
            },
    {
        match Todo::new(self.status, description) {
            Ok(fresh) => {
                proof {
                    use_type_invariant(&fresh);
                }
                self.description = fresh.description;
                Ok(())
            },
            Err(kind) => Err(kind),
        }
    }

    /// The `#tag`s in the description, in the order they appear.
    pub fn tags(&self) -> (tags: Vec<String>)
        ensures
            crate::document::strings_view(tags@) == tags_of(words(self@.description)),
    {
        proof {
            use_type_invariant(self);
        }
        let ws = words_of(&chars_of(self.description.as_str()));
        let ghost all = char_views(ws@);
        let mut out: Vec<String> = Vec::new();
        let mut k: usize = 0;
        while k < ws.len()
            invariant
                k <= ws@.len(),
                all == char_views(ws@),
                crate::document::strings_view(out@) == tags_of(all.subrange(0, k as int)),
            decreases ws.len() - k,
        {
            proof {
                let p = all.subrange(0, k + 1);
                assert(p.drop_last() =~= all.subrange(0, k as int));
                assert(p.last() == ws@[k as int]@);
            }
            let w = &ws[k];
            if w.len() > 1 && w[0] == '#' {
                let ghost before = crate::document::strings_view(out@);
                let tag = slice(w, 1, w.len());
                out.push(string_of(&tag));
                assert(tag@ =~= w@.drop_first());
                assert(crate::document::strings_view(out@) =~= before.push(tag@));
            }
            k = k + 1;
        }
        assert(all.subrange(0, all.len() as int) =~= all);
        out
    }

    /// Applies an edit, field by field. The description goes first because it
    /// is the only field that can be refused, and a refusal changes nothing.
    pub fn apply(&mut self, edit: TodoEdit) -> (result: Result<(), Error>)
        ensures
            match result {
                Ok(()) => !edit_refused(old(self)@, edit) && final(self)@ == edited(old(self)@, edit),
                Err(e) => edit_refused(old(self)@, edit) && final(self)@ == old(self)@ && e is Grammar,
            },
    {
        let ghost e = edit;
        match &edit.description {
            Some(d) => match self.set_description(d.as_str()) {
                Ok(()) => {},
                Err(kind) => return Err(Error::Grammar(kind)),
            },
            None => {},
        }
        proof {
            use_type_invariant(&*self);
        }
        let TodoEdit {
            status,
            description: _,
            project,
            priority,
            recurrence,
            depends_on,
            created,
            start,
            scheduled,
            due,
            cancelled,
            done,
            on_completion,
        } = edit;
        self.status = pick(status, self.status);
        self.priority = pick(priority, self.priority);
        self.created = pick(created, self.created);
        self.start = pick(start, self.start);
        self.scheduled = pick(scheduled, self.scheduled);
        self.due = pick(due, self.due);
        self.cancelled = pick(cancelled, self.cancelled);
        self.done = pick(done, self.done);
        self.on_completion = pick(on_completion, self.on_completion);
        if let Some(v) = project {
            self.project = v;
        }
        if let Some(v) = recurrence {
            self.recurrence = match v {
                Some(rule) => if trimmed(&chars_of(rule.as_str())).len() > 0 {
                    Some(rule)
                } else {
                    None
                },
                None => None,
            };
        }
        if let Some(v) = depends_on {
            self.depends_on = v;
        }
        proof {
            assert(final(self)@ =~= edited(old(self)@, e));
        }
        Ok(())
    }

    /// Reads one field onto this todo; `false` when it is refused.
    fn take_field(&mut self, sig: char, value: &[char]) -> (taken: bool)
        ensures
            taken == field_step(old(self)@, sig, value@) is Some,
            taken ==> final(self)@ == field_step(old(self)@, sig, value@)->0,
    {
        proof {
            use_type_invariant(&*self);
            reveal(field_step);
        }
        let text = string_of(value);
        if sig == CREATED || sig == START || sig == SCHEDULED || sig == DUE || sig == DONE || sig == CANCELLED {
            let stamp = match Stamp::parse(text.as_str()) {
                Ok(s) => s,
                Err(_) => return false,
            };
            if sig == CREATED {
                if self.created.is_some() {
                    return false;
                }
                self.created = Some(stamp);
            } else if sig == START {
                if self.start.is_some() {
                    return false;
                }
                self.start = Some(stamp);
            } else if sig == SCHEDULED {
                if self.scheduled.is_some() {
                    return false;
                }
                self.scheduled = Some(stamp);
            } else if sig == DUE {
                if self.due.is_some() {
                    return false;
                }
                self.due = Some(stamp);
            } else if sig == DONE {
                if self.done.is_some() {
                    return false;
                }
                self.done = Some(stamp);
            } else {
                if self.cancelled.is_some() {
                    return false;
                }
                self.cancelled = Some(stamp);
            }
            true
        } else if sig == ID {
            match TodoId::new(text.as_str()) {
                Ok(id) => {
                    if self.id.is_some() {
                        return false;
                    }
                    self.id = Some(id);
                    true
                },
                Err(_) => false,
            }
        } else if sig == ON_COMPLETION {
            match OnCompletion::parse(text.as_str()) {
                Ok(c) => {
                    proof {
                        match c {
                            OnCompletion::Keep => {},
                            OnCompletion::Delete => { assert(completion_word(c) != completion_word(OnCompletion::Keep)); },
                        }
                    }
                    if self.on_completion.is_some() {
                        return false;
                    }
                    self.on_completion = Some(c);
                    true
                },
                Err(_) => false,
            }
        } else if sig == RECURRENCE && value.len() > 0 {
            if self.recurrence.is_some() {
                return false;
            }
            self.recurrence = Some(text);
            true
        } else if sig == DEPENDS_ON && value.len() > 0 {
            if self.depends_on.len() > 0 {
                return false;
            }
            match dep_ids_of(value) {
                Some(ids) => {
                    self.depends_on = ids;
                    true
                },
                None => false,
            }
        } else if value.len() == 0 {
            match Priority::from_symbol(sig) {
                Some(p) => {
                    if self.priority != Priority::Normal {
                        return false;
                    }
                    self.priority = p;
                    true
                },
                None => false,
            }
        } else {
            false
        }
    }

    /// Reads a todo line, the bullet already stripped.
    #[verifier::rlimit(30)]
    pub fn parse(content: &str) -> (result: Result<Self, ParseErrorKind>)
        ensures
            match result {
                Ok(t) => todo_reads(content@) == Some(t@),
                Err(kind) => todo_reads(content@) is None && kind is InvalidTodo,
            },
    {
        let chars = chars_of(content);
        if chars.len() < 3 || chars[0] != '[' || chars[2] != ']' {
            return Err(ParseErrorKind::InvalidTodo { found: content.to_owned() });
        }
        let symbol = chars[1];
        let after = trimmed_start(&slice(&chars, 3, chars.len()));
        let (project, rest) = wikilink_chars(&after);
        let (description, fields) = match first_signifier(&rest) {
            Some(i) => (trimmed_end(&slice(&rest, 0, i)), slice(&rest, i, rest.len())),
            None => (trimmed_end(&rest), Vec::new()),
        };
        let mut todo = match Todo::new(TodoStatus::from_symbol(symbol), string_of(&description).as_str()) {
            Ok(t) => t,
            Err(kind) => return Err(kind),
        };
        proof {
            use_type_invariant(&todo);
        }
        todo.project = project;
        let ghost base = todo@;
        let mut pos: usize = 0;
        assert(fields@.subrange(0, fields@.len() as int) =~= fields@);
        assert(todo_reads(content@) == read_fields(base, field_list(fields@)));
        while pos < fields.len()
            invariant
                pos <= fields@.len(),
                todo_reads(content@) == read_fields(base, field_list(fields@)),
                read_fields(base, field_list(fields@)) == read_fields(todo@, field_list(fields@.subrange(pos as int, fields@.len() as int))),
            decreases fields.len() - pos,
        {
            let (sig, value, end) = next_field(&fields, pos);
            proof {
                let region = field_list(fields@.subrange(pos as int, fields@.len() as int));
                assert(region[0] == (sig, value@));
                assert(region.drop_first() =~= field_list(fields@.subrange(end as int, fields@.len() as int)));
            }
            if !todo.take_field(sig, &value) {
                return Err(ParseErrorKind::InvalidTodo { found: content.to_owned() });
            }
            pos = end;
        }
        assert(fields@.subrange(pos as int, fields@.len() as int) =~= Seq::<char>::empty());
        Ok(todo)
    }

    /// The field region, in the one canonical order.
    fn field_chars(&self) -> (text: Vec<char>)
        ensures
            text@ == fields_text(self@),
    {
        let mut out: Vec<char> = Vec::new();
        match self.priority.symbol() {
            Some(c) => {
                let none: Vec<char> = Vec::new();
                push_field(&mut out, c, &none);
            },
            None => {},
        }
        let ghost p1 = out@;
        match &self.recurrence {
            Some(rule) => push_field(&mut out, RECURRENCE, &chars_of(rule.as_str())),
            None => {},
        }
        let ghost p2 = out@;
        match &self.id {
            Some(id) => push_field(&mut out, ID, &id.to_chars()),
            None => {},
        }
        let ghost p3 = out@;
        if self.depends_on.len() > 0 {
            push_field(&mut out, DEPENDS_ON, &joined_ids(&self.depends_on));
        }
        let ghost p4 = out@;
        push_stamp(&mut out, CREATED, self.created);
        push_stamp(&mut out, START, self.start);
        push_stamp(&mut out, SCHEDULED, self.scheduled);
        push_stamp(&mut out, DUE, self.due);
        push_stamp(&mut out, CANCELLED, self.cancelled);
        push_stamp(&mut out, DONE, self.done);
        let ghost p5 = out@;
        match self.on_completion {
            Some(c) => push_field(&mut out, ON_COMPLETION, &completion_chars(c)),
            None => {},
        }
        proof {
            reveal(fields_text);
            let v = self@;
            assert(v.depends_on.len() == self.depends_on@.len());
            assert(out@ =~= fields_text(v));
        }
        out
    }

    /// Writes the line, signifiers in one canonical order, so a second write
    /// changes nothing.
    pub fn render(&self) -> (line: String)
        ensures
            line@ == todo_line(self@),
    {
        proof {
            use_type_invariant(self);
        }
        let mut out: Vec<char> = Vec::new();
        out.push('-');
        out.push(' ');
        out.push('[');
        out.push(self.status.symbol());
        out.push(']');
        out.push(' ');
        append(&mut out, &format_wikilink_chars(self.project.as_ref()));
        append(&mut out, &chars_of(self.description.as_str()));
        append(&mut out, &self.field_chars());
        proof {
            let v = self@;
            assert(out@ =~= todo_line(v));
        }
        string_of(&out)
    }
}

impl Clone for Todo {
    fn clone(&self) -> (copy: Self)
        ensures
            copy@ == self@,
    {
        proof {
            use_type_invariant(self);
        }
        Todo {
            status: self.status,
            project: copy_project(&self.project),
            description: self.description.clone(),
            priority: self.priority,
            recurrence: text_copy(&self.recurrence),
            id: match &self.id {
                Some(i) => Some(i.clone()),
                None => None,
            },
            depends_on: ids_copy(&self.depends_on),
            created: self.created,
            start: self.start,
            scheduled: self.scheduled,
            due: self.due,
            cancelled: self.cancelled,
            done: self.done,
            on_completion: self.on_completion,
        }
    }
}

/// A text padded with spaces on the right to `width` characters.
pub open spec fn padded(t: Seq<char>, width: nat) -> Seq<char> {
    if t.len() >= width {
        t
    } else {
        t + Seq::new((width - t.len()) as nat, |i: int| ' ')
    }
}

/// The marks a listing row shows, those present, in order: the priority
/// signifier, `[project]`, `due <stamp>`, `at <stamp>` for the scheduled
/// stamp, and `repeats`.
pub open spec fn row_marks(v: TodoView) -> Seq<Seq<char>> {
    let m0: Seq<Seq<char>> = match priority_symbol(v.priority) {
        Some(c) => seq![seq![c]],
        None => Seq::empty(),
    };
    let m1 = match v.project {
        Some(p) => m0.push(seq!['['] + p + seq![']']),
        None => m0,
    };
    let m2 = match v.due {
        Some(d) => m1.push(seq!['d', 'u', 'e', ' '] + stamp_text(d)),
        None => m1,
    };
    let m3 = match v.scheduled {
        Some(d) => m2.push(seq!['a', 't', ' '] + stamp_text(d)),
        None => m2,
    };
    match v.recurrence {
        Some(_) => m3.push(seq!['r', 'e', 'p', 'e', 'a', 't', 's']),
        None => m3,
    }
}

/// Each mark after two spaces.
pub open spec fn marks_text(marks: Seq<Seq<char>>) -> Seq<char>
    decreases marks.len(),
{
    if marks.len() == 0 {
        Seq::empty()
    } else {
        marks_text(marks.drop_last()) + seq![' ', ' '] + marks.last()
    }
}

/// One row of a todo listing: the id (or `-`) padded to eight characters, a
/// space, the status symbol in brackets, a space, the description, then the
/// marks, each after two spaces.
pub open spec fn row_text(v: TodoView) -> Seq<char> {
    let id = match v.id {
        Some(i) => i,
        None => seq!['-'],
    };
    padded(id, 8) + seq![' ', '[', status_symbol(v.status), ']', ' '] + v.description + marks_text(row_marks(v))
}

fn push_mark(out: &mut Vec<char>, mark: &[char])
    ensures
        final(out)@ == old(out)@ + seq![' ', ' '] + mark@,
{
    out.push(' ');
    out.push(' ');
    append(out, mark);
    assert(final(out)@ =~= old(out)@ + seq![' ', ' '] + mark@);
}

proof fn lemma_marks_push(marks: Seq<Seq<char>>, mark: Seq<char>)
    ensures
        marks_text(marks.push(mark)) == marks_text(marks) + seq![' ', ' '] + mark,
{
    assert(marks.push(mark).drop_last() =~= marks);
}

impl Todo {
    /// The marks of the todo's listing row, each after two spaces.
    fn marks_chars(&self) -> (text: Vec<char>)
        ensures
            text@ == marks_text(row_marks(self@)),
    {
        let mut out: Vec<char> = Vec::new();
        let ghost m0: Seq<Seq<char>> = match priority_symbol(self.priority) {
            Some(c) => seq![seq![c]],
            None => Seq::empty(),
        };
        match self.priority.symbol() {
            Some(c) => {
                let mark: [char; 1] = [c];
                push_mark(&mut out, &mark);
                proof {
                    assert(mark@ =~= seq![c]);
                    lemma_marks_push(Seq::empty(), seq![c]);
                    assert(Seq::<Seq<char>>::empty().push(seq![c]) =~= m0);
                }
            },
            None => {},
        }
        assert(out@ =~= marks_text(m0));
        let ghost m1 = match self@.project {
            Some(p) => m0.push(seq!['['] + p + seq![']']),
            None => m0,
        };
        match &self.project {
            Some(p) => {
                let mut mark: Vec<char> = vec!['['];
                append(&mut mark, &p.to_chars());
                mark.push(']');
                push_mark(&mut out, &mark);
                proof {
                    lemma_marks_push(m0, mark@);
                    assert(mark@ =~= seq!['['] + p@ + seq![']']);
                }
            },
            None => {},
        }
        assert(out@ == marks_text(m1));
        let ghost m2 = match self@.due {
            Some(d) => m1.push(seq!['d', 'u', 'e', ' '] + stamp_text(d)),
            None => m1,
        };
        match &self.due {
            Some(d) => {
                let mut mark: Vec<char> = vec!['d', 'u', 'e', ' '];
                append(&mut mark, &d.render_chars());
                push_mark(&mut out, &mark);
                proof {
                    lemma_marks_push(m1, mark@);
                }
            },
            None => {},
        }
        assert(out@ == marks_text(m2));
        let ghost m3 = match self@.scheduled {
            Some(d) => m2.push(seq!['a', 't', ' '] + stamp_text(d)),
            None => m2,
        };
        match &self.scheduled {
            Some(d) => {
                let mut mark: Vec<char> = vec!['a', 't', ' '];
                append(&mut mark, &d.render_chars());
                push_mark(&mut out, &mark);
                proof {
                    lemma_marks_push(m2, mark@);
                }
            },
            None => {},
        }
        assert(out@ == marks_text(m3));
        match &self.recurrence {
            Some(_) => {
                let mark: [char; 7] = ['r', 'e', 'p', 'e', 'a', 't', 's'];
                push_mark(&mut out, &mark);
                proof {
                    assert(mark@ =~= seq!['r', 'e', 'p', 'e', 'a', 't', 's']);
                    lemma_marks_push(m3, mark@);
                }
            },
            None => {},
        }
        out
    }

    /// The todo's row in a listing; the id comes first because it is what
    /// every other command takes.
    pub fn list_row(&self) -> (row: String)
        ensures
            row@ == row_text(self@),
    {
        proof {
            use_type_invariant(self);
        }
        let mut out: Vec<char> = match &self.id {
            Some(id) => id.to_chars(),
            None => vec!['-'],
        };
        let ghost id_text = out@;
        assert(id_text == match self@.id {
            Some(i) => i,
            None => seq!['-'],
        });
        while out.len() < 8
            invariant
                id_text.len() <= out@.len(),
                id_text.len() >= 8 ==> out@ == id_text,
                id_text.len() < 8 ==> out@.len() <= 8,
                out@.subrange(0, id_text.len() as int) == id_text,
                forall|i: int| id_text.len() <= i < out@.len() ==> out@[i] == ' ',
            decreases 8 - out@.len(),
        {
            let ghost before = out@;
            out.push(' ');
            assert(out@.subrange(0, id_text.len() as int) =~= before.subrange(0, id_text.len() as int));
        }
        assert(out@ =~= padded(id_text, 8));
        out.push(' ');
        out.push('[');
        out.push(self.status.symbol());
        out.push(']');
        out.push(' ');
        append(&mut out, &chars_of(self.description()));
        append(&mut out, &self.marks_chars());
        assert(out@ =~= row_text(self@));
        string_of(&out)
    }
}

impl ListLine for Todo {
    open spec fn refused(content: Seq<char>, kind: ParseErrorKind) -> bool {
        kind is InvalidTodo
    }

    open spec fn reads(content: Seq<char>) -> Option<TodoView> {
        todo_reads(content)
    }

    open spec fn line_of(v: TodoView) -> Seq<char> {
        todo_line(v)
    }

    fn read_line(content: &str) -> (result: Result<Self, ParseErrorKind>) {
        Todo::parse(content)
    }

    fn write_line(&self) -> (line: String) {
        self.render()
    }
}

} // verus!

verus! {

/// How many todos carry this id.
pub open spec fn count_carrying(ts: Seq<TodoView>, id: Seq<char>) -> nat
    decreases ts.len(),
{
    if ts.len() == 0 {
        0
    } else {
        count_carrying(ts.drop_last(), id) + if ts.last().id == Some(id) {
            1nat
        } else {
            0nat
        }
    }
}

/// The first todo carrying this id.
pub open spec fn first_carrying(ts: Seq<TodoView>, id: Seq<char>) -> Option<int>
    decreases ts.len(),
{
    if ts.len() == 0 {
        None
    } else {
        match first_carrying(ts.drop_last(), id) {
            Some(i) => Some(i),
            None => if ts.last().id == Some(id) {
                Some(ts.len() - 1)
            } else {
                None
            },
        }
    }
}

/// Some todo other than the one at `except` carries this id.
pub open spec fn carried_by_other(ts: Seq<TodoView>, id: Seq<char>, except: Option<int>) -> bool {
    exists|i: int| 0 <= i < ts.len() && (#[trigger] ts[i]).id == Some(id) && except != Some(i)
}

pub proof fn lemma_count_carrying(ts: Seq<TodoView>, id: Seq<char>)
    ensures
        (count_carrying(ts, id) == 0) <==> first_carrying(ts, id) is None,
        first_carrying(ts, id) matches Some(i) ==> 0 <= i < ts.len() && ts[i].id == Some(id),
        count_carrying(ts, id) == 0 <==> !carried_by_other(ts, id, None),
        count_carrying(ts, id) == 1 ==> (first_carrying(ts, id) matches Some(i) && !carried_by_other(ts, id, Some(i))),
        count_carrying(ts, id) >= 2 ==> (first_carrying(ts, id) matches Some(i) && carried_by_other(ts, id, Some(i))),
    decreases ts.len(),
{
    if ts.len() > 0 {
        let init = ts.drop_last();
        lemma_count_carrying(init, id);
        assert forall|i: int| 0 <= i < init.len() implies init[i] == ts[i] by {}
        if count_carrying(init, id) == 0 {
            assert(!carried_by_other(init, id, None));
            if ts.last().id == Some(id) {
                assert(ts[ts.len() - 1].id == Some(id));
            } else {
                assert forall|i: int| 0 <= i < ts.len() implies (#[trigger] ts[i]).id != Some(id) by {
                    if i < init.len() {
                        assert(ts[i] == init[i]);
                        assert(!(0 <= i < init.len() && init[i].id == Some(id) && None::<int> != Some(i)));
                    }
                }
            }
        } else {
            let f = first_carrying(init, id)->0;
            assert(ts[f] == init[f]);
            if count_carrying(init, id) == 1 {
                if ts.last().id == Some(id) {
                    assert(ts[ts.len() - 1].id == Some(id));
                    assert(carried_by_other(ts, id, Some(f)));
                } else {
                    assert forall|i: int| 0 <= i < ts.len() && (#[trigger] ts[i]).id == Some(id) implies i == f by {
                        if i < init.len() {
                            assert(ts[i] == init[i]);
                            if i != f {
                                assert(carried_by_other(init, id, Some(f)));
                            }
                        }
                    }
                }
            } else {
                let w = choose|i: int| 0 <= i < init.len() && (#[trigger] init[i]).id == Some(id) && Some(f) != Some(i);
                assert(ts[w] == init[w]);
                assert(carried_by_other(ts, id, Some(f)));
            }
        }
    }
}

/// How many todos have no id yet.
pub open spec fn count_unassigned(ts: Seq<TodoView>) -> nat
    decreases ts.len(),
{
    if ts.len() == 0 {
        0
    } else {
        count_unassigned(ts.drop_last()) + if ts.last().id is None {
            1nat
        } else {
            0nat
        }
    }
}

/// No todo carries this id.
pub open spec fn id_free(ts: Seq<TodoView>, id: Seq<char>) -> bool {
    forall|j: int| 0 <= j < ts.len() ==> (#[trigger] ts[j]).id != Some(id)
}

/// The ids the todos carry.
#[verifier::opaque]
pub open spec fn carried(ts: Seq<TodoView>) -> Set<Seq<char>> {
    Set::new(|x: Seq<char>| exists|j: int| 0 <= j < ts.len() && (#[trigger] ts[j]).id == Some(x))
}

/// The todos a query keeps, in file order.
pub open spec fn kept(q: TodoQuery, ts: Seq<TodoView>) -> Seq<TodoView>
    decreases ts.len(),
{
    if ts.len() == 0 {
        Seq::empty()
    } else {
        let rest = kept(q, ts.drop_last());
        if keeps(q, ts.last()) {
            rest.push(ts.last())
        } else {
            rest
        }
    }
}

pub open spec fn todos_title() -> Seq<char> {
    seq!['T', 'o', 'd', 'o', 's']
}

/// The parts of the todo file the library reads.
pub struct TodosView {
    pub todos: Seq<TodoView>,
    /// Todo lines that did not read, kept and written back.
    pub unparsed: Seq<Seq<char>>,
    /// The line numbers of those lines, and the rule each broke.
    pub problems: Seq<nat>,
    pub problem_kinds: Seq<ParseErrorKind>,
}

/// The todo file, with its prose and frontmatter intact.
#[derive(Debug)]
pub struct Todos {
    todos: Vec<Todo>,
    unparsed: Vec<String>,
    problems: Vec<ParseError>,
    document: Document,
}

impl View for Todos {
    type V = TodosView;

    closed spec fn view(&self) -> TodosView {
        TodosView {
            todos: views_of(self.todos@),
            unparsed: strings_view(self.unparsed@),
            problems: problem_lines(self.problems@),
            problem_kinds: problem_kinds(self.problems@),
        }
    }
}

fn title_key(chars: &[char]) -> (key: String)
    ensures
        key@ == chars@,
{
    string_of(chars)
}

impl Todos {
    pub closed spec fn document(self) -> Document {
        self.document
    }

    /// An empty list, with the `# Todos` heading a person reading the file
    /// expects.
    pub fn new() -> (todos: Self)
        ensures
            todos@.todos.len() == 0,
            todos@.unparsed.len() == 0,
            todos@.problems.len() == 0,
            todos@.problem_kinds.len() == 0,
            todos.document().preamble_lines() == seq![Seq::<char>::empty(), "# Todos"@, Seq::<char>::empty()],
            todos.document().section_list().len() == 0,
            todos.document().has_front(),
            front_text(todos.document().front()).is_empty(),
            front_count(todos.document().front()).is_empty(),
    {
        let mut document = Document::new();
        let mut preamble: Vec<String> = Vec::new();
        preamble.push(String::new());
        preamble.push("# Todos".to_owned());
        preamble.push(String::new());
        assert(strings_view(preamble@) =~= seq![Seq::<char>::empty(), "# Todos"@, Seq::<char>::empty()]);
        document.set_preamble(preamble);
        Todos { todos: Vec::new(), unparsed: Vec::new(), problems: Vec::new(), document }
    }

    /// Reads the todo file. Only a malformed frontmatter block fails; a line
    /// that does not read is kept and reported.
    pub fn parse(text: &str) -> (result: Result<Self, Error>)
        ensures
            match result {
                Ok(t) => {
                    let read = read_entries::<Todo>(section_content(t.document().section_list(), todos_title()));
                    &&& reads_document(text@, t.document())
                    &&& t@.todos == read.0
                    &&& t@.unparsed == read.1
                    &&& t@.problems == read.2
                    &&& t@.problem_kinds.len() == t@.problems.len()
                    &&& forall|i: int|
                        0 <= i < t@.unparsed.len() ==> line_refusal::<Todo>(#[trigger] t@.unparsed[i], t@.problem_kinds[i])
                },
                Err(e) => refuses_document(text@, e),
            },
    {
        let document = match Document::parse(text) {
            Ok(d) => d,
            Err(e) => return Err(e),
        };
        let mut problems: Vec<ParseError> = Vec::new();
        let section: [char; 5] = ['T', 'o', 'd', 'o', 's'];
        assert(section@ =~= todos_title());
        let (todos, unparsed) = document.parse_list_section::<Todo>(title_key(&section).as_str(), &mut problems);
        let parsed = Todos { todos, unparsed, problems, document };
        proof {
            assert(problem_lines(Seq::<ParseError>::empty()) =~= Seq::<nat>::empty());
            let read = read_entries::<Todo>(section_content(parsed.document().section_list(), todos_title()));
            assert(Seq::<nat>::empty() + read.2 =~= read.2);
        }
        Ok(parsed)
    }

    /// The sections the file writes: its document's, with the todo list
    /// replaced.
    pub open spec fn written_sections(self) -> Seq<(Seq<char>, Seq<Seq<char>>)> {
        upserted(
            self.document().section_list(),
            todos_title(),
            written_lines::<Todo>(self@.todos, self@.unparsed),
            Seq::empty(),
        )
    }

    /// Writes the todos into their section, keeping every other section, the
    /// prose and the frontmatter.
    pub fn render(&self) -> (text: String)
        ensures
            exists|written: Document| #![auto]
                front_text(written.front()) == front_text(self.document().front())
                    && front_count(written.front()) == front_count(self.document().front())
                    && written.preamble_lines() == self.document().preamble_lines()
                    && written.section_list() == self.written_sections()
                    && written.has_front() == self.document().has_front() && text@ == written.text(),
    {
        let mut document = self.document.copy();
        let section: [char; 5] = ['T', 'o', 'd', 'o', 's'];
        assert(section@ =~= todos_title());
        let none: [&str; 0] = [];
        assert(crate::document::strs_view(none@) =~= Seq::<Seq<char>>::empty());
        document.write_list_section::<Todo>(title_key(&section).as_str(), self.todos.as_slice(), self.unparsed.as_slice(), &none);
        document.render()
    }

    /// The todos, in file order.
    pub fn todos(&self) -> (todos: &[Todo])
        ensures
            views_of(todos@) == self@.todos,
    {
        self.todos.as_slice()
    }

    /// Todo lines the app could not read.
    pub fn problems(&self) -> (problems: &[ParseError])
        ensures
            problem_lines(problems@) == self@.problems,
            problem_kinds(problems@) == self@.problem_kinds,
    {
        self.problems.as_slice()
    }

    /// How many todos carry this id, and the first.
    fn carrying(&self, id: &TodoId) -> (found: (usize, Option<usize>))
        ensures
            found.0 == count_carrying(self@.todos, id@),
            match found.1 {
                Some(i) => first_carrying(self@.todos, id@) == Some(i as int),
                None => first_carrying(self@.todos, id@) is None,
            },
    {
        let ghost ts = self@.todos;
        let mut count: usize = 0;
        let mut first: Option<usize> = None;
        let mut k: usize = 0;
        while k < self.todos.len()
            invariant
                k <= self.todos@.len(),
                ts == views_of(self.todos@),
                count == count_carrying(ts.subrange(0, k as int), id@),
                count <= k,
                match first {
                    Some(i) => first_carrying(ts.subrange(0, k as int), id@) == Some(i as int),
                    None => first_carrying(ts.subrange(0, k as int), id@) is None,
                },
            decreases self.todos.len() - k,
        {
            proof {
                assert(ts.subrange(0, k + 1).drop_last() =~= ts.subrange(0, k as int));
                assert(ts[k as int] == self.todos@[k as int]@);
            }
            let here = match self.todos[k].id() {
                Some(other) => other.same(id),
                None => false,
            };
            if here {
                count = count + 1;
                if first.is_none() {
                    first = Some(k);
                }
            }
            k = k + 1;
        }
        assert(ts.subrange(0, ts.len() as int) =~= ts);
        (count, first)
    }

    /// The position of the one todo carrying this id. Reads are lenient, so a
    /// file may carry an id twice; addressing such an id is refused rather
    /// than resolved by picking one.
    pub fn position(&self, id: &TodoId) -> (result: Result<usize, Error>)
        ensures
            match result {
                Ok(i) => count_carrying(self@.todos, id@) == 1 && i < self@.todos.len() && self@.todos[i as int].id
                    == Some(id@),
                Err(e) => {
                    ||| {
                        &&& count_carrying(self@.todos, id@) == 0
                        &&& e matches Error::NoSuchTodo { id: found }
                        &&& found@ == id@
                    }
                    ||| {
                        &&& count_carrying(self@.todos, id@) >= 2
                        &&& e matches Error::AmbiguousTodo { id: found, count }
                        &&& found@ == id@
                        &&& count == count_carrying(self@.todos, id@)
                    }
                },
            },
    {
        let (count, first) = self.carrying(id);
        proof {
            lemma_count_carrying(self@.todos, id@);
        }
        if count == 1 {
            match first {
                Some(i) => Ok(i),
                None => Ok(0),
            }
        } else if count == 0 {
            Err(Error::NoSuchTodo { id: id.as_str().to_owned() })
        } else {
            Err(Error::AmbiguousTodo { id: id.as_str().to_owned(), count })
        }
    }

    /// The one todo carrying this id.
    pub fn get(&self, id: &TodoId) -> (result: Result<&Todo, Error>)
        ensures
            match result {
                Ok(t) => count_carrying(self@.todos, id@) == 1 && t@.id == Some(id@),
                Err(e) => count_carrying(self@.todos, id@) != 1 && (e is NoSuchTodo || e is AmbiguousTodo),
            },
    {
        match self.position(id) {
            Ok(i) => Ok(&self.todos[i]),
            Err(e) => Err(e),
        }
    }

    /// Removes the todo carrying `id`, giving it back; a refusal changes
    /// nothing.
    pub fn remove(&mut self, id: &TodoId) -> (result: Result<Todo, Error>)
        ensures
            match result {
                Ok(t) => count_carrying(old(self)@.todos, id@) == 1 && t@.id == Some(id@) && exists|i: int|
                    0 <= i < old(self)@.todos.len() && old(self)@.todos[i] == t@ && final(self)@.todos == old(
                        self,
                    )@.todos.remove(i),
                Err(e) => count_carrying(old(self)@.todos, id@) != 1 && final(self)@ == old(self)@ && (e is NoSuchTodo
                    || e is AmbiguousTodo),
            },
            final(self)@.unparsed == old(self)@.unparsed,
            final(self)@.problems == old(self)@.problems,
            final(self)@.problem_kinds == old(self)@.problem_kinds,
            final(self).document() == old(self).document(),
    {
        match self.position(id) {
            Ok(i) => {
                let ghost before = self.todos@;
                let t = self.todos.remove(i);
                assert(views_of(self.todos@) =~= views_of(before).remove(i as int));
                Ok(t)
            },
            Err(e) => Err(e),
        }
    }

    /// Applies an edit to the todo carrying `id`; a refusal changes nothing.
    pub fn update(&mut self, id: &TodoId, edit: TodoEdit) -> (result: Result<(), Error>)
        ensures
            match result {
                Ok(()) => count_carrying(old(self)@.todos, id@) == 1 && exists|i: int|
                    0 <= i < old(self)@.todos.len() && old(self)@.todos[i].id == Some(id@) && !edit_refused(
                        old(self)@.todos[i],
                        edit,
                    ) && final(self)@.todos == old(self)@.todos.update(i, edited(old(self)@.todos[i], edit)),
                Err(e) => final(self)@ == old(self)@ && ((count_carrying(old(self)@.todos, id@) != 1 && (e is NoSuchTodo
                    || e is AmbiguousTodo)) || (count_carrying(old(self)@.todos, id@) == 1 && e is Grammar && exists|
                    i: int|
                    0 <= i < old(self)@.todos.len() && old(self)@.todos[i].id == Some(id@) && edit_refused(
                        old(self)@.todos[i],
                        edit,
                    ))),
            },
            final(self)@.unparsed == old(self)@.unparsed,
            final(self)@.problems == old(self)@.problems,
            final(self)@.problem_kinds == old(self)@.problem_kinds,
            final(self).document() == old(self).document(),
    {
        let i = match self.position(id) {
            Ok(i) => i,
            Err(e) => return Err(e),
        };
        let ghost e = edit;
        let ghost before = views_of(self.todos@);
        let mut t = self.todos[i].clone();
        match t.apply(edit) {
            Ok(()) => {
                self.todos.set(i, t);
                assert(views_of(self.todos@) =~= before.update(i as int, edited(before[i as int], e)));
                Ok(())
            },
            Err(err) => Err(err),
        }
    }
}


impl Default for Todos {
    fn default() -> (todos: Self)
        ensures
            todos@.todos.len() == 0,
            todos@.unparsed.len() == 0,
            todos@.problems.len() == 0,
            todos@.problem_kinds.len() == 0,
            todos.document().preamble_lines() == seq![Seq::<char>::empty(), "# Todos"@, Seq::<char>::empty()],
            todos.document().section_list().len() == 0,
    {
        Todos::new()
    }
}

/// Whether the slot names the same project as the query.
fn same_project(a: &Option<ProjectSlug>, b: &Option<ProjectSlug>) -> (equal: bool)
    ensures
        equal == (slug_view(*a) == slug_view(*b)),
{
    match (a, b) {
        (Some(x), Some(y)) => x.same(y),
        (None, None) => true,
        _ => false,
    }
}

/// Whether a query keeps a todo.
fn query_keeps(q: &TodoQuery, t: &Todo) -> (keep: bool)
    ensures
        keep == keeps(*q, t@),
{
    if q.only_open && !t.is_open() {
        return false;
    }
    if q.project.is_some() && !same_project(&t.project, &q.project) {
        return false;
    }
    match q.status {
        Some(s) => {
            if t.status != s {
                return false;
            }
        },
        None => {},
    }
    match q.due_before {
        Some(limit) => match t.due {
            Some(due) => {
                if limit.date.is_before(due.date) {
                    return false;
                }
            },
            None => return false,
        },
        None => {},
    }
    match q.scheduled_on {
        Some(day) => match t.scheduled {
            Some(at) => at.date.same(day.date),
            None => false,
        },
        None => true,
    }
}

/// The query a day's schedule asks: todos scheduled for that day.
pub open spec fn scheduled_query(date: CalendarDate) -> TodoQuery {
    TodoQuery {
        project: None,
        status: None,
        only_open: false,
        due_before: None,
        scheduled_on: Some(Stamp { date, time: None }),
    }
}

/// The time of day a todo is scheduled at, if it has one.
pub open spec fn scheduled_time(v: TodoView) -> Option<nat> {
    match v.scheduled {
        Some(s) => s.1,
        None => None,
    }
}

/// Todos with no scheduled time of day first, then the timed ones by their
/// time of day, earliest first.
pub open spec fn in_time_of_day_order(s: Seq<TodoView>) -> bool {
    forall|i: int, j: int|
        0 <= i < j < s.len() ==> scheduled_time(#[trigger] s[i]) is None || (scheduled_time(#[trigger] s[j]) is Some
            && scheduled_time(s[i])->0 <= scheduled_time(s[j])->0)
}

/// Todos in key order are in time-of-day order.
pub proof fn lemma_todos_in_time_of_day_order(s: Seq<TodoView>)
    requires
        crate::order::is_sorted::<&Todo>(s),
    ensures
        in_time_of_day_order(s),
{
    assert forall|i: int, j: int| 0 <= i < j < s.len() implies scheduled_time(#[trigger] s[i]) is None || (
    scheduled_time(#[trigger] s[j]) is Some && scheduled_time(s[i])->0 <= scheduled_time(s[j])->0) by {
        assert(<&Todo as crate::order::Keyed>::key(s[i]) <= <&Todo as crate::order::Keyed>::key(s[j]));
    }
}

/// What each filter of a query asks of a todo, field by field: open only
/// means neither done nor cancelled; a project, that very project; a
/// status, that status; a due limit, a due date on or before it; a day, a
/// scheduled date on that day.
pub open spec fn passes_filters(q: TodoQuery, t: TodoView) -> bool {
    &&& q.only_open ==> !(t.status is Done) && !(t.status is Cancelled)
    &&& q.project matches Some(p) ==> t.project == Some(p@)
    &&& q.status matches Some(st) ==> t.status == st
    &&& q.due_before matches Some(limit) ==> (t.due matches Some(d) && !crate::clock::date_before(limit@.0, d.0))
    &&& q.scheduled_on matches Some(day) ==> (t.scheduled matches Some(sc) && sc.0 == day@.0)
}

/// A query keeps exactly the todos that pass every filter it sets, in file
/// order: each todo kept is one of the list's and passes them all, and every
/// todo of the list that passes them all is kept.
pub proof fn law_query_keeps_exactly(q: TodoQuery, ts: Seq<TodoView>)
    ensures
        forall|i: int|
            0 <= i < kept(q, ts).len() ==> ts.contains(#[trigger] kept(q, ts)[i]) && passes_filters(q, kept(q, ts)[i]),
        forall|j: int| 0 <= j < ts.len() && passes_filters(q, #[trigger] ts[j]) ==> kept(q, ts).contains(ts[j]),
    decreases ts.len(),
{
    if ts.len() > 0 {
        let init = ts.drop_last();
        law_query_keeps_exactly(q, init);
        let r0 = kept(q, init);
        let r = kept(q, ts);
        let x = ts.last();
        assert(x == ts[ts.len() - 1]);
        assert(keeps(q, x) == passes_filters(q, x));
        assert forall|i: int| 0 <= i < r.len() implies ts.contains(#[trigger] r[i]) && passes_filters(q, r[i]) by {
            if i < r0.len() {
                assert(r[i] == r0[i]);
                let m = choose|m: int| 0 <= m < init.len() && init[m] == r0[i];
                assert(ts[m] == init[m]);
            } else {
                assert(r[i] == x);
            }
        }
        assert forall|j: int| 0 <= j < ts.len() && passes_filters(q, #[trigger] ts[j]) implies r.contains(ts[j]) by {
            if j < init.len() {
                assert(init[j] == ts[j]);
                let m = choose|m: int| 0 <= m < r0.len() && r0[m] == init[j];
                assert(r[m] == r0[m]);
            } else {
                assert(r[r.len() - 1] == x);
            }
        }
    }
}

/// The todos a day lists come out untimed first, then by time of day: sorting
/// the todos a query keeps, as `scheduled_on` does, gives them in that order,
/// holding exactly the todos kept.
pub proof fn law_scheduled_in_time_of_day_order(q: TodoQuery, ts: Seq<TodoView>)
    ensures
        in_time_of_day_order(crate::order::sorted_by_key::<&Todo>(kept(q, ts))),
        crate::order::sorted_by_key::<&Todo>(kept(q, ts)).to_multiset() == kept(q, ts).to_multiset(),
{
    crate::order::law_sorted_by_key::<&Todo>(kept(q, ts));
    lemma_todos_in_time_of_day_order(crate::order::sorted_by_key::<&Todo>(kept(q, ts)));
}

/// A query for open todos keeps none that is done or cancelled; with no other
/// filter it keeps every todo that is neither. The todos kept are the list's
/// own, in file order.
pub proof fn law_open_todos_only(q: TodoQuery, ts: Seq<TodoView>)
    ensures
        q.only_open ==> forall|i: int|
            0 <= i < kept(q, ts).len() ==> !((#[trigger] kept(q, ts)[i]).status is Done) && !(kept(
                q,
                ts,
            )[i].status is Cancelled),
        forall|i: int| 0 <= i < kept(q, ts).len() ==> ts.contains(#[trigger] kept(q, ts)[i]),
        forall|j: int|
            0 <= j < ts.len() && q.only_open && q.project is None && q.status is None && q.due_before is None
                && q.scheduled_on is None && !((#[trigger] ts[j]).status is Done) && !(ts[j].status is Cancelled)
                ==> kept(q, ts).contains(ts[j]),
    decreases ts.len(),
{
    if ts.len() > 0 {
        let init = ts.drop_last();
        law_open_todos_only(q, init);
        let r0 = kept(q, init);
        let r = kept(q, ts);
        assert(ts.last() == ts[ts.len() - 1]);
        assert forall|i: int| 0 <= i < r.len() implies ts.contains(#[trigger] r[i]) by {
            if i < r0.len() {
                assert(r[i] == r0[i]);
                let m = choose|m: int| 0 <= m < init.len() && init[m] == r0[i];
                assert(ts[m] == init[m]);
            } else {
                assert(r[i] == ts[ts.len() - 1]);
            }
        }
        if q.only_open {
            assert forall|i: int| 0 <= i < r.len() implies !((#[trigger] r[i]).status is Done) && !(
            r[i].status is Cancelled) by {
                if i < r0.len() {
                    assert(r[i] == r0[i]);
                } else {
                    assert(keeps(q, ts.last()));
                }
            }
        }
        assert forall|j: int|
            0 <= j < ts.len() && q.only_open && q.project is None && q.status is None && q.due_before is None
                && q.scheduled_on is None && !((#[trigger] ts[j]).status is Done) && !(ts[j].status is Cancelled)
            implies r.contains(ts[j]) by {
            if j < init.len() {
                assert(init[j] == ts[j]);
                let m = choose|m: int| 0 <= m < r0.len() && r0[m] == init[j];
                if keeps(q, ts.last()) {
                    assert(r[m] == r0[m]);
                } else {
                    assert(r[m] == r0[m]);
                }
            } else {
                assert(keeps(q, ts.last()));
                assert(r[r.len() - 1] == ts[j]);
            }
        }
    }
}

/// Todos on a day sort by their time of day, one with none first.
impl<'a> crate::order::Keyed for &'a Todo {
    open spec fn key(v: TodoView) -> int {
        match v.scheduled {
            Some(s) => match s.1 {
                Some(t) => 1 + t as int,
                None => 0,
            },
            None => 0,
        }
    }

    fn key_of(&self) -> (k: u64) {
        match self.scheduled {
            Some(s) => match s.time {
                Some(t) => 1 + t.seconds_from_midnight() as u64,
                None => 0,
            },
            None => 0,
        }
    }
}

impl Todos {
    /// Every id a todo carries.
    fn carried_ids(&self) -> (ids: Vec<TodoId>)
        ensures
            forall|j: int|
                0 <= j < self@.todos.len() && (#[trigger] self@.todos[j]).id is Some ==> ids_view(ids@).contains(
                    self@.todos[j].id->0,
                ),
            ids_view(ids@).to_set() == carried(self@.todos),
    {
        let ghost ts = self@.todos;
        let mut out: Vec<TodoId> = Vec::new();
        let mut k: usize = 0;
        while k < self.todos.len()
            invariant
                k <= self.todos@.len(),
                ts == views_of(self.todos@),
                forall|j: int| 0 <= j < k && (#[trigger] ts[j]).id is Some ==> ids_view(out@).contains(ts[j].id->0),
                forall|m: int|
                    0 <= m < out@.len() ==> exists|j: int| 0 <= j < k && (#[trigger] ts[j]).id == Some(#[trigger] ids_view(out@)[m]),
            decreases self.todos.len() - k,
        {
            assert(ts[k as int] == self.todos@[k as int]@);
            match self.todos[k].id() {
                Some(id) => {
                    let ghost before = ids_view(out@);
                    out.push(id.clone());
                    proof {
                        assert(ids_view(out@) =~= before.push(id@));
                        assert(ids_view(out@)[before.len() as int] == id@);
                        assert forall|j: int| 0 <= j < k + 1 && (#[trigger] ts[j]).id is Some implies ids_view(
                            out@,
                        ).contains(ts[j].id->0) by {
                            if j < k {
                                let x = ts[j].id->0;
                                let m = choose|m: int| 0 <= m < before.len() && before[m] == x;
                                assert(ids_view(out@)[m] == x);
                            }
                        }
                        assert forall|m: int| 0 <= m < out@.len() implies exists|j: int|
                            0 <= j < k + 1 && (#[trigger] ts[j]).id == Some(#[trigger] ids_view(out@)[m]) by {
                            if m < before.len() {
                                assert(ids_view(out@)[m] == before[m]);
                                assert(before[m] == ids_view(out@)[m]);
                            } else {
                                assert(ts[k as int].id == Some(ids_view(out@)[m]));
                            }
                        }
                    }
                },
                None => {},
            }
            k = k + 1;
        }
        proof {
            reveal(carried);
            assert forall|x: Seq<char>| ids_view(out@).to_set().contains(x) == carried(ts).contains(x) by {
                if ids_view(out@).contains(x) {
                    let m = choose|m: int| 0 <= m < ids_view(out@).len() && ids_view(out@)[m] == x;
                    let j = choose|j: int| 0 <= j < k && (#[trigger] ts[j]).id == Some(ids_view(out@)[m]);
                    assert(carried(ts).contains(x));
                }
                if carried(ts).contains(x) {
                    let j = choose|j: int| 0 <= j < ts.len() && (#[trigger] ts[j]).id == Some(x);
                    assert(ids_view(out@).contains(x));
                }
            }
            assert(ids_view(out@).to_set() =~= carried(ts));
        }
        out
    }

    /// An id no todo in this list already carries.
    fn mint(&self, seed: &str) -> (id: TodoId)
        ensures
            id_free(self@.todos, id@),
            id@ == minted_id(seed@, carried(self@.todos)),
    {
        let taken = self.carried_ids();
        let id = TodoId::mint(seed, taken.as_slice());
        proof {
            assert forall|j: int| 0 <= j < self@.todos.len() implies (#[trigger] self@.todos[j]).id != Some(id@) by {
                if self@.todos[j].id == Some(id@) {
                    assert(ids_view(taken@).contains(id@));
                }
            }
        }
        id
    }

    /// Adds a todo, minting its id from its description if it has none, and
    /// answers the id it landed with. An id that any todo already carries is
    /// refused, so no door adds a second todo under one id; a refusal changes
    /// nothing.
    pub fn add(&mut self, todo: Todo) -> (result: Result<TodoId, Error>)
        ensures
            match result {
                Ok(id) => {
                    &&& final(self)@.todos == old(self)@.todos.push(TodoView { id: Some(id@), ..todo@ })
                    &&& todo@.id matches Some(given) ==> id@ == given && count_carrying(old(self)@.todos, given) == 0
                    &&& todo@.id is None ==> id_free(old(self)@.todos, id@) && id@ == minted_id(
                        todo@.description,
                        carried(old(self)@.todos),
                    )
                },
                Err(e) => {
                    &&& todo@.id is Some
                    &&& count_carrying(old(self)@.todos, todo@.id->0) >= 1
                    &&& e matches Error::DuplicateTodo { id: found }
                    &&& found@ == todo@.id->0
                    &&& final(self)@ == old(self)@
                },
            },
            final(self)@.unparsed == old(self)@.unparsed,
            final(self)@.problems == old(self)@.problems,
            final(self)@.problem_kinds == old(self)@.problem_kinds,
            final(self).document() == old(self).document(),
    {
        let ghost v = todo@;
        let id = match todo.id() {
            Some(given) => {
                match self.position(given) {
                    Err(Error::NoSuchTodo { .. }) => {},
                    _ => {
                        return Err(Error::DuplicateTodo { id: given.as_str().to_owned() });
                    },
                }
                given.clone()
            },
            None => self.mint(todo.description()),
        };
        let mut todo = todo;
        proof {
            use_type_invariant(&todo);
        }
        todo.id = Some(id.clone());
        let ghost before = views_of(self.todos@);
        self.todos.push(todo);
        assert(views_of(self.todos@) =~= before.push(TodoView { id: Some(id@), ..v }));
        Ok(id)
    }

    /// Mints an id for every todo that has none, and answers how many.
    /// Called on the way to disk, so a file merely read is never rewritten.
    pub fn assign_ids(&mut self) -> (minted: usize)
        ensures
            final(self)@.todos.len() == old(self)@.todos.len(),
            minted == count_unassigned(old(self)@.todos),
            forall|i: int|
                0 <= i < old(self)@.todos.len() && (#[trigger] old(self)@.todos[i]).id is Some ==> final(self)@.todos[i]
                    == old(self)@.todos[i],
            forall|i: int|
                0 <= i < old(self)@.todos.len() && (#[trigger] old(self)@.todos[i]).id is None ==> final(self)@.todos[i].id is Some
                    && final(self)@.todos[i] == (TodoView { id: final(self)@.todos[i].id, ..old(self)@.todos[i] }),
            forall|i: int, j: int|
                0 <= i < old(self)@.todos.len() && 0 <= j < old(self)@.todos.len() && i != j && (#[trigger] old(
                    self,
                )@.todos[i]).id is None ==> (#[trigger] final(self)@.todos[j]).id != final(self)@.todos[i].id,
            forall|i: int|
                0 <= i < old(self)@.todos.len() && (#[trigger] old(self)@.todos[i]).id is None ==> final(self)@.todos[i].id
                    == Some(
                    minted_id(
                        old(self)@.todos[i].description,
                        carried(final(self)@.todos.take(i) + old(self)@.todos.skip(i)),
                    ),
                ),
            final(self)@.unparsed == old(self)@.unparsed,
            final(self)@.problems == old(self)@.problems,
            final(self)@.problem_kinds == old(self)@.problem_kinds,
            final(self).document() == old(self).document(),
    {
        let ghost o = self@.todos;
        let mut minted: usize = 0;
        let mut k: usize = 0;
        while k < self.todos.len()
            invariant
                k <= self.todos@.len(),
                o.len() == self.todos@.len(),
                minted <= k,
                minted == count_unassigned(o.subrange(0, k as int)),
                self@.unparsed == old(self)@.unparsed,
                self@.problems == old(self)@.problems,
                self@.problem_kinds == old(self)@.problem_kinds,
                self.document() == old(self).document(),
                o == old(self)@.todos,
                forall|i: int| k <= i < o.len() ==> (#[trigger] self@.todos[i]) == o[i],
                forall|i: int| 0 <= i < k && (#[trigger] o[i]).id is Some ==> self@.todos[i] == o[i],
                forall|i: int|
                    0 <= i < k && (#[trigger] o[i]).id is None ==> self@.todos[i].id is Some && self@.todos[i]
                        == (TodoView { id: self@.todos[i].id, ..o[i] }),
                forall|i: int, j: int|
                    0 <= i < k && 0 <= j < o.len() && i != j && (#[trigger] o[i]).id is None ==> (
                    #[trigger] self@.todos[j]).id != self@.todos[i].id,
                forall|i: int|
                    0 <= i < k && (#[trigger] o[i]).id is None ==> self@.todos[i].id == Some(
                        minted_id(o[i].description, carried(self@.todos.take(i) + o.skip(i))),
                    ),
            decreases self.todos.len() - k,
        {
            proof {
                assert(o.subrange(0, k + 1).drop_last() =~= o.subrange(0, k as int));
                assert(o.subrange(0, k + 1).last() == o[k as int]);
            }
            if self.todos[k].id().is_none() {
                let seed = self.todos[k].description().to_owned();
                let id = self.mint(seed.as_str());
                let ghost before = self@.todos;
                proof {
                    assert(before =~= before.take(k as int) + o.skip(k as int));
                }
                let mut t = self.todos[k].clone();
                proof {
                    use_type_invariant(&t);
                }
                t.id = Some(id);
                self.todos.set(k, t);
                proof {
                    assert(views_of(self.todos@) =~= before.update(k as int, TodoView { id: Some(id@), ..before[k as int] }));
                    assert forall|i: int, j: int|
                        0 <= i < k + 1 && 0 <= j < o.len() && i != j && (#[trigger] o[i]).id is None implies (
                        #[trigger] self@.todos[j]).id != self@.todos[i].id by {
                        if i < k && j == k {
                            assert(before[i].id != Some(id@));
                        }
                        if i == k {
                            assert(before[j].id != Some(id@));
                        }
                    }
                    assert forall|i: int|
                        0 <= i < k + 1 && (#[trigger] o[i]).id is None implies self@.todos[i].id == Some(
                            minted_id(o[i].description, carried(self@.todos.take(i) + o.skip(i))),
                        ) by {
                        assert(self@.todos.take(i) =~= before.take(i));
                    }
                }
                minted = minted + 1;
            }
            k = k + 1;
        }
        assert(o.subrange(0, o.len() as int) =~= o);
        minted
    }

    /// The todos a query keeps, in file order.
    pub fn matching(&self, query: &TodoQuery) -> (found: Vec<&Todo>)
        ensures
            crate::order::views(found@) == kept(*query, self@.todos),
            query.only_open ==> forall|i: int|
                0 <= i < found@.len() ==> !((#[trigger] found@[i])@.status is Done) && !(found@[i]@.status is Cancelled),
    {
        let ghost ts = self@.todos;
        let mut out: Vec<&Todo> = Vec::new();
        let mut k: usize = 0;
        while k < self.todos.len()
            invariant
                k <= self.todos@.len(),
                ts == views_of(self.todos@),
                crate::order::views(out@) == kept(*query, ts.subrange(0, k as int)),
            decreases self.todos.len() - k,
        {
            proof {
                assert(ts.subrange(0, k + 1).drop_last() =~= ts.subrange(0, k as int));
                assert(ts[k as int] == self.todos@[k as int]@);
            }
            let t = &self.todos[k];
            if query_keeps(query, t) {
                let ghost before = crate::order::views(out@);
                out.push(t);
                assert(crate::order::views(out@) =~= before.push(t@));
            }
            k = k + 1;
        }
        assert(ts.subrange(0, ts.len() as int) =~= ts);
        proof {
            law_open_todos_only(*query, ts);
            if query.only_open {
                assert forall|i: int| 0 <= i < out@.len() implies !((#[trigger] out@[i])@.status is Done) && !(
                out@[i]@.status is Cancelled) by {
                    assert(out@[i]@ == crate::order::views(out@)[i]);
                    assert(out@[i]@ == kept(*query, ts)[i]);
                }
            }
        }
        out
    }

    /// The todos scheduled for `date`, a todo with no time of day first and
    /// then by time, file order breaking ties.
    pub fn scheduled_on(&self, date: CalendarDate) -> (found: Vec<&Todo>)
        ensures
            crate::order::views(found@) == crate::order::sorted_by_key::<&Todo>(
                kept(scheduled_query(date), self@.todos),
            ),
            in_time_of_day_order(crate::order::views(found@)),
    {
        let query = TodoQuery {
            project: None,
            status: None,
            only_open: false,
            due_before: None,
            scheduled_on: Some(Stamp::on(date)),
        };
        let due = self.matching(&query);
        proof {
            law_scheduled_in_time_of_day_order(scheduled_query(date), self@.todos);
        }
        crate::order::sort_by_key(due)
    }
}

/// What the done, undone and cancel flags ask of a todo: its status, and
/// the done and cancelled dates to set (`Some(Some(..))`), clear
/// (`Some(None)`) or leave (`None`). Done stamps today as the done date;
/// undone clears both dates; cancel stamps today as the cancelled date; none
/// of them leaves everything. The flags are exclusive, done first.
pub fn status_flags(done: bool, undone: bool, cancel: bool, today: CalendarDate) -> (change: (
    Option<TodoStatus>,
    Option<Option<Stamp>>,
    Option<Option<Stamp>>,
))
    ensures
        change == if done {
            (Some(TodoStatus::Done), Some(Some(Stamp { date: today, time: None })), None)
        } else if undone {
            (Some(TodoStatus::Open), Some(None), Some(None))
        } else if cancel {
            (Some(TodoStatus::Cancelled), None, Some(Some(Stamp { date: today, time: None })))
        } else {
            (None, None, None)
        },
{
    if done {
        (Some(TodoStatus::Done), Some(Some(Stamp::on(today))), None)
    } else if undone {
        (Some(TodoStatus::Open), Some(None), Some(None))
    } else if cancel {
        (Some(TodoStatus::Cancelled), None, Some(Some(Stamp::on(today))))
    } else {
        (None, None, None)
    }
}

/// A repetition rule as given, or none when it is blank.
pub open spec fn rule_given(repeat: Option<Seq<char>>) -> Option<Seq<char>> {
    match repeat {
        Some(r) => if trim(r).len() > 0 {
            Some(r)
        } else {
            None
        },
        None => None,
    }
}

/// A new open todo built from what adding one is given: the description
/// (which must be one `Todo::new` accepts), the project, the priority
/// (normal when not given), the dates, a repetition rule (dropped when
/// blank, else kept verbatim) and today as its created date.
pub fn added_todo(
    description: &str,
    project: Option<ProjectSlug>,
    priority: Option<Priority>,
    scheduled: Option<Stamp>,
    due: Option<Stamp>,
    start: Option<Stamp>,
    repeat: Option<String>,
    today: CalendarDate,
) -> (result: Result<Todo, ParseErrorKind>)
    ensures
        match result {
            Ok(t) => new_todo(TodoStatus::Open, description@) matches Some(b) && t@ == (TodoView {
                project: slug_view(project),
                priority: match priority {
                    Some(p) => p,
                    None => Priority::Normal,
                },
                scheduled: stamp_view(scheduled),
                due: stamp_view(due),
                start: stamp_view(start),
                recurrence: rule_given(text_view(repeat)),
                created: Some((today@, None)),
                ..b
            }),
            Err(kind) => new_todo(TodoStatus::Open, description@) is None && kind is InvalidTodo,
        },
{
    let mut todo = match Todo::new(TodoStatus::Open, description) {
        Ok(t) => t,
        Err(kind) => return Err(kind),
    };
    proof {
        use_type_invariant(&todo);
    }
    todo.project = project;
    todo.priority = match priority {
        Some(p) => p,
        None => Priority::Normal,
    };
    todo.scheduled = scheduled;
    todo.due = due;
    todo.start = start;
    todo.recurrence = match repeat {
        Some(rule) => {
            let blank = trimmed(&chars_of(rule.as_str())).len() == 0;
            if blank {
                None
            } else {
                Some(rule)
            }
        },
        None => None,
    };
    todo.created = Some(Stamp::on(today));
    Ok(todo)
}

} // verus!
