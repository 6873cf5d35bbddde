//! Shared scanners for the list-item grammars.
//!
//! Every structured line in the tree is a markdown list item built from the
//! same handful of pieces: a time range, an optional parenthesised duration, an
//! optional `[[project]]` wikilink, an optional `!5m` reminder lead, and free
//! text. Keeping the scanners here means the day and schedule grammars cannot
//! drift apart.

use vstd::prelude::*;

use crate::clock::{is_calendar_date, CalendarDate, TimeOfDay, SECONDS_PER_DAY};
use crate::error::ParseErrorKind;
use crate::ids::{is_slug, BlockId, ProjectSlug};
use crate::minutes::{decimal, decimal_of, digit_char, digit_to_char, digit_value, duration_value, is_digit, Minutes};
use crate::text::{append, char_pred, chars_of, first_char, first_occurrence, first_where, find, first_whitespace, has_prefix, last_where, last_whitespace, slice, starts_with, string_of, trim, trim_end, trim_start, trimmed, trimmed_end, trimmed_start, ws_pred};

verus! {

// ---- what each piece means --------------------------------------------------

/// The content of a list item: the trimmed line must open with a `- ` or `* `
/// bullet, and the rest is trimmed again.
pub open spec fn list_item_content(line: Seq<char>) -> Option<Seq<char>> {
    let t = trim(line);
    if starts_with(t, seq!['-', ' ']) || starts_with(t, seq!['*', ' ']) {
        Some(trim(t.subrange(2, t.len() as int)))
    } else {
        None
    }
}

/// The first whitespace-delimited token and what follows it, both with
/// leading whitespace removed.
pub open spec fn token_split(s: Seq<char>) -> (Seq<char>, Seq<char>) {
    let t = trim_start(s);
    match first_where(t, ws_pred()) {
        Some(i) => (t.subrange(0, i), trim_start(t.subrange(i, t.len() as int))),
        None => (t, Seq::empty()),
    }
}

/// What `u32::from_str` makes of a two-character text: two digits, or a plus
/// sign and one digit.
pub open spec fn two_char_number(s: Seq<char>) -> Option<nat> {
    if s.len() == 2 && is_digit(s[0]) && is_digit(s[1]) {
        Some(digit_value(s[0]) * 10 + digit_value(s[1]))
    } else if s.len() == 2 && s[0] == '+' && is_digit(s[1]) {
        Some(digit_value(s[1]))
    } else {
        None
    }
}

/// A `HH:MM` time as seconds past midnight.
pub open spec fn time_value(text: Seq<char>) -> Option<nat> {
    match first_where(text, char_pred(':')) {
        Some(i) => match (
            two_char_number(text.subrange(0, i)),
            two_char_number(text.subrange(i + 1, text.len() as int)),
        ) {
            (Some(h), Some(m)) => if h < 24 && m < 60 {
                Some(h * 3600 + m * 60)
            } else {
                None
            },
            _ => None,
        },
        None => None,
    }
}

/// Two decimal digits of a number below one hundred.
pub open spec fn two_digits(n: nat) -> Seq<char> {
    seq![digit_char(n / 10), digit_char(n % 10)]
}

/// `HH:MM` for a time of day.
pub open spec fn time_text(seconds: nat) -> Seq<char> {
    two_digits(seconds / 3600) + seq![':'] + two_digits((seconds % 3600) / 60)
}

/// The start text, end text and remainder of a leading `HH:MM-HH:MM`.
pub open spec fn range_parts(text: Seq<char>) -> Option<(Seq<char>, Seq<char>, Seq<char>)> {
    let (head, rest) = token_split(text);
    match first_where(head, char_pred('-')) {
        Some(i) => Some((head.subrange(0, i), head.subrange(i + 1, head.len() as int), rest)),
        None => None,
    }
}

/// Whole wall-clock minutes from `start` to `end`, an earlier `end` meaning the
/// span crossed midnight.
pub open spec fn span_minutes(start: nat, end: nat) -> nat {
    if end >= start {
        ((end - start) as nat) / 60
    } else {
        ((end + SECONDS_PER_DAY - start) as nat) / 60
    }
}

/// Text with a leading `(duration)` group removed, when the group reads as a
/// duration.
pub open spec fn after_duration_group(s: Seq<char>) -> Seq<char> {
    if s.len() > 0 && s[0] == '(' {
        let rest = s.drop_first();
        match first_where(rest, char_pred(')')) {
            Some(c) => if exists|n: nat| crate::minutes::reads_as(rest.subrange(0, c), n) {
                trim_start(rest.subrange(c + 1, rest.len() as int))
            } else {
                s
            },
            None => s,
        }
    } else {
        s
    }
}

/// A group `(d)` whose inside reads as a duration is skipped, with the
/// blanks after it.
pub proof fn lemma_group_read(s: Seq<char>, c: int, n: nat)
    requires
        s.len() > 0,
        s[0] == '(',
        first_where(s.drop_first(), char_pred(')')) == Some(c),
        crate::minutes::reads_as(s.drop_first().subrange(0, c), n),
    ensures
        after_duration_group(s) == trim_start(s.drop_first().subrange(c + 1, s.drop_first().len() as int)),
{
    let rest = s.drop_first();
    assert(crate::minutes::reads_as(rest.subrange(0, c), n));
    assert(exists|m: nat| crate::minutes::reads_as(rest.subrange(0, c), m));
    assert(first_where(rest, char_pred(')')) == Some(c));
    assert(s.len() > 0 && s[0] == '(');
}

/// A leading `[[slug]]` and the text after it, when the slug is valid.
pub open spec fn wikilink_parts(s: Seq<char>) -> (Option<Seq<char>>, Seq<char>) {
    if starts_with(s, seq!['[', '[']) {
        let rest = s.subrange(2, s.len() as int);
        match first_occurrence(rest, seq![']', ']']) {
            Some(c) => if is_slug(rest.subrange(0, c)) {
                (Some(rest.subrange(0, c)), trim_start(rest.subrange(c + 2, rest.len() as int)))
            } else {
                (None, s)
            },
            None => (None, s),
        }
    } else {
        (None, s)
    }
}

/// `[[slug]] `, or nothing.
pub open spec fn wikilink_text(project: Option<Seq<char>>) -> Seq<char> {
    match project {
        Some(slug) => seq!['[', '['] + slug + seq![']', ']', ' '],
        None => Seq::empty(),
    }
}

/// The lead time a `!5m` word names.
pub open spec fn lead_of(word: Seq<char>) -> Option<nat> {
    if word.len() > 0 && word[0] == '!' {
        match duration_value(word.drop_first()) {
            Some(n) => if n <= u32::MAX {
                Some(n)
            } else {
                None
            },
            None => None,
        }
    } else {
        None
    }
}

/// A trailing `!lead` word and the text before it.
pub open spec fn reminder_parts(s: Seq<char>) -> (Option<nat>, Seq<char>) {
    let t = trim_end(s);
    match last_where(t, ws_pred()) {
        None => match lead_of(t) {
            Some(n) => (Some(n), Seq::empty()),
            None => (None, t),
        },
        Some(i) => match lead_of(t.subrange(i + 1, t.len() as int)) {
            Some(n) => (Some(n), trim_end(t.subrange(0, i))),
            None => (None, t),
        },
    }
}

/// A leading backtick-quoted block id and the text after it.
pub open spec fn backtick_parts(s: Seq<char>) -> Option<(Seq<char>, Seq<char>)> {
    if s.len() > 0 && s[0] == '`' {
        let rest = s.drop_first();
        match first_where(rest, char_pred('`')) {
            Some(c) => if is_slug(rest.subrange(0, c)) {
                Some((rest.subrange(0, c), trim_start(rest.subrange(c + 1, rest.len() as int))))
            } else {
                None
            },
            None => None,
        }
    } else {
        None
    }
}

/// `n` spelt with at least `width` digits, zero-padded on the left.
pub open spec fn padded(n: nat, width: nat) -> Seq<char> {
    let digits = decimal(n);
    if digits.len() >= width {
        digits
    } else {
        Seq::new((width - digits.len()) as nat, |i: int| '0') + digits
    }
}

/// How chrono writes a year: four digits at least, with a sign outside
/// `0..=9999`.
pub open spec fn year_text(year: int) -> Seq<char> {
    if 0 <= year <= 9999 {
        padded(year as nat, 4)
    } else if year < 0 {
        seq!['-'] + padded((-year) as nat, 4)
    } else {
        seq!['+'] + padded(year as nat, 4)
    }
}

/// How chrono writes a date: `YYYY-MM-DD`, with a sign on a year outside
/// `0..=9999`.
pub open spec fn date_text(d: (int, int, int)) -> Seq<char> {
    year_text(d.0) + seq!['-'] + padded(d.1 as nat, 2) + seq!['-'] + padded(d.2 as nat, 2)
}

pub open spec fn digits_at(s: Seq<char>, from: int, to: int) -> bool {
    forall|i: int| from <= i < to ==> is_digit(#[trigger] s[i])
}

pub open spec fn number_at(s: Seq<char>, from: int, to: int) -> nat {
    crate::minutes::digits_value(s.subrange(from, to))
}

/// A `YYYY-MM-DD` date.
pub open spec fn date_value(s: Seq<char>) -> Option<(int, int, int)> {
    if s.len() == 10 && digits_at(s, 0, 4) && s[4] == '-' && digits_at(s, 5, 7) && s[7] == '-'
        && digits_at(s, 8, 10) && is_calendar_date(
        number_at(s, 0, 4) as int,
        number_at(s, 5, 7) as int,
        number_at(s, 8, 10) as int,
    ) {
        Some((number_at(s, 0, 4) as int, number_at(s, 5, 7) as int, number_at(s, 8, 10) as int))
    } else {
        None
    }
}

// ---- scanners --------------------------------------------------------------

/// Strips the markdown bullet, returning the item's content.
pub fn list_item(line: &str) -> (result: Result<String, ParseErrorKind>)
    ensures
        match result {
            Ok(content) => list_item_content(line@) == Some(content@),
            Err(kind) => list_item_content(line@) is None && kind is NotAListItem
                && kind.found_text() == trim(line@),
        },
{
    let chars = chars_of(line);
    match list_item_chars(&chars) {
        Some(content) => Ok(string_of(&content)),
        None => {
            let t = trimmed(&chars);
            Err(ParseErrorKind::NotAListItem { found: string_of(&t) })
        },
    }
}

pub fn list_item_chars(line: &[char]) -> (content: Option<Vec<char>>)
    ensures
        match content {
            Some(c) => list_item_content(line@) == Some(c@),
            None => list_item_content(line@) is None,
        },
{
    let t = trimmed(line);
    let dash: [char; 2] = ['-', ' '];
    let star: [char; 2] = ['*', ' '];
    proof {
        assert(dash@ =~= seq!['-', ' ']);
        assert(star@ =~= seq!['*', ' ']);
    }
    if has_prefix(&t, &dash) || has_prefix(&t, &star) {
        let rest = slice(&t, 2, t.len());
        Some(trimmed(&rest))
    } else {
        None
    }
}

/// Splits off the first whitespace-delimited token.
pub fn split_token(text: &str) -> (parts: (String, String))
    ensures
        (parts.0@, parts.1@) == token_split(text@),
{
    let chars = chars_of(text);
    let (head, rest) = split_token_chars(&chars);
    (string_of(&head), string_of(&rest))
}

pub fn split_token_chars(text: &[char]) -> (parts: (Vec<char>, Vec<char>))
    ensures
        (parts.0@, parts.1@) == token_split(text@),
{
    let t = trimmed_start(text);
    match first_whitespace(&t) {
        Some(i) => {
            let head = slice(&t, 0, i);
            let tail = slice(&t, i, t.len());
            (head, trimmed_start(&tail))
        },
        None => (t, Vec::new()),
    }
}

fn two_char_number_of(s: &[char]) -> (n: Option<u32>)
    ensures
        match n {
            Some(v) => two_char_number(s@) == Some(v as nat),
            None => two_char_number(s@) is None,
        },
{
    if s.len() != 2 {
        return None;
    }
    let a = s[0];
    let b = s[1];
    if '0' <= b && b <= '9' {
        let low: u32 = b as u32 - 48;
        if '0' <= a && a <= '9' {
            let high: u32 = a as u32 - 48;
            return Some(high * 10 + low);
        } else if a == '+' {
            return Some(low);
        }
    }
    None
}

/// Reads a zero-padded `HH:MM`.
pub fn time(text: &str) -> (result: Result<TimeOfDay, ParseErrorKind>)
    ensures
        match result {
            Ok(t) => time_value(text@) == Some(t@),
            Err(kind) => time_value(text@) is None && kind is InvalidTime && kind.found_text()
                == text@,
        },
{
    let chars = chars_of(text);
    match time_chars(&chars) {
        Some(t) => Ok(t),
        None => Err(ParseErrorKind::InvalidTime { found: text.to_owned() }),
    }
}

pub fn time_chars(text: &[char]) -> (t: Option<TimeOfDay>)
    ensures
        match t {
            Some(t) => time_value(text@) == Some(t@),
            None => time_value(text@) is None,
        },
{
    let colon = match first_char(text, ':') {
        Some(i) => i,
        None => return None,
    };
    let hours = slice(text, 0, colon);
    let minutes = slice(text, colon + 1, text.len());
    let h = match two_char_number_of(&hours) {
        Some(h) => h,
        None => return None,
    };
    let m = match two_char_number_of(&minutes) {
        Some(m) => m,
        None => return None,
    };
    TimeOfDay::from_hms(h, m, 0)
}

/// Writes `HH:MM`.
pub fn format_time(value: TimeOfDay) -> (text: String)
    ensures
        text@ == time_text(value@),
{
    string_of(&format_time_chars(value))
}

pub fn format_time_chars(value: TimeOfDay) -> (text: Vec<char>)
    ensures
        text@ == time_text(value@),
{
    let hour = value.hour();
    let minute = value.minute();
    let mut out: Vec<char> = Vec::new();
    out.push(digit_to_char(hour / 10));
    out.push(digit_to_char(hour % 10));
    out.push(':');
    out.push(digit_to_char(minute / 10));
    out.push(digit_to_char(minute % 10));
    assert(out@ =~= time_text(value@));
    out
}

/// Consumes a leading `HH:MM-HH:MM`, returning the range and the remainder.
pub fn time_range(text: &str) -> (result: Result<((TimeOfDay, TimeOfDay), String), ParseErrorKind>)
    ensures
        match result {
            Ok(((start, end), rest)) => range_parts(text@) matches Some((a, b, r)) && time_value(a)
                == Some(start@) && time_value(b) == Some(end@) && rest@ == r,
            Err(kind) => match range_parts(text@) {
                None => kind is MissingTimeRange && kind.found_text() == text@,
                Some((a, b, r)) => kind is InvalidTime && (if time_value(a) is None {
                    kind.found_text() == a
                } else {
                    time_value(b) is None && kind.found_text() == b
                }),
            },
        },
{
    let chars = chars_of(text);
    match time_range_chars(&chars) {
        Ok((start, end, rest)) => Ok(((start, end), string_of(&rest))),
        Err(kind) => Err(kind),
    }
}

pub fn time_range_chars(text: &[char]) -> (result: Result<(TimeOfDay, TimeOfDay, Vec<char>), ParseErrorKind>)
    ensures
        match result {
            Ok((start, end, rest)) => range_parts(text@) matches Some((a, b, r)) && time_value(a)
                == Some(start@) && time_value(b) == Some(end@) && rest@ == r,
            Err(kind) => match range_parts(text@) {
                None => kind is MissingTimeRange && kind.found_text() == text@,
                Some((a, b, r)) => kind is InvalidTime && (if time_value(a) is None {
                    kind.found_text() == a
                } else {
                    time_value(b) is None && kind.found_text() == b
                }),
            },
        },
{
    let (head, rest) = split_token_chars(text);
    let dash = match first_char(&head, '-') {
        Some(i) => i,
        None => return Err(ParseErrorKind::MissingTimeRange { found: string_of(text) }),
    };
    let a = slice(&head, 0, dash);
    let b = slice(&head, dash + 1, head.len());
    let start = match time_chars(&a) {
        Some(t) => t,
        None => return Err(ParseErrorKind::InvalidTime { found: string_of(&a) }),
    };
    let end = match time_chars(&b) {
        Some(t) => t,
        None => return Err(ParseErrorKind::InvalidTime { found: string_of(&b) }),
    };
    Ok((start, end, rest))
}

/// Wall-clock minutes between two times, treating `end < start` as crossing
/// midnight.
pub fn span(start: TimeOfDay, end: TimeOfDay) -> (length: Minutes)
    ensures
        length.0 == span_minutes(start@, end@),
{
    let s = start.seconds_from_midnight();
    let e = end.seconds_from_midnight();
    let seconds: u32 = if e >= s {
        e - s
    } else {
        e + SECONDS_PER_DAY - s
    };
    Minutes::new(seconds / 60)
}

/// Skips a leading `(...)` group when it parses as a duration.
///
/// The duration is derived from the times, so it is display-only. Requiring it
/// to parse means a note that merely starts with a parenthesis survives.
pub fn skip_duration_group(text: &str) -> (rest: String)
    ensures
        rest@ == after_duration_group(text@),
{
    let chars = chars_of(text);
    string_of(&skip_duration_group_chars(&chars))
}

pub fn skip_duration_group_chars(text: &[char]) -> (rest: Vec<char>)
    ensures
        rest@ == after_duration_group(text@),
{
    if text.len() == 0 || text[0] != '(' {
        return slice(text, 0, text.len());
    }
    let rest = slice(text, 1, text.len());
    assert(rest@ =~= text@.drop_first());
    let close = match first_char(&rest, ')') {
        Some(c) => c,
        None => return slice(text, 0, text.len()),
    };
    let inner = slice(&rest, 0, close);
    let inner_text = string_of(&inner);
    match Minutes::parse(inner_text.as_str()) {
        Ok(m) => {
            let after = slice(&rest, close + 1, rest.len());
            trimmed_start(&after)
        },
        Err(_) => slice(text, 0, text.len()),
    }
}

/// Consumes a leading `[[slug]]` wikilink.
///
/// An unparseable slug is left in place as note text rather than failing the
/// line.
pub fn wikilink(text: &str) -> (parts: (Option<ProjectSlug>, String))
    ensures
        wikilink_parts(text@) == (match parts.0 {
            Some(slug) => Some(slug@),
            None => None::<Seq<char>>,
        }, parts.1@),
{
    let chars = chars_of(text);
    let (slug, rest) = wikilink_chars(&chars);
    (slug, string_of(&rest))
}

pub fn wikilink_chars(text: &[char]) -> (parts: (Option<ProjectSlug>, Vec<char>))
    ensures
        wikilink_parts(text@) == (match parts.0 {
            Some(slug) => Some(slug@),
            None => None::<Seq<char>>,
        }, parts.1@),
{
    let open: [char; 2] = ['[', '['];
    let close: [char; 2] = [']', ']'];
    proof {
        assert(open@ =~= seq!['[', '[']);
        assert(close@ =~= seq![']', ']']);
    }
    if !has_prefix(text, &open) {
        return (None, slice(text, 0, text.len()));
    }
    let rest = slice(text, 2, text.len());
    let end = match find(&rest, &close) {
        Some(c) => c,
        None => return (None, slice(text, 0, text.len())),
    };
    let inner = slice(&rest, 0, end);
    let inner_text = string_of(&inner);
    match ProjectSlug::new(inner_text.as_str()) {
        Ok(slug) => {
            let after = slice(&rest, end + 2, rest.len());
            (Some(slug), trimmed_start(&after))
        },
        Err(_) => (None, slice(text, 0, text.len())),
    }
}

/// `[[slug]] `, or nothing.
pub fn format_wikilink(project: Option<&ProjectSlug>) -> (text: String)
    ensures
        text@ == wikilink_text(match project {
            Some(slug) => Some(slug@),
            None => None::<Seq<char>>,
        }),
{
    string_of(&format_wikilink_chars(project))
}

pub fn format_wikilink_chars(project: Option<&ProjectSlug>) -> (text: Vec<char>)
    ensures
        text@ == wikilink_text(match project {
            Some(slug) => Some(slug@),
            None => None::<Seq<char>>,
        }),
{
    match project {
        Some(slug) => {
            let mut out: Vec<char> = Vec::new();
            out.push('[');
            out.push('[');
            append(&mut out, &slug.to_chars());
            out.push(']');
            out.push(']');
            out.push(' ');
            assert(out@ =~= seq!['[', '['] + slug@ + seq![']', ']', ' ']);
            out
        },
        None => Vec::new(),
    }
}

fn lead_of_chars(word: &[char]) -> (lead: Option<Minutes>)
    ensures
        match lead {
            Some(m) => lead_of(word@) == Some(m.0 as nat),
            None => lead_of(word@) is None,
        },
{
    if word.len() == 0 || word[0] != '!' {
        return None;
    }
    let rest = slice(word, 1, word.len());
    assert(rest@ =~= word@.drop_first());
    let rest_text = string_of(&rest);
    match Minutes::parse(rest_text.as_str()) {
        Ok(m) => {
            assert(duration_value(word@.drop_first()) == Some(m.0 as nat));
            assert(word@.len() > 0 && word@[0] == '!');
            assert((m.0 as nat) <= u32::MAX);
            assert(lead_of(word@) == Some(m.0 as nat));
            Some(m)
        },
        Err(_) => {
            assert(forall|n: nat| !crate::minutes::reads_as(rest@, n));
            proof {
                assert(rest@ == word@.drop_first());
                if duration_value(word@.drop_first()) is Some {
                    let n = duration_value(word@.drop_first())->0;
                    assert(!crate::minutes::reads_as(rest@, n));
                }
                assert(lead_of(word@) is None);
            }
            None
        },
    }
}

/// Consumes a trailing `!5m` reminder lead time.
pub fn reminder_suffix(text: &str) -> (parts: (Option<Minutes>, String))
    ensures
        reminder_parts(text@) == (match parts.0 {
            Some(m) => Some(m.0 as nat),
            None => None::<nat>,
        }, parts.1@),
{
    let chars = chars_of(text);
    let (lead, rest) = reminder_suffix_chars(&chars);
    (lead, string_of(&rest))
}

pub fn reminder_suffix_chars(text: &[char]) -> (parts: (Option<Minutes>, Vec<char>))
    ensures
        reminder_parts(text@) == (match parts.0 {
            Some(m) => Some(m.0 as nat),
            None => None::<nat>,
        }, parts.1@),
{
    let t = trimmed_end(text);
    match last_whitespace(&t) {
        None => match lead_of_chars(&t) {
            Some(m) => (Some(m), Vec::new()),
            None => (None, t),
        },
        Some(i) => {
            let last = slice(&t, i + 1, t.len());
            match lead_of_chars(&last) {
                Some(m) => {
                    let head = slice(&t, 0, i);
                    (Some(m), trimmed_end(&head))
                },
                None => (None, t),
            }
        },
    }
}

/// Consumes a leading backtick-quoted block id.
pub fn take_backtick_id(text: &str) -> (result: Result<(BlockId, String), ParseErrorKind>)
    ensures
        match result {
            Ok((id, rest)) => backtick_parts(text@) == Some((id@, rest@)),
            Err(kind) => backtick_parts(text@) is None && kind is MissingBlockId
                && kind.found_text() == text@,
        },
{
    let chars = chars_of(text);
    match take_backtick_id_chars(&chars) {
        Some((id, rest)) => Ok((id, string_of(&rest))),
        None => Err(ParseErrorKind::MissingBlockId { found: text.to_owned() }),
    }
}

pub fn take_backtick_id_chars(text: &[char]) -> (found: Option<(BlockId, Vec<char>)>)
    ensures
        match found {
            Some((id, rest)) => backtick_parts(text@) == Some((id@, rest@)),
            None => backtick_parts(text@) is None,
        },
{
    if text.len() == 0 || text[0] != '`' {
        return None;
    }
    let rest = slice(text, 1, text.len());
    assert(rest@ =~= text@.drop_first());
    let close = match first_char(&rest, '`') {
        Some(c) => c,
        None => return None,
    };
    let inner = slice(&rest, 0, close);
    let inner_text = string_of(&inner);
    match BlockId::new(inner_text.as_str()) {
        Ok(id) => {
            let after = slice(&rest, close + 1, rest.len());
            Some((id, trimmed_start(&after)))
        },
        Err(_) => None,
    }
}

/// Reads a `- `-stripped `` `id` `` entry with nothing after it.
pub fn backtick_id(text: &str) -> (result: Result<BlockId, ParseErrorKind>)
    ensures
        match result {
            Ok(id) => backtick_parts(text@) == Some((id@, Seq::<char>::empty())),
            Err(kind) => !(backtick_parts(text@) matches Some((_, r)) && r.len() == 0)
                && kind is MissingBlockId && kind.found_text() == text@,
        },
{
    let chars = chars_of(text);
    match take_backtick_id_chars(&chars) {
        Some((id, rest)) => {
            if rest.len() == 0 {
                assert(rest@ =~= Seq::<char>::empty());
                Ok(id)
            } else {
                Err(ParseErrorKind::MissingBlockId { found: text.to_owned() })
            }
        },
        None => Err(ParseErrorKind::MissingBlockId { found: text.to_owned() }),
    }
}

/// Appends `n` zero-padded to at least `width` digits.
pub fn push_padded(out: &mut Vec<char>, n: u32, width: usize)
    ensures
        final(out)@ == old(out)@ + padded(n as nat, width as nat),
{
    let digits = decimal_of(n as u64);
    if digits.len() < width {
        let zeros: usize = width - digits.len();
        let mut k: usize = 0;
        let ghost start = out@;
        while k < zeros
            invariant
                k <= zeros,
                out@ == start + Seq::new(k as nat, |i: int| '0'),
            decreases zeros - k,
        {
            out.push('0');
            k = k + 1;
            assert(out@ =~= start + Seq::new(k as nat, |i: int| '0'));
        }
        let ghost before = out@;
        append(out, &digits);
        assert(out@ =~= start + (Seq::new(zeros as nat, |i: int| '0') + digits@));
    } else {
        append(out, &digits);
    }
}

/// Writes a date as `YYYY-MM-DD`.
pub fn format_date(date: CalendarDate) -> (text: String)
    ensures
        text@ == date_text(date@),
{
    string_of(&format_date_chars(date))
}

pub fn format_date_chars(date: CalendarDate) -> (text: Vec<char>)
    ensures
        text@ == date_text(date@),
{
    let mut out = format_year_chars(date);
    out.push('-');
    push_padded(&mut out, date.month(), 2);
    out.push('-');
    push_padded(&mut out, date.day(), 2);
    assert(out@ =~= date_text(date@));
    out
}

/// Writes a date's year as chrono does.
pub fn format_year_chars(date: CalendarDate) -> (text: Vec<char>)
    ensures
        text@ == year_text(date@.0),
{
    proof {
        date.lemma_valid();
    }
    let year = date.year();
    let mut out: Vec<char> = Vec::new();
    if 0 <= year && year <= 9999 {
        push_padded(&mut out, year as u32, 4);
    } else if year < 0 {
        out.push('-');
        push_padded(&mut out, (0 - year) as u32, 4);
    } else {
        out.push('+');
        push_padded(&mut out, year as u32, 4);
    }
    assert(out@ =~= year_text(date@.0));
    out
}

fn number_of(s: &[char], from: usize, to: usize) -> (n: u32)
    requires
        from <= to <= s@.len(),
        to - from <= 4,
        digits_at(s@, from as int, to as int),
    ensures
        n == number_at(s@, from as int, to as int),
        n < 10000,
{
    let mut n: u32 = 0;
    let mut i: usize = from;
    while i < to
        invariant
            from <= i <= to <= s@.len(),
            to - from <= 4,
            digits_at(s@, from as int, to as int),
            n == number_at(s@, from as int, i as int),
            n < crate::minutes::pow10((i - from) as nat),
        decreases to - i,
    {
        let c = s[i];
        proof {
            assert(s@.subrange(from as int, i + 1).drop_last() =~= s@.subrange(from as int, i as int));
            assert(is_digit(c));
            crate::minutes::lemma_pow10_bound((i - from) as nat);
        }
        n = n * 10 + (c as u32 - 48);
        i = i + 1;
    }
    proof {
        crate::minutes::lemma_pow10_bound((to - from) as nat);
    }
    n
}

/// Reads a `YYYY-MM-DD` date.
pub fn date(text: &str) -> (result: Result<CalendarDate, ParseErrorKind>)
    ensures
        match result {
            Ok(d) => date_value(text@) == Some(d@),
            Err(kind) => date_value(text@) is None && kind is InvalidDate && kind.found_text()
                == text@,
        },
{
    let chars = chars_of(text);
    match date_chars(&chars) {
        Some(d) => Ok(d),
        None => Err(ParseErrorKind::InvalidDate { found: text.to_owned() }),
    }
}

fn all_digits_in(s: &[char], from: usize, to: usize) -> (b: bool)
    requires
        from <= to <= s@.len(),
    ensures
        b == digits_at(s@, from as int, to as int),
{
    let mut i: usize = from;
    while i < to
        invariant
            from <= i <= to <= s@.len(),
            digits_at(s@, from as int, i as int),
        decreases to - i,
    {
        if !('0' <= s[i] && s[i] <= '9') {
            return false;
        }
        i = i + 1;
    }
    true
}

pub fn date_chars(text: &[char]) -> (d: Option<CalendarDate>)
    ensures
        match d {
            Some(d) => date_value(text@) == Some(d@),
            None => date_value(text@) is None,
        },
{
    if text.len() != 10 || !all_digits_in(text, 0, 4) || text[4] != '-' || !all_digits_in(text, 5, 7)
        || text[7] != '-' || !all_digits_in(text, 8, 10) {
        return None;
    }
    let year = number_of(text, 0, 4);
    let month = number_of(text, 5, 7);
    let day = number_of(text, 8, 10);
    CalendarDate::from_ymd(year as i32, month, day)
}


// ---- pieces shared by the line grammars ------------------------------------

/// A project link by its slug.
pub open spec fn slug_view(project: Option<ProjectSlug>) -> Option<Seq<char>> {
    match project {
        Some(slug) => Some(slug@),
        None => None,
    }
}

/// A reminder lead by its minutes.
pub open spec fn lead_view(lead: Option<Minutes>) -> Option<nat> {
    match lead {
        Some(m) => Some(m.0 as nat),
        None => None,
    }
}

/// ` !5m`, or nothing.
pub open spec fn lead_text(lead: Option<nat>) -> Seq<char> {
    match lead {
        Some(n) => seq![' ', '!'] + crate::minutes::canonical(n),
        None => Seq::empty(),
    }
}

/// How `time_range` refuses a text.
pub open spec fn range_refusal(text: Seq<char>, kind: ParseErrorKind) -> bool {
    match range_parts(text) {
        None => kind is MissingTimeRange && kind.found_text() == text,
        Some((a, b, r)) => kind is InvalidTime && (if time_value(a) is None {
            kind.found_text() == a
        } else {
            time_value(b) is None && kind.found_text() == b
        }),
    }
}

/// The leading `HH:MM-HH:MM` of a text, as seconds past midnight, and what
/// follows it.
pub open spec fn range_value(text: Seq<char>) -> Option<(nat, nat, Seq<char>)> {
    match range_parts(text) {
        Some((a, b, r)) => match (time_value(a), time_value(b)) {
            (Some(s), Some(e)) => Some((s, e, r)),
            _ => None,
        },
        None => None,
    }
}

pub fn copy_project(project: &Option<ProjectSlug>) -> (copy: Option<ProjectSlug>)
    ensures
        slug_view(copy) == slug_view(*project),
{
    match project {
        Some(slug) => Some(slug.clone()),
        None => None,
    }
}

/// ` !5m`, or nothing.
pub fn lead_chars(lead: Option<Minutes>) -> (text: Vec<char>)
    ensures
        text@ == lead_text(lead_view(lead)),
{
    match lead {
        Some(m) => {
            let mut out: Vec<char> = Vec::new();
            out.push(' ');
            out.push('!');
            append(&mut out, &m.render_chars());
            assert(out@ =~= seq![' ', '!'] + crate::minutes::canonical(m.0 as nat));
            out
        },
        None => Vec::new(),
    }
}

} // verus!

verus! {

/// Two digits read back as the number below one hundred they spell.
pub proof fn lemma_two_digits(n: nat)
    requires
        n < 100,
    ensures
        two_char_number(two_digits(n)) == Some(n),
        is_digit(two_digits(n)[0]),
        is_digit(two_digits(n)[1]),
{
    crate::minutes::lemma_digit_char(n / 10);
    crate::minutes::lemma_digit_char(n % 10);
}

/// A whole-minute time of day reads back from its `HH:MM` text.
pub proof fn law_time_round_trip(t: nat)
    requires
        t < 86400,
        t % 60 == 0,
    ensures
        time_value(time_text(t)) == Some(t),
        time_text(t).len() == 5,
        time_text(t)[2] == ':',
        forall|i: int| 0 <= i < 5 && i != 2 ==> is_digit(#[trigger] time_text(t)[i]),
{
    let h = t / 3600;
    let m = (t % 3600) / 60;
    lemma_two_digits(h);
    lemma_two_digits(m);
    let s = time_text(t);
    assert(s =~= seq![two_digits(h)[0], two_digits(h)[1], ':', two_digits(m)[0], two_digits(m)[1]]);
    assert(crate::text::is_first_where(s, char_pred(':'), 2));
    crate::text::lemma_first_where_is(s, char_pred(':'), 2);
    assert(s.subrange(0, 2) =~= two_digits(h));
    assert(s.subrange(3, 5) =~= two_digits(m));
    assert(h * 3600 + m * 60 == t);
}

/// Zero-padding keeps the digits and their value.
pub proof fn lemma_padded(n: nat, width: nat)
    ensures
        crate::minutes::all_digits(padded(n, width)),
        crate::minutes::digits_value(padded(n, width)) == n,
        padded(n, width).len() == if decimal(n).len() >= width {
            decimal(n).len()
        } else {
            width
        },
    decreases width,
{
    crate::minutes::lemma_decimal_digits(n);
    if decimal(n).len() < width {
        lemma_zeros_value(decimal(n), (width - decimal(n).len()) as nat);
        let p = padded(n, width);
        assert forall|i: int| 0 <= i < p.len() implies is_digit(#[trigger] p[i]) by {
            if i >= (width - decimal(n).len()) {
                assert(p[i] == decimal(n)[i - (width - decimal(n).len())]);
            }
        }
    }
}

/// Leading zeros add nothing to a number.
proof fn lemma_zeros_value(d: Seq<char>, k: nat)
    ensures
        crate::minutes::digits_value(Seq::new(k, |i: int| '0') + d) == crate::minutes::digits_value(d),
    decreases d.len(),
{
    let z = Seq::new(k, |i: int| '0');
    if d.len() == 0 {
        lemma_all_zeros(k);
        assert(z + d =~= z);
    } else {
        lemma_zeros_value(d.drop_last(), k);
        assert((z + d).drop_last() =~= z + d.drop_last());
        assert((z + d).last() == d.last());
    }
}

proof fn lemma_all_zeros(k: nat)
    ensures
        crate::minutes::digits_value(Seq::new(k, |i: int| '0')) == 0,
    decreases k,
{
    if k > 0 {
        lemma_all_zeros((k - 1) as nat);
        assert(Seq::new(k, |i: int| '0').drop_last() =~= Seq::new((k - 1) as nat, |i: int| '0'));
        assert(digit_value('0') == 0);
    }
}

} // verus!

verus! {

proof fn lemma_padded_width(n: nat, width: nat)
    requires
        1 <= width <= 4,
        n < crate::minutes::pow10(width),
    ensures
        padded(n, width).len() == width,
        crate::minutes::all_digits(padded(n, width)),
        crate::minutes::digits_value(padded(n, width)) == n,
{
    crate::minutes::lemma_decimal_len(n, width);
    lemma_padded(n, width);
}

/// A date of a four-digit year reads back from its `YYYY-MM-DD` text.
pub proof fn law_date_round_trip(d: (int, int, int))
    requires
        is_calendar_date(d.0, d.1, d.2),
        0 <= d.0 <= 9999,
    ensures
        date_value(date_text(d)) == Some(d),
        date_text(d).len() == 10,
        forall|i: int| 0 <= i < 10 && i != 4 && i != 7 ==> is_digit(#[trigger] date_text(d)[i]),
        date_text(d)[4] == '-' && date_text(d)[7] == '-',
{
    reveal_with_fuel(crate::minutes::pow10, 5);
    lemma_padded_width(d.0 as nat, 4);
    lemma_padded_width(d.1 as nat, 2);
    lemma_padded_width(d.2 as nat, 2);
    let y = padded(d.0 as nat, 4);
    let m = padded(d.1 as nat, 2);
    let a = padded(d.2 as nat, 2);
    let s = date_text(d);
    assert(s =~= y + seq!['-'] + m + seq!['-'] + a);
    assert(s.subrange(0, 4) =~= y);
    assert(s.subrange(5, 7) =~= m);
    assert(s.subrange(8, 10) =~= a);
    assert forall|i: int| 0 <= i < 10 && i != 4 && i != 7 implies is_digit(#[trigger] s[i]) by {
        if i < 4 {
            assert(s[i] == y[i]);
        } else if i < 7 {
            assert(s[i] == m[i - 5]);
        } else {
            assert(s[i] == a[i - 8]);
        }
    }
}

} // verus!
