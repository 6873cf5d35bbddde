//! Why a session line reads back as the session that wrote it.
//!
//! A day file is read and written many times, by the app and by hand; a
//! session written as `HH:MM-HH:MM (25m) [[project]] note` must read back
//! exactly, or every write would drift.

use vstd::prelude::*;

use crate::day::{session_line, session_reads, Session, SessionView};
use crate::grammar::{
    after_duration_group, law_time_round_trip, lemma_group_read, list_item_content, range_parts, range_value, span_minutes, time_text,
    time_value, token_split, wikilink_parts, wikilink_text,
};
use crate::ids::{is_slug, is_slug_char};
use crate::list::{reads_are_written_back, reads_back, ListLine};
use crate::minutes::{canonical, decimal, is_digit, is_unit, lemma_decimal_digits, reads_as, Minutes};
use crate::text::{
    char_pred, first_occurrence, first_where, is_first_where, is_ws, lemma_first_where_is, lemma_trim_fixed, occurs_at,
    starts_with, trim, trim_end, trim_start, ws_pred,
};

verus! {

/// A time a line can carry: a time of day in whole minutes.
pub open spec fn time_carried(t: nat) -> bool {
    t < 86400 && t % 60 == 0
}

/// A note a line can carry: nothing to trim, and, with no project, nothing
/// that would be read as one.
pub open spec fn note_carried(project: Option<Seq<char>>, note: Seq<char>) -> bool {
    &&& trim(note) == note
    &&& project matches Some(p) ==> is_slug(p)
    &&& project is None ==> wikilink_parts(note).0 is None
}

pub proof fn lemma_canonical_chars(n: nat)
    ensures
        canonical(n).len() > 0,
        forall|i: int| 0 <= i < canonical(n).len() ==> is_digit(#[trigger] canonical(n)[i]) || is_unit(canonical(n)[i]),
        is_digit(canonical(n)[0]),
        is_unit(canonical(n).last()),
{
    let h = n / 60;
    let m = n % 60;
    lemma_decimal_digits(h);
    lemma_decimal_digits(m);
    let c = canonical(n);
    if h == 0 {
        assert(c == decimal(m).push('m'));
        assert forall|i: int| 0 <= i < c.len() implies is_digit(#[trigger] c[i]) || is_unit(c[i]) by {
            if i < decimal(m).len() {
                assert(c[i] == decimal(m)[i]);
            }
        }
    } else if m == 0 {
        assert(c == decimal(h).push('h'));
        assert forall|i: int| 0 <= i < c.len() implies is_digit(#[trigger] c[i]) || is_unit(c[i]) by {
            if i < decimal(h).len() {
                assert(c[i] == decimal(h)[i]);
            }
        }
    } else {
        let a = decimal(h).push('h');
        let b = decimal(m).push('m');
        assert(c == a + b);
        assert forall|i: int| 0 <= i < c.len() implies is_digit(#[trigger] c[i]) || is_unit(c[i]) by {
            if i < decimal(h).len() {
                assert(c[i] == decimal(h)[i]);
            } else if i > a.len() && i < c.len() - 1 {
                assert(c[i] == decimal(m)[i - a.len()]);
            }
        }
        assert(c[0] == decimal(h)[0]);
    }
}

/// What follows the duration group: the link and the note, trimmed at the end.
pub open spec fn session_tail(project: Option<Seq<char>>, note: Seq<char>) -> Seq<char> {
    trim_end(wikilink_text(project) + note)
}

proof fn lemma_tail_shape(project: Option<Seq<char>>, note: Seq<char>)
    requires
        note_carried(project, note),
    ensures
        session_tail(project, note).len() == 0 || !is_ws(session_tail(project, note)[0]),
        session_tail(project, note).len() == 0 || !is_ws(session_tail(project, note).last()),
        wikilink_parts(session_tail(project, note)) == (project, note),
{
    let w = wikilink_text(project);
    let tail = session_tail(project, note);
    crate::text::lemma_trim_end_shape(w + note);
    if note.len() > 0 {
        crate::project::lemma_trimmed_ends(note);
        assert((w + note).last() == note.last());
        lemma_trim_fixed_end(w + note);
        assert(tail == w + note);
        match project {
            Some(p) => {
                assert(tail[0] == '[');
                lemma_link_then(p, note);
            },
            None => {
                assert(w + note =~= note);
            },
        }
    } else {
        assert(w + note =~= w);
        match project {
            Some(p) => {
                let link = seq!['[', '['] + p + seq![']', ']'];
                assert(w =~= link.push(' '));
                assert(trim_end(w) == trim_end(link)) by {
                    assert(is_ws(' '));
                    assert(w.drop_last() =~= link);
                }
                assert(!is_ws(link.last()));
                lemma_trim_fixed_end(link);
                assert(tail == link);
                lemma_link_alone(p);
            },
            None => {
                assert(w =~= Seq::<char>::empty());
                assert(tail =~= Seq::<char>::empty());
                assert(wikilink_parts(Seq::<char>::empty()) == (None::<Seq<char>>, Seq::<char>::empty()));
            },
        }
    }
}

pub proof fn lemma_trim_fixed_end(s: Seq<char>)
    requires
        s.len() == 0 || !is_ws(s.last()),
    ensures
        trim_end(s) == s,
{
}

/// The first place a pattern occurs is the one with no earlier occurrence.
pub proof fn lemma_first_occurrence_at(s: Seq<char>, pat: Seq<char>, n: int)
    requires
        occurs_at(s, pat, n),
        forall|k: int| 0 <= k < n ==> !occurs_at(s, pat, k),
    ensures
        first_occurrence(s, pat) == Some(n),
{
    reveal(first_occurrence);
    let c = choose|at: int| occurs_at(s, pat, at) && forall|k: int| 0 <= k < at ==> !occurs_at(s, pat, k);
    assert(occurs_at(s, pat, c) && forall|k: int| 0 <= k < c ==> !occurs_at(s, pat, k));
    if c < n {
        assert(!occurs_at(s, pat, c));
    } else if c > n {
        assert(!occurs_at(s, pat, n));
    }
}

/// `[[p]]` followed by `rest` reads as the link and what follows it.
pub proof fn lemma_link_read(p: Seq<char>, after: Seq<char>)
    requires
        is_slug(p),
    ensures
        wikilink_parts(seq!['[', '['] + p + seq![']', ']'] + after) == (Some(p), trim_start(after)),
{
    let s = seq!['[', '['] + p + seq![']', ']'] + after;
    assert(s.subrange(0, 2) =~= seq!['[', '[']);
    let r = s.subrange(2, s.len() as int);
    assert(r =~= p + seq![']', ']'] + after);
    let n = p.len() as int;
    assert(occurs_at(r, seq![']', ']'], n)) by {
        assert(r.subrange(n, n + 2) =~= seq![']', ']']);
    }
    assert forall|k: int| 0 <= k < n implies !occurs_at(r, seq![']', ']'], k) by {
        assert(is_slug_char(p[k]));
        assert(r[k] == p[k]);
        if occurs_at(r, seq![']', ']'], k) {
            assert(r.subrange(k, k + 2)[0] == r[k]);
        }
    }
    lemma_first_occurrence_at(r, seq![']', ']'], n);
    assert(r.subrange(0, n) =~= p);
    assert(r.subrange(n + 2, r.len() as int) =~= after);
}

proof fn lemma_link_then(p: Seq<char>, note: Seq<char>)
    requires
        is_slug(p),
        note.len() > 0,
        trim(note) == note,
    ensures
        wikilink_parts(wikilink_text(Some(p)) + note) == (Some(p), note),
{
    let after = seq![' '] + note;
    crate::project::lemma_trimmed_ends(note);
    assert(trim_start(after) == note) by {
        assert(is_ws(' '));
        assert(trim_start(after) == trim_start(after.drop_first()));
        assert(after.drop_first() =~= note);
    }
    let x = seq!['[', '['] + p + seq![']', ']'] + after;
    assert(wikilink_text(Some(p)) + note =~= x);
    lemma_link_read(p, after);
}

#[verifier::rlimit(30)]
proof fn lemma_link_alone(p: Seq<char>)
    requires
        is_slug(p),
    ensures
        wikilink_parts(seq!['[', '['] + p + seq![']', ']']) == (Some(p), Seq::<char>::empty()),
{
    lemma_link_read(p, Seq::empty());
    assert(seq!['[', '['] + p + seq![']', ']'] + Seq::<char>::empty() =~= seq!['[', '['] + p + seq![']', ']']);
}


/// Trimming the end of a join trims the second part, or, when nothing of it
/// is left, the first.
pub proof fn lemma_trim_end_concat(a: Seq<char>, b: Seq<char>)
    ensures
        trim_end(a + b) == if trim_end(b).len() > 0 {
            a + trim_end(b)
        } else {
            trim_end(a)
        },
    decreases b.len(),
{
    if b.len() == 0 {
        assert(a + b =~= a);
    } else if is_ws(b.last()) {
        assert((a + b).drop_last() =~= a + b.drop_last());
        lemma_trim_end_concat(a, b.drop_last());
    } else {
        assert((a + b).last() == b.last());
    }
}

/// The `HH:MM-HH:MM (25m)` head of a session line.
pub open spec fn session_head(s: nat, e: nat) -> Seq<char> {
    time_text(s) + seq!['-'] + time_text(e) + seq![' ', '('] + canonical(span_minutes(s, e)) + seq![')']
}

/// The content of a session line: its head, then the link and note.
pub open spec fn session_content(v: SessionView) -> Seq<char> {
    let tail = session_tail(v.2, v.3);
    session_head(v.0, v.1) + if tail.len() > 0 {
        seq![' '] + tail
    } else {
        Seq::empty()
    }
}

/// A head ending in `)`, a space, then the link and note, trims to the head
/// and what of the link and note is left.
proof fn lemma_trim_after_head(h: Seq<char>, ln: Seq<char>)
    requires
        h.len() > 0,
        h.last() == ')',
    ensures
        trim_end(h + seq![' '] + ln) == h + if trim_end(ln).len() > 0 {
            seq![' '] + trim_end(ln)
        } else {
            Seq::empty()
        },
{
    let b = seq![' '] + ln;
    assert(h + seq![' '] + ln =~= h + b);
    lemma_trim_end_concat(h, b);
    lemma_trim_end_concat(seq![' '], ln);
    assert(!is_ws(')'));
    lemma_trim_fixed_end(h);
    assert(trim_end(Seq::<char>::empty()) == Seq::<char>::empty());
    assert(trim_end(seq![' ']).len() == 0) by {
        assert(is_ws(' '));
        assert(seq![' '].drop_last() =~= Seq::<char>::empty());
    }
    if trim_end(ln).len() == 0 {
        assert(h + Seq::<char>::empty() =~= h);
    }
}

proof fn lemma_line_is_content(v: SessionView)
    requires
        note_carried(v.2, v.3),
    ensures
        session_line(v) == seq!['-', ' '] + session_content(v),
{
    let h = seq!['-', ' '] + session_head(v.0, v.1);
    let ln = wikilink_text(v.2) + v.3;
    assert(session_line(v) == trim_end(h + seq![' '] + ln)) by {
        assert(seq!['-', ' '] + time_text(v.0) + seq!['-'] + time_text(v.1) + seq![' ', '('] + canonical(
            span_minutes(v.0, v.1),
        ) + seq![')', ' '] + wikilink_text(v.2) + v.3 =~= h + seq![' '] + ln);
    }
    lemma_trim_after_head(h, ln);
    let tail = session_tail(v.2, v.3);
    assert(h + (if tail.len() > 0 {
        seq![' '] + tail
    } else {
        Seq::empty()
    }) =~= seq!['-', ' '] + session_content(v));
}

/// The head reads as its two times, with the duration group and what
/// follows left over.
proof fn lemma_head_read(s: nat, e: nat, rest: Seq<char>)
    requires
        time_carried(s),
        time_carried(e),
        rest.len() == 0 || rest[0] == ' ',
    ensures
        range_value(session_head(s, e) + rest) == Some(
            (s, e, seq!['('] + canonical(span_minutes(s, e)) + seq![')'] + rest),
        ),
{
    law_time_round_trip(s);
    law_time_round_trip(e);
    let a = time_text(s);
    let b = time_text(e);
    let can = canonical(span_minutes(s, e));
    lemma_canonical_chars(span_minutes(s, e));
    let c = session_head(s, e) + rest;
    assert(c =~= a + seq!['-'] + b + seq![' '] + (seq!['('] + can + seq![')'] + rest));
    assert forall|i: int| 0 <= i < 5 implies !is_ws(#[trigger] a[i]) && a[i] != '-' && !is_ws(b[i]) && b[i] != '-' by {
        if i != 2 {
            assert(is_digit(a[i]) && is_digit(b[i]));
        }
    }
    assert(!is_ws(c[0])) by {
        assert(c[0] == a[0]);
    }
    lemma_trim_fixed_start(c);
    assert(is_first_where(c, ws_pred(), 11)) by {
        assert forall|k: int| 0 <= k < 11 implies !ws_pred()(#[trigger] c[k]) by {
            if k < 5 {
                assert(c[k] == a[k]);
            } else if k > 5 {
                assert(c[k] == b[k - 6]);
            }
        }
        assert(c[11] == ' ');
        assert(is_ws(' '));
    }
    lemma_first_where_is(c, ws_pred(), 11);
    let head = c.subrange(0, 11);
    assert(head =~= a + seq!['-'] + b);
    let after = c.subrange(11, c.len() as int);
    assert(after =~= seq![' '] + (seq!['('] + can + seq![')'] + rest));
    assert(trim_start(after) == trim_start(after.drop_first()));
    assert(after.drop_first() =~= seq!['('] + can + seq![')'] + rest);
    lemma_trim_fixed_start(seq!['('] + can + seq![')'] + rest);
    assert(token_split(c) == (head, seq!['('] + can + seq![')'] + rest));
    assert(is_first_where(head, char_pred('-'), 5)) by {
        assert forall|k: int| 0 <= k < 5 implies !char_pred('-')(#[trigger] head[k]) by {
            assert(head[k] == a[k]);
        }
    }
    lemma_first_where_is(head, char_pred('-'), 5);
    assert(head.subrange(0, 5) =~= a);
    assert(head.subrange(6, 11) =~= b);
}

pub proof fn lemma_trim_fixed_start(s: Seq<char>)
    requires
        s.len() == 0 || !is_ws(s[0]),
    ensures
        trim_start(s) == s,
{
}

/// The duration group is skipped, leaving the link and note.
proof fn lemma_group_skipped(n: nat, tail: Seq<char>)
    requires
        n <= u32::MAX,
        tail.len() == 0 || !is_ws(tail[0]),
    ensures
        after_duration_group(seq!['('] + canonical(n) + seq![')'] + if tail.len() > 0 {
            seq![' '] + tail
        } else {
            Seq::empty()
        }) == tail,
{
    let can = canonical(n);
    let rest: Seq<char> = if tail.len() > 0 {
        seq![' '] + tail
    } else {
        Seq::empty()
    };
    let g = seq!['('] + can + seq![')'] + rest;
    lemma_canonical_chars(n);
    let r = g.drop_first();
    assert(r =~= can + seq![')'] + rest);
    let k = can.len() as int;
    assert(is_first_where(r, char_pred(')'), k)) by {
        assert forall|j: int| 0 <= j < k implies !char_pred(')')(#[trigger] r[j]) by {
            assert(r[j] == can[j]);
        }
    }
    lemma_first_where_is(r, char_pred(')'), k);
    assert(first_where(r, char_pred(')')) == Some(k));
    assert(r.subrange(0, k) =~= can);
    crate::minutes::law_render_then_parse(Minutes(n as u32));
    assert(reads_as(r.subrange(0, k), n));
    assert(r.subrange(k + 1, r.len() as int) =~= rest);
    assert(g.len() > 0 && g[0] == '(');
    lemma_group_read(g, k, n);
    if tail.len() > 0 {
        assert(is_ws(' '));
        assert(trim_start(rest) == trim_start(rest.drop_first()));
        assert(rest.drop_first() =~= tail);
    }
    lemma_trim_fixed_start(tail);
}

/// The content reads as the session.
proof fn lemma_content_read(v: SessionView)
    requires
        time_carried(v.0),
        time_carried(v.1),
        note_carried(v.2, v.3),
    ensures
        session_reads(session_content(v)) == Some(v),
{
    let c = session_content(v);
    let tail = session_tail(v.2, v.3);
    let rest: Seq<char> = if tail.len() > 0 {
        seq![' '] + tail
    } else {
        Seq::empty()
    };
    lemma_tail_shape(v.2, v.3);
    lemma_head_read(v.0, v.1, rest);
    assert(span_minutes(v.0, v.1) <= u32::MAX);
    lemma_group_skipped(span_minutes(v.0, v.1), tail);
    assert(c == session_head(v.0, v.1) + rest);
    assert(trim(v.3) == v.3);
}

/// The content has nothing to trim at either end.
proof fn lemma_content_trimmed(v: SessionView)
    requires
        time_carried(v.0),
        note_carried(v.2, v.3),
    ensures
        trim(session_content(v)) == session_content(v),
        session_content(v).len() > 0,
{
    let c = session_content(v);
    let tail = session_tail(v.2, v.3);
    lemma_tail_shape(v.2, v.3);
    law_time_round_trip(v.0);
    let h = session_head(v.0, v.1);
    assert(c[0] == h[0]);
    assert(h[0] == time_text(v.0)[0]);
    assert(is_digit(time_text(v.0)[0]));
    if tail.len() > 0 {
        assert(c.last() == tail.last());
    } else {
        assert(c =~= h);
        assert(c.last() == ')');
    }
    lemma_trim_fixed(c);
}

/// `- ` before a text with nothing to trim is a list item with that text.
pub proof fn lemma_dash_item(c: Seq<char>)
    requires
        c.len() > 0,
        trim(c) == c,
    ensures
        trim_end(seq!['-', ' '] + c) == seq!['-', ' '] + c,
        trim(seq!['-', ' '] + c).len() > 0,
        list_item_content(seq!['-', ' '] + c) == Some(c),
{
    let line = seq!['-', ' '] + c;
    crate::project::lemma_trimmed_ends(c);
    assert(line[0] == '-');
    assert(line.last() == c.last());
    lemma_trim_fixed(line);
    assert(line.subrange(0, 2) =~= seq!['-', ' ']);
    assert(line.subrange(2, line.len() as int) =~= c);
}

/// The line is `- ` and the content, and reads as a list item with that
/// content.
proof fn lemma_line_item(v: SessionView)
    requires
        time_carried(v.0),
        note_carried(v.2, v.3),
    ensures
        trim_end(session_line(v)) == session_line(v),
        trim(session_line(v)).len() > 0,
        list_item_content(session_line(v)) == Some(session_content(v)),
{
    lemma_line_is_content(v);
    lemma_content_trimmed(v);
    lemma_dash_item(session_content(v));
}

/// A session line reads back as the session that wrote it, whenever its times
/// are whole minutes, its project a slug and its note has nothing to trim and
/// is not itself taken for a link.
pub proof fn law_session_round_trip(v: SessionView)
    requires
        time_carried(v.0),
        time_carried(v.1),
        note_carried(v.2, v.3),
    ensures
        reads_back::<Session>(v),
{
    lemma_line_item(v);
    lemma_content_read(v);
}

/// The text is empty or ends in a non-blank.
pub open spec fn end_solid(s: Seq<char>) -> bool {
    s.len() == 0 || !is_ws(s.last())
}

/// A tail of a text that ends in a non-blank ends in one too.
pub proof fn lemma_tail_solid(s: Seq<char>, i: int)
    requires
        end_solid(s),
        0 <= i <= s.len(),
    ensures
        end_solid(s.subrange(i, s.len() as int)),
        end_solid(trim_start(s)),
{
    if i < s.len() {
        assert(s.subrange(i, s.len() as int).last() == s.last());
    }
    crate::text::lemma_trim_start_shape(s);
    if trim_start(s).len() > 0 {
        assert(trim_start(s).last() == s.last());
    }
}

/// A time that reads is a whole-minute time of day.
pub proof fn lemma_time_carried(x: Seq<char>)
    requires
        time_value(x) is Some,
    ensures
        time_carried(time_value(x)->0),
{
    let i = first_where(x, char_pred(':'))->0;
    let h = crate::grammar::two_char_number(x.subrange(0, i))->0;
    let m = crate::grammar::two_char_number(x.subrange(i + 1, x.len() as int))->0;
    assert(h < 24 && m < 60);
    assert((h * 3600 + m * 60) % 60 == 0 && h * 3600 + m * 60 < 86400) by (nonlinear_arith)
        requires
            h < 24,
            m < 60,
    ;
}

/// What is left after a duration group has no blank at either end when what
/// came before had none.
proof fn lemma_group_rest_trimmed(x: Seq<char>)
    requires
        trim_start(x) == x,
        end_solid(x),
    ensures
        trim_start(after_duration_group(x)) == after_duration_group(x),
        end_solid(after_duration_group(x)),
{
    crate::text::lemma_trim_idempotent(x);
    if x.len() > 0 && x[0] == '(' {
        let rest = x.drop_first();
        lemma_tail_solid(x, 1);
        assert(rest =~= x.subrange(1, x.len() as int));
        match first_where(rest, char_pred(')')) {
            Some(c) => {
                let after = rest.subrange(c + 1, rest.len() as int);
                crate::text::lemma_trim_idempotent(after);
                lemma_tail_solid(rest, c + 1);
                lemma_tail_solid(after, 0);
            },
            None => {},
        }
    }
}

/// What follows the times of a trimmed text has no blank at either end.
pub proof fn lemma_range_rest(c: Seq<char>)
    requires
        trim(c) == c,
        range_parts(c) is Some,
    ensures
        trim_start((range_parts(c)->0).2) == (range_parts(c)->0).2,
        end_solid((range_parts(c)->0).2),
{
    let r = (range_parts(c)->0).2;
    crate::text::lemma_trim_idempotent(c);
    if c.len() > 0 {
        crate::project::lemma_trimmed_ends(c);
    }
    let t = trim_start(c);
    assert(t == c);
    match first_where(t, ws_pred()) {
        Some(i) => {
            crate::text::lemma_trim_idempotent(t.subrange(i, t.len() as int));
            lemma_tail_solid(t, i);
            lemma_tail_solid(t.subrange(i, t.len() as int), 0);
        },
        None => {
            assert(r =~= Seq::<char>::empty());
        },
    }
}

/// Every session a line's content reads as is one whose line reads back as
/// it: the reader only yields whole-minute times, slug projects, trimmed
/// notes, and notes that are not themselves taken for a link.
pub proof fn law_session_read_again(c: Seq<char>)
    requires
        trim(c) == c,
        session_reads(c) is Some,
    ensures
        reads_back::<Session>(session_reads(c)->0),
{
    let (a, b, r) = range_parts(c)->0;
    lemma_time_carried(a);
    lemma_time_carried(b);
    lemma_range_rest(c);
    let g = after_duration_group(r);
    lemma_group_rest_trimmed(r);
    let v = session_reads(c)->0;
    crate::text::lemma_trim_idempotent(wikilink_parts(g).1);
    if wikilink_parts(g).0 is None {
        assert(wikilink_parts(g).1 == g);
        crate::text::lemma_trim_start_shape(g);
        if g.len() > 0 {
            lemma_trim_fixed(g);
        }
        assert(trim(g) == g);
    }
    law_session_round_trip(v);
}

/// Whatever the reader takes from a `## Sessions` list, its lines read back
/// as it; so, with `law_list_fixed_point`, writing a sessions list that was
/// read and reading it again gives the same sessions and unread lines.
pub proof fn law_sessions_written_back()
    ensures
        reads_are_written_back::<Session>(),
{
    assert forall|c: Seq<char>| trim(c) == c && (#[trigger] Session::reads(c)) is Some implies reads_back::<Session>(
        Session::reads(c)->0,
    ) by {
        law_session_read_again(c);
    }
}

} // verus!
