//! Why a repeating block's line reads back as the block.
//!
//! `recurring.md` holds one line per repeating block,
//! `` - `id` days HH:MM-HH:MM [[project]] Title !5m ``, written with double
//! spaces made single; every load reads it again.

use vstd::prelude::*;

use crate::block_line::{block_head, lemma_block_head_read, lemma_link_on, lemma_reminder_on, lemma_trim_start_end};
use crate::blocks::{collapse_pairs, recurring_line, recurring_reads, RecurringBlock, RecurringView};
use crate::grammar::{lead_text, reminder_parts, time_text, wikilink_parts, wikilink_text};
use crate::ids::{is_slug, is_slug_char};
use crate::minutes::{canonical, is_digit, is_unit};
use crate::session_line::{lemma_canonical_chars, time_carried};
use crate::grammar::law_time_round_trip;
use crate::days_line::lemma_days_text_solid;
use crate::schedule::days_text;
use crate::text::{
    char_pred, is_first_where, is_ws, lemma_first_where_is, lemma_trim_end_shape, lemma_trim_fixed, lemma_trim_idempotent,
    trim, trim_end, trim_start, ws_pred,
};
use crate::grammar::{backtick_parts, list_item_content, range_value, token_split};
use crate::days_line::law_days_round_trip;
use crate::schedule::days_value;
use crate::session_line::{lemma_dash_item, lemma_trim_end_concat, lemma_trim_fixed_end};
use crate::list::{reads_back, ListLine};

verus! {

/// No two spaces in a row.
pub open spec fn no_pair(s: Seq<char>) -> bool {
    forall|j: int| 0 <= j && j + 1 < s.len() ==> #[trigger] s[j] != ' ' || s[j + 1] != ' '
}

/// Collapsing leaves a text without a pair, ending in a non-space, as it is,
/// and goes on after it.
pub proof fn lemma_collapse_concat(a: Seq<char>, b: Seq<char>)
    requires
        no_pair(a),
        a.len() == 0 || a.last() != ' ',
    ensures
        collapse_pairs(a + b) == a + collapse_pairs(b),
    decreases a.len(),
{
    if a.len() == 0 {
        assert(a + b =~= b);
    } else {
        let x = a + b;
        if a.len() >= 2 {
            assert(x[1] == a[1]);
            assert(a[0] != ' ' || a[1] != ' ');
        } else {
            assert(a[0] == a.last());
        }
        assert(x.drop_first() =~= a.drop_first() + b);
        let t = a.drop_first();
        assert forall|j: int| 0 <= j && j + 1 < t.len() implies #[trigger] t[j] != ' ' || t[j + 1] != ' ' by {
            assert(t[j] == a[j + 1]);
            assert(t[j + 1] == a[j + 2]);
        }
        if t.len() > 0 {
            assert(t.last() == a.last());
        }
        lemma_collapse_concat(t, b);
        assert(seq![a[0]] + (t + collapse_pairs(b)) =~= a + collapse_pairs(b));
    }
}

/// A space before a non-space stays.
pub proof fn lemma_collapse_space(b: Seq<char>)
    requires
        b.len() == 0 || b[0] != ' ',
    ensures
        collapse_pairs(seq![' '] + b) == seq![' '] + collapse_pairs(b),
{
    let x = seq![' '] + b;
    assert(x.drop_first() =~= b);
    if b.len() > 0 {
        assert(x[1] == b[0]);
    }
}

/// A text with no space at all is left as it is.
proof fn lemma_collapse_solid(a: Seq<char>)
    requires
        forall|j: int| 0 <= j < a.len() ==> #[trigger] a[j] != ' ',
    ensures
        collapse_pairs(a) == a,
{
    if a.len() > 0 {
        assert(a.last() == a[a.len() - 1]);
    }
    lemma_collapse_concat(a, Seq::empty());
    assert(a + Seq::<char>::empty() =~= a);
}

/// The title and its reminder, after one space, collapse to that space and
/// the title and reminder without their leading blanks.
proof fn lemma_collapse_titled(title: Seq<char>, lead: Option<nat>)
    requires
        trim(title) == title,
        no_pair(title),
    ensures
        collapse_pairs(seq![' '] + (title + lead_text(lead))) == seq![' '] + trim_start(title + lead_text(lead)),
{
    let l = lead_text(lead);
    let y = title + l;
    match lead {
        Some(n) => {
            let word = seq!['!'] + canonical(n);
            lemma_canonical_chars(n);
            assert forall|j: int| 0 <= j < word.len() implies #[trigger] word[j] != ' ' by {
                if j > 0 {
                    assert(word[j] == canonical(n)[j - 1]);
                    assert(is_digit(canonical(n)[j - 1]) || is_unit(canonical(n)[j - 1]));
                }
            }
            lemma_collapse_solid(word);
            assert(l =~= seq![' '] + word);
            lemma_collapse_space(word);
            assert(is_ws(' '));
            if title.len() == 0 {
                assert(y =~= l);
                let x = seq![' '] + y;
                assert(x.subrange(2, x.len() as int) =~= word);
                assert(collapse_pairs(x) == seq![' '] + collapse_pairs(word));
                assert(l.drop_first() =~= word);
                assert(trim_start(l) == trim_start(word));
                assert(trim_start(word) == word);
            } else {
                crate::project::lemma_trimmed_ends(title);
                lemma_collapse_concat(title, l);
                assert(y[0] == title[0]);
                lemma_collapse_space(y);
                assert(trim_start(y) == y);
            }
        },
        None => {
            assert(y =~= title);
            if title.len() > 0 {
                crate::project::lemma_trimmed_ends(title);
                lemma_collapse_concat(title, Seq::empty());
                assert(title + Seq::<char>::empty() =~= title);
                lemma_collapse_space(title);
                assert(trim_start(title) == title);
            } else {
                lemma_collapse_space(title);
                assert(collapse_pairs(Seq::<char>::empty()) == Seq::<char>::empty());
            }
        },
    }
}

/// A text with no space, then anything: the text stays and what follows is
/// collapsed.
proof fn lemma_solid_then(a: Seq<char>, b: Seq<char>)
    requires
        a.len() > 0,
        forall|j: int| 0 <= j < a.len() ==> #[trigger] a[j] != ' ',
    ensures
        collapse_pairs(a + b) == a + collapse_pairs(b),
{
    assert(a.last() == a[a.len() - 1]);
    lemma_collapse_concat(a, b);
}

/// What a repeating block can carry through its line: a slug id, a non-empty
/// set of weekdays, whole-minute times, a title with nothing to trim and no
/// two spaces in a row, and neither a link nor a reminder read out of its
/// title that it does not hold.
pub open spec fn recurring_carried(b: RecurringView) -> bool {
    &&& is_slug(b.0)
    &&& forall|d: nat| b.1.contains(d) ==> d < 7
    &&& b.1 != Set::<nat>::empty()
    &&& time_carried(b.2)
    &&& time_carried(b.3)
    &&& b.4 matches Some(p) ==> is_slug(p)
    &&& trim(b.5) == b.5
    &&& no_pair(b.5)
    &&& b.4 is None ==> wikilink_parts(trim(b.5 + lead_text(b.6))).0 is None
    &&& b.6 matches Some(n) ==> n <= u32::MAX
    &&& b.6 is None ==> reminder_parts(b.5).0 is None
}

/// The id, the days and the times, as a line holds them.
pub open spec fn recurring_prefix(b: RecurringView) -> Seq<char> {
    seq!['`'] + b.0 + seq!['`', ' '] + days_text(b.1) + seq![' '] + block_head(b.2, b.3)
}

/// The link, title and reminder after the times, double spaces made single.
pub open spec fn recurring_tail(b: RecurringView) -> Seq<char> {
    seq![' '] + wikilink_text(b.4) + trim_start(b.5 + lead_text(b.6))
}

/// After the times, the link, title and reminder collapse to their single
/// spaced form.
proof fn lemma_tail_collapse(project: Option<Seq<char>>, title: Seq<char>, lead: Option<nat>)
    requires
        project matches Some(p) ==> is_slug(p),
        trim(title) == title,
        no_pair(title),
    ensures
        collapse_pairs(seq![' '] + wikilink_text(project) + (title + lead_text(lead))) == seq![' '] + wikilink_text(
            project,
        ) + trim_start(title + lead_text(lead)),
{
    let y = title + lead_text(lead);
    let tail = seq![' '] + wikilink_text(project) + y;
    lemma_collapse_titled(title, lead);
    match project {
        Some(p) => {
            let link = seq!['[', '['] + p + seq![']', ']'];
            assert(tail =~= seq![' '] + (link + (seq![' '] + y)));
            assert forall|j: int| 0 <= j < link.len() implies #[trigger] link[j] != ' ' by {
                if 2 <= j < link.len() - 2 {
                    assert(link[j] == p[j - 2]);
                    assert(is_slug_char(p[j - 2]));
                }
            }
            lemma_collapse_space(link + (seq![' '] + y));
            lemma_solid_then(link, seq![' '] + y);
            assert(seq![' '] + wikilink_text(project) + trim_start(y) =~= seq![' '] + (link + (seq![' '] + trim_start(
                y,
            ))));
        },
        None => {
            assert(tail =~= seq![' '] + y);
            assert(seq![' '] + wikilink_text(project) + trim_start(y) =~= seq![' '] + trim_start(y));
        },
    }
}

/// Up to the times, the written text has no pair of spaces, so collapsing it
/// only reaches what follows.
proof fn lemma_prefix_collapse(id: Seq<char>, days: Set<nat>, s: nat, e: nat, tail: Seq<char>)
    requires
        is_slug(id),
        forall|d: nat| days.contains(d) ==> d < 7,
        days != Set::<nat>::empty(),
        time_carried(s),
        time_carried(e),
    ensures
        collapse_pairs(seq!['-', ' ', '`'] + id + seq!['`', ' '] + days_text(days) + seq![' '] + time_text(s) + seq![
            '-',
        ] + time_text(e) + tail) == seq!['-', ' '] + (seq!['`'] + id + seq!['`', ' '] + days_text(days) + seq![' ']
            + block_head(s, e)) + collapse_pairs(tail),
{
    let quoted = seq!['`'] + id + seq!['`'];
    let dt = days_text(days);
    let head = block_head(s, e);
    law_time_round_trip(s);
    law_time_round_trip(e);
    lemma_days_text_solid(days);
    let r3 = head + tail;
    let r2 = dt + (seq![' '] + r3);
    let r1 = quoted + (seq![' '] + r2);
    assert(seq!['-', ' ', '`'] + id + seq!['`', ' '] + dt + seq![' '] + time_text(s) + seq!['-'] + time_text(e) + tail
        =~= seq!['-'] + (seq![' '] + r1));
    assert forall|j: int| 0 <= j < quoted.len() implies #[trigger] quoted[j] != ' ' by {
        if 0 < j < quoted.len() - 1 {
            assert(quoted[j] == id[j - 1]);
            assert(is_slug_char(id[j - 1]));
        }
    }
    assert forall|j: int| 0 <= j < dt.len() implies #[trigger] dt[j] != ' ' by {
        assert(!is_ws(dt[j]));
        assert(is_ws(' '));
    }
    assert forall|j: int| 0 <= j < head.len() implies #[trigger] head[j] != ' ' by {
        if j < 5 {
            assert(head[j] == time_text(s)[j]);
            if j != 2 {
                assert(is_digit(time_text(s)[j]));
            }
        } else if j > 5 {
            assert(head[j] == time_text(e)[j - 6]);
            if j != 8 {
                assert(is_digit(time_text(e)[j - 6]));
            }
        }
    }
    lemma_solid_then(seq!['-'], seq![' '] + r1);
    lemma_collapse_space(r1);
    lemma_solid_then(quoted, seq![' '] + r2);
    lemma_collapse_space(r2);
    lemma_solid_then(dt, seq![' '] + r3);
    assert(r3[0] == head[0]);
    lemma_collapse_space(r3);
    lemma_solid_then(head, tail);
    assert(seq!['-'] + (seq![' '] + (quoted + (seq![' '] + (dt + (seq![' '] + (head + collapse_pairs(tail))))))) =~= seq![
        '-',
        ' ',
    ] + (seq!['`'] + id + seq!['`', ' '] + dt + seq![' '] + head) + collapse_pairs(tail));
}

/// Collapsing the written text keeps everything up to the times and makes
/// single the spaces around an empty title.
proof fn lemma_recurring_collapse(b: RecurringView)
    requires
        recurring_carried(b),
    ensures
        collapse_pairs(
            seq!['-', ' ', '`'] + b.0 + seq!['`', ' '] + days_text(b.1) + seq![' '] + time_text(b.2) + seq!['-']
                + time_text(b.3) + seq![' '] + wikilink_text(b.4) + b.5 + lead_text(b.6),
        ) == seq!['-', ' '] + recurring_prefix(b) + recurring_tail(b),
{
    let tail = seq![' '] + wikilink_text(b.4) + (b.5 + lead_text(b.6));
    assert(seq!['-', ' ', '`'] + b.0 + seq!['`', ' '] + days_text(b.1) + seq![' '] + time_text(b.2) + seq!['-']
        + time_text(b.3) + seq![' '] + wikilink_text(b.4) + b.5 + lead_text(b.6) =~= seq!['-', ' ', '`'] + b.0 + seq![
        '`',
        ' ',
    ] + days_text(b.1) + seq![' '] + time_text(b.2) + seq!['-'] + time_text(b.3) + tail);
    lemma_prefix_collapse(b.0, b.1, b.2, b.3, tail);
    lemma_tail_collapse(b.4, b.5, b.6);
}

/// The content of a repeating block's line: the id, days and times, then the
/// link, title and reminder with the end trimmed.
pub open spec fn recurring_content(b: RecurringView) -> Seq<char> {
    recurring_prefix(b) + trim_end(recurring_tail(b))
}

/// The line is `- ` and the content, which has nothing to trim.
proof fn lemma_recurring_line(b: RecurringView)
    requires
        recurring_carried(b),
    ensures
        recurring_line(b) == seq!['-', ' '] + recurring_content(b),
        recurring_content(b).len() > 0,
        trim(recurring_content(b)) == recurring_content(b),
        trim_end(recurring_tail(b)).len() == 0 || trim_end(recurring_tail(b))[0] == ' ',
{
    lemma_recurring_collapse(b);
    let pre = seq!['-', ' '] + recurring_prefix(b);
    let q = recurring_tail(b);
    let r = trim_end(q);
    let head = block_head(b.2, b.3);
    law_time_round_trip(b.3);
    assert(pre.last() == head.last());
    assert(head.last() == time_text(b.3)[4]);
    assert(is_digit(time_text(b.3)[4]));
    lemma_trim_end_concat(pre, q);
    lemma_trim_fixed_end(pre);
    lemma_trim_end_shape(q);
    let c = recurring_content(b);
    if r.len() == 0 {
        assert(pre + r =~= pre);
    }
    assert(pre + r =~= seq!['-', ' '] + c);
    assert(c[0] == '`');
    if r.len() > 0 {
        assert(c.last() == r.last());
    } else {
        assert(c.last() == head.last());
    }
    lemma_trim_fixed(c);
}

/// The id, the days and the times read off the front of the content.
proof fn lemma_recurring_front(b: RecurringView)
    requires
        recurring_carried(b),
        trim_end(recurring_tail(b)).len() == 0 || trim_end(recurring_tail(b))[0] == ' ',
    ensures
        backtick_parts(recurring_content(b)) matches Some((id, r1)) && id == b.0 && token_split(r1) == (
            days_text(b.1),
            block_head(b.2, b.3) + trim_end(recurring_tail(b)),
        ),
{
    let c = recurring_content(b);
    let dt = days_text(b.1);
    let head = block_head(b.2, b.3);
    let r = trim_end(recurring_tail(b));
    let n = b.0.len() as int;
    lemma_days_text_solid(b.1);
    law_time_round_trip(b.2);
    let rest = c.drop_first();
    assert(rest =~= b.0 + seq!['`'] + (seq![' '] + (dt + (seq![' '] + (head + r)))));
    assert(is_first_where(rest, char_pred('`'), n)) by {
        assert forall|k: int| 0 <= k < n implies !char_pred('`')(#[trigger] rest[k]) by {
            assert(rest[k] == b.0[k]);
            assert(is_slug_char(b.0[k]));
        }
    }
    lemma_first_where_is(rest, char_pred('`'), n);
    assert(rest.subrange(0, n) =~= b.0);
    let after = rest.subrange(n + 1, rest.len() as int);
    let r1 = dt + (seq![' '] + (head + r));
    assert(after =~= seq![' '] + r1);
    assert(is_ws(' '));
    assert(after.drop_first() =~= r1);
    assert(trim_start(after) == trim_start(r1));
    assert(r1[0] == dt[0]);
    crate::session_line::lemma_trim_fixed_start(r1);
    assert(is_first_where(r1, ws_pred(), dt.len() as int)) by {
        assert forall|k: int| 0 <= k < dt.len() implies !ws_pred()(#[trigger] r1[k]) by {
            assert(r1[k] == dt[k]);
        }
        assert(r1[dt.len() as int] == ' ');
    }
    lemma_first_where_is(r1, ws_pred(), dt.len() as int);
    assert(r1.subrange(0, dt.len() as int) =~= dt);
    let sp = r1.subrange(dt.len() as int, r1.len() as int);
    assert(sp =~= seq![' '] + (head + r));
    assert(sp.drop_first() =~= head + r);
    assert(trim_start(sp) == trim_start(head + r));
    assert((head + r)[0] == time_text(b.2)[0]);
    assert(is_digit(time_text(b.2)[0]));
    crate::session_line::lemma_trim_fixed_start(head + r);
}

/// The content reads as the block.
proof fn lemma_recurring_read(b: RecurringView)
    requires
        recurring_carried(b),
        trim_end(recurring_tail(b)).len() == 0 || trim_end(recurring_tail(b))[0] == ' ',
    ensures
        recurring_reads(recurring_content(b)) == Some(b),
{
    let r = trim_end(recurring_tail(b));
    let y = b.5 + lead_text(b.6);
    let z = trim_start(y);
    lemma_recurring_front(b);
    law_days_round_trip(b.1);
    assert(is_ws(' '));
    lemma_block_head_read(b.2, b.3, r);
    lemma_trim_start_end(recurring_tail(b));
    let q = recurring_tail(b);
    assert(q.drop_first() =~= wikilink_text(b.4) + z);
    assert(trim_start(q) == trim_start(q.drop_first()));
    assert(trim_start(r) == trim(wikilink_text(b.4) + z));
    lemma_trim_idempotent(y);
    assert(trim(z) == trim(y));
    lemma_link_on(b.4, z);
    lemma_reminder_on(b.5, b.6);
}

#[verifier::rlimit(60)]
/// A repeating block's line reads back as the block, whenever its id is a
/// slug, it repeats on at least one weekday, its times are whole minutes, its
/// title has nothing to trim and no two spaces in a row, and neither a link
/// nor a reminder is read out of its title that it does not hold.
pub proof fn law_recurring_round_trip(b: RecurringView)
    requires
        recurring_carried(b),
    ensures
        reads_back::<RecurringBlock>(b),
{
    let c = recurring_content(b);
    lemma_recurring_line(b);
    lemma_dash_item(c);
    lemma_recurring_read(b);
    assert(RecurringBlock::line_of(b) == seq!['-', ' '] + c);
    assert(RecurringBlock::reads(c) == Some(b));
}

} // verus!
