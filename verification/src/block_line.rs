//! Why the lines of the schedule read back as what wrote them.
//!
//! A skipped repeat is written as `` - `id` `` and a one-off block as
//! `- HH:MM-HH:MM [[project]] Title !5m`; both are read again on every load
//! of the day file, so each must come back unchanged.

use vstd::prelude::*;

use crate::blocks::{day_block_line, day_block_reads, skip_line, BlockView, DayBlock};
use crate::grammar::{
    backtick_parts, law_time_round_trip, range_parts, lead_of, lead_text, list_item_content, range_value, reminder_parts, time_text,
    token_split, wikilink_parts, wikilink_text,
};
use crate::ids::{is_slug, is_slug_char, BlockId};
use crate::list::{reads_are_written_back, reads_back, ListLine};
use crate::minutes::{canonical, is_digit, is_unit, Minutes};
use crate::link_prefix::{lemma_first_found, lemma_link_before, lemma_link_prefix, lemma_link_slug, link_slug};
use crate::session_line::{
    end_solid, lemma_range_rest, lemma_tail_solid, lemma_time_carried, lemma_canonical_chars, lemma_dash_item, lemma_link_read, lemma_trim_end_concat, lemma_trim_fixed_end,
    lemma_trim_fixed_start, time_carried,
};
use crate::text::{
    first_occurrence, char_pred, first_where, is_first_where, is_last_where, is_ws, last_where, lemma_first_where_is, lemma_first_where_none,
    lemma_last_where_is, lemma_last_where_none, lemma_trim_end_shape, lemma_trim_fixed, lemma_trim_start_shape, trim,
    trim_end, trim_start, ws_pred,
};

verus! {

/// `` `id` `` reads as the id with nothing after it.
proof fn lemma_backtick_read(id: Seq<char>)
    requires
        is_slug(id),
    ensures
        backtick_parts(seq!['`'] + id + seq!['`']) == Some((id, Seq::<char>::empty())),
{
    let s = seq!['`'] + id + seq!['`'];
    let rest = s.drop_first();
    assert(rest =~= id + seq!['`']);
    let n = id.len() as int;
    assert(is_first_where(rest, char_pred('`'), n)) by {
        assert forall|k: int| 0 <= k < n implies !char_pred('`')(#[trigger] rest[k]) by {
            assert(rest[k] == id[k]);
            assert(is_slug_char(id[k]));
        }
    }
    lemma_first_where_is(rest, char_pred('`'), n);
    assert(rest.subrange(0, n) =~= id);
    assert(rest.subrange(n + 1, rest.len() as int) =~= Seq::<char>::empty());
}

/// A skipped repeat's line reads back as its id.
pub proof fn law_skip_round_trip(id: Seq<char>)
    requires
        is_slug(id),
    ensures
        reads_back::<BlockId>(id),
{
    let line = skip_line(id);
    let c = seq!['`'] + id + seq!['`'];
    assert(line =~= seq!['-', ' '] + c);
    assert(line[0] == '-');
    assert(line.last() == '`');
    lemma_trim_fixed(line);
    assert(c[0] == '`');
    lemma_trim_fixed(c);
    assert(line.subrange(0, 2) =~= seq!['-', ' ']);
    assert(line.subrange(2, line.len() as int) =~= c);
    assert(list_item_content(line) == Some(c));
    lemma_backtick_read(id);
}

/// Whatever the reader takes from a `## Skipped` list, its line reads back as
/// it; so, with `law_list_fixed_point`, a skip list once written is read and
/// written unchanged.
pub proof fn law_skips_written_back()
    ensures
        reads_are_written_back::<BlockId>(),
{
    assert forall|c: Seq<char>| trim(c) == c && (#[trigger] BlockId::reads(c)) is Some implies reads_back::<BlockId>(
        BlockId::reads(c)->0,
    ) by {
        law_skip_round_trip(BlockId::reads(c)->0);
    }
}

/// Trimming the end and then the start trims both ends.
pub proof fn lemma_trim_start_end(x: Seq<char>)
    ensures
        trim_start(trim_end(x)) == trim(x),
    decreases x.len(),
{
    lemma_trim_end_shape(x);
    if x.len() == 0 {
    } else if !is_ws(x[0]) {
        if trim_end(x).len() > 0 {
            lemma_trim_fixed_start(trim_end(x));
        }
    } else {
        let rest = x.drop_first();
        lemma_trim_start_end(rest);
        assert(x =~= seq![x[0]] + rest);
        lemma_trim_end_concat(seq![x[0]], rest);
        assert(trim_start(x) == trim_start(rest));
        assert(trim(x) == trim(rest));
        if trim_end(rest).len() > 0 {
            let y = seq![x[0]] + trim_end(rest);
            assert(trim_end(x) == y);
            assert(y[0] == x[0]);
            assert(y.drop_first() =~= trim_end(rest));
            assert(trim_start(y) == trim_start(y.drop_first()));
        } else {
            assert(seq![x[0]].drop_last() =~= Seq::<char>::empty());
            assert(trim_end(seq![x[0]]) == trim_end(Seq::<char>::empty()));
            assert(trim_end(x) == Seq::<char>::empty());
        }
    }
}

/// The `HH:MM-HH:MM` head of a block line.
pub open spec fn block_head(s: nat, e: nat) -> Seq<char> {
    time_text(s) + seq!['-'] + time_text(e)
}

/// The title with its reminder word, as written after the link.
pub open spec fn titled(b: BlockView) -> Seq<char> {
    b.3 + lead_text(b.4)
}

/// What a line's content holds after the head: a space, the link, the title
/// and the reminder, with the end trimmed.
pub open spec fn block_rest(b: BlockView) -> Seq<char> {
    trim_end(seq![' '] + wikilink_text(b.2) + titled(b))
}

/// What a block can carry through its line: whole-minute times, a title with
/// nothing to trim, a title not itself read as a link when there is no
/// project, and a last title word not read as a reminder when there is none.
pub open spec fn block_carried(b: BlockView) -> bool {
    &&& time_carried(b.0)
    &&& time_carried(b.1)
    &&& trim(b.3) == b.3
    &&& b.2 matches Some(p) ==> is_slug(p)
    &&& b.2 is None ==> wikilink_parts(trim(titled(b))).0 is None
    &&& b.4 matches Some(n) ==> n <= u32::MAX
    &&& b.4 is None ==> reminder_parts(b.3).0 is None
}

/// The head reads as its two times, with what follows it left over.
pub proof fn lemma_block_head_read(s: nat, e: nat, rest: Seq<char>)
    requires
        time_carried(s),
        time_carried(e),
        rest.len() == 0 || is_ws(rest[0]),
    ensures
        range_value(block_head(s, e) + rest) == Some((s, e, trim_start(rest))),
{
    law_time_round_trip(s);
    law_time_round_trip(e);
    let a = time_text(s);
    let b = time_text(e);
    let c = block_head(s, e) + rest;
    let head = block_head(s, e);
    assert(c =~= a + seq!['-'] + b + rest);
    assert forall|i: int| 0 <= i < 5 implies !is_ws(#[trigger] a[i]) && a[i] != '-' && !is_ws(b[i]) && b[i] != '-' by {
        if i != 2 {
            assert(is_digit(a[i]) && is_digit(b[i]));
        }
    }
    assert(c[0] == a[0]);
    lemma_trim_fixed_start(c);
    assert forall|k: int| 0 <= k < 11 implies !ws_pred()(#[trigger] c[k]) by {
        if k < 5 {
            assert(c[k] == a[k]);
        } else if k > 5 {
            assert(c[k] == b[k - 6]);
        }
    }
    if rest.len() == 0 {
        assert(c =~= head);
        lemma_first_where_none(c, ws_pred());
        assert(token_split(c) == (head, Seq::<char>::empty()));
    } else {
        assert(c[11] == rest[0]);
        assert(is_first_where(c, ws_pred(), 11));
        lemma_first_where_is(c, ws_pred(), 11);
        assert(c.subrange(0, 11) =~= head);
        assert(c.subrange(11, c.len() as int) =~= rest);
        assert(token_split(c) == (head, trim_start(rest)));
    }
    assert(head =~= a + seq!['-'] + b);
    assert(is_first_where(head, char_pred('-'), 5)) by {
        assert forall|k: int| 0 <= k < 5 implies !char_pred('-')(#[trigger] head[k]) by {
            assert(head[k] == a[k]);
        }
    }
    lemma_first_where_is(head, char_pred('-'), 5);
    assert(head.subrange(0, 5) =~= a);
    assert(head.subrange(6, 11) =~= b);
}

/// After the head, the link reads as the project, leaving what follows it.
pub proof fn lemma_link_on(project: Option<Seq<char>>, t: Seq<char>)
    requires
        project matches Some(p) ==> is_slug(p),
        project is None ==> wikilink_parts(trim(t)).0 is None,
    ensures
        wikilink_parts(trim(wikilink_text(project) + t)) == (project, trim(t)),
{
    match project {
        Some(p) => {
            let link = seq!['[', '['] + p + seq![']', ']'];
            let ln = wikilink_text(project) + t;
            assert(ln =~= link + (seq![' '] + t));
            assert(ln[0] == '[');
            assert(trim_start(ln) == ln);
            lemma_trim_end_concat(link, seq![' '] + t);
            assert(!is_ws(link.last()));
            lemma_trim_fixed_end(link);
            let after = trim_end(seq![' '] + t);
            if after.len() == 0 {
                assert(link + after =~= link);
            }
            assert(trim(ln) == link + after);
            lemma_link_read(p, after);
            lemma_trim_start_end(seq![' '] + t);
            assert(is_ws(' '));
            assert((seq![' '] + t).drop_first() =~= t);
            assert(trim_start(seq![' '] + t) == trim_start(t));
        },
        None => {
            assert(wikilink_text(project) + t =~= t);
        },
    }
}

/// A title ending in a lead word reads as the title and that lead.
pub proof fn lemma_reminder_on(title: Seq<char>, lead: Option<nat>)
    requires
        trim(title) == title,
        lead matches Some(n) ==> n <= u32::MAX,
        lead is None ==> reminder_parts(title).0 is None,
    ensures
        reminder_parts(trim(title + lead_text(lead))) == (lead, title),
{
    match lead {
        None => {
            assert(title + lead_text(lead) =~= title);
            if title.len() > 0 {
                crate::project::lemma_trimmed_ends(title);
            }
            lemma_trim_fixed(title);
            assert(reminder_parts(title).1 == trim_end(title));
        },
        Some(n) => {
            let can = canonical(n);
            lemma_canonical_chars(n);
            crate::minutes::law_render_then_parse(Minutes(n as u32));
            let word = seq!['!'] + can;
            assert(word.drop_first() =~= can);
            assert(lead_of(word) == Some(n));
            assert forall|k: int| 0 <= k < word.len() implies !ws_pred()(#[trigger] word[k]) by {
                if k > 0 {
                    assert(word[k] == can[k - 1]);
                    assert(is_digit(can[k - 1]) || is_unit(can[k - 1]));
                }
            }
            let t = title + lead_text(lead);
            if title.len() == 0 {
                assert(t =~= seq![' '] + word);
                assert(is_ws(' '));
                assert(t.drop_first() =~= word);
                assert(word.last() == can.last());
                lemma_trim_fixed(word);
                assert(trim(t) == word);
                lemma_last_where_none(word, ws_pred());
                assert(title =~= Seq::<char>::empty());
            } else {
                crate::project::lemma_trimmed_ends(title);
                assert(t =~= title + seq![' '] + word);
                assert(t[0] == title[0]);
                assert(t.last() == can.last());
                lemma_trim_fixed(t);
                let i = title.len() as int;
                assert(is_last_where(t, ws_pred(), i)) by {
                    assert(t[i] == ' ');
                    assert(is_ws(' '));
                    assert forall|k: int| i < k < t.len() implies !ws_pred()(#[trigger] t[k]) by {
                        assert(t[k] == word[k - i - 1]);
                    }
                }
                lemma_last_where_is(t, ws_pred(), i);
                assert(t.subrange(i + 1, t.len() as int) =~= word);
                assert(t.subrange(0, i) =~= title);
                lemma_trim_fixed_end(title);
            }
        },
    }
}

/// The content of a block line: the head and what follows it.
pub open spec fn block_content(b: BlockView) -> Seq<char> {
    block_head(b.0, b.1) + block_rest(b)
}

/// The line is `- ` and the content, which has nothing to trim.
proof fn lemma_block_line(b: BlockView)
    requires
        block_carried(b),
    ensures
        day_block_line(b) == seq!['-', ' '] + block_content(b),
        block_content(b).len() > 0,
        trim(block_content(b)) == block_content(b),
        block_rest(b).len() == 0 || block_rest(b)[0] == ' ',
{
    let head = block_head(b.0, b.1);
    let h = seq!['-', ' '] + head;
    let x = seq![' '] + wikilink_text(b.2) + titled(b);
    let rest = block_rest(b);
    law_time_round_trip(b.0);
    law_time_round_trip(b.1);
    assert(seq!['-', ' '] + time_text(b.0) + seq!['-'] + time_text(b.1) + seq![' '] + wikilink_text(b.2) + b.3
        + lead_text(b.4) =~= h + x);
    assert(h.last() == time_text(b.1)[4]);
    assert(is_digit(time_text(b.1)[4]));
    lemma_trim_end_concat(h, x);
    lemma_trim_fixed_end(h);
    lemma_trim_end_shape(x);
    let c = block_content(b);
    if rest.len() == 0 {
        assert(h + rest =~= h);
        assert(c =~= head);
    }
    assert(h + rest =~= seq!['-', ' '] + c);
    assert(c[0] == time_text(b.0)[0]);
    assert(is_digit(time_text(b.0)[0]));
    if rest.len() > 0 {
        assert(c.last() == rest.last());
    } else {
        assert(c.last() == head.last());
    }
    lemma_trim_fixed(c);
}

/// The content reads as the block.
proof fn lemma_block_content_read(b: BlockView)
    requires
        block_carried(b),
        block_rest(b).len() == 0 || block_rest(b)[0] == ' ',
    ensures
        day_block_reads(block_content(b)) == Some(b),
{
    let rest = block_rest(b);
    let x = seq![' '] + wikilink_text(b.2) + titled(b);
    assert(is_ws(' '));
    lemma_block_head_read(b.0, b.1, rest);
    lemma_trim_start_end(x);
    assert(x.drop_first() =~= wikilink_text(b.2) + titled(b));
    assert(trim_start(x) == trim_start(x.drop_first()));
    assert(trim_start(rest) == trim(wikilink_text(b.2) + titled(b)));
    lemma_link_on(b.2, titled(b));
    lemma_reminder_on(b.3, b.4);
}

#[verifier::rlimit(60)]
/// A one-off block's line reads back as the block, whenever its times are
/// whole minutes, its title has nothing to trim, and neither a link nor a
/// reminder is read out of its title that it does not hold.
pub proof fn law_day_block_round_trip(b: BlockView)
    requires
        block_carried(b),
    ensures
        reads_back::<DayBlock>(b),
{
    let c = block_content(b);
    lemma_block_line(b);
    lemma_dash_item(c);
    lemma_block_content_read(b);
    assert(DayBlock::line_of(b) == seq!['-', ' '] + c);
    assert(DayBlock::reads(c) == Some(b));
}

/// What follows a leading link of a text with no blank at either end has
/// none either.
proof fn lemma_after_link_trimmed(r: Seq<char>)
    requires
        trim_start(r) == r,
        end_solid(r),
    ensures
        trim_start(wikilink_parts(r).1) == wikilink_parts(r).1,
        end_solid(wikilink_parts(r).1),
{
    if wikilink_parts(r).0 is Some {
        let pat = seq![']', ']'];
        let rest = r.subrange(2, r.len() as int);
        lemma_first_found(rest, pat);
        let c = first_occurrence(rest, pat)->0;
        let after = rest.subrange(c + 2, rest.len() as int);
        crate::text::lemma_trim_idempotent(after);
        lemma_tail_solid(r, 2);
        lemma_tail_solid(rest, c + 2);
        lemma_tail_solid(after, 0);
    }
}

/// With no project, a block's title and reminder are not read as a link when
/// the text they were read from was not.
#[verifier::rlimit(30)]
proof fn lemma_titled_unlinked(r: Seq<char>)
    requires
        trim_start(r) == r,
        end_solid(r),
        wikilink_parts(r).0 is None,
        reminder_parts(r).0 is Some,
    ensures
        wikilink_parts(trim(trim(reminder_parts(r).1) + lead_text(reminder_parts(r).0))).0 is None,
{
    let n = reminder_parts(r).0->0;
    let title = trim(reminder_parts(r).1);
    let can = canonical(n);
    let word = seq!['!'] + can;
    let l = lead_text(Some(n));
    assert(l =~= seq![' '] + word);
    lemma_canonical_chars(n);
    let x = title + l;
    lemma_link_slug(trim(x));
    lemma_link_slug(r);
    crate::text::lemma_trim_idempotent(reminder_parts(r).1);
    if title.len() == 0 {
        assert(x =~= l);
        assert(is_ws(' '));
        assert(x.drop_first() =~= word);
        assert(word.last() == can.last());
        lemma_trim_fixed(word);
        assert(trim(x) == word);
    } else {
        crate::project::lemma_trimmed_ends(title);
        assert(x[0] == title[0]);
        assert(x.last() == can.last());
        lemma_trim_fixed(x);
        if link_slug(x) is Some {
            assert forall|j: int| 0 <= j < l.len() implies #[trigger] l[j] != ']' by {
                if j > 1 {
                    assert(l[j] == can[j - 2]);
                    assert(is_digit(can[j - 2]) || is_unit(can[j - 2]));
                }
            }
            lemma_link_before(title, l);
            let t = trim_end(r);
            lemma_trim_fixed_end(r);
            let i = last_where(t, ws_pred())->0;
            assert(is_last_where(t, ws_pred(), i));
            let head = t.subrange(0, i);
            lemma_trim_end_shape(head);
            let te = trim_end(head);
            crate::text::lemma_trim_start_shape(r);
            assert(te.len() > 0 ==> te[0] == r[0]);
            if te.len() > 0 {
                assert(!is_ws(te[0]));
                lemma_trim_fixed_start(te);
            }
            assert(title == te);
            assert(te =~= r.subrange(0, te.len() as int));
            let u = r.subrange(te.len() as int, r.len() as int);
            assert(te + u =~= r);
            lemma_link_prefix(te, u);
            assert(false);
        }
    }
}

/// Every one-off block a line's content reads as is one whose line reads
/// back as it.
pub proof fn law_day_block_read_again(c: Seq<char>)
    requires
        trim(c) == c,
        day_block_reads(c) is Some,
    ensures
        reads_back::<DayBlock>(day_block_reads(c)->0),
{
    let (a, b, r3) = range_parts(c)->0;
    lemma_time_carried(a);
    lemma_time_carried(b);
    lemma_range_rest(c);
    lemma_after_link_trimmed(r3);
    let r4 = wikilink_parts(r3).1;
    let v = day_block_reads(c)->0;
    crate::text::lemma_trim_idempotent(reminder_parts(r4).1);
    crate::text::lemma_trim_start_shape(r4);
    if r4.len() > 0 {
        lemma_trim_fixed(r4);
    }
    assert(trim(r4) == r4);
    assert(trim_end(r4) == r4);
    if v.4 is None {
        assert(reminder_parts(r4).1 == r4);
        assert(v.3 == r4);
        if v.2 is None {
            assert(r4 == r3);
            assert(titled(v) =~= r3);
        }
    } else if v.2 is None {
        assert(r4 == r3);
        lemma_titled_unlinked(r3);
    }
    assert(block_carried(v));
    law_day_block_round_trip(v);
}

/// Whatever the reader takes from a `## Schedule` list, its line reads back
/// as it; so, with `law_list_fixed_point`, a one-off block list once written
/// is read and written unchanged.
pub proof fn law_day_blocks_written_back()
    ensures
        reads_are_written_back::<DayBlock>(),
{
    assert forall|c: Seq<char>| trim(c) == c && (#[trigger] DayBlock::reads(c)) is Some implies reads_back::<DayBlock>(
        DayBlock::reads(c)->0,
    ) by {
        law_day_block_read_again(c);
    }
}

} // verus!
