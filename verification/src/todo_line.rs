//! Why a todo line reads back as the todo that wrote it.
//!
//! `Todo::new` refuses any description that would not survive a write, and
//! the fields are written in one order with plain values, so reading the line
//! gives the todo back. The proofs here follow the line left to right: the
//! checkbox, the project link, the description, then each field.

use vstd::prelude::*;

use crate::clock::is_calendar_date;
use crate::grammar::{date_text, date_value, law_date_round_trip, law_time_round_trip, time_text, time_value};
use crate::minutes::is_digit;
use crate::grammar::{list_item_content, wikilink_parts, wikilink_text};
use crate::ids::{is_id_char, is_slug, is_slug_char, is_todo_id};
use crate::list::reads_back;
use crate::text::{
    first_occurrence, occurs_at, starts_with, first_where, is_ws, joined, lemma_first_where_is, lemma_first_where_none, split_on, trim, trim_end, trim_start,
    ws_pred,
};
use crate::todo::{
    canonical_status, completion_read, completion_word, dep_ids, is_description, law_status_symbol_round_trip,
    new_todo, status_of_symbol, status_symbol, todo_line, todo_reads, Todo, field_list, field_step, field_text, fields_text, is_signifier,
    priority_of_symbol, priority_symbol, read_fields, signifier_pred, stamp_read, stamp_text, OnCompletion, Priority,
    StampView, TodoView, CANCELLED, CREATED, DEPENDS_ON, DONE, DUE, ID, ON_COMPLETION, RECURRENCE, SCHEDULED, START,
};

verus! {

/// A stamp a line can carry: a calendar date of a four-digit year, and a
/// time of day in whole minutes.
pub open spec fn stamp_carried(s: StampView) -> bool {
    &&& is_calendar_date(s.0.0, s.0.1, s.0.2)
    &&& 0 <= s.0.0 <= 9999
    &&& s.1 matches Some(t) ==> t < 86400 && t % 60 == 0
}

/// A field value a line can carry and give back: empty, or text with no
/// whitespace at either end and no signifier in it.
pub open spec fn plain(v: Seq<char>) -> bool {
    v.len() == 0 || (!is_ws(v[0]) && !is_ws(v.last()) && forall|i: int|
        0 <= i < v.len() ==> !is_signifier(#[trigger] v[i]))
}

/// A stamp's text reads back as the stamp, and is a plain value.
pub proof fn law_stamp_round_trip(s: StampView)
    requires
        stamp_carried(s),
    ensures
        stamp_read(stamp_text(s)) == Some(s),
        plain(stamp_text(s)),
        stamp_text(s).len() > 0,
{
    law_date_round_trip(s.0);
    let d = date_text(s.0);
    let text = stamp_text(s);
    assert forall|i: int| 0 <= i < d.len() implies !is_ws(#[trigger] d[i]) && !is_signifier(d[i]) by {
        if i != 4 && i != 7 {
            assert(is_digit(d[i]));
        }
    }
    match s.1 {
        None => {
            assert(text =~= d);
            crate::text::lemma_trim_fixed(text);
            lemma_first_where_none(text, ws_pred());
        },
        Some(t) => {
            law_time_round_trip(t);
            let tt = time_text(t);
            assert(text =~= d + seq![' '] + tt);
            assert forall|i: int| 0 <= i < tt.len() implies !is_ws(#[trigger] tt[i]) && !is_signifier(tt[i]) by {
                if i != 2 {
                    assert(is_digit(tt[i]));
                }
            }
            assert(text.last() == tt[4]);
            crate::text::lemma_trim_fixed(text);
            assert(crate::text::is_first_where(text, ws_pred(), 10));
            lemma_first_where_is(text, ws_pred(), 10);
            assert(text.subrange(0, 10) =~= d);
            assert(text.subrange(11, text.len() as int) =~= tt);
            crate::text::lemma_trim_fixed(tt);
            assert forall|i: int| 0 <= i < text.len() implies !is_signifier(#[trigger] text[i]) by {
                if i > 10 {
                    assert(text[i] == tt[i - 11]);
                } else if i < 10 {
                    assert(text[i] == d[i]);
                }
            }
        },
    }
}

/// The field region a list of fields writes, each with its leading space.
pub open spec fn fields_of(p: Seq<(char, Seq<char>)>) -> Seq<char>
    decreases p.len(),
{
    if p.len() == 0 {
        Seq::empty()
    } else {
        field_text(p[0].0, p[0].1) + fields_of(p.drop_first())
    }
}

/// Fields a line can carry: each names a signifier and holds a plain value.
pub open spec fn fields_plain(p: Seq<(char, Seq<char>)>) -> bool {
    forall|i: int| 0 <= i < p.len() ==> is_signifier(#[trigger] p[i].0) && plain(p[i].1)
}

/// A plain value between two spaces trims back to itself.
proof fn lemma_trim_padded(v: Seq<char>, after: bool)
    requires
        plain(v),
    ensures
        trim((if v.len() > 0 {
            seq![' '] + v
        } else {
            Seq::empty()
        }) + (if after {
            seq![' ']
        } else {
            Seq::empty()
        })) == v,
{
    let head: Seq<char> = if v.len() > 0 {
        seq![' '] + v
    } else {
        Seq::empty()
    };
    let tail: Seq<char> = if after {
        seq![' ']
    } else {
        Seq::empty()
    };
    let s = head + tail;
    assert(is_ws(' '));
    if v.len() > 0 {
        assert(trim_start(s) == trim_start(s.drop_first()));
        assert(s.drop_first() =~= v + tail);
        crate::text::lemma_trim_fixed(v);
        if after {
            assert((v + tail).drop_last() =~= v);
            assert(trim_end(v + tail) == trim_end(v));
        } else {
            assert(v + tail =~= v);
        }
        assert(trim_start(v + tail) == v + tail) by {
            assert((v + tail)[0] == v[0]);
        }
        crate::text::lemma_trim_fixed(v);
    } else {
        if after {
            assert(s =~= seq![' ']);
            assert(trim_start(s) == trim_start(s.drop_first()));
            assert(s.drop_first() =~= Seq::<char>::empty());
        } else {
            assert(s =~= Seq::<char>::empty());
        }
    }
}

/// The fields a region holds are the fields that wrote it.
pub proof fn lemma_field_list(p: Seq<(char, Seq<char>)>)
    requires
        fields_plain(p),
        p.len() > 0,
    ensures
        field_list(fields_of(p).drop_first()) == p,
    decreases p.len(),
{
    let (s, v) = p[0];
    let rest = fields_of(p.drop_first());
    let tailv: Seq<char> = if v.len() > 0 {
        seq![' '] + v
    } else {
        Seq::empty()
    };
    assert(field_text(s, v) =~= seq![' ', s] + tailv);
    let region = fields_of(p).drop_first();
    assert(region =~= seq![s] + tailv + rest);
    let v0 = region.drop_first();
    assert(v0 =~= tailv + rest);
    assert(!is_signifier(' '));
    assert forall|k: int| 0 <= k < tailv.len() implies !is_signifier(#[trigger] tailv[k]) by {
        if k > 0 {
            assert(tailv[k] == v[k - 1]);
        }
    }
    if p.len() == 1 {
        assert(p.drop_first().len() == 0);
        assert(rest =~= Seq::<char>::empty());
        assert(v0 =~= tailv);
        if v0.len() > 0 {
            assert(v0[0] == ' ');
        }
        lemma_first_where_none(v0, signifier_pred());
        lemma_trim_padded(v, false);
        assert(tailv + Seq::<char>::empty() =~= tailv);
        assert(v0.subrange(0, v0.len() as int) =~= v0);
        assert(v0.subrange(v0.len() as int, v0.len() as int) =~= Seq::<char>::empty());
        assert(field_list(Seq::<char>::empty()) =~= Seq::<(char, Seq<char>)>::empty());
        assert(seq![(s, v)] + Seq::<(char, Seq<char>)>::empty() =~= p);
    } else {
        let q = p.drop_first();
        assert(q[0] == p[1]);
        assert(fields_plain(q)) by {
            assert forall|i: int| 0 <= i < q.len() implies is_signifier(#[trigger] q[i].0) && plain(q[i].1) by {
                assert(q[i] == p[i + 1]);
            }
        }
        let (s2, v2) = q[0];
        assert(field_text(s2, v2)[0] == ' ' && field_text(s2, v2)[1] == s2);
        assert(rest[0] == ' ' && rest[1] == s2);
        assert(v0[0] == ' ');
        let at: int = tailv.len() as int + 1;
        assert(v0[at] == s2);
        assert(is_signifier(s2));
        assert(crate::text::is_first_where(v0, signifier_pred(), at)) by {
            assert forall|k: int| 0 <= k < at implies !signifier_pred()(#[trigger] v0[k]) by {
                if k < tailv.len() {
                    assert(v0[k] == tailv[k]);
                } else {
                    assert(v0[k] == ' ');
                }
            }
        }
        lemma_first_where_is(v0, signifier_pred(), at);
        assert(v0.subrange(0, at) =~= tailv + seq![' ']);
        lemma_trim_padded(v, true);
        assert(v0.subrange(at, v0.len() as int) =~= rest.drop_first());
        lemma_field_list(q);
        assert(seq![(s, v)] + q =~= p);
    }
}


proof fn lemma_fields_of_concat(a: Seq<(char, Seq<char>)>, b: Seq<(char, Seq<char>)>)
    ensures
        fields_of(a + b) == fields_of(a) + fields_of(b),
    decreases a.len(),
{
    if a.len() == 0 {
        assert(a + b =~= b);
    } else {
        lemma_fields_of_concat(a.drop_first(), b);
        assert((a + b).drop_first() =~= a.drop_first() + b);
        assert((a + b)[0] == a[0]);
    }
}

proof fn lemma_read_concat(u: TodoView, a: Seq<(char, Seq<char>)>, b: Seq<(char, Seq<char>)>)
    ensures
        read_fields(u, a + b) == match read_fields(u, a) {
            Some(n) => read_fields(n, b),
            None => None,
        },
    decreases a.len(),
{
    if a.len() == 0 {
        assert(a + b =~= b);
    } else {
        assert((a + b).drop_first() =~= a.drop_first() + b);
        assert((a + b)[0] == a[0]);
        match field_step(u, a[0].0, a[0].1) {
            Some(n) => lemma_read_concat(n, a.drop_first(), b),
            None => {},
        }
    }
}

/// One optional field.
pub open spec fn one(sig: char, v: Option<Seq<char>>) -> Seq<(char, Seq<char>)> {
    match v {
        Some(x) => seq![(sig, x)],
        None => Seq::empty(),
    }
}

pub open spec fn stamp_value(s: Option<StampView>) -> Option<Seq<char>> {
    match s {
        Some(x) => Some(stamp_text(x)),
        None => None,
    }
}

/// The fields a todo writes, in the one canonical order.
#[verifier::opaque]
pub open spec fn field_pairs(t: TodoView) -> Seq<(char, Seq<char>)> {
    (match priority_symbol(t.priority) {
        Some(c) => seq![(c, Seq::<char>::empty())],
        None => Seq::empty(),
    }) + one(RECURRENCE, t.recurrence) + one(ID, t.id) + (if t.depends_on.len() > 0 {
        seq![(DEPENDS_ON, joined(t.depends_on, ','))]
    } else {
        Seq::empty()
    }) + one(CREATED, stamp_value(t.created)) + one(START, stamp_value(t.start)) + one(
        SCHEDULED,
        stamp_value(t.scheduled),
    ) + one(DUE, stamp_value(t.due)) + one(CANCELLED, stamp_value(t.cancelled)) + one(DONE, stamp_value(t.done))
        + (match t.on_completion {
        Some(c) => seq![(ON_COMPLETION, completion_word(c))],
        None => Seq::empty(),
    })
}

proof fn lemma_fields_of_one(sig: char, v: Option<Seq<char>>)
    ensures
        fields_of(one(sig, v)) == match v {
            Some(x) => field_text(sig, x),
            None => Seq::empty(),
        },
{
    if let Some(x) = v {
        let p = one(sig, v);
        assert(p[0] == (sig, x));
        assert(p.drop_first() =~= Seq::<(char, Seq<char>)>::empty());
        assert(fields_of(Seq::<(char, Seq<char>)>::empty()) =~= Seq::<char>::empty());
        assert(field_text(sig, x) + Seq::<char>::empty() =~= field_text(sig, x));
    }
}

/// The field region a todo writes is the one its fields write.
#[verifier::rlimit(60)]
pub proof fn lemma_fields_text(t: TodoView)
    ensures
        fields_text(t) == fields_of(field_pairs(t)),
{
    reveal(field_pairs);
    reveal(fields_text);
    let p0: Seq<(char, Seq<char>)> = match priority_symbol(t.priority) {
        Some(c) => seq![(c, Seq::<char>::empty())],
        None => Seq::empty(),
    };
    lemma_fields_of_one('x', None);
    match priority_symbol(t.priority) {
        Some(c) => lemma_fields_of_one(c, Some(Seq::<char>::empty())),
        None => {},
    }
    let p1 = one(RECURRENCE, t.recurrence);
    let p2 = one(ID, t.id);
    let p3: Seq<(char, Seq<char>)> = if t.depends_on.len() > 0 {
        seq![(DEPENDS_ON, joined(t.depends_on, ','))]
    } else {
        Seq::empty()
    };
    if t.depends_on.len() > 0 {
        lemma_fields_of_one(DEPENDS_ON, Some(joined(t.depends_on, ',')));
    }
    let p4 = one(CREATED, stamp_value(t.created));
    let p5 = one(START, stamp_value(t.start));
    let p6 = one(SCHEDULED, stamp_value(t.scheduled));
    let p7 = one(DUE, stamp_value(t.due));
    let p8 = one(CANCELLED, stamp_value(t.cancelled));
    let p9 = one(DONE, stamp_value(t.done));
    let p10: Seq<(char, Seq<char>)> = match t.on_completion {
        Some(c) => seq![(ON_COMPLETION, completion_word(c))],
        None => Seq::empty(),
    };
    match t.on_completion {
        Some(c) => lemma_fields_of_one(ON_COMPLETION, Some(completion_word(c))),
        None => {},
    }
    lemma_fields_of_one(RECURRENCE, t.recurrence);
    lemma_fields_of_one(ID, t.id);
    lemma_fields_of_one(CREATED, stamp_value(t.created));
    lemma_fields_of_one(START, stamp_value(t.start));
    lemma_fields_of_one(SCHEDULED, stamp_value(t.scheduled));
    lemma_fields_of_one(DUE, stamp_value(t.due));
    lemma_fields_of_one(CANCELLED, stamp_value(t.cancelled));
    lemma_fields_of_one(DONE, stamp_value(t.done));
    lemma_fields_of_concat(p0, p1);
    lemma_fields_of_concat(p0 + p1, p2);
    lemma_fields_of_concat(p0 + p1 + p2, p3);
    lemma_fields_of_concat(p0 + p1 + p2 + p3, p4);
    lemma_fields_of_concat(p0 + p1 + p2 + p3 + p4, p5);
    lemma_fields_of_concat(p0 + p1 + p2 + p3 + p4 + p5, p6);
    lemma_fields_of_concat(p0 + p1 + p2 + p3 + p4 + p5 + p6, p7);
    lemma_fields_of_concat(p0 + p1 + p2 + p3 + p4 + p5 + p6 + p7, p8);
    lemma_fields_of_concat(p0 + p1 + p2 + p3 + p4 + p5 + p6 + p7 + p8, p9);
    lemma_fields_of_concat(p0 + p1 + p2 + p3 + p4 + p5 + p6 + p7 + p8 + p9, p10);
    if priority_symbol(t.priority) is None {
        assert(fields_of(p0) =~= Seq::<char>::empty());
    }
    if t.depends_on.len() == 0 {
        assert(fields_of(p3) =~= Seq::<char>::empty());
    }
    if t.on_completion is None {
        assert(fields_of(p10) =~= Seq::<char>::empty());
    }
    assert(fields_text(t) =~= fields_of(field_pairs(t)));
}

/// Text with no separator cuts into itself.
proof fn lemma_split_plain(x: Seq<char>, y: Seq<char>, c: char)
    requires
        forall|i: int| 0 <= i < y.len() ==> y[i] != c,
    ensures
        split_on(x + y, c) == split_on(x, c).update(
            split_on(x, c).len() - 1,
            split_on(x, c).last() + y,
        ),
        split_on(x, c).len() > 0,
    decreases y.len(),
{
    lemma_split_nonempty(x, c);
    if y.len() == 0 {
        assert(x + y =~= x);
        assert(split_on(x, c).last() + y =~= split_on(x, c).last());
        assert(split_on(x, c).update(split_on(x, c).len() - 1, split_on(x, c).last()) =~= split_on(x, c));
    } else {
        let y0 = y.drop_last();
        lemma_split_plain(x, y0, c);
        assert((x + y).drop_last() =~= x + y0);
        assert((x + y).last() == y.last());
        let b = split_on(x, c);
        assert(y[y.len() - 1] != c);
        let before = split_on(x + y0, c);
        assert(before.len() == b.len());
        assert(before.last() == b.last() + y0);
        assert(split_on(x + y, c) == before.update(before.len() - 1, before.last().push(y.last())));
        assert((b.last() + y0).push(y.last()) =~= b.last() + y);
        assert(split_on(x + y, c) =~= b.update(b.len() - 1, b.last() + y));
    }
}

proof fn lemma_split_nonempty(x: Seq<char>, c: char)
    ensures
        split_on(x, c).len() > 0,
    decreases x.len(),
{
    if x.len() > 0 {
        lemma_split_nonempty(x.drop_last(), c);
    }
}

/// Parts that hold no separator are cut back out of their join.
pub proof fn lemma_split_joined(parts: Seq<Seq<char>>, c: char)
    requires
        parts.len() > 0,
        forall|i: int, j: int| 0 <= i < parts.len() && 0 <= j < parts[i].len() ==> #[trigger] parts[i][j] != c,
    ensures
        split_on(joined(parts, c), c) == parts,
    decreases parts.len(),
{
    if parts.len() == 1 {
        let p = parts[0];
        lemma_split_plain(Seq::empty(), p, c);
        assert(Seq::<char>::empty() + p =~= p);
        assert(split_on(Seq::<char>::empty(), c) == seq![Seq::<char>::empty()]);
        assert(Seq::<char>::empty() + p =~= p);
        assert(split_on(p, c) =~= parts);
    } else {
        let init = parts.drop_last();
        let last = parts.last();
        lemma_split_joined(init, c);
        let x = joined(init, c).push(c);
        assert(x.drop_last() =~= joined(init, c));
        assert(split_on(x, c) == init.push(Seq::<char>::empty()));
        assert forall|j: int| 0 <= j < last.len() implies last[j] != c by {
            assert(parts[parts.len() - 1][j] != c);
        }
        lemma_split_plain(x, last, c);
        assert(Seq::<char>::empty() + last =~= last);
        assert(split_on(x + last, c) =~= parts);
    }
}

/// Ids read back out of their comma-joined list.
pub proof fn lemma_dep_ids_round_trip(ids: Seq<Seq<char>>)
    requires
        forall|i: int| 0 <= i < ids.len() ==> is_todo_id(#[trigger] ids[i]),
    ensures
        dep_ids(ids) == Some(ids),
    decreases ids.len(),
{
    if ids.len() > 0 {
        let init = ids.drop_last();
        assert forall|i: int| 0 <= i < init.len() implies is_todo_id(#[trigger] init[i]) by {
            assert(init[i] == ids[i]);
        }
        lemma_dep_ids_round_trip(init);
        let last = ids.last();
        assert(is_todo_id(ids[ids.len() - 1]));
        assert(!is_ws(last[0]) && !is_ws(last.last())) by {
            assert(is_id_char(last[0]));
            assert(is_id_char(last[last.len() - 1]));
        }
        crate::text::lemma_trim_fixed(last);
        assert(init.push(last) =~= ids);
    }
}


proof fn lemma_read_one(u: TodoView, sig: char, v: Option<Seq<char>>)
    ensures
        read_fields(u, one(sig, v)) == match v {
            Some(x) => field_step(u, sig, x),
            None => Some(u),
        },
{
    if let Some(x) = v {
        let p = one(sig, v);
        assert(p[0] == (sig, x));
        assert(p.drop_first() =~= Seq::<(char, Seq<char>)>::empty());
        if let Some(n) = field_step(u, sig, x) {
            assert(read_fields(n, Seq::<(char, Seq<char>)>::empty()) == Some(n));
        }
    }
}

/// What a todo is before its fields are read: every field at its default.
pub open spec fn unfielded(t: TodoView) -> TodoView {
    TodoView {
        priority: Priority::Normal,
        recurrence: None,
        id: None,
        depends_on: Seq::empty(),
        created: None,
        start: None,
        scheduled: None,
        due: None,
        cancelled: None,
        done: None,
        on_completion: None,
        ..t
    }
}

/// The fields of a todo a line can carry.
pub open spec fn fields_carried(t: TodoView) -> bool {
    &&& t.recurrence matches Some(r) ==> r.len() > 0 && plain(r)
    &&& t.id matches Some(i) ==> is_todo_id(i)
    &&& forall|i: int| 0 <= i < t.depends_on.len() ==> is_todo_id(#[trigger] t.depends_on[i])
    &&& t.created matches Some(s) ==> stamp_carried(s)
    &&& t.start matches Some(s) ==> stamp_carried(s)
    &&& t.scheduled matches Some(s) ==> stamp_carried(s)
    &&& t.due matches Some(s) ==> stamp_carried(s)
    &&& t.cancelled matches Some(s) ==> stamp_carried(s)
    &&& t.done matches Some(s) ==> stamp_carried(s)
}

proof fn lemma_step_priority(u: TodoView, p: Priority)
    requires
        u.priority == Priority::Normal,
        priority_symbol(p) is Some,
    ensures
        field_step(u, priority_symbol(p)->0, Seq::empty()) == Some(TodoView { priority: p, ..u }),
{
    reveal(field_step);
    crate::todo::law_priority_round_trip(p);
}

proof fn lemma_step_stamps(u: TodoView, s: StampView)
    requires
        stamp_carried(s),
    ensures
        u.created is None ==> field_step(u, CREATED, stamp_text(s)) == Some(TodoView { created: Some(s), ..u }),
        u.start is None ==> field_step(u, START, stamp_text(s)) == Some(TodoView { start: Some(s), ..u }),
        u.scheduled is None ==> field_step(u, SCHEDULED, stamp_text(s)) == Some(TodoView { scheduled: Some(s), ..u }),
        u.due is None ==> field_step(u, DUE, stamp_text(s)) == Some(TodoView { due: Some(s), ..u }),
        u.cancelled is None ==> field_step(u, CANCELLED, stamp_text(s)) == Some(TodoView { cancelled: Some(s), ..u }),
        u.done is None ==> field_step(u, DONE, stamp_text(s)) == Some(TodoView { done: Some(s), ..u }),
{
    reveal(field_step);
    law_stamp_round_trip(s);
}

proof fn lemma_step_others(u: TodoView, t: TodoView)
    requires
        fields_carried(t),
    ensures
        (u.recurrence is None && t.recurrence is Some) ==> field_step(u, RECURRENCE, t.recurrence->0) == Some(
            TodoView { recurrence: t.recurrence, ..u },
        ),
        (u.id is None && t.id is Some) ==> field_step(u, ID, t.id->0) == Some(TodoView { id: t.id, ..u }),
        (u.depends_on.len() == 0 && t.depends_on.len() > 0) ==> field_step(
            u,
            DEPENDS_ON,
            joined(t.depends_on, ','),
        ) == Some(TodoView { depends_on: t.depends_on, ..u }),
        (u.on_completion is None && t.on_completion is Some) ==> field_step(
            u,
            ON_COMPLETION,
            completion_word(t.on_completion->0),
        ) == Some(TodoView { on_completion: t.on_completion, ..u }),
{
    reveal(field_step);
    if t.depends_on.len() > 0 {
        let ids = t.depends_on;
        assert forall|i: int, j: int| 0 <= i < ids.len() && 0 <= j < ids[i].len() implies #[trigger] ids[i][j]
            != ',' by {
            assert(is_todo_id(ids[i]));
            assert(is_id_char(ids[i][j]));
        }
        lemma_split_joined(ids, ',');
        lemma_dep_ids_round_trip(ids);
        assert(joined(ids, ',').len() > 0) by {
            lemma_joined_nonempty(ids, ',');
        }
    }
    if let Some(c) = t.on_completion {
        match c {
            OnCompletion::Keep => {},
            OnCompletion::Delete => {
                assert(completion_word(c) != completion_word(OnCompletion::Keep));
            },
        }
    }
}

proof fn lemma_joined_nonempty(parts: Seq<Seq<char>>, c: char)
    requires
        parts.len() > 0,
        parts[0].len() > 0,
    ensures
        joined(parts, c).len() > 0,
    decreases parts.len(),
{
    if parts.len() > 1 {
        assert(parts.drop_last()[0] == parts[0]);
        lemma_joined_nonempty(parts.drop_last(), c);
    }
}


/// Reading the fields a todo writes onto the todo without them gives the
/// todo back.
#[verifier::rlimit(40)]
pub proof fn lemma_read_pairs(t: TodoView)
    requires
        fields_carried(t),
    ensures
        read_fields(unfielded(t), field_pairs(t)) == Some(t),
{
    reveal(field_pairs);
    let u0 = unfielded(t);
    let p0: Seq<(char, Seq<char>)> = match priority_symbol(t.priority) {
        Some(c) => seq![(c, Seq::<char>::empty())],
        None => Seq::empty(),
    };
    let p1 = one(RECURRENCE, t.recurrence);
    let p2 = one(ID, t.id);
    let p3: Seq<(char, Seq<char>)> = if t.depends_on.len() > 0 {
        seq![(DEPENDS_ON, joined(t.depends_on, ','))]
    } else {
        Seq::empty()
    };
    let p4 = one(CREATED, stamp_value(t.created));
    let p5 = one(START, stamp_value(t.start));
    let p6 = one(SCHEDULED, stamp_value(t.scheduled));
    let p7 = one(DUE, stamp_value(t.due));
    let p8 = one(CANCELLED, stamp_value(t.cancelled));
    let p9 = one(DONE, stamp_value(t.done));
    let p10: Seq<(char, Seq<char>)> = match t.on_completion {
        Some(c) => seq![(ON_COMPLETION, completion_word(c))],
        None => Seq::empty(),
    };
    let u1 = TodoView { priority: t.priority, ..u0 };
    let u2 = TodoView { recurrence: t.recurrence, ..u1 };
    let u3 = TodoView { id: t.id, ..u2 };
    let u4 = TodoView { depends_on: t.depends_on, ..u3 };
    let u5 = TodoView { created: t.created, ..u4 };
    let u6 = TodoView { start: t.start, ..u5 };
    let u7 = TodoView { scheduled: t.scheduled, ..u6 };
    let u8 = TodoView { due: t.due, ..u7 };
    let u9 = TodoView { cancelled: t.cancelled, ..u8 };
    let u10 = TodoView { done: t.done, ..u9 };
    let u11 = TodoView { on_completion: t.on_completion, ..u10 };
    assert(u11 == t);
    assert(read_fields(u0, p0) == Some(u1)) by {
        match priority_symbol(t.priority) {
            Some(c) => {
                lemma_read_one(u0, c, Some(Seq::<char>::empty()));
                lemma_step_priority(u0, t.priority);
                assert(one(c, Some(Seq::<char>::empty())) == p0);
            },
            None => {
                assert(t.priority == Priority::Normal);
                assert(u1 == u0);
            },
        }
    }
    assert(read_fields(u1, p1) == Some(u2)) by {
        lemma_read_one(u1, RECURRENCE, t.recurrence);
        lemma_step_others(u1, t);
    }
    assert(read_fields(u2, p2) == Some(u3)) by {
        lemma_read_one(u2, ID, t.id);
        lemma_step_others(u2, t);
    }
    assert(read_fields(u3, p3) == Some(u4)) by {
        if t.depends_on.len() > 0 {
            lemma_read_one(u3, DEPENDS_ON, Some(joined(t.depends_on, ',')));
            lemma_step_others(u3, t);
            assert(one(DEPENDS_ON, Some(joined(t.depends_on, ','))) == p3);
        } else {
            assert(t.depends_on =~= Seq::<Seq<char>>::empty());
            assert(u4 == u3);
        }
    }
    assert(read_fields(u4, p4) == Some(u5)) by {
        lemma_read_one(u4, CREATED, stamp_value(t.created));
        if let Some(x) = t.created {
            lemma_step_stamps(u4, x);
        }
    }
    assert(read_fields(u5, p5) == Some(u6)) by {
        lemma_read_one(u5, START, stamp_value(t.start));
        if let Some(x) = t.start {
            lemma_step_stamps(u5, x);
        }
    }
    assert(read_fields(u6, p6) == Some(u7)) by {
        lemma_read_one(u6, SCHEDULED, stamp_value(t.scheduled));
        if let Some(x) = t.scheduled {
            lemma_step_stamps(u6, x);
        }
    }
    assert(read_fields(u7, p7) == Some(u8)) by {
        lemma_read_one(u7, DUE, stamp_value(t.due));
        if let Some(x) = t.due {
            lemma_step_stamps(u7, x);
        }
    }
    assert(read_fields(u8, p8) == Some(u9)) by {
        lemma_read_one(u8, CANCELLED, stamp_value(t.cancelled));
        if let Some(x) = t.cancelled {
            lemma_step_stamps(u8, x);
        }
    }
    assert(read_fields(u9, p9) == Some(u10)) by {
        lemma_read_one(u9, DONE, stamp_value(t.done));
        if let Some(x) = t.done {
            lemma_step_stamps(u9, x);
        }
    }
    assert(read_fields(u10, p10) == Some(u11)) by {
        match t.on_completion {
            Some(c) => {
                lemma_read_one(u10, ON_COMPLETION, Some(completion_word(c)));
                lemma_step_others(u10, t);
                assert(one(ON_COMPLETION, Some(completion_word(c))) == p10);
            },
            None => {},
        }
    }
    lemma_read_concat(u0, p0, p1);
    lemma_read_concat(u0, p0 + p1, p2);
    lemma_read_concat(u0, p0 + p1 + p2, p3);
    lemma_read_concat(u0, p0 + p1 + p2 + p3, p4);
    lemma_read_concat(u0, p0 + p1 + p2 + p3 + p4, p5);
    lemma_read_concat(u0, p0 + p1 + p2 + p3 + p4 + p5, p6);
    lemma_read_concat(u0, p0 + p1 + p2 + p3 + p4 + p5 + p6, p7);
    lemma_read_concat(u0, p0 + p1 + p2 + p3 + p4 + p5 + p6 + p7, p8);
    lemma_read_concat(u0, p0 + p1 + p2 + p3 + p4 + p5 + p6 + p7 + p8, p9);
    lemma_read_concat(u0, p0 + p1 + p2 + p3 + p4 + p5 + p6 + p7 + p8 + p9, p10);
    assert(field_pairs(t) == p0 + p1 + p2 + p3 + p4 + p5 + p6 + p7 + p8 + p9 + p10);
}


/// A position that satisfies `f` means there is a first one.
pub proof fn lemma_first_where_exists(s: Seq<char>, f: spec_fn(char) -> bool, k: int)
    requires
        0 <= k < s.len(),
        f(s[k]),
    ensures
        first_where(s, f) is Some,
    decreases k,
{
    if exists|j: int| 0 <= j < k && f(s[j]) {
        let j = choose|j: int| 0 <= j < k && f(s[j]);
        lemma_first_where_exists(s, f, j);
    } else {
        assert(crate::text::is_first_where(s, f, k));
        lemma_first_where_is(s, f, k);
    }
}

/// Text that does not begin with whitespace has none to trim there.
proof fn lemma_trim_start_none(s: Seq<char>)
    requires
        s.len() == 0 || !is_ws(s[0]),
    ensures
        trim_start(s) == s,
{
}

/// A trimmed, non-empty text begins and ends with something other than
/// whitespace.
proof fn lemma_trimmed_ends(d: Seq<char>)
    requires
        trim(d) == d,
        d.len() > 0,
    ensures
        !is_ws(d[0]),
        !is_ws(d.last()),
{
    crate::text::lemma_trim_start_shape(d);
    crate::text::lemma_trim_end_shape(trim_start(d));
}

/// A field region begins with a space and its signifier, and ends with
/// something other than whitespace.
proof fn lemma_fields_of_shape(p: Seq<(char, Seq<char>)>)
    requires
        fields_plain(p),
        p.len() > 0,
    ensures
        fields_of(p).len() >= 2,
        fields_of(p)[0] == ' ',
        fields_of(p)[1] == p[0].0,
        !is_ws(fields_of(p).last()),
    decreases p.len(),
{
    let (sig, v) = p[0];
    assert(is_signifier(sig) && plain(v));
    let head = field_text(sig, v);
    let rest = fields_of(p.drop_first());
    assert(fields_of(p) == head + rest);
    if p.len() > 1 {
        let q = p.drop_first();
        assert(fields_plain(q)) by {
            assert forall|i: int| 0 <= i < q.len() implies is_signifier(#[trigger] q[i].0) && plain(q[i].1) by {
                assert(q[i] == p[i + 1]);
                assert(is_signifier(p[i + 1].0) && plain(p[i + 1].1));
            }
        }
        lemma_fields_of_shape(q);
        assert((head + rest).last() == rest.last());
    } else {
        assert(p.drop_first().len() == 0);
        assert(rest =~= Seq::<char>::empty());
        assert(head + rest =~= head);
        assert(!is_ws(sig));
        if v.len() > 0 {
            assert(head.last() == v.last());
        }
    }
}

proof fn lemma_word_plain(w: Seq<char>)
    requires
        forall|i: int| 0 <= i < w.len() ==> is_id_char(#[trigger] w[i]) || w[i] == ',',
    ensures
        plain(w),
{
    if w.len() > 0 {
        assert(is_id_char(w[0]) || w[0] == ',');
        assert(is_id_char(w[w.len() - 1]) || w[w.len() - 1] == ',');
    }
}

proof fn lemma_joined_chars(ids: Seq<Seq<char>>)
    requires
        forall|i: int| 0 <= i < ids.len() ==> is_todo_id(#[trigger] ids[i]),
    ensures
        forall|k: int| 0 <= k < joined(ids, ',').len() ==> is_id_char(#[trigger] joined(ids, ',')[k]) || joined(
            ids,
            ',',
        )[k] == ',',
    decreases ids.len(),
{
    let j = joined(ids, ',');
    if ids.len() == 1 {
        assert(is_todo_id(ids[0]));
    } else if ids.len() > 1 {
        let init = ids.drop_last();
        assert forall|i: int| 0 <= i < init.len() implies is_todo_id(#[trigger] init[i]) by {
            assert(init[i] == ids[i]);
        }
        lemma_joined_chars(init);
        let last = ids.last();
        assert(is_todo_id(ids[ids.len() - 1]));
        let a = joined(init, ',');
        assert(j == a.push(',') + last);
        assert forall|k: int| 0 <= k < j.len() implies is_id_char(#[trigger] j[k]) || j[k] == ',' by {
            if k < a.len() {
                assert(j[k] == a[k]);
            } else if k > a.len() {
                assert(j[k] == last[k - a.len() - 1]);
            }
        }
    }
}

proof fn lemma_plain_concat(a: Seq<(char, Seq<char>)>, b: Seq<(char, Seq<char>)>)
    requires
        fields_plain(a),
        fields_plain(b),
    ensures
        fields_plain(a + b),
{
    assert forall|i: int| 0 <= i < (a + b).len() implies is_signifier(#[trigger] (a + b)[i].0) && plain((a + b)[i].1) by {
        if i < a.len() {
            assert((a + b)[i] == a[i]);
            assert(is_signifier(a[i].0) && plain(a[i].1));
        } else {
            assert((a + b)[i] == b[i - a.len()]);
            assert(is_signifier(b[i - a.len()].0) && plain(b[i - a.len()].1));
        }
    }
}

proof fn lemma_plain_one(sig: char, v: Option<Seq<char>>)
    requires
        is_signifier(sig),
        v matches Some(x) ==> plain(x),
    ensures
        fields_plain(one(sig, v)),
{
}

proof fn lemma_plain_stamp(sig: char, v: Option<StampView>)
    requires
        is_signifier(sig),
        v matches Some(x) ==> stamp_carried(x),
    ensures
        fields_plain(one(sig, stamp_value(v))),
{
    if let Some(x) = v {
        law_stamp_round_trip(x);
    }
}

/// The fields a todo a line can carry writes are plain.
proof fn lemma_pairs_plain(t: TodoView)
    requires
        fields_carried(t),
    ensures
        fields_plain(field_pairs(t)),
{
    reveal(field_pairs);
    let p0: Seq<(char, Seq<char>)> = match priority_symbol(t.priority) {
        Some(c) => seq![(c, Seq::<char>::empty())],
        None => Seq::empty(),
    };
    assert(fields_plain(p0)) by {
        assert(plain(Seq::<char>::empty()));
    }
    let p1 = one(RECURRENCE, t.recurrence);
    lemma_plain_one(RECURRENCE, t.recurrence);
    let p2 = one(ID, t.id);
    assert(fields_plain(p2)) by {
        if let Some(i) = t.id {
            assert forall|k: int| 0 <= k < i.len() implies is_id_char(#[trigger] i[k]) || i[k] == ',' by {}
            lemma_word_plain(i);
        }
        lemma_plain_one(ID, t.id);
    }
    let p3: Seq<(char, Seq<char>)> = if t.depends_on.len() > 0 {
        seq![(DEPENDS_ON, joined(t.depends_on, ','))]
    } else {
        Seq::empty()
    };
    assert(fields_plain(p3)) by {
        if t.depends_on.len() > 0 {
            lemma_joined_chars(t.depends_on);
            lemma_word_plain(joined(t.depends_on, ','));
        }
    }
    let p4 = one(CREATED, stamp_value(t.created));
    lemma_plain_stamp(CREATED, t.created);
    let p5 = one(START, stamp_value(t.start));
    lemma_plain_stamp(START, t.start);
    let p6 = one(SCHEDULED, stamp_value(t.scheduled));
    lemma_plain_stamp(SCHEDULED, t.scheduled);
    let p7 = one(DUE, stamp_value(t.due));
    lemma_plain_stamp(DUE, t.due);
    let p8 = one(CANCELLED, stamp_value(t.cancelled));
    lemma_plain_stamp(CANCELLED, t.cancelled);
    let p9 = one(DONE, stamp_value(t.done));
    lemma_plain_stamp(DONE, t.done);
    let p10: Seq<(char, Seq<char>)> = match t.on_completion {
        Some(c) => seq![(ON_COMPLETION, completion_word(c))],
        None => Seq::empty(),
    };
    assert(fields_plain(p10)) by {
        if let Some(c) = t.on_completion {
            let w = completion_word(c);
            assert forall|k: int| 0 <= k < w.len() implies is_id_char(#[trigger] w[k]) || w[k] == ',' by {}
            lemma_word_plain(w);
        }
    }
    lemma_plain_concat(p0, p1);
    lemma_plain_concat(p0 + p1, p2);
    lemma_plain_concat(p0 + p1 + p2, p3);
    lemma_plain_concat(p0 + p1 + p2 + p3, p4);
    lemma_plain_concat(p0 + p1 + p2 + p3 + p4, p5);
    lemma_plain_concat(p0 + p1 + p2 + p3 + p4 + p5, p6);
    lemma_plain_concat(p0 + p1 + p2 + p3 + p4 + p5 + p6, p7);
    lemma_plain_concat(p0 + p1 + p2 + p3 + p4 + p5 + p6 + p7, p8);
    lemma_plain_concat(p0 + p1 + p2 + p3 + p4 + p5 + p6 + p7 + p8, p9);
    lemma_plain_concat(p0 + p1 + p2 + p3 + p4 + p5 + p6 + p7 + p8 + p9, p10);
}

/// A todo with no fields writes none.
proof fn lemma_pairs_empty(t: TodoView)
    requires
        field_pairs(t).len() == 0,
    ensures
        unfielded(t) == t,
{
    reveal(field_pairs);
    let p0: Seq<(char, Seq<char>)> = match priority_symbol(t.priority) {
        Some(c) => seq![(c, Seq::<char>::empty())],
        None => Seq::empty(),
    };
    let p1 = one(RECURRENCE, t.recurrence);
    let p2 = one(ID, t.id);
    let p3: Seq<(char, Seq<char>)> = if t.depends_on.len() > 0 {
        seq![(DEPENDS_ON, joined(t.depends_on, ','))]
    } else {
        Seq::empty()
    };
    let p4 = one(CREATED, stamp_value(t.created));
    let p5 = one(START, stamp_value(t.start));
    let p6 = one(SCHEDULED, stamp_value(t.scheduled));
    let p7 = one(DUE, stamp_value(t.due));
    let p8 = one(CANCELLED, stamp_value(t.cancelled));
    let p9 = one(DONE, stamp_value(t.done));
    let p10: Seq<(char, Seq<char>)> = match t.on_completion {
        Some(c) => seq![(ON_COMPLETION, completion_word(c))],
        None => Seq::empty(),
    };
    assert(field_pairs(t) == p0 + p1 + p2 + p3 + p4 + p5 + p6 + p7 + p8 + p9 + p10);
    assert(p0.len() == 0 && p1.len() == 0 && p2.len() == 0 && p3.len() == 0 && p4.len() == 0 && p5.len() == 0
        && p6.len() == 0 && p7.len() == 0 && p8.len() == 0 && p9.len() == 0 && p10.len() == 0);
    assert(t.depends_on =~= Seq::<Seq<char>>::empty());
    match t.priority {
        Priority::Normal => {},
        _ => {
            assert(priority_symbol(t.priority) is Some);
        },
    }
}

/// The first place a pattern occurs is the one with no earlier occurrence.
proof fn lemma_first_occurrence_at(s: Seq<char>, pat: Seq<char>, n: int)
    requires
        occurs_at(s, pat, n),
        forall|k: int| 0 <= k < n ==> !occurs_at(s, pat, k),
    ensures
        first_occurrence(s, pat) == Some(n),
{
    reveal(first_occurrence);
    let c = choose|at: int| occurs_at(s, pat, at) && forall|k: int| 0 <= k < at ==> !occurs_at(s, pat, k);
    assert(occurs_at(s, pat, c) && forall|k: int| 0 <= k < c ==> !occurs_at(s, pat, k));
    if c < n {
        assert(!occurs_at(s, pat, c));
    } else if c > n {
        assert(!occurs_at(s, pat, n));
    }
}

/// A slug's link is found where the slug ends.
proof fn lemma_wikilink_read(p: Seq<char>, rest: Seq<char>)
    requires
        is_slug(p),
        rest.len() == 0 || !is_ws(rest[0]),
    ensures
        wikilink_parts(wikilink_text(Some(p)) + rest) == (Some(p), rest),
{
    let s = wikilink_text(Some(p)) + rest;
    assert(s.subrange(0, 2) =~= seq!['[', '[']);
    let r = s.subrange(2, s.len() as int);
    assert(r =~= p + seq![']', ']', ' '] + rest);
    let n = p.len() as int;
    assert(occurs_at(r, seq![']', ']'], n)) by {
        assert(r.subrange(n, n + 2) =~= seq![']', ']']);
    }
    assert forall|k: int| 0 <= k < n implies !occurs_at(r, seq![']', ']'], k) by {
        assert(is_slug_char(p[k]));
        assert(r[k] == p[k]);
        if occurs_at(r, seq![']', ']'], k) {
            assert(r.subrange(k, k + 2)[0] == r[k]);
        }
    }
    lemma_first_occurrence_at(r, seq![']', ']'], n);
    assert(r.subrange(0, n) =~= p);
    let after = r.subrange(n + 2, r.len() as int);
    assert(after =~= seq![' '] + rest);
    assert(is_ws(' '));
    assert(trim_start(after) == trim_start(after.drop_first()));
    assert(after.drop_first() =~= rest);
    lemma_trim_start_none(rest);
}

/// What the reading of a line needs of a field region: nothing, or a space
/// and a signifier first and no whitespace last.
pub open spec fn region_shape(f: Seq<char>) -> bool {
    f.len() == 0 || (f.len() >= 2 && f[0] == ' ' && is_signifier(f[1]) && !is_ws(f.last()))
}

proof fn lemma_region_shape(t: TodoView)
    requires
        fields_carried(t),
    ensures
        region_shape(fields_text(t)),
        fields_text(t).len() == 0 <==> field_pairs(t).len() == 0,
{
    let p = field_pairs(t);
    lemma_fields_text(t);
    lemma_pairs_plain(t);
    if p.len() > 0 {
        lemma_fields_of_shape(p);
    } else {
        assert(fields_of(p) =~= Seq::<char>::empty());
    }
}

/// The ends of a todo line: it is a list item whose content is the line
/// after its bullet, with nothing to trim.
proof fn lemma_line_shape(sym: char, w: Seq<char>, d: Seq<char>, f: Seq<char>)
    requires
        is_description(d),
        region_shape(f),
        w.len() == 0 || w[0] == '[',
    ensures
        ({
            let c = seq!['[', sym, ']', ' '] + w + d + f;
            let line = seq!['-', ' ', '[', sym, ']', ' '] + w + d + f;
            &&& trim_end(line) == line
            &&& trim(line).len() > 0
            &&& list_item_content(line) == Some(c)
        }),
{
    lemma_trimmed_ends(d);
    let c = seq!['[', sym, ']', ' '] + w + d + f;
    let line = seq!['-', ' ', '[', sym, ']', ' '] + w + d + f;
    assert(line =~= seq!['-', ' '] + c);
    if f.len() > 0 {
        assert(line.last() == f.last());
        assert(c.last() == f.last());
    } else {
        assert(line.last() == d.last());
        assert(c.last() == d.last());
    }
    assert(!is_ws('-'));
    assert(!is_ws('['));
    crate::text::lemma_trim_fixed(line);
    crate::text::lemma_trim_fixed(c);
    assert(starts_with(line, seq!['-', ' '])) by {
        assert(line.subrange(0, 2) =~= seq!['-', ' ']);
    }
    assert(line.subrange(2, line.len() as int) =~= c);
}

/// After the checkbox, the project link is read off and the description
/// and fields remain.
proof fn lemma_link_shape(sym: char, project: Option<Seq<char>>, d: Seq<char>, f: Seq<char>)
    requires
        is_description(d),
        region_shape(f),
        project matches Some(p) ==> is_slug(p),
    ensures
        ({
            let c = seq!['[', sym, ']', ' '] + wikilink_text(project) + d + f;
            wikilink_parts(trim_start(c.subrange(3, c.len() as int))) == (project, d + f)
        }),
{
    let w = wikilink_text(project);
    lemma_trimmed_ends(d);
    let c = seq!['[', sym, ']', ' '] + w + d + f;
    let wdf = w + d + f;
    let after = c.subrange(3, c.len() as int);
    assert(after =~= seq![' '] + wdf);
    assert(is_ws(' '));
    assert(trim_start(after) == trim_start(after.drop_first()));
    assert(after.drop_first() =~= wdf);
    let df = d + f;
    assert(df[0] == d[0]);
    match project {
        Some(slug) => {
            assert(wdf[0] == '[');
            assert(!is_ws('['));
            lemma_trim_start_none(wdf);
            assert(wdf =~= wikilink_text(Some(slug)) + df);
            lemma_wikilink_read(slug, df);
        },
        None => {
            assert(w =~= Seq::<char>::empty());
            assert(wdf =~= df);
            lemma_trim_start_none(wdf);
            assert(!starts_with(df, seq!['[', '['])) by {
                if df.len() >= 2 {
                    if d.len() >= 2 {
                        assert(df.subrange(0, 2) =~= d.subrange(0, 2));
                    } else {
                        assert(f.len() > 0);
                        assert(df[1] == f[0]);
                        assert(df.subrange(0, 2)[1] == ' ');
                    }
                }
            }
        },
    }
}

/// The description runs to the first signifier, and the fields after it read
/// back onto the todo.
proof fn lemma_body_read(t: TodoView)
    requires
        is_description(t.description),
        fields_carried(t),
    ensures
        ({
            let df = t.description + fields_text(t);
            let (description, fields) = match first_where(df, signifier_pred()) {
                Some(i) => (trim_end(df.subrange(0, i)), df.subrange(i, df.len() as int)),
                None => (trim_end(df), Seq::<char>::empty()),
            };
            &&& description == t.description
            &&& read_fields(unfielded(t), field_list(fields)) == Some(t)
        }),
{
    let d = t.description;
    let f = fields_text(t);
    let p = field_pairs(t);
    let df = d + f;
    lemma_fields_text(t);
    lemma_pairs_plain(t);
    lemma_trimmed_ends(d);
    assert forall|k: int| 0 <= k < d.len() implies !signifier_pred()(#[trigger] d[k]) by {
        if signifier_pred()(d[k]) {
            lemma_first_where_exists(d, signifier_pred(), k);
        }
    }
    crate::text::lemma_trim_fixed(d);
    if p.len() > 0 {
        lemma_fields_of_shape(p);
        let at = d.len() as int + 1;
        assert(df[at] == p[0].0);
        assert(crate::text::is_first_where(df, signifier_pred(), at)) by {
            assert forall|k: int| 0 <= k < at implies !signifier_pred()(#[trigger] df[k]) by {
                if k < d.len() {
                    assert(df[k] == d[k]);
                } else {
                    assert(df[k] == ' ');
                    assert(!is_signifier(' '));
                }
            }
        }
        lemma_first_where_is(df, signifier_pred(), at);
        assert(df.subrange(0, at) =~= d.push(' '));
        assert(is_ws(' '));
        assert(trim_end(d.push(' ')) == trim_end(d.push(' ').drop_last()));
        assert(d.push(' ').drop_last() =~= d);
        assert(df.subrange(at, df.len() as int) =~= f.drop_first());
        lemma_field_list(p);
        lemma_read_pairs(t);
    } else {
        assert(f =~= Seq::<char>::empty());
        assert(df =~= d);
        lemma_first_where_none(df, signifier_pred());
        lemma_pairs_empty(t);
        assert(field_list(Seq::<char>::empty()) =~= Seq::<(char, Seq<char>)>::empty());
    }
}

/// A todo line reads back as the todo that wrote it, whenever the todo is one
/// a line can carry: its description passed `Todo::new`, its checkbox
/// character reads back as its status, its project is a slug and its fields
/// hold plain values. This is what lets a file be read and written any number
/// of times without changing.
pub proof fn law_todo_round_trip(t: TodoView)
    requires
        is_description(t.description),
        canonical_status(t.status),
        t.project matches Some(p) ==> is_slug(p),
        fields_carried(t),
    ensures
        reads_back::<Todo>(t),
{
    let sym = status_symbol(t.status);
    let w = wikilink_text(t.project);
    let f = fields_text(t);
    lemma_region_shape(t);
    assert(w.len() == 0 || w[0] == '[');
    lemma_line_shape(sym, w, t.description, f);
    lemma_link_shape(sym, t.project, t.description, f);
    lemma_body_read(t);
    law_status_symbol_round_trip(t.status);
    let c = seq!['[', sym, ']', ' '] + w + t.description + f;
    assert(todo_line(t) == seq!['-', ' ', '[', sym, ']', ' '] + w + t.description + f);
    assert(c[0] == '[' && c[2] == ']' && c[1] == sym);
    lemma_trimmed_ends(t.description);
    crate::text::lemma_trim_fixed(t.description);
    assert(new_todo(status_of_symbol(status_symbol(t.status)), t.description) matches Some(b) && TodoView {
        project: t.project,
        ..b
    } == unfielded(t));
}

} // verus!
