//! Why every todo the reader yields is one whose line reads back as it.
//!
//! With this, a todo list that was read and written once is read and written
//! again unchanged: the reader only ever yields descriptions `Todo::new`
//! accepts, slug projects, and field values a line can carry.

use vstd::prelude::*;

use crate::grammar::{date_value, wikilink_parts};
use crate::list::{reads_are_written_back, reads_back, ListLine};
use crate::minutes::{digit_value, digits_value, is_digit};
use crate::session_line::lemma_time_carried;
use crate::text::{first_where, is_ws, trim, trim_end, trim_start, ws_pred};
use crate::todo::{
    canonical_status, dep_ids, field_list, field_step, is_description, is_signifier, new_todo, read_fields,
    signifier_pred, stamp_read, status_of_symbol, todo_reads, Todo, TodoView, VARIATION_SELECTOR,
};
use crate::todo_line::{fields_carried, law_todo_round_trip, lemma_first_where_exists, plain, stamp_carried};
use crate::text::is_first_where;

verus! {

/// Four digits make a number below ten thousand.
proof fn lemma_four_digits(s: Seq<char>)
    requires
        s.len() == 4,
        forall|i: int| 0 <= i < 4 ==> is_digit(#[trigger] s[i]),
    ensures
        digits_value(s) < 10000,
{
    let d0 = digit_value(s[0]);
    let d1 = digit_value(s[1]);
    let d2 = digit_value(s[2]);
    let d3 = digit_value(s[3]);
    assert(is_digit(s[0]) && is_digit(s[1]) && is_digit(s[2]) && is_digit(s[3]));
    assert(d0 < 10 && d1 < 10 && d2 < 10 && d3 < 10);
    assert(s.drop_last().drop_last().drop_last().drop_last() =~= Seq::<char>::empty());
    assert(digits_value(s.drop_last().drop_last().drop_last().drop_last()) == 0);
    assert(s.drop_last().drop_last().drop_last().last() == s[0]);
    assert(s.drop_last().drop_last().last() == s[1]);
    assert(s.drop_last().last() == s[2]);
    assert(s.last() == s[3]);
    assert(digits_value(s.drop_last().drop_last().drop_last()) == d0);
    assert(digits_value(s.drop_last().drop_last()) == d0 * 10 + d1);
    assert(digits_value(s.drop_last()) == (d0 * 10 + d1) * 10 + d2);
    assert(digits_value(s) == ((d0 * 10 + d1) * 10 + d2) * 10 + d3);
    assert(((d0 * 10 + d1) * 10 + d2) * 10 + d3 < 10000) by (nonlinear_arith)
        requires
            d0 < 10,
            d1 < 10,
            d2 < 10,
            d3 < 10,
    ;
}

/// A stamp that reads is one a line can carry.
proof fn lemma_stamp_read_carried(raw: Seq<char>)
    requires
        stamp_read(raw) is Some,
    ensures
        stamp_carried(stamp_read(raw)->0),
{
    let t = trim(raw);
    let d = match first_where(t, ws_pred()) {
        None => t,
        Some(i) => t.subrange(0, i),
    };
    assert(date_value(d) is Some);
    let y = d.subrange(0, 4);
    assert forall|i: int| 0 <= i < 4 implies is_digit(#[trigger] y[i]) by {
        assert(y[i] == d[i]);
    }
    lemma_four_digits(y);
    match first_where(t, ws_pred()) {
        None => {},
        Some(i) => {
            lemma_time_carried(trim(t.subrange(i + 1, t.len() as int)));
        },
    }
}

/// Trimming a text with no signifier leaves a plain value.
proof fn lemma_plain_trim(x: Seq<char>)
    requires
        forall|i: int| 0 <= i < x.len() ==> !is_signifier(#[trigger] x[i]),
    ensures
        plain(trim(x)),
{
    let y = trim_start(x);
    let t = trim_end(y);
    crate::text::lemma_trim_start_shape(x);
    crate::text::lemma_trim_end_shape(y);
    let k = x.len() - y.len();
    assert forall|i: int| 0 <= i < t.len() implies !is_signifier(#[trigger] t[i]) by {
        assert(t[i] == y[i]);
        assert(y[i] == x[k + i]);
    }
}

/// Each value a field region yields is plain.
proof fn lemma_field_list_plain(region: Seq<char>)
    ensures
        forall|i: int| 0 <= i < field_list(region).len() ==> plain(#[trigger] field_list(region)[i].1),
    decreases region.len(),
{
    if region.len() > 0 {
        let v0 = region.drop_first();
        let v1 = if v0.len() > 0 && v0[0] == VARIATION_SELECTOR {
            v0.drop_first()
        } else {
            v0
        };
        let end = match first_where(v1, signifier_pred()) {
            Some(e) => e,
            None => v1.len() as int,
        };
        if 0 <= end <= v1.len() {
            let x = v1.subrange(0, end);
            assert forall|i: int| 0 <= i < x.len() implies !is_signifier(#[trigger] x[i]) by {
                assert(x[i] == v1[i]);
                match first_where(v1, signifier_pred()) {
                    Some(e) => {
                        assert(is_first_where(v1, signifier_pred(), e));
                        assert(!signifier_pred()(v1[i]));
                    },
                    None => {
                        if is_signifier(v1[i]) {
                            assert(signifier_pred()(v1[i]));
                            lemma_first_where_exists(v1, signifier_pred(), i);
                        }
                    },
                }
            }
            lemma_plain_trim(x);
            let after = v1.subrange(end, v1.len() as int);
            lemma_field_list_plain(after);
            let all = field_list(region);
            assert(all == seq![(region[0], trim(x))] + field_list(after));
            assert forall|i: int| 0 <= i < all.len() implies plain(#[trigger] all[i].1) by {
                if i > 0 {
                    assert(all[i] == field_list(after)[i - 1]);
                }
            }
        }
    }
}

/// The ids a dependency list reads as are ids.
proof fn lemma_dep_ids_valid(parts: Seq<Seq<char>>)
    requires
        dep_ids(parts) is Some,
    ensures
        forall|i: int| 0 <= i < (dep_ids(parts)->0).len() ==> crate::ids::is_todo_id(#[trigger] (dep_ids(parts)->0)[i]),
    decreases parts.len(),
{
    if parts.len() > 0 {
        lemma_dep_ids_valid(parts.drop_last());
        let before = dep_ids(parts.drop_last())->0;
        let now = dep_ids(parts)->0;
        assert forall|i: int| 0 <= i < now.len() implies crate::ids::is_todo_id(#[trigger] now[i]) by {
            if i < before.len() {
                assert(now[i] == before[i]);
            }
        }
    }
}

/// A field read onto a todo keeps what the todo can carry, and changes
/// nothing but the fields.
proof fn lemma_step_carried(t: TodoView, sig: char, v: Seq<char>)
    requires
        fields_carried(t),
        plain(v),
        field_step(t, sig, v) is Some,
    ensures
        fields_carried(field_step(t, sig, v)->0),
        (field_step(t, sig, v)->0).status == t.status,
        (field_step(t, sig, v)->0).project == t.project,
        (field_step(t, sig, v)->0).description == t.description,
{
    reveal(field_step);
    let n = field_step(t, sig, v)->0;
    if stamp_read(v) is Some {
        lemma_stamp_read_carried(v);
    }
    if sig == crate::todo::DEPENDS_ON && v.len() > 0 && t.depends_on.len() == 0 {
        if dep_ids(crate::text::split_on(v, ',')) is Some {
            lemma_dep_ids_valid(crate::text::split_on(v, ','));
        }
    }
}

/// Fields read onto a todo in turn keep what it can carry.
proof fn lemma_fields_carried(t: TodoView, fields: Seq<(char, Seq<char>)>)
    requires
        fields_carried(t),
        forall|i: int| 0 <= i < fields.len() ==> plain(#[trigger] fields[i].1),
        read_fields(t, fields) is Some,
    ensures
        fields_carried(read_fields(t, fields)->0),
        (read_fields(t, fields)->0).status == t.status,
        (read_fields(t, fields)->0).project == t.project,
        (read_fields(t, fields)->0).description == t.description,
    decreases fields.len(),
{
    if fields.len() > 0 {
        assert(plain(fields[0].1));
        lemma_step_carried(t, fields[0].0, fields[0].1);
        let rest = fields.drop_first();
        assert forall|i: int| 0 <= i < rest.len() implies plain(#[trigger] rest[i].1) by {
            assert(rest[i] == fields[i + 1]);
        }
        lemma_fields_carried(field_step(t, fields[0].0, fields[0].1)->0, rest);
    }
}

/// Every todo a line's content reads as is one whose line reads back as it.
pub proof fn law_todo_read_again(c: Seq<char>)
    requires
        todo_reads(c) is Some,
    ensures
        reads_back::<Todo>(todo_reads(c)->0),
{
    let symbol = c[1];
    let (project, rest) = wikilink_parts(trim_start(c.subrange(3, c.len() as int)));
    let (description, fields) = match first_where(rest, signifier_pred()) {
        Some(i) => (trim_end(rest.subrange(0, i)), rest.subrange(i, rest.len() as int)),
        None => (trim_end(rest), Seq::<char>::empty()),
    };
    let base = new_todo(status_of_symbol(symbol), description)->0;
    let start = TodoView { project, ..base };
    assert(fields_carried(start));
    lemma_field_list_plain(fields);
    lemma_fields_carried(start, field_list(fields));
    let t = todo_reads(c)->0;
    assert(is_description(t.description));
    assert(canonical_status(t.status));
    law_todo_round_trip(t);
}

/// Whatever the reader takes from a `## Todos` list, its line reads back as
/// it; so, with `law_list_fixed_point`, a todo list once written is read and
/// written unchanged.
pub proof fn law_todos_written_back()
    ensures
        reads_are_written_back::<Todo>(),
{
    assert forall|c: Seq<char>| trim(c) == c && (#[trigger] Todo::reads(c)) is Some implies reads_back::<Todo>(
        Todo::reads(c)->0,
    ) by {
        law_todo_read_again(c);
    }
}

/// Two fields with different signifiers read onto a todo give the same todo
/// in either order, or are refused in either order.
#[verifier::rlimit(60)]
pub proof fn law_fields_commute(t: TodoView, a: char, va: Seq<char>, b: char, vb: Seq<char>)
    requires
        a != b,
    ensures
        read_fields(t, seq![(a, va), (b, vb)]) == read_fields(t, seq![(b, vb), (a, va)]),
{
    reveal(field_step);
    reveal_with_fuel(read_fields, 3);
    let ab = seq![(a, va), (b, vb)];
    let ba = seq![(b, vb), (a, va)];
    assert(ab.drop_first() =~= seq![(b, vb)]);
    assert(ba.drop_first() =~= seq![(a, va)]);
    assert(seq![(b, vb)].drop_first() =~= Seq::<(char, Seq<char>)>::empty());
    assert(seq![(a, va)].drop_first() =~= Seq::<(char, Seq<char>)>::empty());
}

/// Reading two runs of fields in turn is reading the first, then the second
/// onto what the first gave.
proof fn lemma_read_concat(t: TodoView, x: Seq<(char, Seq<char>)>, y: Seq<(char, Seq<char>)>)
    ensures
        read_fields(t, x + y) == match read_fields(t, x) {
            Some(m) => read_fields(m, y),
            None => None,
        },
    decreases x.len(),
{
    if x.len() == 0 {
        assert(x + y =~= y);
    } else {
        assert((x + y)[0] == x[0]);
        assert((x + y).drop_first() =~= x.drop_first() + y);
        match field_step(t, x[0].0, x[0].1) {
            Some(n) => {
                lemma_read_concat(n, x.drop_first(), y);
            },
            None => {},
        }
    }
}

/// Signifiers that differ pairwise.
pub open spec fn distinct_signifiers(f: Seq<(char, Seq<char>)>) -> bool {
    forall|i: int, j: int| 0 <= i < j < f.len() ==> (#[trigger] f[i]).0 != (#[trigger] f[j]).0
}

/// Swapping two neighbouring fields with different signifiers reads the same.
proof fn lemma_read_swap(t: TodoView, f: Seq<(char, Seq<char>)>, i: int)
    requires
        0 <= i,
        i + 1 < f.len(),
        f[i].0 != f[i + 1].0,
    ensures
        read_fields(t, f) == read_fields(t, f.update(i, f[i + 1]).update(i + 1, f[i])),
    decreases i,
{
    let g = f.update(i, f[i + 1]).update(i + 1, f[i]);
    if i == 0 {
        let rest = f.subrange(2, f.len() as int);
        assert(f =~= seq![f[0], f[1]] + rest);
        assert(g =~= seq![f[1], f[0]] + rest);
        lemma_read_concat(t, seq![f[0], f[1]], rest);
        lemma_read_concat(t, seq![f[1], f[0]], rest);
        law_fields_commute(t, f[0].0, f[0].1, f[1].0, f[1].1);
    } else {
        assert(g[0] == f[0]);
        match field_step(t, f[0].0, f[0].1) {
            Some(n) => {
                let fd = f.drop_first();
                lemma_read_swap(n, fd, i - 1);
                assert(g.drop_first() =~= fd.update(i - 1, fd[i]).update(i, fd[i - 1]));
            },
            None => {},
        }
    }
}

/// The field at `j` can be read first, the others keeping their order, when
/// the signifiers differ.
proof fn lemma_read_front(t: TodoView, g: Seq<(char, Seq<char>)>, j: int)
    requires
        0 <= j < g.len(),
        distinct_signifiers(g),
    ensures
        read_fields(t, g) == read_fields(t, seq![g[j]] + g.remove(j)),
    decreases j,
{
    if j == 0 {
        assert(seq![g[0]] + g.remove(0) =~= g);
    } else {
        let h = g.update(j - 1, g[j]).update(j, g[j - 1]);
        assert(g[j - 1].0 != g[j].0);
        lemma_read_swap(t, g, j - 1);
        assert forall|a: int, b: int| 0 <= a < b < h.len() implies (#[trigger] h[a]).0 != (#[trigger] h[b]).0 by {
            let pa = if a == j - 1 { j } else if a == j { j - 1 } else { a };
            let pb = if b == j - 1 { j } else if b == j { j - 1 } else { b };
            assert(h[a] == g[pa]);
            assert(h[b] == g[pb]);
            if pa < pb {
                assert(g[pa].0 != g[pb].0);
            } else {
                assert(g[pb].0 != g[pa].0);
            }
        }
        lemma_read_front(t, h, j - 1);
        assert(h[j - 1] == g[j]);
        assert(h.remove(j - 1) =~= g.remove(j));
    }
}

/// Fields with different signifiers read the same in any order: reading the
/// fields of a line gives one todo whichever way round they were written.
pub proof fn law_fields_any_order(t: TodoView, f: Seq<(char, Seq<char>)>, g: Seq<(char, Seq<char>)>)
    requires
        f.to_multiset() == g.to_multiset(),
        distinct_signifiers(f),
        distinct_signifiers(g),
    ensures
        read_fields(t, f) == read_fields(t, g),
    decreases f.len(),
{
    broadcast use vstd::seq_lib::group_to_multiset_ensures;
    if f.len() == 0 {
        assert(g.to_multiset().len() == 0);
        assert(g =~= Seq::<(char, Seq<char>)>::empty());
    } else {
        let x = f[0];
        assert(f.to_multiset().count(x) > 0);
        assert(g.contains(x));
        let j = choose|j: int| 0 <= j < g.len() && g[j] == x;
        lemma_read_front(t, g, j);
        let fr = f.drop_first();
        let gr = g.remove(j);
        vstd::seq_lib::to_multiset_remove(g, j);
        vstd::seq_lib::to_multiset_remove(f, 0);
        assert(f.remove(0) =~= fr);
        assert(fr.to_multiset() == gr.to_multiset());
        assert forall|a: int, b: int| 0 <= a < b < fr.len() implies (#[trigger] fr[a]).0 != (#[trigger] fr[b]).0 by {
            assert(fr[a] == f[a + 1] && fr[b] == f[b + 1]);
        }
        assert forall|a: int, b: int| 0 <= a < b < gr.len() implies (#[trigger] gr[a]).0 != (#[trigger] gr[b]).0 by {
            let pa = if a < j { a } else { a + 1 };
            let pb = if b < j { b } else { b + 1 };
            assert(gr[a] == g[pa] && gr[b] == g[pb]);
        }
        let gg = seq![x] + gr;
        assert(gg[0] == x);
        assert(gg.drop_first() =~= gr);
        match field_step(t, x.0, x.1) {
            Some(n) => {
                law_fields_any_order(n, fr, gr);
            },
            None => {},
        }
    }
}

} // verus!
