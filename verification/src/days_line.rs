//! Why the text of a day set reads back as the set.
//!
//! A repeating block names its weekdays as `daily`, `mon-fri` or
//! `mon,wed,fri`; the set must come back unchanged each time the schedule is
//! loaded.

use vstd::prelude::*;

use crate::schedule::{
    DaySet,
    all_days, day_name, day_range, days_text, days_value, lemma_day_names_distinct, lemma_run_end, name_index, part_days,
    parts_days, render_parts, run_end,
};
use crate::text::{
    ascii_lower, char_pred, first_where, is_first_where, is_ws, joined, lemma_first_where_is, lemma_first_where_none,
    lemma_trim_fixed, lower_all, split_on, trim,
};

verus! {

/// A lowercase ASCII letter.
pub open spec fn is_lower(c: char) -> bool {
    'a' <= c <= 'z'
}

proof fn lemma_name_chars(i: nat)
    requires
        i < 7,
    ensures
        day_name(i).len() == 3,
        forall|j: int| 0 <= j < 3 ==> is_lower(#[trigger] day_name(i)[j]),
        day_name(i)[0] != 'd',
{
}

/// A weekday's name reads as that weekday.
proof fn lemma_name_index(i: nat)
    requires
        i < 7,
    ensures
        name_index(day_name(i)) == Some(i),
{
    let s = day_name(i);
    assert(i < 7 && day_name(i) == s);
    let c = choose|k: nat| k < 7 && day_name(k) == s;
    lemma_day_names_distinct(c, i);
}

/// Lowercase letters and dashes, already lowered and with nothing to trim.
proof fn lemma_plain_word(p: Seq<char>)
    requires
        p.len() > 0,
        forall|j: int| 0 <= j < p.len() ==> is_lower(#[trigger] p[j]) || p[j] == '-',
        is_lower(p[0]),
        is_lower(p.last()),
    ensures
        trim(p) == p,
        lower_all(p) == p,
{
    assert(!is_ws(p[0]) && !is_ws(p.last()));
    lemma_trim_fixed(p);
    assert(lower_all(p) =~= p) by {
        assert forall|j: int| 0 <= j < p.len() implies #[trigger] lower_all(p)[j] == p[j] by {
            assert(is_lower(p[j]) || p[j] == '-');
            assert(ascii_lower(p[j]) == p[j]);
        }
    }
}

/// A single day's name names that day.
proof fn lemma_part_single(i: nat)
    requires
        i < 7,
    ensures
        part_days(day_name(i)) == Some(set![i]),
{
    let p = day_name(i);
    lemma_name_chars(i);
    lemma_plain_word(p);
    lemma_first_where_none(p, char_pred('-'));
    lemma_name_index(i);
}

/// Two three-letter words joined by a dash read as the words on either side.
proof fn lemma_dash_word(a: Seq<char>, b: Seq<char>)
    requires
        a.len() == 3,
        b.len() == 3,
        forall|j: int| 0 <= j < 3 ==> is_lower(#[trigger] a[j]),
        forall|j: int| 0 <= j < 3 ==> is_lower(#[trigger] b[j]),
    ensures
        trim(a + seq!['-'] + b) == a + seq!['-'] + b,
        lower_all(a + seq!['-'] + b) == a + seq!['-'] + b,
        first_where(a + seq!['-'] + b, char_pred('-')) == Some(3int),
        (a + seq!['-'] + b).subrange(0, 3) == a,
        (a + seq!['-'] + b).subrange(4, 7) == b,
{
    let p = a + seq!['-'] + b;
    assert forall|j: int| 0 <= j < p.len() implies is_lower(#[trigger] p[j]) || p[j] == '-' by {
        if j < 3 {
            assert(p[j] == a[j]);
        } else if j > 3 {
            assert(p[j] == b[j - 4]);
        }
    }
    assert(p[0] == a[0]);
    assert(p.last() == b[2]);
    lemma_plain_word(p);
    assert(is_first_where(p, char_pred('-'), 3)) by {
        assert forall|j: int| 0 <= j < 3 implies !char_pred('-')(#[trigger] p[j]) by {
            assert(p[j] == a[j]);
        }
    }
    lemma_first_where_is(p, char_pred('-'), 3);
    assert(p.subrange(0, 3) =~= a);
    assert(p.subrange(4, 7) =~= b);
}

/// `first-last` names the days from the first to the last.
proof fn lemma_part_range(i: nat, k: nat)
    requires
        i <= k < 7,
    ensures
        part_days(day_name(i) + seq!['-'] + day_name(k)) == Some(day_range(i, k)),
{
    lemma_name_chars(i);
    lemma_name_chars(k);
    lemma_dash_word(day_name(i), day_name(k));
    lemma_name_index(i);
    lemma_name_index(k);
}

/// The days of two runs of parts are the days of each, together.
proof fn lemma_parts_concat(a: Seq<Seq<char>>, b: Seq<Seq<char>>, x: Set<nat>, y: Set<nat>)
    requires
        parts_days(a) == Some(x),
        parts_days(b) == Some(y),
    ensures
        parts_days(a + b) == Some(x.union(y)),
    decreases b.len(),
{
    if b.len() == 0 {
        assert(a + b =~= a);
        assert(x.union(Set::<nat>::empty()) =~= x);
    } else {
        let y0 = parts_days(b.drop_last()).unwrap();
        let z = part_days(b.last()).unwrap();
        lemma_parts_concat(a, b.drop_last(), x, y0);
        assert((a + b).drop_last() =~= a + b.drop_last());
        assert((a + b).last() == b.last());
        assert(x.union(y0).union(z) =~= x.union(y));
    }
}

/// One part names what that part names.
proof fn lemma_parts_one(p: Seq<char>, x: Set<nat>)
    requires
        part_days(p) == Some(x),
    ensures
        parts_days(seq![p]) == Some(x),
{
    let r = seq![p];
    assert(r.drop_last() =~= Seq::<Seq<char>>::empty());
    assert(parts_days(Seq::<Seq<char>>::empty()) == Some(Set::<nat>::empty()));
    assert(r.last() == p);
    assert(Set::<nat>::empty().union(x) =~= x);
}

/// Days named one by one, from `i` on, name the days from `i` to the last.
proof fn lemma_parts_run(i: nat, n: nat)
    requires
        n >= 1,
        i + n <= 7,
    ensures
        parts_days(Seq::new(n, |t: int| day_name((i + t) as nat))) == Some(day_range(i, (i + n - 1) as nat)),
    decreases n,
{
    let r = Seq::new(n, |t: int| day_name((i + t) as nat));
    let last = (i + n - 1) as nat;
    lemma_part_single(last);
    assert(r.last() == day_name(last));
    if n == 1 {
        assert(r =~= seq![day_name(i)]);
        lemma_parts_one(day_name(i), set![i]);
        assert(set![i] =~= day_range(i, i));
    } else {
        lemma_parts_run(i, (n - 1) as nat);
        assert(r.drop_last() =~= Seq::new((n - 1) as nat, |t: int| day_name((i + t) as nat)));
        assert(day_range(i, (last - 1) as nat).union(set![last]) =~= day_range(i, last));
    }
}

/// Every day from a run's start to its end is selected.
proof fn lemma_run_in(days: Set<nat>, j: nat, d: nat)
    requires
        j < 7,
        days.contains(j),
        j <= d <= run_end(days, j),
    ensures
        days.contains(d),
    decreases 7 - j,
{
    if d > j {
        assert(j + 1 < 7 && days.contains(j + 1));
        lemma_run_in(days, j + 1, d);
    }
}

/// A written part: non-empty, no comma, starting and ending with a lowercase
/// letter that is not the start of `daily`.
pub open spec fn part_ok(p: Seq<char>) -> bool {
    &&& p.len() > 0
    &&& forall|j: int| 0 <= j < p.len() ==> is_lower(#[trigger] p[j]) || p[j] == '-'
    &&& is_lower(p[0])
    &&& p[0] != 'd'
    &&& is_lower(p.last())
}

/// The selected days from `i` on.
pub open spec fn days_from(days: Set<nat>, i: nat) -> Set<nat> {
    Set::new(|d: nat| days.contains(d) && i <= d)
}

/// The parts written from `i` on name exactly the selected days from `i` on.
proof fn lemma_render_parts(days: Set<nat>, i: nat)
    requires
        forall|d: nat| days.contains(d) ==> d < 7,
        i <= 7,
    ensures
        parts_days(render_parts(days, i)) == Some(days_from(days, i)),
        forall|j: int| 0 <= j < render_parts(days, i).len() ==> part_ok(#[trigger] render_parts(days, i)[j]),
    decreases 7 - i,
{
    let r = render_parts(days, i);
    if i >= 7 {
        assert(days_from(days, i) =~= Set::<nat>::empty());
    } else if !days.contains(i) {
        lemma_render_parts(days, i + 1);
        assert(days_from(days, i) =~= days_from(days, i + 1));
    } else {
        let k = run_end(days, i);
        lemma_run_end(days, i);
        lemma_render_parts(days, k + 1);
        let rest = render_parts(days, k + 1);
        let here: Seq<Seq<char>> = if k - i + 1 >= 3 {
            seq![day_name(i) + seq!['-'] + day_name(k)]
        } else {
            Seq::new((k - i + 1) as nat, |t: int| day_name((i + t) as nat))
        };
        assert(r == here + rest);
        if k - i + 1 >= 3 {
            lemma_part_range(i, k);
            lemma_parts_one(day_name(i) + seq!['-'] + day_name(k), day_range(i, k));
            let p = day_name(i) + seq!['-'] + day_name(k);
            lemma_name_chars(i);
            lemma_name_chars(k);
            assert(part_ok(p)) by {
                assert forall|j: int| 0 <= j < p.len() implies is_lower(#[trigger] p[j]) || p[j] == '-' by {
                    if j < 3 {
                        assert(p[j] == day_name(i)[j]);
                    } else if j > 3 {
                        assert(p[j] == day_name(k)[j - 4]);
                    }
                }
                assert(p[0] == day_name(i)[0]);
                assert(p.last() == day_name(k)[2]);
            }
        } else {
            lemma_parts_run(i, (k - i + 1) as nat);
            assert forall|j: int| 0 <= j < here.len() implies part_ok(#[trigger] here[j]) by {
                lemma_name_chars((i + j) as nat);
            }
        }
        lemma_parts_concat(here, rest, day_range(i, k), days_from(days, k + 1));
        assert(day_range(i, k).union(days_from(days, k + 1)) =~= days_from(days, i)) by {
            assert forall|d: nat| day_range(i, k).contains(d) implies days.contains(d) by {
                lemma_run_in(days, i, d);
            }
        }
        assert forall|j: int| 0 <= j < r.len() implies part_ok(#[trigger] r[j]) by {
            if j < here.len() {
                assert(r[j] == here[j]);
            } else {
                assert(r[j] == rest[j - here.len()]);
            }
        }
    }
}

/// A join of non-empty parts starts as the first part and ends as the last.
proof fn lemma_joined_ends(parts: Seq<Seq<char>>, c: char)
    requires
        parts.len() > 0,
        forall|j: int| 0 <= j < parts.len() ==> (#[trigger] parts[j]).len() > 0,
    ensures
        joined(parts, c).len() > 0,
        joined(parts, c)[0] == parts[0][0],
        joined(parts, c).last() == parts.last().last(),
    decreases parts.len(),
{
    if parts.len() > 1 {
        let init = parts.drop_last();
        assert forall|j: int| 0 <= j < init.len() implies (#[trigger] init[j]).len() > 0 by {
            assert(init[j] == parts[j]);
        }
        lemma_joined_ends(init, c);
        assert(parts.last().len() > 0);
        let x = joined(init, c).push(c);
        assert((x + parts.last())[0] == x[0]);
        assert((x + parts.last()).last() == parts.last().last());
    }
}

/// The text of a set of weekdays reads back as the set: `daily` for all
/// seven, otherwise the days Monday first with runs of three or more as
/// ranges.
pub proof fn law_days_round_trip(days: Set<nat>)
    requires
        forall|d: nat| days.contains(d) ==> d < 7,
        days != Set::<nat>::empty(),
    ensures
        days_value(days_text(days)) == Some(days),
{
    if days == all_days() {
        let w = crate::schedule::daily_word();
        lemma_plain_word(w);
    } else {
        let parts = render_parts(days, 0);
        lemma_render_parts(days, 0);
        assert(days_from(days, 0) =~= days);
        if parts.len() == 0 {
            assert(parts =~= Seq::<Seq<char>>::empty());
            assert(days =~= Set::<nat>::empty());
        }
        let text = joined(parts, ',');
        assert forall|j: int| 0 <= j < parts.len() implies (#[trigger] parts[j]).len() > 0 by {
            assert(part_ok(parts[j]));
        }
        lemma_joined_ends(parts, ',');
        assert(part_ok(parts[0]));
        assert(part_ok(parts[parts.len() - 1]));
        assert(!is_ws(text[0]) && !is_ws(text.last()));
        lemma_trim_fixed(text);
        assert(lower_all(text)[0] == ascii_lower(text[0]));
        assert(lower_all(text) != crate::schedule::daily_word());
        assert forall|i: int, j: int| 0 <= i < parts.len() && 0 <= j < parts[i].len() implies #[trigger] parts[i][j]
            != ',' by {
            assert(part_ok(parts[i]));
            assert(is_lower(parts[i][j]) || parts[i][j] == '-');
        }
        crate::todo_line::lemma_split_joined(parts, ',');
    }
}

/// A join of parts without blanks has no blank.
proof fn lemma_joined_solid(parts: Seq<Seq<char>>, c: char)
    requires
        !is_ws(c),
        forall|i: int, j: int| 0 <= i < parts.len() && 0 <= j < parts[i].len() ==> !is_ws(#[trigger] parts[i][j]),
    ensures
        forall|j: int| 0 <= j < joined(parts, c).len() ==> !is_ws(#[trigger] joined(parts, c)[j]),
    decreases parts.len(),
{
    if parts.len() == 1 {
        assert forall|j: int| 0 <= j < parts[0].len() implies !is_ws(#[trigger] parts[0][j]) by {
        }
    } else if parts.len() > 1 {
        let init = parts.drop_last();
        assert forall|i: int, j: int| 0 <= i < init.len() && 0 <= j < init[i].len() implies !is_ws(
            #[trigger] init[i][j],
        ) by {
            assert(init[i] == parts[i]);
        }
        lemma_joined_solid(init, c);
        let x = joined(init, c).push(c);
        let l = parts.last();
        assert forall|j: int| 0 <= j < (x + l).len() implies !is_ws(#[trigger] (x + l)[j]) by {
            if j < joined(init, c).len() {
                assert((x + l)[j] == joined(init, c)[j]);
            } else if j > joined(init, c).len() {
                assert((x + l)[j] == parts[parts.len() - 1][j - x.len()]);
            }
        }
    }
}

/// The text of a set of weekdays is a non-empty word with no blank in it.
pub proof fn lemma_days_text_solid(days: Set<nat>)
    requires
        forall|d: nat| days.contains(d) ==> d < 7,
        days != Set::<nat>::empty(),
    ensures
        days_text(days).len() > 0,
        forall|j: int| 0 <= j < days_text(days).len() ==> !is_ws(#[trigger] days_text(days)[j]),
{
    if days == all_days() {
        let w = crate::schedule::daily_word();
        assert(forall|j: int| 0 <= j < w.len() ==> is_lower(#[trigger] w[j]));
    } else {
        let parts = render_parts(days, 0);
        lemma_render_parts(days, 0);
        assert(days_from(days, 0) =~= days);
        if parts.len() == 0 {
            assert(parts =~= Seq::<Seq<char>>::empty());
            assert(days =~= Set::<nat>::empty());
        }
        assert forall|j: int| 0 <= j < parts.len() implies (#[trigger] parts[j]).len() > 0 by {
            assert(part_ok(parts[j]));
        }
        lemma_joined_ends(parts, ',');
        assert forall|i: int, j: int| 0 <= i < parts.len() && 0 <= j < parts[i].len() implies !is_ws(
            #[trigger] parts[i][j],
        ) by {
            assert(part_ok(parts[i]));
            assert(is_lower(parts[i][j]) || parts[i][j] == '-');
        }
        lemma_joined_solid(parts, ',');
    }
}

/// A non-empty day set's text reads back as the set.
pub proof fn law_dayset_round_trip(d: DaySet)
    requires
        d@ != Set::<nat>::empty(),
    ensures
        days_value(days_text(d@)) == Some(d@),
{
    d.lemma_in_week();
    law_days_round_trip(d@);
}

} // verus!
