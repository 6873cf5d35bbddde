//! Planned time blocks.
//!
//! Repeating blocks live once in `data/schedule/recurring.md`; a day file adds
//! its own one-offs under `## Schedule` and suppresses a repeat under
//! `## Skipped`. Expanding those three sources is what the schedule screen and
//! the reminder scheduler both read.

use vstd::prelude::*;

use crate::clock::Weekday;
use crate::error::ParseErrorKind;
use crate::text::{append, joined, split_on, char_pred, chars_of, first_char, first_where, lower_all, lowered, same, slice, string_of, trim, trimmed};

verus! {

pub open spec fn has_bit(bits: u8, i: u8) -> bool {
    (bits >> i) & 1u8 == 1u8
}

/// The canonical three-letter name of a weekday, Monday as 0.
pub open spec fn day_name(i: nat) -> Seq<char> {
    if i == 0 {
        seq!['m', 'o', 'n']
    } else if i == 1 {
        seq!['t', 'u', 'e']
    } else if i == 2 {
        seq!['w', 'e', 'd']
    } else if i == 3 {
        seq!['t', 'h', 'u']
    } else if i == 4 {
        seq!['f', 'r', 'i']
    } else if i == 5 {
        seq!['s', 'a', 't']
    } else {
        seq!['s', 'u', 'n']
    }
}

/// Which weekday a name spells, if any.
pub open spec fn name_index(s: Seq<char>) -> Option<nat> {
    if exists|i: nat| i < 7 && day_name(i) == s {
        Some(choose|i: nat| i < 7 && day_name(i) == s)
    } else {
        None
    }
}

pub open spec fn daily_word() -> Seq<char> {
    seq!['d', 'a', 'i', 'l', 'y']
}

pub open spec fn all_days() -> Set<nat> {
    Set::new(|d: nat| d < 7)
}

pub open spec fn day_range(from: nat, to: nat) -> Set<nat> {
    Set::new(|d: nat| from <= d <= to)
}

/// The days one comma-separated part names: a day, or an ascending range.
pub open spec fn part_days(p: Seq<char>) -> Option<Set<nat>> {
    let q = lower_all(trim(p));
    match first_where(q, char_pred('-')) {
        Some(i) => match (name_index(q.subrange(0, i)), name_index(q.subrange(i + 1, q.len() as int))) {
            (Some(a), Some(b)) => if a <= b {
                Some(day_range(a, b))
            } else {
                None
            },
            _ => None,
        },
        None => match name_index(q) {
            Some(a) => Some(set![a]),
            None => None,
        },
    }
}

/// The union of what every part names, or `None` if any part names nothing.
pub open spec fn parts_days(parts: Seq<Seq<char>>) -> Option<Set<nat>>
    decreases parts.len(),
{
    if parts.len() == 0 {
        Some(Set::empty())
    } else {
        match (parts_days(parts.drop_last()), part_days(parts.last())) {
            (Some(a), Some(b)) => Some(a.union(b)),
            _ => None,
        }
    }
}

/// What a day spec such as `daily`, `mon-fri` or `mon,wed,fri` selects.
pub open spec fn days_value(text: Seq<char>) -> Option<Set<nat>> {
    let t = trim(text);
    if lower_all(t) == daily_word() {
        Some(all_days())
    } else {
        match parts_days(split_on(t, ',')) {
            Some(days) => if days == Set::<nat>::empty() {
                None
            } else {
                Some(days)
            },
            None => None,
        }
    }
}

/// The last day of the run of selected days that starts at `j`.
pub open spec fn run_end(days: Set<nat>, j: nat) -> nat
    decreases 7 - j,
{
    if j + 1 < 7 && days.contains(j + 1) {
        run_end(days, j + 1)
    } else {
        j
    }
}

/// The canonical parts from day `i` on: a run of three or more days as a
/// range, shorter runs day by day.
pub open spec fn render_parts(days: Set<nat>, i: nat) -> Seq<Seq<char>>
    decreases 7 - i,
{
    if i >= 7 {
        Seq::empty()
    } else if !days.contains(i) {
        render_parts(days, i + 1)
    } else {
        let k = run_end(days, i);
        let here = if k - i + 1 >= 3 {
            seq![day_name(i) + seq!['-'] + day_name(k)]
        } else {
            Seq::new((k - i + 1) as nat, |t: int| day_name((i + t) as nat))
        };
        if k < 7 && k >= i {
            here + render_parts(days, k + 1)
        } else {
            here
        }
    }
}

/// The canonical text of a day set.
pub open spec fn days_text(days: Set<nat>) -> Seq<char> {
    if days == all_days() {
        daily_word()
    } else {
        joined(render_parts(days, 0), ',')
    }
}

/// The names of the selected days from `i` on, Monday first.
pub open spec fn names_from(days: Set<nat>, i: nat) -> Seq<Seq<char>>
    decreases 7 - i,
{
    if i >= 7 {
        Seq::empty()
    } else if days.contains(i) {
        seq![day_name(i)] + names_from(days, i + 1)
    } else {
        names_from(days, i + 1)
    }
}

/// Which weekdays a block repeats on.
#[derive(Debug, Clone, Copy, PartialEq, Eq, Default, Structural)]
pub struct DaySet(u8);

impl View for DaySet {
    type V = Set<nat>;

    closed spec fn view(&self) -> Set<nat> {
        Set::new(|d: nat| d < 7 && has_bit(self.0, d as u8))
    }
}

proof fn lemma_bits(bits: u8, i: u8, j: u8)
    requires
        i < 8,
        j < 8,
    ensures
        has_bit(bits | (1u8 << i), j) == (has_bit(bits, j) || i == j),
        !has_bit(0u8, j),
        j < 7 ==> has_bit(127u8, j),
        bits < 128 ==> !has_bit(bits, 7),
        (bits | (1u8 << i)) < 128 <==> (bits < 128 && i < 7),
{
    assert(has_bit(bits | (1u8 << i), j) == (has_bit(bits, j) || i == j)) by (bit_vector)
        requires
            i < 8,
            j < 8,
    ;
    assert(!has_bit(0u8, j)) by (bit_vector);
    assert(j < 7 ==> has_bit(127u8, j)) by (bit_vector);
    assert(bits < 128 ==> !has_bit(bits, 7)) by (bit_vector);
    assert((bits | (1u8 << i)) < 128 <==> (bits < 128 && i < 7)) by (bit_vector)
        requires
            i < 8,
    ;
}

proof fn lemma_bits_determine(a: u8, b: u8)
    requires
        forall|j: u8| j < 8 ==> has_bit(a, j) == has_bit(b, j),
    ensures
        a == b,
{
    assert(has_bit(a, 0) == has_bit(b, 0));
    assert(has_bit(a, 1) == has_bit(b, 1));
    assert(has_bit(a, 2) == has_bit(b, 2));
    assert(has_bit(a, 3) == has_bit(b, 3));
    assert(has_bit(a, 4) == has_bit(b, 4));
    assert(has_bit(a, 5) == has_bit(b, 5));
    assert(has_bit(a, 6) == has_bit(b, 6));
    assert(has_bit(a, 7) == has_bit(b, 7));
    assert(a == b) by (bit_vector)
        requires
            has_bit(a, 0) == has_bit(b, 0),
            has_bit(a, 1) == has_bit(b, 1),
            has_bit(a, 2) == has_bit(b, 2),
            has_bit(a, 3) == has_bit(b, 3),
            has_bit(a, 4) == has_bit(b, 4),
            has_bit(a, 5) == has_bit(b, 5),
            has_bit(a, 6) == has_bit(b, 6),
            has_bit(a, 7) == has_bit(b, 7),
    ;
}

fn day_name_chars(i: usize) -> (name: Vec<char>)
    requires
        i < 7,
    ensures
        name@ == day_name(i as nat),
{
    let mut out: Vec<char> = Vec::new();
    if i == 0 {
        out.push('m');
        out.push('o');
        out.push('n');
    } else if i == 1 {
        out.push('t');
        out.push('u');
        out.push('e');
    } else if i == 2 {
        out.push('w');
        out.push('e');
        out.push('d');
    } else if i == 3 {
        out.push('t');
        out.push('h');
        out.push('u');
    } else if i == 4 {
        out.push('f');
        out.push('r');
        out.push('i');
    } else if i == 5 {
        out.push('s');
        out.push('a');
        out.push('t');
    } else {
        out.push('s');
        out.push('u');
        out.push('n');
    }
    assert(out@ =~= day_name(i as nat));
    out
}

pub proof fn lemma_day_names_distinct(i: nat, j: nat)
    requires
        i < 7,
        j < 7,
        day_name(i) == day_name(j),
    ensures
        i == j,
{
    if i != j {
        assert(day_name(i)[0] != day_name(j)[0] || day_name(i)[1] != day_name(j)[1]);
    }
}

fn weekday_of_name(s: &[char]) -> (index: Option<usize>)
    ensures
        match index {
            Some(i) => name_index(s@) == Some(i as nat) && i < 7,
            None => name_index(s@) is None,
        },
{
    let mut i: usize = 0;
    while i < 7
        invariant
            i <= 7,
            forall|k: nat| k < i ==> day_name(k) != s@,
        decreases 7 - i,
    {
        let name = day_name_chars(i);
        if same(&name, s) {
            proof {
                let c = choose|k: nat| k < 7 && day_name(k) == s@;
                lemma_day_names_distinct(c, i as nat);
            }
            return Some(i);
        }
        i = i + 1;
    }
    None
}

} // verus!

verus! {

/// The weekday indices of a list of weekdays.
pub open spec fn weekday_indices(days: Seq<Weekday>) -> Set<nat>
    decreases days.len(),
{
    if days.len() == 0 {
        Set::empty()
    } else {
        weekday_indices(days.drop_last()).insert(days.last().index_of())
    }
}

pub open spec fn bits_days(bits: u8) -> Set<nat> {
    Set::new(|d: nat| d < 7 && has_bit(bits, d as u8))
}

proof fn lemma_bits_union(a: u8, b: u8)
    ensures
        bits_days(a | b) == bits_days(a).union(bits_days(b)),
        a < 128 && b < 128 ==> (a | b) < 128,
{
    assert forall|d: nat| d < 7 implies #[trigger] has_bit(a | b, d as u8) == (has_bit(a, d as u8) || has_bit(b, d as u8)) by {
        let j = d as u8;
        assert(has_bit(a | b, j) == (has_bit(a, j) || has_bit(b, j))) by (bit_vector);
    }
    assert(bits_days(a | b) =~= bits_days(a).union(bits_days(b)));
    assert(a < 128 && b < 128 ==> (a | b) < 128) by (bit_vector);
}

proof fn lemma_bits_single(i: u8)
    requires
        i < 7,
    ensures
        bits_days(1u8 << i) == set![i as nat],
        (1u8 << i) < 128,
        (1u8 << i) != 0,
{
    assert forall|d: nat| d < 7 implies #[trigger] has_bit(1u8 << i, d as u8) == (d == i) by {
        lemma_bits(0u8, i, d as u8);
        assert((0u8 | (1u8 << i)) == (1u8 << i)) by (bit_vector);
    }
    assert(bits_days(1u8 << i) =~= set![i as nat]);
    assert((1u8 << i) < 128 && (1u8 << i) != 0) by (bit_vector)
        requires
            i < 7,
    ;
}

proof fn lemma_bits_empty(bits: u8)
    requires
        bits < 128,
    ensures
        (bits == 0) == (bits_days(bits) == Set::<nat>::empty()),
{
    if bits == 0 {
        assert forall|d: nat| d < 7 implies !#[trigger] has_bit(bits, d as u8) by {
            lemma_bits(bits, 0, d as u8);
        }
        assert(bits_days(bits) =~= Set::<nat>::empty());
    } else {
        if bits_days(bits) == Set::<nat>::empty() {
            assert forall|j: u8| j < 8 implies #[trigger] has_bit(bits, j) == has_bit(0u8, j) by {
                lemma_bits(bits, 0, j);
                if j < 7 {
                    assert(!bits_days(bits).contains(j as nat));
                }
            }
            lemma_bits_determine(bits, 0u8);
        }
    }
}

proof fn lemma_bits_all(bits: u8)
    requires
        bits < 128,
    ensures
        (bits == 127) == (bits_days(bits) == all_days()),
{
    if bits == 127 {
        assert forall|d: nat| d < 7 implies #[trigger] has_bit(bits, d as u8) by {
            lemma_bits(bits, 0, d as u8);
        }
        assert(bits_days(bits) =~= all_days());
    } else {
        if bits_days(bits) == all_days() {
            assert forall|j: u8| j < 8 implies #[trigger] has_bit(bits, j) == has_bit(127u8, j) by {
                lemma_bits(bits, 0, j);
                lemma_bits(127u8, 0, j);
                if j < 7 {
                    assert(all_days().contains(j as nat));
                }
            }
            lemma_bits_determine(bits, 127u8);
        }
    }
}

/// The bits of a run of days.
fn range_bits(from: usize, to: usize) -> (bits: u8)
    requires
        from <= to < 7,
    ensures
        bits_days(bits) == day_range(from as nat, to as nat),
        bits < 128,
        bits != 0,
{
    let mut bits: u8 = 0;
    let mut i: usize = from;
    proof {
        assert forall|d: nat| d < 7 implies !#[trigger] has_bit(0u8, d as u8) by {
            lemma_bits(0u8, 0, d as u8);
        }
        assert(bits_days(0u8) =~= Set::<nat>::empty());
    }
    while i <= to
        invariant
            from <= i <= to + 1,
            to < 7,
            bits < 128,
            i > from ==> bits != 0,
            bits_days(bits) == Set::new(|d: nat| from <= d < i),
        decreases to + 1 - i,
    {
        let one: u8 = 1u8 << (i as u8);
        proof {
            lemma_bits_single(i as u8);
            lemma_bits_union(bits, one);
            assert(Set::new(|d: nat| from <= d < i).union(set![i as nat]) =~= Set::new(|d: nat| from <= d < i + 1));
            assert((bits | one) != 0) by (bit_vector)
                requires
                    one != 0,
            ;
        }
        bits = bits | one;
        i = i + 1;
    }
    assert(Set::new(|d: nat| from <= d < to + 1) =~= day_range(from as nat, to as nat));
    bits
}

/// The bits a comma-free part selects.
fn part_bits(p: &[char]) -> (bits: Option<u8>)
    ensures
        match bits {
            Some(b) => part_days(p@) == Some(bits_days(b)) && b < 128 && b != 0,
            None => part_days(p@) is None,
        },
{
    let t = trimmed(p);
    let q = lowered(&t);
    match first_char(&q, '-') {
        Some(i) => {
            let a = slice(&q, 0, i);
            let b = slice(&q, i + 1, q.len());
            match (weekday_of_name(&a), weekday_of_name(&b)) {
                (Some(x), Some(y)) => {
                    if x <= y {
                        Some(range_bits(x, y))
                    } else {
                        None
                    }
                },
                _ => None,
            }
        },
        None => match weekday_of_name(&q) {
            Some(x) => {
                let bits = range_bits(x, x);
                assert(day_range(x as nat, x as nat) =~= set![x as nat]);
                Some(bits)
            },
            None => None,
        },
    }
}

impl DaySet {
    #[verifier::type_invariant]
    spec fn valid(self) -> bool {
        self.0 < 128
    }

    /// A day set holds weekdays only: indices 0 (Monday) to 6 (Sunday).
    pub proof fn lemma_in_week(&self)
        ensures
            forall|d: nat| self@.contains(d) ==> d < 7,
    {
    }

    /// Every day of the week.
    pub fn all() -> (days: Self)
        ensures
            days@ == all_days(),
    {
        proof {
            lemma_bits_all(127u8);
        }
        DaySet(127)
    }

    /// No day at all.
    pub fn none() -> (days: Self)
        ensures
            days@ == Set::<nat>::empty(),
    {
        proof {
            lemma_bits_empty(0u8);
        }
        DaySet(0)
    }

    /// The set of the given weekdays.
    pub fn from_weekdays(days: &[Weekday]) -> (set: Self)
        ensures
            set@ == weekday_indices(days@),
    {
        let mut bits: u8 = 0;
        let mut k: usize = 0;
        proof {
            lemma_bits_empty(0u8);
            assert(days@.subrange(0, 0) =~= Seq::<Weekday>::empty());
        }
        while k < days.len()
            invariant
                k <= days@.len(),
                bits < 128,
                bits_days(bits) == weekday_indices(days@.subrange(0, k as int)),
            decreases days.len() - k,
        {
            let index = days[k].num_days_from_monday();
            let one: u8 = 1u8 << (index as u8);
            proof {
                lemma_bits_single(index as u8);
                lemma_bits_union(bits, one);
                assert(days@.subrange(0, k + 1).drop_last() =~= days@.subrange(0, k as int));
                assert(bits_days(bits).union(set![index as nat]) =~= bits_days(bits).insert(index as nat));
            }
            bits = bits | one;
            k = k + 1;
        }
        assert(days@.subrange(0, days@.len() as int) =~= days@);
        DaySet(bits)
    }

    /// Whether the block repeats on this weekday.
    pub fn contains(self, day: Weekday) -> (on: bool)
        ensures
            on == self@.contains(day.index_of()),
    {
        let index: u8 = day.num_days_from_monday() as u8;
        (self.0 >> index) & 1u8 == 1u8
    }

    /// Whether the day at this index from Monday is selected.
    pub fn contains_index(self, index: usize) -> (on: bool)
        requires
            index < 7,
        ensures
            on == self@.contains(index as nat),
    {
        let i: u8 = index as u8;
        (self.0 >> i) & 1u8 == 1u8
    }

    pub fn is_empty(self) -> (empty: bool)
        ensures
            empty == (self@ == Set::<nat>::empty()),
    {
        proof {
            use_type_invariant(&self);
            lemma_bits_empty(self.0);
        }
        self.0 == 0
    }

    /// Whether every day is selected.
    pub fn is_daily(self) -> (daily: bool)
        ensures
            daily == (self@ == all_days()),
    {
        proof {
            use_type_invariant(&self);
            lemma_bits_all(self.0);
        }
        self.0 == 127
    }

    /// The selected days as their canonical names, Monday first. Feeding the
    /// names back through `parse` round-trips.
    pub fn names(self) -> (names: Vec<String>)
        ensures
            names@.len() == names_from(self@, 0).len(),
            forall|k: int| 0 <= k < names@.len() ==> #[trigger] names@[k]@ == names_from(self@, 0)[k],
    {
        let mut names: Vec<String> = Vec::new();
        let ghost mut emitted: Seq<Seq<char>> = Seq::empty();
        let mut i: usize = 0;
        while i < 7
            invariant
                i <= 7,
                names@.len() == emitted.len(),
                forall|k: int| 0 <= k < names@.len() ==> #[trigger] names@[k]@ == emitted[k],
                emitted + names_from(self@, i as nat) == names_from(self@, 0),
            decreases 7 - i,
        {
            if self.contains_index(i) {
                let name = day_name_chars(i);
                names.push(string_of(&name));
                proof {
                    assert(emitted.push(name@) + names_from(self@, (i + 1) as nat) =~= emitted + names_from(self@, i as nat));
                    emitted = emitted.push(name@);
                }
            }
            i = i + 1;
        }
        assert(emitted + names_from(self@, 7) =~= emitted);
        names
    }

    /// The canonical text: `daily`, `mon-fri`, `mon,wed,fri`, `mon-fri,sun`.
    pub fn render(self) -> (text: String)
        ensures
            text@ == days_text(self@),
    {
        string_of(&self.render_chars())
    }

    pub fn render_chars(self) -> (text: Vec<char>)
        ensures
            text@ == days_text(self@),
    {
        if self.is_daily() {
            let mut out: Vec<char> = Vec::new();
            out.push('d');
            out.push('a');
            out.push('i');
            out.push('l');
            out.push('y');
            assert(out@ =~= daily_word());
            return out;
        }
        let mut out: Vec<char> = Vec::new();
        let ghost mut emitted: Seq<Seq<char>> = Seq::empty();
        let mut first = true;
        let mut i: usize = 0;
        while i < 7
            invariant
                i <= 7,
                first == (emitted.len() == 0),
                out@ == joined(emitted, ','),
                emitted + render_parts(self@, i as nat) == render_parts(self@, 0),
            decreases 7 - i,
        {
            if !self.contains_index(i) {
                i = i + 1;
            } else {
                let mut k: usize = i;
                while k + 1 < 7 && self.contains_index(k + 1)
                    invariant
                        i <= k < 7,
                        run_end(self@, i as nat) == run_end(self@, k as nat),
                    decreases 7 - k,
                {
                    k = k + 1;
                }
                proof {
                    lemma_run_end(self@, i as nat);
                }
                let ghost here = if k - i + 1 >= 3 {
                    seq![day_name(i as nat) + seq!['-'] + day_name(k as nat)]
                } else {
                    Seq::new((k - i + 1) as nat, |t: int| day_name((i + t) as nat))
                };
                assert(render_parts(self@, i as nat) == here + render_parts(self@, (k + 1) as nat));
                if k - i + 1 >= 3 {
                    let mut part = day_name_chars(i);
                    part.push('-');
                    let last = day_name_chars(k);
                    append(&mut part, &last);
                    assert(part@ =~= day_name(i as nat) + seq!['-'] + day_name(k as nat));
                    emit(&mut out, Ghost(emitted), first, &part);
                    first = false;
                    proof {
                        emitted = emitted.push(part@);
                        assert(seq![part@] =~= here);
                    }
                } else {
                    let ghost base = emitted;
                    let mut t: usize = i;
                    while t <= k
                        invariant
                            i <= t <= k + 1,
                            k < 7,
                            out@ == joined(emitted, ','),
                            first == (emitted.len() == 0),
                            emitted == base + Seq::new((t - i) as nat, |x: int| day_name((i + x) as nat)),
                        decreases k + 1 - t,
                    {
                        let name = day_name_chars(t);
                        emit(&mut out, Ghost(emitted), first, &name);
                        first = false;
                        proof {
                            emitted = emitted.push(name@);
                            assert(emitted =~= base + Seq::new((t + 1 - i) as nat, |x: int| day_name((i + x) as nat)));
                        }
                        t = t + 1;
                    }
                    assert(emitted =~= base + here);
                }
                assert(emitted + render_parts(self@, (k + 1) as nat) =~= render_parts(self@, 0));
                i = k + 1;
            }
        }
        assert(emitted + render_parts(self@, 7) =~= emitted);
        out
    }

    /// Reads a day spec: `daily`, a day, a range like `mon-fri`, or a
    /// comma-separated mix. Case and surrounding spaces are ignored.
    pub fn parse(text: &str) -> (result: Result<Self, ParseErrorKind>)
        ensures
            match result {
                Ok(days) => days_value(text@) == Some(days@),
                Err(kind) => days_value(text@) is None && kind is InvalidWeekday
                    && kind.found_text() == text@,
            },
    {
        let chars = chars_of(text);
        match parse_days(&chars) {
            Some(bits) => Ok(DaySet(bits)),
            None => Err(ParseErrorKind::InvalidWeekday { found: text.to_owned() }),
        }
    }
}

pub proof fn lemma_run_end(days: Set<nat>, j: nat)
    requires
        j < 7,
    ensures
        j <= run_end(days, j) < 7,
        run_end(days, j) + 1 < 7 ==> !days.contains(run_end(days, j) + 1),
    decreases 7 - j,
{
    if j + 1 < 7 && days.contains(j + 1) {
        lemma_run_end(days, j + 1);
    }
}

fn emit(out: &mut Vec<char>, emitted: Ghost<Seq<Seq<char>>>, first: bool, part: &[char])
    requires
        old(out)@ == joined(emitted@, ','),
        first == (emitted@.len() == 0),
    ensures
        final(out)@ == joined(emitted@.push(part@), ','),
{
    proof {
        crate::text::lemma_joined_push(emitted@, part@, ',');
    }
    if first {
        assert(old(out)@.len() == 0);
        append(out, part);
        assert(out@ =~= part@);
    } else {
        out.push(',');
        append(out, part);
    }
}

fn is_daily_word(s: &[char]) -> (daily: bool)
    ensures
        daily == (s@ == daily_word()),
{
    let word: [char; 5] = ['d', 'a', 'i', 'l', 'y'];
    assert(word@ =~= daily_word());
    same(s, &word)
}

fn parse_days(text: &[char]) -> (bits: Option<u8>)
    ensures
        match bits {
            Some(b) => days_value(text@) == Some(bits_days(b)) && b < 128,
            None => days_value(text@) is None,
        },
{
    let t = trimmed(text);
    let lower = lowered(&t);
    if is_daily_word(&lower) {
        proof {
            lemma_bits_all(127u8);
        }
        return Some(127);
    }
    let mut bits: u8 = 0;
    let mut part: Vec<char> = Vec::new();
    let mut i: usize = 0;
    proof {
        lemma_bits_empty(0u8);
        assert(t@.subrange(0, 0) =~= Seq::<char>::empty());
    }
    while i < t.len()
        invariant
            t@ == trim(text@),
            lower_all(t@) != daily_word(),
            i <= t@.len(),
            bits < 128,
            split_on(t@.subrange(0, i as int), ',').len() > 0,
            split_on(t@.subrange(0, i as int), ',').last() == part@,
            parts_days(split_on(t@.subrange(0, i as int), ',').drop_last()) == Some(bits_days(bits)),
        decreases t.len() - i,
    {
        let c = t[i];
        proof {
            assert(t@.subrange(0, i + 1).drop_last() =~= t@.subrange(0, i as int));
        }
        if c == ',' {
            match part_bits(&part) {
                Some(b) => {
                    proof {
                        lemma_bits_union(bits, b);
                        let before = split_on(t@.subrange(0, i as int), ',');
                        assert(before.push(Seq::<char>::empty()).drop_last() =~= before);
                        assert(before =~= before.drop_last().push(before.last()));
                    }
                    bits = bits | b;
                    part = Vec::new();
                },
                None => {
                    proof {
                        let before = split_on(t@.subrange(0, i as int), ',');
                        assert(before =~= before.drop_last().push(before.last()));
                        lemma_parts_prefix_dead(before, split_on(t@, ','), t@, i as int);
                    }
                    return None;
                },
            }
        } else {
            proof {
                let before = split_on(t@.subrange(0, i as int), ',');
                let after = before.update(before.len() - 1, before.last().push(c));
                assert(after.drop_last() =~= before.drop_last());
            }
            part.push(c);
        }
        i = i + 1;
    }
    assert(t@.subrange(0, t@.len() as int) =~= t@);
    match part_bits(&part) {
        Some(b) => {
            proof {
                lemma_bits_union(bits, b);
                let all = split_on(t@, ',');
                assert(all =~= all.drop_last().push(all.last()));
                lemma_bits_empty(b);
                if bits_days(bits | b) == Set::<nat>::empty() {
                    assert(bits_days(b) =~= Set::<nat>::empty());
                }
            }
            Some(bits | b)
        },
        None => {
            proof {
                let all = split_on(t@, ',');
                assert(all =~= all.drop_last().push(all.last()));
            }
            None
        },
    }
}

/// A part that names nothing sinks the whole spec.
proof fn lemma_parts_prefix_dead(before: Seq<Seq<char>>, all: Seq<Seq<char>>, t: Seq<char>, i: int)
    requires
        0 <= i < t.len(),
        t[i] == ',',
        before == split_on(t.subrange(0, i), ','),
        all == split_on(t, ','),
        before.len() > 0,
        part_days(before.last()) is None,
    ensures
        parts_days(all) is None,
{
    lemma_split_prefix(t, i);
    let n = before.len();
    assert(all.subrange(0, n as int) == before);
    lemma_parts_days_prefix(all, n as int);
    assert(before.drop_last().push(before.last()) =~= before);
}

/// Cutting a longer text keeps the cut pieces of a prefix that ends at a
/// separator.
proof fn lemma_split_prefix(t: Seq<char>, i: int)
    requires
        0 <= i < t.len(),
        t[i] == ',',
    ensures
        split_on(t, ',').len() > split_on(t.subrange(0, i), ',').len(),
        split_on(t, ',').subrange(0, split_on(t.subrange(0, i), ',').len() as int) == split_on(
            t.subrange(0, i),
            ',',
        ),
    decreases t.len(),
{
    let pre = split_on(t.subrange(0, i), ',');
    if i == t.len() - 1 {
        assert(t.drop_last() =~= t.subrange(0, i));
        assert(split_on(t, ',') == pre.push(Seq::empty()));
        assert(split_on(t, ',').subrange(0, pre.len() as int) =~= pre);
    } else {
        let u = t.drop_last();
        assert(u.subrange(0, i) =~= t.subrange(0, i));
        lemma_split_prefix(u, i);
        let mid = split_on(u, ',');
        let all = split_on(t, ',');
        if t.last() == ',' {
            assert(all.subrange(0, pre.len() as int) =~= mid.subrange(0, pre.len() as int));
        } else {
            assert(all.subrange(0, pre.len() as int) =~= mid.subrange(0, pre.len() as int));
        }
    }
}

/// If a prefix of the parts fails, all of them do.
proof fn lemma_parts_days_prefix(parts: Seq<Seq<char>>, n: int)
    requires
        0 < n <= parts.len(),
        part_days(parts[n - 1]) is None,
    ensures
        parts_days(parts) is None,
    decreases parts.len(),
{
    if parts.len() > n {
        lemma_parts_days_prefix(parts.drop_last(), n);
    } else {
        assert(parts.last() == parts[n - 1]);
    }
}

} // verus!
