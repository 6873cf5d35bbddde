//! Minute-resolution durations.
//!
//! Everything in the files is whole minutes: pomodoro lengths, reminder lead
//! times, session totals. The canonical text form is `1h30m`, `2h`, `25m`,
//! `0m`; reads also take any run of `<digits><h|m>` groups.

use vstd::prelude::*;

use crate::error::ParseErrorKind;
use crate::text::{chars_of, is_ws, lemma_trim_fixed, string_of, trim, trimmed};

verus! {

pub const MINUTES_PER_HOUR: u32 = 60;

#[derive(Debug, Clone, Copy, PartialEq, Eq, PartialOrd, Ord, Hash, Default, Structural)]
pub struct Minutes(pub u32);

pub open spec fn is_digit(c: char) -> bool {
    '0' <= c <= '9'
}

pub open spec fn is_unit(c: char) -> bool {
    c == 'h' || c == 'm'
}

pub open spec fn digit_value(c: char) -> nat {
    (c as u32 - '0' as u32) as nat
}

pub open spec fn digit_char(d: nat) -> char {
    ('0' as u32 + d) as char
}

/// The number a run of decimal digits spells.
pub open spec fn digits_value(d: Seq<char>) -> nat
    decreases d.len(),
{
    if d.len() == 0 {
        0
    } else {
        digits_value(d.drop_last()) * 10 + digit_value(d.last())
    }
}

pub open spec fn all_digits(d: Seq<char>) -> bool {
    forall|i: int| 0 <= i < d.len() ==> is_digit(#[trigger] d[i])
}

/// How many digits `s` ends with.
pub open spec fn digit_suffix_len(s: Seq<char>) -> nat
    decreases s.len(),
{
    if s.len() > 0 && is_digit(s.last()) {
        digit_suffix_len(s.drop_last()) + 1
    } else {
        0
    }
}

pub open spec fn unit_scale(c: char) -> nat {
    if c == 'h' {
        60
    } else {
        1
    }
}

/// The total of a run of `<digits><unit>` groups, or `None` when `s` is not
/// such a run. The empty run totals zero.
pub open spec fn groups_value(s: Seq<char>) -> Option<nat>
    decreases s.len(),
{
    if s.len() == 0 {
        Some(0)
    } else if is_unit(s.last()) {
        let body = s.drop_last();
        let k = digit_suffix_len(body);
        if k == 0 || k > body.len() {
            None
        } else {
            match groups_value(body.subrange(0, body.len() - k)) {
                Some(v) => Some(
                    v + digits_value(body.subrange(body.len() - k, body.len() as int)) * unit_scale(
                        s.last(),
                    ),
                ),
                None => None,
            }
        }
    } else {
        None
    }
}

/// What a duration text means: the trimmed text must be a non-empty run of
/// groups.
pub open spec fn duration_value(text: Seq<char>) -> Option<nat> {
    let t = trim(text);
    if t.len() > 0 {
        groups_value(t)
    } else {
        None
    }
}

/// `text` reads as exactly `n` minutes.
pub open spec fn reads_as(text: Seq<char>, n: nat) -> bool {
    duration_value(text) == Some(n) && n <= u32::MAX
}

/// The decimal spelling of `n`, no leading zeros.
pub open spec fn decimal(n: nat) -> Seq<char>
    decreases n,
{
    if n < 10 {
        seq![digit_char(n)]
    } else {
        decimal(n / 10).push(digit_char(n % 10))
    }
}

/// The canonical text of `n` minutes.
pub open spec fn canonical(n: nat) -> Seq<char> {
    let hours = n / 60;
    let minutes = n % 60;
    if hours == 0 {
        decimal(minutes).push('m')
    } else if minutes == 0 {
        decimal(hours).push('h')
    } else {
        decimal(hours).push('h') + decimal(minutes).push('m')
    }
}

impl Minutes {
    pub open spec fn value(self) -> nat {
        self.0 as nat
    }

    pub fn new(total: u32) -> (m: Self)
        ensures
            m.0 == total,
    {
        Minutes(total)
    }

    pub fn get(self) -> (total: u32)
        ensures
            total == self.0,
    {
        self.0
    }

    pub fn is_zero(self) -> (zero: bool)
        ensures
            zero == (self.0 == 0),
    {
        self.0 == 0
    }

    /// Whole hours and the remaining minutes, for display.
    pub fn split(self) -> (parts: (u32, u32))
        ensures
            parts.0 == self.0 / 60,
            parts.1 == self.0 % 60,
            parts.0 * 60 + parts.1 == self.0,
            parts.1 < 60,
    {
        (self.0 / MINUTES_PER_HOUR, self.0 % MINUTES_PER_HOUR)
    }

    /// The sum, saturating at the largest representable length.
    pub fn plus(self, other: Self) -> (sum: Self)
        ensures
            sum.0 == if self.0 + other.0 <= u32::MAX {
                (self.0 + other.0) as u32
            } else {
                u32::MAX
            },
    {
        Minutes(self.0.saturating_add(other.0))
    }

    /// Reads a duration such as `25m`, `1h`, `1h30m` or `90m`.
    ///
    /// An unlabelled number is refused, as is anything that overflows.
    pub fn parse(text: &str) -> (result: Result<Self, ParseErrorKind>)
        ensures
            match result {
                Ok(m) => reads_as(text@, m.0 as nat),
                Err(kind) => (forall|n: nat| !reads_as(text@, n)) && kind is InvalidDuration
                    && kind.found_text() == text@,
            },
    {
        let chars = chars_of(text);
        match parse_chars(&chars) {
            Some(total) => Ok(Minutes(total)),
            None => Err(ParseErrorKind::InvalidDuration { found: text.to_owned() }),
        }
    }

    /// The canonical text: `1h30m`, `2h`, `25m`, `0m`.
    pub fn render(self) -> (text: String)
        ensures
            text@ == canonical(self.0 as nat),
    {
        string_of(&self.render_chars())
    }

    pub fn render_chars(self) -> (text: Vec<char>)
        ensures
            text@ == canonical(self.0 as nat),
    {
        let (hours, minutes) = self.split();
        let mut out: Vec<char> = Vec::new();
        if hours == 0 {
            push_decimal(&mut out, minutes as u64);
            out.push('m');
        } else if minutes == 0 {
            push_decimal(&mut out, hours as u64);
            out.push('h');
        } else {
            push_decimal(&mut out, hours as u64);
            out.push('h');
            let ghost first = out@;
            push_decimal(&mut out, minutes as u64);
            out.push('m');
            assert(out@ =~= first + decimal(minutes as nat).push('m'));
        }
        out
    }

    /// The saturating total of a list of lengths.
    pub fn sum(items: &[Minutes]) -> (total: Self)
        ensures
            total.0 == if total_of(items@) <= u32::MAX {
                total_of(items@)
            } else {
                u32::MAX as nat
            },
    {
        let mut total = Minutes(0);
        let mut i: usize = 0;
        while i < items.len()
            invariant
                i <= items@.len(),
                total.0 == if total_of(items@.subrange(0, i as int)) <= u32::MAX {
                    total_of(items@.subrange(0, i as int))
                } else {
                    u32::MAX as nat
                },
            decreases items.len() - i,
        {
            proof {
                assert(items@.subrange(0, i + 1).drop_last() =~= items@.subrange(0, i as int));
            }
            total = total.plus(items[i]);
            i = i + 1;
        }
        assert(items@.subrange(0, items@.len() as int) =~= items@);
        total
    }
}

/// The mathematical sum of a list of lengths.
pub open spec fn total_of(items: Seq<Minutes>) -> nat
    decreases items.len(),
{
    if items.len() == 0 {
        0
    } else {
        total_of(items.drop_last()) + items.last().0 as nat
    }
}

/// The character for a digit below ten.
pub fn digit_to_char(d: u32) -> (c: char)
    requires
        d < 10,
    ensures
        c == digit_char(d as nat),
        is_digit(c),
        digit_value(c) == d,
{
    crate::text::char_of_ascii(48 + d)
}

/// Appends the decimal spelling of `n`.
pub fn push_decimal(out: &mut Vec<char>, n: u64)
    ensures
        final(out)@ == old(out)@ + decimal(n as nat),
    decreases n,
{
    if n >= 10 {
        push_decimal(out, n / 10);
    }
    let c = digit_to_char((n % 10) as u32);
    out.push(c);
    assert(decimal(n as nat) =~= if n < 10 {
        seq![c]
    } else {
        decimal((n / 10) as nat).push(c)
    });
}

/// The decimal spelling of `n`.
pub fn decimal_of(n: u64) -> (text: Vec<char>)
    ensures
        text@ == decimal(n as nat),
{
    let mut out: Vec<char> = Vec::new();
    push_decimal(&mut out, n);
    assert(out@ =~= decimal(n as nat));
    out
}

// ---- proofs ---------------------------------------------------------------

proof fn lemma_digit_suffix_of_digits(p: Seq<char>, d: Seq<char>)
    requires
        all_digits(d),
        p.len() == 0 || !is_digit(p.last()),
    ensures
        digit_suffix_len(p + d) == d.len(),
    decreases d.len(),
{
    if d.len() == 0 {
        assert(p + d =~= p);
    } else {
        assert((p + d).drop_last() =~= p + d.drop_last());
        lemma_digit_suffix_of_digits(p, d.drop_last());
    }
}

/// Appending one `<digits><unit>` group adds its value.
pub proof fn lemma_groups_step(p: Seq<char>, d: Seq<char>, u: char)
    requires
        all_digits(d),
        d.len() > 0,
        is_unit(u),
        p.len() == 0 || !is_digit(p.last()),
    ensures
        groups_value(p + d.push(u)) == match groups_value(p) {
            Some(v) => Some(v + digits_value(d) * unit_scale(u)),
            None => None::<nat>,
        },
{
    let s = p + d.push(u);
    let body = s.drop_last();
    assert(body =~= p + d);
    lemma_digit_suffix_of_digits(p, d);
    assert(body.subrange(0, body.len() - d.len()) =~= p);
    assert(body.subrange(body.len() - d.len(), body.len() as int) =~= d);
}

/// Every character of a run of groups is a digit or a unit.
pub proof fn lemma_groups_chars(s: Seq<char>)
    requires
        groups_value(s) is Some,
    ensures
        forall|i: int| 0 <= i < s.len() ==> is_digit(#[trigger] s[i]) || is_unit(s[i]),
        forall|i: int| 0 <= i < s.len() && is_unit(#[trigger] s[i]) ==> i > 0 && is_digit(s[i - 1]),
    decreases s.len(),
{
    if s.len() > 0 {
        let body = s.drop_last();
        let k = digit_suffix_len(body);
        let p = body.subrange(0, body.len() - k);
        lemma_digit_suffix_shape(body);
        lemma_groups_chars(p);
        assert forall|i: int| 0 <= i < s.len() implies is_digit(#[trigger] s[i]) || is_unit(s[i]) by {
            if i < p.len() {
                assert(s[i] == p[i]);
            } else if i < body.len() {
                assert(s[i] == body[i]);
            }
        }
        assert forall|i: int| 0 <= i < s.len() && is_unit(#[trigger] s[i]) implies i > 0 && is_digit(
            s[i - 1],
        ) by {
            if i < p.len() {
                assert(s[i] == p[i]);
                assert(s[i - 1] == p[i - 1]);
            } else if i < body.len() {
                assert(s[i] == body[i]);
            } else {
                assert(s[i - 1] == body[body.len() - 1]);
            }
        }
    }
}

proof fn lemma_digit_suffix_shape(s: Seq<char>)
    ensures
        digit_suffix_len(s) <= s.len(),
        forall|i: int| s.len() - digit_suffix_len(s) <= i < s.len() ==> is_digit(#[trigger] s[i]),
    decreases s.len(),
{
    if s.len() > 0 && is_digit(s.last()) {
        lemma_digit_suffix_shape(s.drop_last());
        assert forall|i: int| s.len() - digit_suffix_len(s) <= i < s.len() implies is_digit(
            #[trigger] s[i],
        ) by {
            if i < s.len() - 1 {
                assert(s[i] == s.drop_last()[i]);
            }
        }
    }
}

pub proof fn lemma_digit_char(d: nat)
    requires
        d < 10,
    ensures
        is_digit(digit_char(d)),
        digit_value(digit_char(d)) == d,
{
    assert(('0' as u32 + d) as char as u32 == '0' as u32 + d);
}

pub proof fn lemma_decimal_digits(n: nat)
    ensures
        all_digits(decimal(n)),
        decimal(n).len() > 0,
        digits_value(decimal(n)) == n,
    decreases n,
{
    lemma_digit_char(n % 10);
    let s = decimal(n);
    if n < 10 {
        assert(s.drop_last() =~= Seq::<char>::empty());
        assert(s.last() == digit_char(n));
        assert(digits_value(s) == digits_value(s.drop_last()) * 10 + digit_value(s.last()));
    } else {
        lemma_decimal_digits(n / 10);
        assert(s.drop_last() =~= decimal(n / 10));
        assert(s.last() == digit_char(n % 10));
        assert(digits_value(s) == digits_value(s.drop_last()) * 10 + digit_value(s.last()));
        assert(digits_value(s) == (n / 10) * 10 + n % 10);
        assert forall|i: int| 0 <= i < s.len() implies is_digit(#[trigger] s[i]) by {
            if i < s.len() - 1 {
                assert(s[i] == decimal(n / 10)[i]);
            }
        }
    }
}

/// Rendering then reading a length gives the same length back: the canonical
/// text reads as exactly the number of minutes it was written from, and as no
/// other.
pub proof fn law_render_then_parse(m: Minutes)
    ensures
        reads_as(canonical(m.0 as nat), m.0 as nat),
        forall|n: nat| reads_as(canonical(m.0 as nat), n) ==> n == m.0,
{
    lemma_canonical_reads_back(m.0 as nat);
}

/// The canonical text reads back as the length it was written from.
proof fn lemma_canonical_reads_back(n: nat)
    requires
        n <= u32::MAX,
    ensures
        reads_as(canonical(n), n),
{
    let hours = n / 60;
    let minutes = n % 60;
    lemma_decimal_digits(hours);
    lemma_decimal_digits(minutes);
    let empty = Seq::<char>::empty();
    let s = canonical(n);
    assert(groups_value(empty) == Some(0nat));
    if hours == 0 {
        lemma_groups_step(empty, decimal(minutes), 'm');
        assert(empty + decimal(minutes).push('m') =~= s);
        assert(groups_value(s) == Some(minutes));
    } else if minutes == 0 {
        lemma_groups_step(empty, decimal(hours), 'h');
        assert(empty + decimal(hours).push('h') =~= s);
        assert(groups_value(s) == Some(hours * 60));
    } else {
        let first = decimal(hours).push('h');
        lemma_groups_step(empty, decimal(hours), 'h');
        assert(empty + first =~= first);
        assert(groups_value(first) == Some(hours * 60));
        lemma_groups_step(first, decimal(minutes), 'm');
        assert(groups_value(s) == Some(hours * 60 + minutes));
    }
    assert(hours * 60 + minutes == n);
    assert(s.len() > 0);
    assert(is_digit(s[0])) by {
        if hours == 0 {
            assert(s[0] == decimal(minutes)[0]);
        } else {
            assert(s[0] == decimal(hours)[0]);
        }
    }
    assert(is_unit(s.last()));
    assert(!is_ws(s[0]));
    assert(!is_ws(s.last()));
    lemma_trim_fixed(s);
}

/// Scans a duration text.
fn parse_chars(text: &[char]) -> (total: Option<u32>)
    ensures
        match total {
            Some(n) => reads_as(text@, n as nat),
            None => forall|n: nat| !reads_as(text@, n),
        },
{
    let t = trimmed(text);
    if t.len() == 0 {
        return None;
    }
    let cap: u64 = 0x1_0000_0000;
    let mut total: u64 = 0;
    let mut digits: u64 = 0;
    let mut group_start: usize = 0;
    let mut i: usize = 0;
    assert(t@.subrange(0, 0) =~= Seq::<char>::empty());
    while i < t.len()
        invariant
            t@ == trim(text@),
            t@.len() > 0,
            cap == 0x1_0000_0000u64,
            group_start <= i <= t@.len(),
            group_start == 0 || is_unit(t@[group_start - 1]),
            groups_value(t@.subrange(0, group_start as int)) is Some,
            total as nat == min_nat(groups_value(t@.subrange(0, group_start as int))->0, cap as nat),
            all_digits(t@.subrange(group_start as int, i as int)),
            digits as nat == min_nat(digits_value(t@.subrange(group_start as int, i as int)), cap as nat),
        decreases t.len() - i,
    {
        let c = t[i];
        if '0' <= c && c <= '9' {
            let d: u64 = (c as u32 - 48) as u64;
            proof {
                let run = t@.subrange(group_start as int, i + 1);
                assert(run.drop_last() =~= t@.subrange(group_start as int, i as int));
                assert(all_digits(run)) by {
                    assert forall|k: int| 0 <= k < run.len() implies is_digit(#[trigger] run[k]) by {
                        if k < run.len() - 1 {
                            assert(run[k] == t@.subrange(group_start as int, i as int)[k]);
                        }
                    }
                }
            }
            proof {
                let x = digits_value(t@.subrange(group_start as int, i as int));
                let dd: nat = d as nat;
                assert(min_nat(min_nat(x, cap as nat) * 10 + dd, cap as nat) == min_nat(x * 10 + dd, cap as nat)) by (nonlinear_arith)
                    requires cap > 0;
            }
            let next: u64 = digits * 10 + d;
            digits = if next > cap { cap } else { next };
            i = i + 1;
        } else if c == 'h' || c == 'm' {
            if group_start == i {
                proof {
                    lemma_prefix_dead_end(t@, i as int);
                }
                return None;
            }
            let scale: u64 = if c == 'h' { 60 } else { 1 };
            let next: u64 = total + digits * scale;
            proof {
                let p = t@.subrange(0, group_start as int);
                let d = t@.subrange(group_start as int, i as int);
                lemma_groups_step(p, d, c);
                assert(p + d.push(c) =~= t@.subrange(0, i + 1));
            }
            proof {
                let a = groups_value(t@.subrange(0, group_start as int))->0;
                let b = digits_value(t@.subrange(group_start as int, i as int));
                let sc: nat = scale as nat;
                assert(min_nat(min_nat(a, cap as nat) + min_nat(b, cap as nat) * sc, cap as nat)
                    == min_nat(a + b * sc, cap as nat)) by (nonlinear_arith)
                    requires
                        sc >= 1,
                        cap > 0,
                ;
            }
            total = if next > cap { cap } else { next };
            digits = 0;
            i = i + 1;
            group_start = i;
            assert(t@.subrange(group_start as int, i as int) =~= Seq::<char>::empty());
        } else {
            proof {
                if groups_value(t@) is Some {
                    lemma_groups_chars(t@);
                    assert(is_digit(t@[i as int]) || is_unit(t@[i as int]));
                }
            }
            return None;
        }
    }
    assert(t@.subrange(0, t@.len() as int) =~= t@);
    if group_start != i {
        proof {
            assert(t@.last() == t@.subrange(group_start as int, i as int).last());
            assert(is_digit(t@.last()));
        }
        return None;
    }
    if total > 0xFFFF_FFFF {
        return None;
    }
    Some(total as u32)
}

pub open spec fn min_nat(a: nat, b: nat) -> nat {
    if a <= b {
        a
    } else {
        b
    }
}

/// A unit with no digits before it ends any hope of a run of groups.
proof fn lemma_prefix_dead_end(t: Seq<char>, i: int)
    requires
        0 <= i < t.len(),
        is_unit(t[i]),
        i == 0 || is_unit(t[i - 1]),
    ensures
        groups_value(t) is None,
{
    if groups_value(t) is Some {
        lemma_groups_chars(t);
        assert(is_unit(t[i]));
    }
}

} // verus!

verus! {

pub open spec fn pow10(n: nat) -> nat
    decreases n,
{
    if n == 0 {
        1
    } else {
        10 * pow10((n - 1) as nat)
    }
}

/// A number below `10^m` is spelled in at most `m` digits.
pub proof fn lemma_decimal_len(n: nat, m: nat)
    requires
        m >= 1,
        n < pow10(m),
    ensures
        decimal(n).len() <= m,
    decreases n,
{
    if n >= 10 {
        let p = pow10((m - 1) as nat);
        assert(m >= 2) by {
            if m == 1 {
                reveal_with_fuel(pow10, 2);
            }
        }
        assert(n / 10 < p) by (nonlinear_arith)
            requires
                n < 10 * p,
        ;
        lemma_decimal_len(n / 10, (m - 1) as nat);
    }
}

/// Every `u64` is spelled in at most twenty digits.
pub proof fn lemma_decimal_len_u64(n: u64)
    ensures
        decimal(n as nat).len() <= 20,
{
    assert(pow10(20) == 100000000000000000000nat) by {
        reveal_with_fuel(pow10, 21);
    }
    lemma_decimal_len(n as nat, 20);
}

pub proof fn lemma_pow10_bound(n: nat)
    ensures
        n <= 4 ==> pow10(n) <= 10000,
        pow10(n) >= 1,
    decreases n,
{
    reveal_with_fuel(pow10, 5);
    if n > 0 {
        lemma_pow10_bound((n - 1) as nat);
    }
}

} // verus!
