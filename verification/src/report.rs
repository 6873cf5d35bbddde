//! Totals over a date range, computed from the day files.
//!
//! Each day is counted twice: its sessions are what happened, and what its
//! schedule planned is what was meant to.

use vstd::prelude::*;

use crate::blocks::{one_offs_on, planned, repeats_on, Occurrence, OccurrenceView, Recurring, RecurringView};
use crate::clock::{date_before, next_day, weekday_index, CalendarDate};
use crate::day::{Day, DayView, SessionView};
use crate::error::Error;
use crate::grammar::{date_text, format_date, span_minutes};
use crate::minutes::Minutes;
use crate::order::sorted_by_key;
use crate::text::{chars_of, less, same, string_of, text_less};

verus! {

/// The longest span a range may cover, in days past its first.
pub const MAX_RANGE_DAYS: u32 = 366;

/// `to` is reached from `from` in at most `steps` days.
pub open spec fn within_days(from: (int, int, int), to: (int, int, int), steps: nat) -> bool
    decreases steps,
{
    from == to || (steps > 0 && match next_day(from) {
        Some(next) => within_days(next, to, (steps - 1) as nat),
        None => false,
    })
}

/// The `count` consecutive days from `from` on, stopping early past the last
/// representable day.
pub open spec fn days_span(from: (int, int, int), count: nat) -> Seq<(int, int, int)>
    decreases count,
{
    if count == 0 {
        Seq::empty()
    } else if count == 1 {
        seq![from]
    } else {
        let before = days_span(from, (count - 1) as nat);
        match next_day(before.last()) {
            Some(next) => before.push(next),
            None => before,
        }
    }
}

/// How many days past `from` the date `to` lies, if it is within `steps`.
pub open spec fn distance(from: (int, int, int), to: (int, int, int), steps: nat) -> nat
    decreases steps,
{
    if from == to || steps == 0 {
        0
    } else {
        match next_day(from) {
            Some(next) => 1 + distance(next, to, (steps - 1) as nat),
            None => 0,
        }
    }
}

/// A validated, inclusive span of dates: `to` is not before `from`, and at
/// most 366 days past it.
#[derive(Debug, Clone, Copy, PartialEq, Eq)]
pub struct DateRange {
    from: CalendarDate,
    to: CalendarDate,
}

impl View for DateRange {
    type V = ((int, int, int), (int, int, int));

    closed spec fn view(&self) -> ((int, int, int), (int, int, int)) {
        (self.from@, self.to@)
    }
}

/// Where a report that gives only its last day starts: six days before it,
/// so that it covers the seven days ending on `to`; nothing where that runs
/// past the first day the library holds.
pub fn week_ending(to: CalendarDate) -> (from: Option<CalendarDate>)
    ensures
        match from {
            Some(f) => crate::reminders::days_back(to@, 6) == Some(f@),
            None => crate::reminders::days_back(to@, 6) is None,
        },
{
    let mut day = to;
    let mut k: u32 = 0;
    while k < 6
        invariant
            k <= 6,
            crate::reminders::days_back(to@, 6) == crate::reminders::days_back(day@, (6 - k) as nat),
        decreases 6 - k,
    {
        match day.pred() {
            Some(p) => {
                day = p;
            },
            None => {
                return None;
            },
        }
        k = k + 1;
    }
    Some(day)
}

impl DateRange {
    #[verifier::type_invariant]
    spec fn valid(self) -> bool {
        !date_before(self.to@, self.from@) && within_days(self.from@, self.to@, MAX_RANGE_DAYS as nat)
    }

    /// Refuses a range that runs backwards or covers more than 366 days past
    /// its first.
    pub fn new(from: CalendarDate, to: CalendarDate) -> (result: Result<Self, Error>)
        ensures
            match result {
                Ok(range) => range@ == (from@, to@) && !date_before(to@, from@) && within_days(
                    from@,
                    to@,
                    MAX_RANGE_DAYS as nat,
                ),
                Err(e) => e is InvalidRange && (date_before(to@, from@) || !within_days(
                    from@,
                    to@,
                    MAX_RANGE_DAYS as nat,
                )),
            },
    {
        if to.is_before(from) {
            return Err(Error::InvalidRange { from: format_date(from), to: format_date(to) });
        }
        let mut day = from;
        let mut k: u32 = 0;
        while k < MAX_RANGE_DAYS
            invariant
                k <= MAX_RANGE_DAYS,
                !date_before(to@, from@),
                within_days(from@, to@, MAX_RANGE_DAYS as nat) == within_days(day@, to@, (MAX_RANGE_DAYS - k) as nat),
            decreases MAX_RANGE_DAYS - k,
        {
            if day.same(to) {
                return Ok(DateRange { from, to });
            }
            match day.succ() {
                Some(next) => {
                    day = next;
                },
                None => {
                    return Err(Error::InvalidRange { from: format_date(from), to: format_date(to) });
                },
            }
            k = k + 1;
        }
        if day.same(to) {
            Ok(DateRange { from, to })
        } else {
            Err(Error::InvalidRange { from: format_date(from), to: format_date(to) })
        }
    }

    pub fn from(self) -> (date: CalendarDate)
        ensures
            date@ == self@.0,
    {
        self.from
    }

    pub fn to(self) -> (date: CalendarDate)
        ensures
            date@ == self@.1,
    {
        self.to
    }

    /// Every date in the span, oldest first.
    pub fn dates(self) -> (dates: Vec<CalendarDate>)
        ensures
            dates@.map_values(|d: CalendarDate| d@) == days_span(
                self@.0,
                distance(self@.0, self@.1, MAX_RANGE_DAYS as nat) + 1,
            ),
    {
        proof {
            use_type_invariant(&self);
        }
        let mut out: Vec<CalendarDate> = Vec::new();
        let mut day = self.from;
        out.push(day);
        assert(out@.map_values(|d: CalendarDate| d@) =~= days_span(self@.0, 1));
        let mut k: u32 = 0;
        while k < MAX_RANGE_DAYS
            invariant_except_break
                k <= MAX_RANGE_DAYS,
                out@.map_values(|d: CalendarDate| d@) == days_span(self@.0, (k + 1) as nat),
                days_span(self@.0, (k + 1) as nat).last() == day@,
                days_span(self@.0, (k + 1) as nat).len() == k + 1,
                distance(self@.0, self@.1, MAX_RANGE_DAYS as nat) == k + distance(day@, self@.1, (MAX_RANGE_DAYS - k) as nat),
                within_days(day@, self@.1, (MAX_RANGE_DAYS - k) as nat),
            ensures
                out@.map_values(|d: CalendarDate| d@) == days_span(
                    self@.0,
                    distance(self@.0, self@.1, MAX_RANGE_DAYS as nat) + 1,
                ),
            decreases MAX_RANGE_DAYS - k,
        {
            if day.same(self.to) {
                break;
            }
            match day.succ() {
                Some(next) => {
                    let ghost before = out@;
                    day = next;
                    out.push(day);
                    assert(out@.map_values(|d: CalendarDate| d@) =~= before.map_values(|d: CalendarDate| d@).push(day@));
                },
                None => {
                    break;
                },
            }
            k = k + 1;
        }
        out
    }
}

/// How to bucket the sessions in a range.
#[derive(Debug, Clone, Copy, PartialEq, Eq, Structural)]
pub enum GroupBy {
    Project,
    Day,
}

pub open spec fn grouping_word(g: GroupBy) -> Seq<char> {
    match g {
        GroupBy::Project => seq!['p', 'r', 'o', 'j', 'e', 'c', 't'],
        GroupBy::Day => seq!['d', 'a', 'y'],
    }
}

/// Each grouping has its own word, so a written grouping reads back as
/// itself.
pub proof fn law_grouping_words_distinct(a: GroupBy, b: GroupBy)
    ensures
        grouping_word(a) == grouping_word(b) ==> a == b,
{
    if grouping_word(a) == grouping_word(b) && a != b {
        assert(grouping_word(a).len() != grouping_word(b).len());
    }
}

fn grouping_chars(g: GroupBy) -> (word: Vec<char>)
    ensures
        word@ == grouping_word(g),
{
    let w: Vec<char> = match g {
        GroupBy::Project => vec!['p', 'r', 'o', 'j', 'e', 'c', 't'],
        GroupBy::Day => vec!['d', 'a', 'y'],
    };
    assert(w@ =~= grouping_word(g));
    w
}

impl GroupBy {
    pub fn render(self) -> (text: String)
        ensures
            text@ == grouping_word(self),
    {
        string_of(&grouping_chars(self))
    }

    /// Reads `project` or `day`, exactly.
    pub fn parse(raw: &str) -> (result: Result<Self, Error>)
        ensures
            match result {
                Ok(g) => grouping_word(g) == raw@,
                Err(e) => (forall|g: GroupBy| grouping_word(g) != raw@) && e is UnknownWord && e->found@
                    == raw@,
            },
    {
        let chars = chars_of(raw);
        if same(&chars, &grouping_chars(GroupBy::Project)) {
            Ok(GroupBy::Project)
        } else if same(&chars, &grouping_chars(GroupBy::Day)) {
            Ok(GroupBy::Day)
        } else {
            proof {
                assert forall|g: GroupBy| grouping_word(g) != raw@ by {
                    match g {
                        GroupBy::Project => {},
                        GroupBy::Day => {},
                    }
                }
            }
            let field: [char; 8] = ['g', 'r', 'o', 'u', 'p', '_', 'b', 'y'];
            Err(Error::UnknownWord { field: string_of(&field), found: raw.to_owned() })
        }
    }
}

/// One bucket's totals.
#[derive(Debug, PartialEq, Eq)]
pub struct Bucket {
    /// The project slug or the date, depending on the grouping; `None` is
    /// time against no project.
    pub key: Option<String>,
    pub logged: Minutes,
    /// What the schedule set aside for this key over the same range.
    pub planned: Minutes,
    pub sessions: u32,
}


impl View for Bucket {
    type V = Share;

    open spec fn view(&self) -> Share {
        (key_view(self.key), self.logged.0 as nat, self.planned.0 as nat, self.sessions as nat)
    }
}

pub open spec fn key_view(key: Option<String>) -> Option<Seq<char>> {
    match key {
        Some(k) => Some(k@),
        None => None,
    }
}

/// A bucket's key, minutes logged, minutes planned and sessions.
pub type Share = (Option<Seq<char>>, nat, nat, nat);

pub open spec fn bucket_views(v: Seq<Bucket>) -> Seq<Share> {
    v.map_values(|b: Bucket| b@)
}

/// Sessions and blocks name their project the same way, so they share one
/// key space, `None` included.
pub open spec fn bucket_key(g: GroupBy, date: (int, int, int), project: Option<Seq<char>>) -> Option<Seq<char>> {
    match g {
        GroupBy::Project => project,
        GroupBy::Day => Some(date_text(date)),
    }
}

pub open spec fn session_shares(g: GroupBy, date: (int, int, int), ss: Seq<SessionView>) -> Seq<Share> {
    ss.map_values(|x: SessionView| (bucket_key(g, date, x.2), span_minutes(x.0, x.1), 0nat, 1nat))
}

pub open spec fn plan_shares(g: GroupBy, date: (int, int, int), os: Seq<OccurrenceView>) -> Seq<Share> {
    os.map_values(|o: OccurrenceView| (bucket_key(g, date, o.3), 0nat, span_minutes(o.1, o.2), 0nat))
}

/// What a day's schedule planned: its repeats and its one-offs, by start.
pub open spec fn day_plan(d: DayView, blocks: Seq<RecurringView>) -> Seq<OccurrenceView> {
    sorted_by_key::<Occurrence>(
        repeats_on(blocks, d.date, weekday_index(d.date.0, d.date.1, d.date.2), d.skipped) + one_offs_on(
            d.date,
            d.schedule,
        ),
    )
}

/// A day counted twice: its sessions, then its plan.
pub open spec fn day_shares(g: GroupBy, d: DayView, blocks: Seq<RecurringView>) -> Seq<Share> {
    session_shares(g, d.date, d.sessions) + plan_shares(g, d.date, day_plan(d, blocks))
}

pub open spec fn shares(g: GroupBy, days: Seq<DayView>, blocks: Seq<RecurringView>) -> Seq<Share>
    decreases days.len(),
{
    if days.len() == 0 {
        Seq::empty()
    } else {
        shares(g, days.drop_last(), blocks) + day_shares(g, days.last(), blocks)
    }
}

pub open spec fn days_view(days: Seq<Day>) -> Seq<DayView> {
    days.map_values(|d: Day| d@)
}

/// How many sessions the days hold.
pub open spec fn sessions_in(days: Seq<DayView>) -> nat
    decreases days.len(),
{
    if days.len() == 0 {
        0
    } else {
        sessions_in(days.drop_last()) + days.last().sessions.len()
    }
}

/// Minutes add up to at most the largest a `u32` holds.
pub open spec fn sat(a: nat, b: nat) -> nat {
    if a + b <= u32::MAX {
        a + b
    } else {
        u32::MAX as nat
    }
}

/// The first bucket with this key.
pub open spec fn key_position(buckets: Seq<Share>, key: Option<Seq<char>>) -> Option<int>
    decreases buckets.len(),
{
    if buckets.len() == 0 {
        None
    } else {
        match key_position(buckets.drop_last(), key) {
            Some(i) => Some(i),
            None => if buckets.last().0 == key {
                Some(buckets.len() - 1)
            } else {
                None
            },
        }
    }
}

/// One share landed in its bucket, which is made empty if it is the first
/// thing to land there.
pub open spec fn add_share(buckets: Seq<Share>, x: Share) -> Seq<Share> {
    match key_position(buckets, x.0) {
        Some(i) => {
            let b = buckets[i];
            buckets.update(i, (b.0, sat(b.1, x.1), sat(b.2, x.2), b.3 + x.3))
        },
        None => buckets.push(x),
    }
}

/// Shares gathered into buckets, in the order each key first appears.
pub open spec fn gathered(sh: Seq<Share>) -> Seq<Share>
    decreases sh.len(),
{
    if sh.len() == 0 {
        Seq::empty()
    } else {
        add_share(gathered(sh.drop_last()), sh.last())
    }
}

pub open spec fn logged_total(sh: Seq<Share>) -> nat
    decreases sh.len(),
{
    if sh.len() == 0 {
        0
    } else {
        sat(logged_total(sh.drop_last()), sh.last().1)
    }
}

pub open spec fn planned_total(sh: Seq<Share>) -> nat
    decreases sh.len(),
{
    if sh.len() == 0 {
        0
    } else {
        sat(planned_total(sh.drop_last()), sh.last().2)
    }
}

pub open spec fn session_total(sh: Seq<Share>) -> nat
    decreases sh.len(),
{
    if sh.len() == 0 {
        0
    } else {
        session_total(sh.drop_last()) + sh.last().3
    }
}

/// No key, then keys in text order.
pub open spec fn key_less(a: Option<Seq<char>>, b: Option<Seq<char>>) -> bool {
    match (a, b) {
        (None, Some(_)) => true,
        (Some(x), Some(y)) => text_less(x, y),
        _ => false,
    }
}

/// Whether bucket `a` comes before `b` in a report: by project, most time
/// logged first, then most time planned, then by key; by day, by date.
pub open spec fn ranks_before(g: GroupBy, a: Share, b: Share) -> bool {
    match g {
        GroupBy::Project => a.1 > b.1 || (a.1 == b.1 && (a.2 > b.2 || (a.2 == b.2 && key_less(a.0, b.0)))),
        GroupBy::Day => key_less(a.0, b.0),
    }
}

/// Where a bucket goes among ranked ones: before the first it ranks before.
pub open spec fn placed(g: GroupBy, s: Seq<Share>, x: Share) -> int
    decreases s.len(),
{
    if s.len() == 0 {
        0
    } else if ranks_before(g, x, s[0]) {
        0
    } else {
        1 + placed(g, s.drop_first(), x)
    }
}

/// The buckets in report order, built by insertion.
pub open spec fn ranked(g: GroupBy, s: Seq<Share>) -> Seq<Share>
    decreases s.len(),
{
    if s.len() == 0 {
        s
    } else {
        let t = ranked(g, s.drop_last());
        t.insert(placed(g, t, s.last()), s.last())
    }
}

/// A report over a range: totals, and the buckets in report order.
#[derive(Debug)]
pub struct Report {
    pub from: CalendarDate,
    pub to: CalendarDate,
    pub group_by: GroupBy,
    pub total: Minutes,
    /// Everything the schedule set aside over the range.
    pub planned: Minutes,
    pub buckets: Vec<Bucket>,
}

fn key_text(key: &Option<String>) -> (copy: Option<String>)
    ensures
        key_view(copy) == key_view(*key),
{
    match key {
        Some(k) => Some(k.clone()),
        None => None,
    }
}

fn same_key(a: &Option<String>, b: &Option<String>) -> (equal: bool)
    ensures
        equal == (key_view(*a) == key_view(*b)),
{
    match (a, b) {
        (Some(x), Some(y)) => same(&chars_of(x.as_str()), &chars_of(y.as_str())),
        (None, None) => true,
        _ => false,
    }
}

/// Lands one share in its bucket.
fn land(buckets: &mut Vec<Bucket>, key: Option<String>, logged: Minutes, planned: Minutes, sessions: u32)
    requires
        forall|i: int| 0 <= i < old(buckets)@.len() ==> old(buckets)@[i].sessions + sessions <= u32::MAX,
    ensures
        bucket_views(final(buckets)@) == add_share(
            bucket_views(old(buckets)@),
            (key_view(key), logged.0 as nat, planned.0 as nat, sessions as nat),
        ),
{
    let ghost bs = bucket_views(buckets@);
    let ghost x = (key_view(key), logged.0 as nat, planned.0 as nat, sessions as nat);
    let mut k: usize = 0;
    assert(bs.subrange(0, 0) =~= Seq::<Share>::empty());
    while k < buckets.len()
        invariant
            k <= buckets@.len(),
            bs == bucket_views(buckets@),
            bs == bucket_views(old(buckets)@),
            key_position(bs.subrange(0, k as int), x.0) is None,
            x == (key_view(key), logged.0 as nat, planned.0 as nat, sessions as nat),
            bs.len() == buckets@.len(),
            forall|i: int| 0 <= i < buckets@.len() ==> (#[trigger] buckets@[i]).sessions + sessions <= u32::MAX,
        decreases buckets.len() - k,
    {
        proof {
            lemma_key_position_prefix(bs, x.0, k as int);
        }
        if same_key(&buckets[k].key, &key) {
            let b = &buckets[k];
            let updated = Bucket {
                key: key_text(&b.key),
                logged: b.logged.plus(logged),
                planned: b.planned.plus(planned),
                sessions: b.sessions + sessions,
            };
            proof {
                lemma_key_position_found(bs, x.0, k as int);
            }
            let ghost b0 = bs[k as int];
            assert(b0 == buckets@[k as int]@);
            assert(updated@ == (b0.0, sat(b0.1, x.1), sat(b0.2, x.2), b0.3 + x.3));
            buckets.set(k, updated);
            assert(bucket_views(buckets@) =~= add_share(bs, x));
            return;
        }
        k = k + 1;
    }
    proof {
        assert(bs.subrange(0, bs.len() as int) =~= bs);
    }
    buckets.push(Bucket { key, logged, planned, sessions });
    assert(bucket_views(buckets@) =~= add_share(bs, x));
}

/// Where the first `k` buckets leave off: no key among them, or the first.
proof fn lemma_key_position_prefix(bs: Seq<Share>, key: Option<Seq<char>>, k: int)
    requires
        0 <= k < bs.len(),
        key_position(bs.subrange(0, k), key) is None,
    ensures
        key_position(bs.subrange(0, k + 1), key) == if bs[k].0 == key {
            Some(k)
        } else {
            None
        },
{
    assert(bs.subrange(0, k + 1).drop_last() =~= bs.subrange(0, k));
}

/// The first bucket found by scanning is the one `key_position` names.
proof fn lemma_key_position_found(bs: Seq<Share>, key: Option<Seq<char>>, k: int)
    requires
        0 <= k < bs.len(),
        key_position(bs.subrange(0, k), key) is None,
        bs[k].0 == key,
    ensures
        key_position(bs, key) == Some(k),
    decreases bs.len() - k,
{
    if k + 1 == bs.len() {
        assert(bs.drop_last() =~= bs.subrange(0, k));
    } else {
        lemma_key_position_prefix(bs, key, k);
        lemma_key_position_keeps(bs, key, k + 1);
    }
}

/// A key found in a prefix stays where it was found.
proof fn lemma_key_position_keeps(bs: Seq<Share>, key: Option<Seq<char>>, k: int)
    requires
        0 < k <= bs.len(),
        key_position(bs.subrange(0, k), key) is Some,
    ensures
        key_position(bs, key) == key_position(bs.subrange(0, k), key),
    decreases bs.len() - k,
{
    if k == bs.len() {
        assert(bs.subrange(0, k) =~= bs);
    } else {
        assert(bs.subrange(0, k + 1).drop_last() =~= bs.subrange(0, k));
        lemma_key_position_keeps(bs, key, k + 1);
    }
}


fn key_precedes(a: &Option<String>, b: &Option<String>) -> (before: bool)
    ensures
        before == key_less(key_view(*a), key_view(*b)),
{
    match (a, b) {
        (None, Some(_)) => true,
        (Some(x), Some(y)) => less(&chars_of(x.as_str()), &chars_of(y.as_str())),
        _ => false,
    }
}

fn ranks_first(g: GroupBy, a: &Bucket, b: &Bucket) -> (before: bool)
    ensures
        before == ranks_before(g, a@, b@),
{
    match g {
        GroupBy::Project => a.logged.0 > b.logged.0 || (a.logged.0 == b.logged.0 && (a.planned.0 > b.planned.0 || (
        a.planned.0 == b.planned.0 && key_precedes(&a.key, &b.key)))),
        GroupBy::Day => key_precedes(&a.key, &b.key),
    }
}

fn copy_bucket(b: &Bucket) -> (copy: Bucket)
    ensures
        copy@ == b@,
{
    Bucket { key: key_text(&b.key), logged: b.logged, planned: b.planned, sessions: b.sessions }
}

/// Where `x` goes among ranked buckets.
fn place(g: GroupBy, v: &Vec<Bucket>, x: &Bucket) -> (at: usize)
    ensures
        at == placed(g, bucket_views(v@), x@),
{
    let ghost s = bucket_views(v@);
    assert(s.subrange(0, s.len() as int) =~= s);
    let mut j: usize = 0;
    while j < v.len()
        invariant
            j <= v@.len(),
            s == bucket_views(v@),
            placed(g, s, x@) == j + placed(g, s.subrange(j as int, s.len() as int), x@),
        decreases v.len() - j,
    {
        let ghost rest = s.subrange(j as int, s.len() as int);
        assert(rest[0] == v@[j as int]@);
        if ranks_first(g, x, &v[j]) {
            return j;
        }
        assert(rest.drop_first() =~= s.subrange(j + 1, s.len() as int));
        j = j + 1;
    }
    assert(s.subrange(j as int, s.len() as int) =~= Seq::<Share>::empty());
    j
}

/// The buckets in report order.
fn rank(g: GroupBy, v: &Vec<Bucket>) -> (out: Vec<Bucket>)
    ensures
        bucket_views(out@) == ranked(g, bucket_views(v@)),
{
    let ghost s = bucket_views(v@);
    let mut out: Vec<Bucket> = Vec::new();
    let mut k: usize = 0;
    assert(s.subrange(0, 0) =~= Seq::<Share>::empty());
    while k < v.len()
        invariant
            k <= v@.len(),
            s == bucket_views(v@),
            bucket_views(out@) == ranked(g, s.subrange(0, k as int)),
        decreases v.len() - k,
    {
        let x = copy_bucket(&v[k]);
        let at = place(g, &out, &x);
        let ghost before = bucket_views(out@);
        proof {
            let p = s.subrange(0, k + 1);
            assert(p.drop_last() =~= s.subrange(0, k as int));
            assert(p.last() == x@);
            lemma_placed_bound(g, before, x@);
        }
        out.insert(at, x);
        assert(bucket_views(out@) =~= before.insert(at as int, x@));
        k = k + 1;
    }
    assert(s.subrange(0, s.len() as int) =~= s);
    out
}

proof fn lemma_placed_bound(g: GroupBy, s: Seq<Share>, x: Share)
    ensures
        0 <= placed(g, s, x) <= s.len(),
        forall|i: int| 0 <= i < placed(g, s, x) ==> !ranks_before(g, x, #[trigger] s[i]),
        placed(g, s, x) < s.len() ==> ranks_before(g, x, s[placed(g, s, x)]),
    decreases s.len(),
{
    if s.len() > 0 && !ranks_before(g, x, s[0]) {
        lemma_placed_bound(g, s.drop_first(), x);
        assert forall|i: int| 0 <= i < placed(g, s, x) implies !ranks_before(g, x, #[trigger] s[i]) by {
            if i > 0 {
                assert(s[i] == s.drop_first()[i - 1]);
            }
        }
    }
}

/// The key a session or block lands under.
fn key_for(g: GroupBy, date: CalendarDate, project: &Option<crate::ids::ProjectSlug>) -> (key: Option<String>)
    ensures
        key_view(key) == bucket_key(g, date@, crate::grammar::slug_view(*project)),
{
    match g {
        GroupBy::Project => match project {
            Some(slug) => Some(slug.as_str().to_owned()),
            None => None,
        },
        GroupBy::Day => Some(format_date(date)),
    }
}

proof fn lemma_gathered_sessions(sh: Seq<Share>)
    ensures
        forall|i: int| 0 <= i < gathered(sh).len() ==> (#[trigger] gathered(sh)[i]).3 <= session_total(sh),
    decreases sh.len(),
{
    if sh.len() > 0 {
        let prior = sh.drop_last();
        lemma_gathered_sessions(prior);
        let g0 = gathered(prior);
        let x = sh.last();
        match key_position(g0, x.0) {
            Some(i) => {
                lemma_key_position_valid(g0, x.0);
                assert forall|j: int| 0 <= j < gathered(sh).len() implies (#[trigger] gathered(sh)[j]).3
                    <= session_total(sh) by {
                    if j != i {
                        assert(gathered(sh)[j] == g0[j]);
                    }
                }
            },
            None => {
                assert forall|j: int| 0 <= j < gathered(sh).len() implies (#[trigger] gathered(sh)[j]).3
                    <= session_total(sh) by {
                    if j < g0.len() {
                        assert(gathered(sh)[j] == g0[j]);
                    }
                }
            },
        }
    }
}

proof fn lemma_key_position_valid(bs: Seq<Share>, key: Option<Seq<char>>)
    ensures
        key_position(bs, key) matches Some(i) ==> 0 <= i < bs.len() && bs[i].0 == key,
        key_position(bs, key) is None ==> forall|i: int| 0 <= i < bs.len() ==> (#[trigger] bs[i]).0 != key,
    decreases bs.len(),
{
    if bs.len() > 0 {
        lemma_key_position_valid(bs.drop_last(), key);
        assert forall|i: int| 0 <= i < bs.len() - 1 implies bs[i] == bs.drop_last()[i] by {}
    }
}

proof fn lemma_sessions_in_prefix(days: Seq<DayView>, k: int)
    requires
        0 <= k <= days.len(),
    ensures
        sessions_in(days.subrange(0, k)) <= sessions_in(days),
    decreases days.len() - k,
{
    if k < days.len() {
        assert(days.subrange(0, k + 1).drop_last() =~= days.subrange(0, k));
        lemma_sessions_in_prefix(days, k + 1);
    } else {
        assert(days.subrange(0, k) =~= days);
    }
}

/// Totals every session in the days and everything their schedules planned,
/// bucketed by project or by day.
pub fn tally(range: DateRange, days: &[Day], recurring: &Recurring, group_by: GroupBy) -> (report: Report)
    requires
        sessions_in(days_view(days@)) <= u32::MAX,
    ensures
        report.from@ == range@.0,
        report.to@ == range@.1,
        report.group_by == group_by,
        report.total.0 == logged_total(shares(group_by, days_view(days@), recurring@.blocks)),
        report.planned.0 == planned_total(shares(group_by, days_view(days@), recurring@.blocks)),
        bucket_views(report.buckets@) == ranked(group_by, gathered(shares(group_by, days_view(days@), recurring@.blocks))),
{
    let ghost dv = days_view(days@);
    let ghost blocks = recurring@.blocks;
    let g = group_by;
    let mut buckets: Vec<Bucket> = Vec::new();
    let mut total = Minutes::new(0);
    let mut planned_sum = Minutes::new(0);
    let ghost mut done: Seq<Share> = Seq::empty();
    let mut k: usize = 0;
    assert(dv.subrange(0, 0) =~= Seq::<DayView>::empty());
    while k < days.len()
        invariant
            k <= days@.len(),
            dv == days_view(days@),
            blocks == recurring@.blocks,
            sessions_in(dv) <= u32::MAX,
            done == shares(g, dv.subrange(0, k as int), blocks),
            bucket_views(buckets@) == gathered(done),
            total.0 == logged_total(done),
            planned_sum.0 == planned_total(done),
            session_total(done) == sessions_in(dv.subrange(0, k as int)),
        decreases days.len() - k,
    {
        let day = &days[k];
        let date = day.date();
        let ghost d = dv[k as int];
        assert(d == day@);
        let ghost base = done;
        proof {
            lemma_sessions_in_prefix(dv, k + 1);
            assert(dv.subrange(0, k + 1).drop_last() =~= dv.subrange(0, k as int));
        }
        let sessions = day.sessions();
        let mut j: usize = 0;
        assert(session_shares(g, date@, d.sessions.subrange(0, 0)) =~= Seq::<Share>::empty());
        assert(base + Seq::<Share>::empty() =~= base);
        while j < sessions.len()
            invariant
                j <= sessions@.len(),
                crate::order::views(sessions@) == d.sessions,
                date@ == d.date,
                session_total(base) + d.sessions.len() <= u32::MAX,
                done == base + session_shares(g, d.date, d.sessions.subrange(0, j as int)),
                bucket_views(buckets@) == gathered(done),
                total.0 == logged_total(done),
                planned_sum.0 == planned_total(done),
                session_total(done) == session_total(base) + j,
            decreases sessions.len() - j,
        {
            let s = &sessions[j];
            let length = s.duration();
            let key = key_for(g, date, &s.project);
            let ghost x = (key_view(key), length.0 as nat, 0nat, 1nat);
            proof {
                assert(s@ == d.sessions[j as int]);
                lemma_gathered_sessions(done);
                assert forall|i: int| 0 <= i < buckets@.len() implies (#[trigger] buckets@[i]).sessions + 1u32
                    <= u32::MAX by {
                    assert(bucket_views(buckets@)[i] == buckets@[i]@);
                }
                assert(session_shares(g, d.date, d.sessions.subrange(0, j + 1)) =~= session_shares(
                    g,
                    d.date,
                    d.sessions.subrange(0, j as int),
                ).push(x));
                assert(done.push(x).drop_last() =~= done);
            }
            land(&mut buckets, key, length, Minutes::new(0), 1);
            total = total.plus(length);
            proof {
                done = done.push(x);
                assert(base + session_shares(g, d.date, d.sessions.subrange(0, j + 1)) =~= done);
            }
            j = j + 1;
        }
        proof {
            assert(d.sessions.subrange(0, d.sessions.len() as int) =~= d.sessions);
        }
        let ghost middle = done;
        let occurrences = planned(day, recurring);
        let ghost plan = day_plan(d, blocks);
        assert(crate::order::views(occurrences@) == plan);
        let mut j: usize = 0;
        assert(plan_shares(g, d.date, plan.subrange(0, 0)) =~= Seq::<Share>::empty());
        assert(middle + Seq::<Share>::empty() =~= middle);
        while j < occurrences.len()
            invariant
                j <= occurrences@.len(),
                crate::order::views(occurrences@) == plan,
                date@ == d.date,
                done == middle + plan_shares(g, d.date, plan.subrange(0, j as int)),
                bucket_views(buckets@) == gathered(done),
                total.0 == logged_total(done),
                planned_sum.0 == planned_total(done),
                session_total(done) == session_total(middle),
                session_total(middle) <= u32::MAX,
            decreases occurrences.len() - j,
        {
            let o = &occurrences[j];
            let length = o.duration();
            let key = key_for(g, date, &o.project);
            let ghost x = (key_view(key), 0nat, length.0 as nat, 0nat);
            proof {
                assert(o@ == plan[j as int]);
                lemma_gathered_sessions(done);
                assert forall|i: int| 0 <= i < buckets@.len() implies (#[trigger] buckets@[i]).sessions + 0u32
                    <= u32::MAX by {
                    assert(bucket_views(buckets@)[i] == buckets@[i]@);
                }
                assert(plan_shares(g, d.date, plan.subrange(0, j + 1)) =~= plan_shares(
                    g,
                    d.date,
                    plan.subrange(0, j as int),
                ).push(x));
                assert(done.push(x).drop_last() =~= done);
            }
            land(&mut buckets, key, Minutes::new(0), length, 0);
            planned_sum = planned_sum.plus(length);
            proof {
                done = done.push(x);
                assert(middle + plan_shares(g, d.date, plan.subrange(0, j + 1)) =~= done);
            }
            j = j + 1;
        }
        proof {
            assert(plan.subrange(0, plan.len() as int) =~= plan);
            assert(done =~= base + day_shares(g, d, blocks));
            assert(dv.subrange(0, k + 1).last() == d);
        }
        k = k + 1;
    }
    assert(dv.subrange(0, dv.len() as int) =~= dv);
    let ranked_buckets = rank(g, &buckets);
    proof {
        use_type_invariant(&range);
    }
    Report {
        from: range.from(),
        to: range.to(),
        group_by,
        total,
        planned: planned_sum,
        buckets: ranked_buckets,
    }
}

/// No bucket ranks before one that comes earlier.
pub open spec fn in_report_order(g: GroupBy, s: Seq<Share>) -> bool {
    forall|i: int, j: int| 0 <= i < j < s.len() ==> !ranks_before(g, #[trigger] s[j], #[trigger] s[i])
}

/// Text order is a strict order.
pub proof fn lemma_text_less_strict(a: Seq<char>, b: Seq<char>, c: Seq<char>)
    ensures
        !text_less(a, a),
        text_less(a, b) ==> !text_less(b, a),
        text_less(a, b) && text_less(b, c) ==> text_less(a, c),
    decreases a.len(),
{
    if a.len() > 0 && b.len() > 0 && c.len() > 0 {
        lemma_text_less_strict(a.drop_first(), b.drop_first(), c.drop_first());
    }
    if a.len() > 0 {
        lemma_text_less_strict(a.drop_first(), a.drop_first(), a.drop_first());
    }
    if a.len() > 0 && b.len() > 0 {
        lemma_text_less_strict(a.drop_first(), b.drop_first(), b.drop_first());
    }
}

proof fn lemma_ranks_strict(g: GroupBy, a: Share, b: Share, c: Share)
    ensures
        !ranks_before(g, a, a),
        ranks_before(g, a, b) ==> !ranks_before(g, b, a),
        ranks_before(g, a, b) && ranks_before(g, b, c) ==> ranks_before(g, a, c),
{
    if a.0 is Some && b.0 is Some && c.0 is Some {
        lemma_text_less_strict(a.0->0, b.0->0, c.0->0);
    }
    if a.0 is Some {
        lemma_text_less_strict(a.0->0, a.0->0, a.0->0);
    }
    if a.0 is Some && b.0 is Some {
        lemma_text_less_strict(a.0->0, b.0->0, b.0->0);
    }
}

/// The shares under one key, in order.
pub open spec fn of_key(sh: Seq<Share>, k: Option<Seq<char>>) -> Seq<Share> {
    sh.filter(|x: Share| x.0 == k)
}

proof fn lemma_of_key_push(sh: Seq<Share>, k: Option<Seq<char>>)
    requires
        sh.len() > 0,
    ensures
        of_key(sh, k) == if sh.last().0 == k {
            of_key(sh.drop_last(), k).push(sh.last())
        } else {
            of_key(sh.drop_last(), k)
        },
{
    reveal(Seq::filter);
}

proof fn lemma_of_key_none(sh: Seq<Share>, k: Option<Seq<char>>)
    requires
        forall|m: int| 0 <= m < sh.len() ==> (#[trigger] sh[m]).0 != k,
    ensures
        of_key(sh, k) == Seq::<Share>::empty(),
    decreases sh.len(),
{
    reveal(Seq::filter);
    if sh.len() > 0 {
        assert forall|m: int| 0 <= m < sh.drop_last().len() implies (#[trigger] sh.drop_last()[m]).0 != k by {
            assert(sh.drop_last()[m] == sh[m]);
        }
        lemma_of_key_none(sh.drop_last(), k);
        assert(sh.last() == sh[sh.len() - 1]);
    }
}

/// Gathering gives one bucket per key, a key's bucket where the key first
/// appears, every share's key among them, and each bucket holding its key's
/// shares summed: logged and planned time saturating at the largest count,
/// sessions exactly.
pub proof fn law_gathered_totals(sh: Seq<Share>)
    requires
        forall|m: int| 0 <= m < sh.len() ==> (#[trigger] sh[m]).1 <= u32::MAX && sh[m].2 <= u32::MAX,
    ensures
        forall|i: int, j: int|
            0 <= i < j < gathered(sh).len() ==> (#[trigger] gathered(sh)[i]).0 != (#[trigger] gathered(sh)[j]).0,
        forall|m: int| 0 <= m < sh.len() ==> (#[trigger] key_position(gathered(sh), sh[m].0)) is Some,
        forall|i: int|
            0 <= i < gathered(sh).len() ==> {
                let b = #[trigger] gathered(sh)[i];
                &&& b.1 == logged_total(of_key(sh, b.0))
                &&& b.2 == planned_total(of_key(sh, b.0))
                &&& b.3 == session_total(of_key(sh, b.0))
            },
    decreases sh.len(),
{
    if sh.len() > 0 {
        let prior = sh.drop_last();
        let x = sh.last();
        assert forall|m: int| 0 <= m < prior.len() implies (#[trigger] prior[m]).1 <= u32::MAX && prior[m].2
            <= u32::MAX by {
            assert(prior[m] == sh[m]);
        }
        assert(x == sh[sh.len() - 1]);
        law_gathered_totals(prior);
        let g0 = gathered(prior);
        let g = gathered(sh);
        lemma_key_position_valid(g0, x.0);
        assert forall|k: Option<Seq<char>>| #[trigger] of_key(sh, k) == if x.0 == k {
            of_key(prior, k).push(x)
        } else {
            of_key(prior, k)
        } by {
            lemma_of_key_push(sh, k);
        }
        match key_position(g0, x.0) {
            Some(p) => {
                assert forall|i: int| 0 <= i < g.len() implies {
                    let b = #[trigger] g[i];
                    &&& b.1 == logged_total(of_key(sh, b.0))
                    &&& b.2 == planned_total(of_key(sh, b.0))
                    &&& b.3 == session_total(of_key(sh, b.0))
                } by {
                    if i == p {
                        let o = of_key(prior, x.0);
                        assert(g0[p].0 == x.0);
                        assert(of_key(sh, x.0) == o.push(x));
                        assert(o.push(x).drop_last() =~= o);
                        assert(o.push(x).last() == x);
                        assert(logged_total(o.push(x)) == sat(logged_total(o), x.1));
                        assert(planned_total(o.push(x)) == sat(planned_total(o), x.2));
                        assert(session_total(o.push(x)) == session_total(o) + x.3);
                    } else {
                        assert(g[i] == g0[i]);
                        assert(g0[i].0 != x.0) by {
                            if i < p {
                                assert(g0[i].0 != g0[p].0);
                            } else {
                                assert(g0[p].0 != g0[i].0);
                            }
                        }
                        assert(of_key(sh, g0[i].0) == of_key(prior, g0[i].0));
                    }
                }
                assert forall|i: int, j: int| 0 <= i < j < g.len() implies (#[trigger] g[i]).0 != (#[trigger] g[j]).0 by {
                    assert(g[i].0 == g0[i].0);
                    assert(g[j].0 == g0[j].0);
                }
                assert forall|m: int| 0 <= m < sh.len() implies (#[trigger] key_position(g, sh[m].0)) is Some by {
                    lemma_key_position_valid(g, sh[m].0);
                    if m < prior.len() {
                        assert(prior[m] == sh[m]);
                        lemma_key_position_valid(g0, sh[m].0);
                        let q = key_position(g0, sh[m].0)->0;
                        assert(g[q].0 == g0[q].0);
                    } else {
                        assert(g[p].0 == x.0);
                    }
                }
            },
            None => {
                assert forall|m: int| 0 <= m < prior.len() implies (#[trigger] prior[m]).0 != x.0 by {
                    lemma_key_position_valid(g0, prior[m].0);
                    let q = key_position(g0, prior[m].0)->0;
                    assert(g0[q].0 == prior[m].0);
                }
                lemma_of_key_none(prior, x.0);
                assert forall|i: int| 0 <= i < g.len() implies {
                    let b = #[trigger] g[i];
                    &&& b.1 == logged_total(of_key(sh, b.0))
                    &&& b.2 == planned_total(of_key(sh, b.0))
                    &&& b.3 == session_total(of_key(sh, b.0))
                } by {
                    if i == g0.len() {
                        let o = Seq::<Share>::empty().push(x);
                        assert(o.drop_last() =~= Seq::<Share>::empty());
                        assert(o.last() == x);
                        assert(of_key(sh, x.0) == of_key(prior, x.0).push(x));
                        assert(of_key(sh, x.0) =~= o);
                        assert(g[i] == x);
                        assert(logged_total(Seq::<Share>::empty()) == 0);
                        assert(planned_total(Seq::<Share>::empty()) == 0);
                        assert(session_total(Seq::<Share>::empty()) == 0);
                        assert(logged_total(o) == sat(logged_total(o.drop_last()), x.1));
                        assert(planned_total(o) == sat(planned_total(o.drop_last()), x.2));
                        assert(logged_total(o) == sat(0, x.1));
                        assert(planned_total(o) == sat(0, x.2));
                        assert(session_total(o) == x.3);
                    } else {
                        assert(g[i] == g0[i]);
                        assert(g0[i].0 != x.0);
                        assert(of_key(sh, g0[i].0) == of_key(prior, g0[i].0));
                    }
                }
                assert forall|i: int, j: int| 0 <= i < j < g.len() implies (#[trigger] g[i]).0 != (#[trigger] g[j]).0 by {
                    if j == g0.len() {
                        assert(g[i] == g0[i]);
                    } else {
                        assert(g[i] == g0[i]);
                        assert(g[j] == g0[j]);
                    }
                }
                assert forall|m: int| 0 <= m < sh.len() implies (#[trigger] key_position(g, sh[m].0)) is Some by {
                    lemma_key_position_valid(g, sh[m].0);
                    if m < prior.len() {
                        assert(prior[m] == sh[m]);
                        lemma_key_position_valid(g0, sh[m].0);
                        let q = key_position(g0, sh[m].0)->0;
                        assert(g[q] == g0[q]);
                    } else {
                        assert(g[g0.len() as int] == x);
                    }
                }
            },
        }
    }
}

/// A report's buckets are every gathered bucket, once each, in report order.
pub proof fn law_ranked(g: GroupBy, s: Seq<Share>)
    ensures
        in_report_order(g, ranked(g, s)),
        ranked(g, s).len() == s.len(),
        ranked(g, s).to_multiset() == s.to_multiset(),
    decreases s.len(),
{
    if s.len() > 0 {
        law_ranked(g, s.drop_last());
        let t = ranked(g, s.drop_last());
        let x = s.last();
        lemma_placed_bound(g, t, x);
        let p = placed(g, t, x);
        let r = t.insert(p, x);
        assert forall|i: int, j: int| 0 <= i < j < r.len() implies !ranks_before(g, #[trigger] r[j], #[trigger] r[i]) by {
            if j < p {
            } else if j == p {
                assert(r[i] == t[i]);
            } else if i < p {
                assert(r[j] == t[j - 1]);
            } else if i == p {
                assert(r[j] == t[j - 1]);
                assert(ranks_before(g, x, t[p]));
                lemma_ranks_strict(g, t[j - 1], x, t[p]);
                if j - 1 > p {
                    assert(!ranks_before(g, t[j - 1], t[p]));
                }
            } else {
                assert(r[i] == t[i - 1]);
                assert(r[j] == t[j - 1]);
            }
        }
        vstd::seq_lib::to_multiset_insert(t, p, x);
        s.drop_last().to_multiset_ensures();
        assert(s.drop_last().push(x) =~= s);
    } else {
        assert(ranked(g, s) == s);
    }
}
} // verus!
