//! Character-level scanning shared by every grammar in the crate.
//!
//! Lines are worked on as sequences of `char`, which is what the file grammar
//! is written in; the helpers here are the few string operations the grammar
//! needs, each stated over `Seq<char>`.

use vstd::prelude::*;

verus! {

/// Unicode `White_Space`, the set `char::is_whitespace` answers for.
pub open spec fn is_ws(c: char) -> bool {
    let u = c as u32;
    ||| 0x09 <= u <= 0x0D
    ||| u == 0x20
    ||| u == 0x85
    ||| u == 0xA0
    ||| u == 0x1680
    ||| 0x2000 <= u <= 0x200A
    ||| u == 0x2028
    ||| u == 0x2029
    ||| u == 0x202F
    ||| u == 0x205F
    ||| u == 0x3000
}

/// Leading whitespace removed.
pub open spec fn trim_start(s: Seq<char>) -> Seq<char>
    decreases s.len(),
{
    if s.len() > 0 && is_ws(s[0]) {
        trim_start(s.drop_first())
    } else {
        s
    }
}

/// Trailing whitespace removed.
pub open spec fn trim_end(s: Seq<char>) -> Seq<char>
    decreases s.len(),
{
    if s.len() > 0 && is_ws(s.last()) {
        trim_end(s.drop_last())
    } else {
        s
    }
}

/// Whitespace removed from both ends, as `str::trim` does.
pub open spec fn trim(s: Seq<char>) -> Seq<char> {
    trim_end(trim_start(s))
}

pub open spec fn starts_with(s: Seq<char>, prefix: Seq<char>) -> bool {
    prefix.len() <= s.len() && s.subrange(0, prefix.len() as int) == prefix
}

pub open spec fn ends_with(s: Seq<char>, suffix: Seq<char>) -> bool {
    suffix.len() <= s.len() && s.subrange(s.len() - suffix.len(), s.len() as int) == suffix
}

/// `pattern` occurs in `s` at `at`.
pub open spec fn occurs_at(s: Seq<char>, pattern: Seq<char>, at: int) -> bool {
    0 <= at && at + pattern.len() <= s.len() && s.subrange(at, at + pattern.len()) == pattern
}

/// The first position at which `pattern` occurs, as `str::find` gives it.
#[verifier::opaque]
pub open spec fn first_occurrence(s: Seq<char>, pattern: Seq<char>) -> Option<int> {
    if exists|at: int| occurs_at(s, pattern, at) {
        Some(choose|at: int| occurs_at(s, pattern, at) && forall|k: int| 0 <= k < at ==> !occurs_at(s, pattern, k))
    } else {
        None
    }
}

/// `s` holds `c`.
pub open spec fn has_char(s: Seq<char>, c: char) -> bool {
    exists|i: int| 0 <= i < s.len() && s[i] == c
}

/// The first position of a character satisfying `f`.
pub open spec fn is_first_where(s: Seq<char>, f: spec_fn(char) -> bool, at: int) -> bool {
    0 <= at < s.len() && f(s[at]) && forall|k: int| 0 <= k < at ==> !f(s[k])
}

pub fn is_whitespace(c: char) -> (b: bool)
    ensures
        b == is_ws(c),
{
    let u: u32 = c as u32;
    (0x09 <= u && u <= 0x0D) || u == 0x20 || u == 0x85 || u == 0xA0 || u == 0x1680 || (0x2000
        <= u && u <= 0x200A) || u == 0x2028 || u == 0x2029 || u == 0x202F || u == 0x205F || u
        == 0x3000
}

/// The characters of a string slice.
pub fn chars_of(s: &str) -> (chars: Vec<char>)
    ensures
        chars@ == s@,
{
    let n = s.unicode_len();
    let mut chars: Vec<char> = Vec::new();
    let mut i: usize = 0;
    while i < n
        invariant
            n == s@.len(),
            i <= n,
            chars@ == s@.subrange(0, i as int),
        decreases n - i,
    {
        chars.push(s.get_char(i));
        i = i + 1;
    }
    chars
}

/// A string holding exactly these characters.
#[verifier::external_body]
pub(crate) fn string_of(chars: &[char]) -> (s: String)
    ensures
        s@ == chars@,
{
    String::from_iter(chars.iter())
}

/// A copy of `s[from..to]`.
pub fn slice(s: &[char], from: usize, to: usize) -> (part: Vec<char>)
    requires
        from <= to <= s@.len(),
    ensures
        part@ == s@.subrange(from as int, to as int),
{
    let mut part: Vec<char> = Vec::new();
    let mut i: usize = from;
    while i < to
        invariant
            from <= i <= to <= s@.len(),
            part@ == s@.subrange(from as int, i as int),
        decreases to - i,
    {
        part.push(s[i]);
        i = i + 1;
    }
    part
}

/// `a` followed by `b`.
pub fn concat(a: &[char], b: &[char]) -> (joined: Vec<char>)
    ensures
        joined@ == a@ + b@,
{
    let mut joined = slice(a, 0, a.len());
    let mut i: usize = 0;
    while i < b.len()
        invariant
            i <= b@.len(),
            joined@ == a@ + b@.subrange(0, i as int),
        decreases b.len() - i,
    {
        joined.push(b[i]);
        i = i + 1;
    }
    joined
}

/// Appends `b` to `out`.
pub fn append(out: &mut Vec<char>, b: &[char])
    ensures
        final(out)@ == old(out)@ + b@,
{
    let mut i: usize = 0;
    while i < b.len()
        invariant
            i <= b@.len(),
            out@ == old(out)@ + b@.subrange(0, i as int),
        decreases b.len() - i,
    {
        out.push(b[i]);
        i = i + 1;
    }
}

pub fn same(a: &[char], b: &[char]) -> (equal: bool)
    ensures
        equal == (a@ == b@),
{
    if a.len() != b.len() {
        return false;
    }
    let mut i: usize = 0;
    while i < a.len()
        invariant
            a@.len() == b@.len(),
            i <= a@.len(),
            forall|k: int| 0 <= k < i ==> a@[k] == b@[k],
        decreases a.len() - i,
    {
        if a[i] != b[i] {
            return false;
        }
        i = i + 1;
    }
    assert(a@ =~= b@);
    true
}

proof fn lemma_trim_start_skip(s: Seq<char>, i: int)
    requires
        0 <= i < s.len(),
        is_ws(s[i]),
    ensures
        trim_start(s.subrange(i, s.len() as int)) == trim_start(s.subrange(i + 1, s.len() as int)),
{
    assert(s.subrange(i, s.len() as int).drop_first() =~= s.subrange(i + 1, s.len() as int));
}

proof fn lemma_trim_end_skip(s: Seq<char>, j: int)
    requires
        0 < j <= s.len(),
        is_ws(s[j - 1]),
    ensures
        trim_end(s.subrange(0, j)) == trim_end(s.subrange(0, j - 1)),
{
    assert(s.subrange(0, j).drop_last() =~= s.subrange(0, j - 1));
}

/// Where `trim_start` would begin.
pub fn trim_start_index(s: &[char]) -> (at: usize)
    ensures
        at <= s@.len(),
        trim_start(s@) == s@.subrange(at as int, s@.len() as int),
        forall|k: int| 0 <= k < at ==> is_ws(#[trigger] s@[k]),
        at < s@.len() ==> !is_ws(s@[at as int]),
{
    let mut i: usize = 0;
    assert(s@.subrange(0, s@.len() as int) =~= s@);
    while i < s.len() && is_whitespace(s[i])
        invariant
            i <= s@.len(),
            trim_start(s@) == trim_start(s@.subrange(i as int, s@.len() as int)),
            forall|k: int| 0 <= k < i ==> is_ws(#[trigger] s@[k]),
        decreases s.len() - i,
    {
        proof {
            lemma_trim_start_skip(s@, i as int);
        }
        i = i + 1;
    }
    i
}

/// Where `trim_end` would stop.
pub fn trim_end_index(s: &[char]) -> (at: usize)
    ensures
        at <= s@.len(),
        trim_end(s@) == s@.subrange(0, at as int),
        forall|k: int| at <= k < s@.len() ==> is_ws(#[trigger] s@[k]),
        at > 0 ==> !is_ws(s@[at - 1]),
{
    let mut j: usize = s.len();
    assert(s@.subrange(0, s@.len() as int) =~= s@);
    while j > 0 && is_whitespace(s[j - 1])
        invariant
            j <= s@.len(),
            trim_end(s@) == trim_end(s@.subrange(0, j as int)),
            forall|k: int| j <= k < s@.len() ==> is_ws(#[trigger] s@[k]),
        decreases j,
    {
        proof {
            lemma_trim_end_skip(s@, j as int);
        }
        j = j - 1;
    }
    assert(!(j > 0 && is_ws(s@.subrange(0, j as int).last())) ==> trim_end(s@.subrange(0, j as int)) == s@.subrange(0, j as int));
    j
}

pub fn trimmed_start(s: &[char]) -> (t: Vec<char>)
    ensures
        t@ == trim_start(s@),
{
    let i = trim_start_index(s);
    slice(s, i, s.len())
}

pub fn trimmed_end(s: &[char]) -> (t: Vec<char>)
    ensures
        t@ == trim_end(s@),
{
    let j = trim_end_index(s);
    slice(s, 0, j)
}

pub fn trimmed(s: &[char]) -> (t: Vec<char>)
    ensures
        t@ == trim(s@),
{
    let a = trimmed_start(s);
    trimmed_end(&a)
}

/// A sequence that neither begins nor ends in whitespace is its own trim.
pub proof fn lemma_trim_fixed(s: Seq<char>)
    requires
        s.len() > 0 ==> !is_ws(s[0]) && !is_ws(s.last()),
    ensures
        trim(s) == s,
        trim_start(s) == s,
        trim_end(s) == s,
{
}

/// Trimming twice trims nothing more.
pub proof fn lemma_trim_idempotent(s: Seq<char>)
    ensures
        trim(trim(s)) == trim(s),
        trim_start(trim_start(s)) == trim_start(s),
        trim_end(trim_end(s)) == trim_end(s),
    decreases s.len(),
{
    lemma_trim_start_shape(s);
    lemma_trim_end_shape(trim_start(s));
    lemma_trim_end_shape(s);
    let t = trim(s);
    lemma_trim_fixed(t);
}

/// What `trim_start` leaves begins with a non-whitespace character.
pub proof fn lemma_trim_start_shape(s: Seq<char>)
    ensures
        trim_start(s).len() > 0 ==> !is_ws(trim_start(s)[0]),
        trim_start(s).len() <= s.len(),
        trim_start(s) == s.subrange(s.len() - trim_start(s).len(), s.len() as int),
    decreases s.len(),
{
    if s.len() > 0 && is_ws(s[0]) {
        lemma_trim_start_shape(s.drop_first());
    } else {
        assert(s.subrange(0, s.len() as int) =~= s);
    }
}

/// What `trim_end` leaves ends with a non-whitespace character and is a prefix.
pub proof fn lemma_trim_end_shape(s: Seq<char>)
    ensures
        trim_end(s).len() > 0 ==> !is_ws(trim_end(s).last()),
        trim_end(s).len() <= s.len(),
        trim_end(s) == s.subrange(0, trim_end(s).len() as int),
        trim_end(s).len() > 0 ==> s.len() > 0 && (s[0] == trim_end(s)[0]),
    decreases s.len(),
{
    if s.len() > 0 && is_ws(s.last()) {
        lemma_trim_end_shape(s.drop_last());
    } else {
        assert(s.subrange(0, s.len() as int) =~= s);
    }
}

/// `s` begins with `prefix`.
pub fn has_prefix(s: &[char], prefix: &[char]) -> (b: bool)
    ensures
        b == starts_with(s@, prefix@),
{
    if prefix.len() > s.len() {
        return false;
    }
    let mut i: usize = 0;
    while i < prefix.len()
        invariant
            prefix@.len() <= s@.len(),
            i <= prefix@.len(),
            forall|k: int| 0 <= k < i ==> s@[k] == prefix@[k],
        decreases prefix.len() - i,
    {
        if s[i] != prefix[i] {
            assert(s@.subrange(0, prefix@.len() as int)[i as int] != prefix@[i as int]);
            return false;
        }
        i = i + 1;
    }
    assert(s@.subrange(0, prefix@.len() as int) =~= prefix@);
    true
}

/// Whether `pattern` occurs at `at`.
pub fn matches_at(s: &[char], pattern: &[char], at: usize) -> (b: bool)
    ensures
        b == occurs_at(s@, pattern@, at as int),
{
    if at > s.len() || pattern.len() > s.len() - at {
        return false;
    }
    let mut i: usize = 0;
    while i < pattern.len()
        invariant
            at + pattern.len() <= s.len(),
            i <= pattern@.len(),
            forall|k: int| 0 <= k < i ==> s@[at + k] == pattern@[k],
        decreases pattern.len() - i,
    {
        if s[at + i] != pattern[i] {
            assert(s@.subrange(at as int, at + pattern@.len())[i as int] != pattern@[i as int]);
            return false;
        }
        i = i + 1;
    }
    assert(s@.subrange(at as int, at + pattern@.len()) =~= pattern@);
    true
}

/// The first position of `pattern` in `s`, as `str::find` reports it.
pub fn find(s: &[char], pattern: &[char]) -> (found: Option<usize>)
    ensures
        found == match first_occurrence(s@, pattern@) {
            Some(at) => Some(at as usize),
            None => None::<usize>,
        },
        found matches Some(at) ==> first_occurrence(s@, pattern@) == Some(at as int) && occurs_at(s@, pattern@, at as int)
            && forall|k: int| 0 <= k < at ==> !occurs_at(s@, pattern@, k),
        found is None ==> forall|k: int| !occurs_at(s@, pattern@, k),
{
    let mut i: usize = 0;
    loop
        invariant
            i <= s@.len(),
            forall|k: int| 0 <= k < i ==> !occurs_at(s@, pattern@, k),
        decreases s.len() - i,
    {
        if matches_at(s, pattern, i) {
            let ghost at = i as int;
            proof {
                reveal(first_occurrence);
                let c = choose|a: int| occurs_at(s@, pattern@, a) && forall|k: int| 0 <= k < a ==> !occurs_at(s@, pattern@, k);
                assert(occurs_at(s@, pattern@, at) && forall|k: int| 0 <= k < at ==> !occurs_at(s@, pattern@, k));
                if c < at {
                } else if c > at {
                }
                assert(c == at);
            }
            return Some(i);
        }
        if i == s.len() {
            assert forall|k: int| !occurs_at(s@, pattern@, k) by {
                if 0 <= k < i {
                }
            }
            proof {
                reveal(first_occurrence);
            }
            return None;
        }
        i = i + 1;
    }
}

/// The first position of `c`.
pub fn find_char(s: &[char], c: char) -> (found: Option<usize>)
    ensures
        found matches Some(at) ==> at < s@.len() && s@[at as int] == c && forall|k: int|
            0 <= k < at ==> s@[k] != c,
        found is None ==> !has_char(s@, c),
{
    let mut i: usize = 0;
    while i < s.len()
        invariant
            i <= s@.len(),
            forall|k: int| 0 <= k < i ==> s@[k] != c,
        decreases s.len() - i,
    {
        if s[i] == c {
            return Some(i);
        }
        i = i + 1;
    }
    None
}

/// Whether `c` occurs in `s`.
pub fn contains_char(s: &[char], c: char) -> (b: bool)
    ensures
        b == has_char(s@, c),
{
    find_char(s, c).is_some()
}

/// The first whitespace position.
pub fn find_whitespace(s: &[char]) -> (found: Option<usize>)
    ensures
        found matches Some(at) ==> at < s@.len() && is_ws(s@[at as int]) && forall|k: int|
            0 <= k < at ==> !is_ws(#[trigger] s@[k]),
        found is None ==> forall|k: int| 0 <= k < s@.len() ==> !is_ws(#[trigger] s@[k]),
{
    let mut i: usize = 0;
    while i < s.len()
        invariant
            i <= s@.len(),
            forall|k: int| 0 <= k < i ==> !is_ws(#[trigger] s@[k]),
        decreases s.len() - i,
    {
        if is_whitespace(s[i]) {
            return Some(i);
        }
        i = i + 1;
    }
    None
}

/// The last whitespace position.
pub fn rfind_whitespace(s: &[char]) -> (found: Option<usize>)
    ensures
        found matches Some(at) ==> at < s@.len() && is_ws(s@[at as int]) && forall|k: int|
            at < k < s@.len() ==> !is_ws(#[trigger] s@[k]),
        found is None ==> forall|k: int| 0 <= k < s@.len() ==> !is_ws(#[trigger] s@[k]),
{
    let mut j: usize = s.len();
    while j > 0
        invariant
            j <= s@.len(),
            forall|k: int| j <= k < s@.len() ==> !is_ws(#[trigger] s@[k]),
        decreases j,
    {
        if is_whitespace(s[j - 1]) {
            return Some(j - 1);
        }
        j = j - 1;
    }
    None
}

pub open spec fn ascii_lower(c: char) -> char {
    if 'A' <= c <= 'Z' {
        ((c as u32) + 32) as char
    } else {
        c
    }
}

pub fn to_ascii_lower(c: char) -> (l: char)
    ensures
        l == ascii_lower(c),
{
    if 'A' <= c && c <= 'Z' {
        let u: u32 = (c as u32) + 32;
        char_of_ascii(u)
    } else {
        c
    }
}

/// The character with an ASCII code.
pub fn char_of_ascii(u: u32) -> (c: char)
    requires
        u < 128,
    ensures
        c == u as char,
        c as u32 == u,
{
    let b: u8 = u as u8;
    b as char
}

pub open spec fn lower_all(s: Seq<char>) -> Seq<char> {
    s.map_values(|c: char| ascii_lower(c))
}

pub fn lowered(s: &[char]) -> (l: Vec<char>)
    ensures
        l@ == lower_all(s@),
{
    let mut l: Vec<char> = Vec::new();
    let mut i: usize = 0;
    while i < s.len()
        invariant
            i <= s@.len(),
            l@ == lower_all(s@.subrange(0, i as int)),
        decreases s.len() - i,
    {
        l.push(to_ascii_lower(s[i]));
        proof {
            assert(lower_all(s@.subrange(0, i + 1)) =~= lower_all(s@.subrange(0, i as int)).push(
                ascii_lower(s@[i as int]),
            ));
        }
        i = i + 1;
    }
    assert(s@.subrange(0, s@.len() as int) =~= s@);
    l
}

/// Equal when ASCII letters are compared without case.
pub fn same_ignoring_ascii_case(a: &[char], b: &[char]) -> (equal: bool)
    ensures
        equal == (lower_all(a@) == lower_all(b@)),
{
    let la = lowered(a);
    let lb = lowered(b);
    same(&la, &lb)
}

} // verus!

verus! {

/// The first position whose character satisfies `f`, if any.
pub open spec fn first_where(s: Seq<char>, f: spec_fn(char) -> bool) -> Option<int> {
    if exists|i: int| is_first_where(s, f, i) {
        Some(choose|i: int| is_first_where(s, f, i))
    } else {
        None
    }
}

pub open spec fn is_last_where(s: Seq<char>, f: spec_fn(char) -> bool, at: int) -> bool {
    0 <= at < s.len() && f(s[at]) && forall|k: int| at < k < s.len() ==> !f(s[k])
}

/// The last position whose character satisfies `f`, if any.
pub open spec fn last_where(s: Seq<char>, f: spec_fn(char) -> bool) -> Option<int> {
    if exists|i: int| is_last_where(s, f, i) {
        Some(choose|i: int| is_last_where(s, f, i))
    } else {
        None
    }
}

pub proof fn lemma_first_where_is(s: Seq<char>, f: spec_fn(char) -> bool, at: int)
    requires
        is_first_where(s, f, at),
    ensures
        first_where(s, f) == Some(at),
{
    let c = choose|i: int| is_first_where(s, f, i);
    assert(is_first_where(s, f, c));
    if c < at {
        assert(!f(s[c]));
    } else if c > at {
        assert(!f(s[at]));
    }
}

pub proof fn lemma_first_where_none(s: Seq<char>, f: spec_fn(char) -> bool)
    requires
        forall|k: int| 0 <= k < s.len() ==> !f(#[trigger] s[k]),
    ensures
        first_where(s, f) is None,
{
}

pub proof fn lemma_last_where_is(s: Seq<char>, f: spec_fn(char) -> bool, at: int)
    requires
        is_last_where(s, f, at),
    ensures
        last_where(s, f) == Some(at),
{
    let c = choose|i: int| is_last_where(s, f, i);
    assert(is_last_where(s, f, c));
    if c < at {
        assert(!f(s[at]));
    } else if c > at {
        assert(!f(s[c]));
    }
}

pub proof fn lemma_last_where_none(s: Seq<char>, f: spec_fn(char) -> bool)
    requires
        forall|k: int| 0 <= k < s.len() ==> !f(#[trigger] s[k]),
    ensures
        last_where(s, f) is None,
{
}

pub open spec fn ws_pred() -> spec_fn(char) -> bool {
    |c: char| is_ws(c)
}

pub open spec fn char_pred(c: char) -> spec_fn(char) -> bool {
    |x: char| x == c
}

/// The first whitespace position, as `first_where` states it.
pub fn first_whitespace(s: &[char]) -> (found: Option<usize>)
    ensures
        found == match first_where(s@, ws_pred()) {
            Some(i) => Some(i as usize),
            None => None::<usize>,
        },
        found matches Some(i) ==> i < s@.len() && i < s.len(),
{
    match find_whitespace(s) {
        Some(i) => {
            proof {
                lemma_first_where_is(s@, ws_pred(), i as int);
            }
            Some(i)
        },
        None => {
            proof {
                lemma_first_where_none(s@, ws_pred());
            }
            None
        },
    }
}

/// The last whitespace position, as `last_where` states it.
pub fn last_whitespace(s: &[char]) -> (found: Option<usize>)
    ensures
        found == match last_where(s@, ws_pred()) {
            Some(i) => Some(i as usize),
            None => None::<usize>,
        },
        found matches Some(i) ==> i < s@.len() && i < s.len(),
{
    match rfind_whitespace(s) {
        Some(i) => {
            proof {
                lemma_last_where_is(s@, ws_pred(), i as int);
            }
            Some(i)
        },
        None => {
            proof {
                lemma_last_where_none(s@, ws_pred());
            }
            None
        },
    }
}

/// The first position of `c`, as `first_where` states it.
pub fn first_char(s: &[char], c: char) -> (found: Option<usize>)
    ensures
        found == match first_where(s@, char_pred(c)) {
            Some(i) => Some(i as usize),
            None => None::<usize>,
        },
        found matches Some(i) ==> i < s@.len() && i < s.len(),
{
    match find_char(s, c) {
        Some(i) => {
            proof {
                lemma_first_where_is(s@, char_pred(c), i as int);
            }
            Some(i)
        },
        None => {
            proof {
                lemma_first_where_none(s@, char_pred(c));
            }
            None
        },
    }
}

} // verus!

verus! {

/// `s` cut at every `c`, as `str::split` cuts it.
pub open spec fn split_on(s: Seq<char>, c: char) -> Seq<Seq<char>>
    decreases s.len(),
{
    if s.len() == 0 {
        seq![Seq::empty()]
    } else {
        let before = split_on(s.drop_last(), c);
        if s.last() == c {
            before.push(Seq::empty())
        } else {
            before.update(before.len() - 1, before.last().push(s.last()))
        }
    }
}

/// The parts joined by `sep`.
pub open spec fn joined(parts: Seq<Seq<char>>, sep: char) -> Seq<char>
    decreases parts.len(),
{
    if parts.len() == 0 {
        Seq::empty()
    } else if parts.len() == 1 {
        parts[0]
    } else {
        joined(parts.drop_last(), sep).push(sep) + parts.last()
    }
}

} // verus!

verus! {

pub proof fn lemma_joined_push(parts: Seq<Seq<char>>, p: Seq<char>, sep: char)
    ensures
        joined(parts.push(p), sep) == if parts.len() == 0 {
            p
        } else {
            joined(parts, sep).push(sep) + p
        },
{
    assert(parts.push(p).drop_last() =~= parts);
    if parts.len() == 0 {
        assert(parts.push(p)[0] == p);
    }
}

/// `a` sorts strictly before `b`, character by character.
pub open spec fn text_less(a: Seq<char>, b: Seq<char>) -> bool
    decreases a.len(),
{
    if a.len() == 0 {
        b.len() > 0
    } else if b.len() == 0 {
        false
    } else if a[0] != b[0] {
        (a[0] as u32) < (b[0] as u32)
    } else {
        text_less(a.drop_first(), b.drop_first())
    }
}

pub fn less(a: &[char], b: &[char]) -> (is_less: bool)
    ensures
        is_less == text_less(a@, b@),
{
    let mut i: usize = 0;
    assert(a@.subrange(0, a@.len() as int) =~= a@);
    assert(b@.subrange(0, b@.len() as int) =~= b@);
    while i < a.len() && i < b.len()
        invariant
            i <= a@.len(),
            i <= b@.len(),
            forall|j: int| 0 <= j < i ==> a@[j] == b@[j],
            text_less(a@, b@) == text_less(a@.subrange(i as int, a@.len() as int), b@.subrange(i as int, b@.len() as int)),
        decreases a.len() - i,
    {
        let ghost ra = a@.subrange(i as int, a@.len() as int);
        let ghost rb = b@.subrange(i as int, b@.len() as int);
        if a[i] != b[i] {
            return (a[i] as u32) < (b[i] as u32);
        }
        assert(ra.drop_first() =~= a@.subrange(i + 1, a@.len() as int));
        assert(rb.drop_first() =~= b@.subrange(i + 1, b@.len() as int));
        i = i + 1;
    }
    i == a.len() && i < b.len()
}

} // verus!
