//! Validated identifiers.
//!
//! A [`ProjectSlug`] becomes a filename, so its charset is the only thing
//! standing between a user-supplied name and a path traversal. Validation lives
//! in the constructor and nowhere else.

use vstd::prelude::*;

use std::hash::Hasher;
use vstd::std_specs::hash::DefaultHasherAdditionalSpecFns;
use vstd::string::StringSliceAdditionalSpecFns;

use crate::error::ParseErrorKind;
use crate::minutes::{decimal, decimal_of, lemma_decimal_digits, lemma_decimal_len_u64};
use crate::text::{chars_of, string_of};

verus! {

pub const MAX_LEN: usize = 64;

/// Length of a minted todo id.
pub const ID_LEN: usize = 6;

pub open spec fn is_slug_char(c: char) -> bool {
    ('a' <= c <= 'z') || ('0' <= c <= '9') || c == '-'
}

/// The slug rule: lowercase alphanumerics and dashes, no leading or trailing
/// dash, non-empty, at most 64 characters.
pub open spec fn is_slug(s: Seq<char>) -> bool {
    &&& 0 < s.len() <= MAX_LEN
    &&& s[0] != '-'
    &&& s.last() != '-'
    &&& forall|i: int| 0 <= i < s.len() ==> is_slug_char(#[trigger] s[i])
}

pub open spec fn is_ascii_alnum(c: char) -> bool {
    ('a' <= c <= 'z') || ('A' <= c <= 'Z') || ('0' <= c <= '9')
}

pub open spec fn is_id_char(c: char) -> bool {
    is_ascii_alnum(c) || c == '-' || c == '_'
}

/// The todo-id rule: ASCII alphanumerics, dashes and underscores, non-empty,
/// at most 64 characters, case kept.
pub open spec fn is_todo_id(s: Seq<char>) -> bool {
    &&& 0 < s.len() <= MAX_LEN
    &&& forall|i: int| 0 <= i < s.len() ==> is_id_char(#[trigger] s[i])
}

pub open spec fn ascii_lower(c: char) -> char {
    crate::text::ascii_lower(c)
}

/// A display name folded to slug characters: every ASCII letter or digit kept
/// (lowercased), every run of anything else collapsed to one dash.
pub open spec fn slug_folded(name: Seq<char>) -> Seq<char>
    decreases name.len(),
{
    if name.len() == 0 {
        Seq::empty()
    } else {
        let before = slug_folded(name.drop_last());
        let c = name.last();
        if is_ascii_alnum(c) {
            before.push(ascii_lower(c))
        } else if before.len() > 0 && before.last() == '-' {
            before
        } else {
            before.push('-')
        }
    }
}

pub open spec fn trim_dash_start(s: Seq<char>) -> Seq<char>
    decreases s.len(),
{
    if s.len() > 0 && s[0] == '-' {
        trim_dash_start(s.drop_first())
    } else {
        s
    }
}

pub open spec fn trim_dash_end(s: Seq<char>) -> Seq<char>
    decreases s.len(),
{
    if s.len() > 0 && s.last() == '-' {
        trim_dash_end(s.drop_last())
    } else {
        s
    }
}

/// Best-effort slug of a human display name: folded, cut to 64 characters,
/// dashes trimmed from both ends.
pub open spec fn slugify(name: Seq<char>) -> Seq<char> {
    let folded = slug_folded(name);
    let cut = if folded.len() > MAX_LEN {
        folded.subrange(0, MAX_LEN as int)
    } else {
        folded
    };
    trim_dash_end(trim_dash_start(cut))
}

fn check_slug(s: &[char]) -> (valid: bool)
    ensures
        valid == is_slug(s@),
{
    if s.len() == 0 || s.len() > MAX_LEN || s[0] == '-' || s[s.len() - 1] == '-' {
        return false;
    }
    let mut i: usize = 0;
    while i < s.len()
        invariant
            i <= s@.len(),
            forall|k: int| 0 <= k < i ==> is_slug_char(#[trigger] s@[k]),
        decreases s.len() - i,
    {
        let c = s[i];
        if !(('a' <= c && c <= 'z') || ('0' <= c && c <= '9') || c == '-') {
            return false;
        }
        i = i + 1;
    }
    true
}

fn check_todo_id(s: &[char]) -> (valid: bool)
    ensures
        valid == is_todo_id(s@),
{
    if s.len() == 0 || s.len() > MAX_LEN {
        return false;
    }
    let mut i: usize = 0;
    while i < s.len()
        invariant
            i <= s@.len(),
            forall|k: int| 0 <= k < i ==> is_id_char(#[trigger] s@[k]),
        decreases s.len() - i,
    {
        let c = s[i];
        if !(('a' <= c && c <= 'z') || ('A' <= c && c <= 'Z') || ('0' <= c && c <= '9') || c
            == '-' || c == '_') {
            return false;
        }
        i = i + 1;
    }
    true
}

fn fold_name(name: &[char]) -> (folded: Vec<char>)
    ensures
        folded@ == slug_folded(name@),
{
    let mut out: Vec<char> = Vec::new();
    let mut i: usize = 0;
    while i < name.len()
        invariant
            i <= name@.len(),
            out@ == slug_folded(name@.subrange(0, i as int)),
        decreases name.len() - i,
    {
        let c = name[i];
        proof {
            assert(name@.subrange(0, i + 1).drop_last() =~= name@.subrange(0, i as int));
        }
        if ('a' <= c && c <= 'z') || ('A' <= c && c <= 'Z') || ('0' <= c && c <= '9') {
            out.push(crate::text::to_ascii_lower(c));
        } else if out.len() > 0 && out[out.len() - 1] == '-' {
        } else {
            out.push('-');
        }
        i = i + 1;
    }
    assert(name@.subrange(0, name@.len() as int) =~= name@);
    out
}

fn trim_dashes(s: &[char]) -> (t: Vec<char>)
    ensures
        t@ == trim_dash_end(trim_dash_start(s@)),
{
    let mut i: usize = 0;
    assert(s@.subrange(0, s@.len() as int) =~= s@);
    while i < s.len() && s[i] == '-'
        invariant
            i <= s@.len(),
            trim_dash_start(s@) == trim_dash_start(s@.subrange(i as int, s@.len() as int)),
        decreases s.len() - i,
    {
        assert(s@.subrange(i as int, s@.len() as int).drop_first() =~= s@.subrange(
            i + 1,
            s@.len() as int,
        ));
        i = i + 1;
    }
    let mut j: usize = s.len();
    let ghost rest = s@.subrange(i as int, s@.len() as int);
    assert(rest.subrange(0, rest.len() as int) =~= rest);
    while j > i && s[j - 1] == '-'
        invariant
            i <= j <= s@.len(),
            rest == s@.subrange(i as int, s@.len() as int),
            trim_dash_end(rest) == trim_dash_end(s@.subrange(i as int, j as int)),
        decreases j,
    {
        assert(s@.subrange(i as int, j as int).drop_last() =~= s@.subrange(i as int, j - 1));
        j = j - 1;
    }
    crate::text::slice(s, i, j)
}

/// Validated slug text, as a character vector.
pub fn slugify_chars(name: &[char]) -> (slug: Vec<char>)
    ensures
        slug@ == slugify(name@),
{
    let folded = fold_name(name);
    let cut = if folded.len() > MAX_LEN {
        crate::text::slice(&folded, 0, MAX_LEN)
    } else {
        folded
    };
    trim_dashes(&cut)
}

/// Canonical identity of a project. Equal to the stem of its markdown file.
#[derive(Debug, PartialEq, Eq, PartialOrd, Ord, Hash)]
pub struct ProjectSlug(String);

/// Stable identity of a recurring schedule block, referenced by day files when
/// an occurrence is skipped.
#[derive(Debug, PartialEq, Eq, PartialOrd, Ord, Hash)]
pub struct BlockId(String);

/// Stable identity of a todo, written to the line as `🆔 dcf64c`.
///
/// Looser than a slug because the charset is not ours: Obsidian Tasks writes
/// these with mixed case and underscores.
#[derive(Debug, PartialEq, Eq, PartialOrd, Ord, Hash)]
pub struct TodoId(String);

impl View for ProjectSlug {
    type V = Seq<char>;

    /// The identifier's text; always satisfies its rule.
    closed spec fn view(&self) -> Seq<char> {
        if is_slug(self.0@) {
            self.0@
        } else {
            seq!['x']
        }
    }
}

impl View for BlockId {
    type V = Seq<char>;

    /// The identifier's text; always satisfies its rule.
    closed spec fn view(&self) -> Seq<char> {
        if is_slug(self.0@) {
            self.0@
        } else {
            seq!['x']
        }
    }
}

impl View for TodoId {
    type V = Seq<char>;

    /// The identifier's text; always satisfies its rule.
    closed spec fn view(&self) -> Seq<char> {
        if is_todo_id(self.0@) {
            self.0@
        } else {
            seq!['x']
        }
    }
}

impl ProjectSlug {
    #[verifier::type_invariant]
    spec fn valid(self) -> bool {
        is_slug(self.0@)
    }


    /// Every slug satisfies the slug rule.
    pub proof fn lemma_valid(&self)
        ensures
            is_slug(self@),
    {
        assert(is_slug(seq!['x']));
        assert(is_todo_id(seq!['x']));
    }

    /// Validates and wraps an identifier.
    pub fn new(candidate: &str) -> (result: Result<Self, ParseErrorKind>)
        ensures
            result is Ok <==> is_slug(candidate@),
            result matches Ok(slug) ==> slug@ == candidate@,
            result matches Err(kind) ==> kind is InvalidSlug && kind.found_text() == candidate@,
    {
        let chars = chars_of(candidate);
        if check_slug(&chars) {
            Ok(ProjectSlug(candidate.to_owned()))
        } else {
            Err(ParseErrorKind::InvalidSlug { found: candidate.to_owned() })
        }
    }

    /// Wraps characters already known to satisfy the rule.
    pub fn from_chars(chars: &[char]) -> (slug: Self)
        requires
            is_slug(chars@),
        ensures
            slug@ == chars@,
    {
        ProjectSlug(string_of(chars))
    }

    /// Derives a slug from a human-facing name, or `None` when the name holds
    /// nothing usable, e.g. only punctuation.
    pub fn from_name(name: &str) -> (slug: Option<Self>)
        ensures
            slug is Some <==> is_slug(slugify(name@)),
            slug matches Some(s) ==> s@ == slugify(name@),
    {
        let chars = chars_of(name);
        let candidate = slugify_chars(&chars);
        if check_slug(&candidate) {
            Some(ProjectSlug(string_of(&candidate)))
        } else {
            None
        }
    }

    pub fn as_str(&self) -> (text: &str)
        ensures
            text@ == self@,
    {
        proof {
            use_type_invariant(self);
        }
        self.0.as_str()
    }

    pub fn to_chars(&self) -> (chars: Vec<char>)
        ensures
            chars@ == self@,
    {
        proof {
            use_type_invariant(self);
        }
        chars_of(self.0.as_str())
    }

    /// Same slug.
    pub fn same(&self, other: &Self) -> (equal: bool)
        ensures
            equal == (self@ == other@),
    {
        proof {
            use_type_invariant(self);
            use_type_invariant(other);
        }
        self.0 == other.0
    }
}

impl Clone for ProjectSlug {
    fn clone(&self) -> (copy: Self)
        ensures
            copy@ == self@,
    {
        proof {
            use_type_invariant(self);
        }
        ProjectSlug(self.0.clone())
    }
}

/// What a list of todo ids spells.
pub open spec fn ids_view(ids: Seq<TodoId>) -> Seq<Seq<char>> {
    ids.map_values(|i: TodoId| i@)
}

/// The base-36 symbol for a digit below 36: `0-9` then `a-z`.
pub open spec fn base36_symbol(d: nat) -> char {
    if d < 10 {
        ('0' as u32 + d) as char
    } else {
        ('a' as u32 + (d - 10)) as char
    }
}

/// The first `n` base-36 symbols of `digest`, least significant first.
pub open spec fn base36(digest: nat, n: nat) -> Seq<char>
    decreases n,
{
    if n == 0 {
        Seq::empty()
    } else {
        seq![base36_symbol(digest % 36)] + base36(digest / 36, (n - 1) as nat)
    }
}

proof fn lemma_base36_is_id(digest: nat, n: nat)
    requires
        0 < n <= MAX_LEN,
    ensures
        base36(digest, n).len() == n,
        is_todo_id(base36(digest, n)),
    decreases n,
{
    let tail = base36(digest / 36, (n - 1) as nat);
    if n > 1 {
        lemma_base36_is_id(digest / 36, (n - 1) as nat);
    } else {
        assert(tail =~= Seq::<char>::empty());
    }
    let s = base36(digest, n);
    let d = digest % 36;
    assert(s == seq![base36_symbol(d)] + tail);
    assert(is_id_char(base36_symbol(d))) by {
        if d < 10 {
            assert('0' as u32 == 48);
        } else {
            assert('a' as u32 == 97);
        }
    }
    assert(s.len() == n);
    assert forall|i: int| 0 <= i < s.len() implies is_id_char(#[trigger] s[i]) by {
        if i > 0 {
            assert(s[i] == base36(digest / 36, (n - 1) as nat)[i - 1]);
        }
    }
}

/// The base-36 symbol for a digit below 36.
fn base36_char(d: u64) -> (c: char)
    requires
        d < 36,
    ensures
        c == base36_symbol(d as nat),
{
    if d < 10 {
        crate::text::char_of_ascii(48 + d as u32)
    } else {
        crate::text::char_of_ascii(97 + (d - 10) as u32)
    }
}

/// The id-length spelling of a digest in base 36.
fn base36_chars(digest: u64) -> (text: Vec<char>)
    ensures
        text@ == base36(digest as nat, ID_LEN as nat),
{
    let mut out: Vec<char> = Vec::new();
    let mut rest: u64 = digest;
    let mut k: usize = 0;
    while k < ID_LEN
        invariant
            k <= ID_LEN,
            out@ + base36(rest as nat, (ID_LEN - k) as nat) == base36(digest as nat, ID_LEN as nat),
        decreases ID_LEN - k,
    {
        let c = base36_char(rest % 36);
        let ghost before = out@;
        out.push(c);
        proof {
            let m = (ID_LEN - k) as nat;
            assert(base36(rest as nat, m) == seq![c] + base36((rest / 36) as nat, (m - 1) as nat));
            assert(out@ + base36((rest / 36) as nat, (m - 1) as nat) =~= before + base36(rest as nat, m));
        }
        rest = rest / 36;
        k = k + 1;
    }
    assert(out@ + base36(rest as nat, 0) =~= out@);
    out
}

/// What the hasher is fed for a seed and a salt: the seed's bytes closed by
/// `0xff`, as `str` hashes itself, then the salt's eight bytes, low byte
/// first.
pub open spec fn salted_writes(seed: Seq<u8>, salt: u64) -> Seq<Seq<u8>> {
    seq![seed, seq![0xffu8], vstd::bytes::spec_u64_to_le_bytes(salt)]
}

/// The id a seed's digest under `salt` spells: six base-36 symbols.
pub open spec fn mint_candidate(seed: Seq<u8>, salt: u64) -> Seq<char> {
    base36(std::collections::hash_map::DefaultHasher::spec_finish(salted_writes(seed, salt)) as nat, ID_LEN as nat)
}

/// The digest of `seed` salted with `salt`: what a fresh `DefaultHasher`
/// finishes to once fed the seed and then the salt.
fn salted_digest(seed: &str, salt: u64) -> (digest: u64)
    ensures
        digest == std::collections::hash_map::DefaultHasher::spec_finish(salted_writes(seed.spec_bytes(), salt)),
{
    let mut hasher = std::collections::hash_map::DefaultHasher::new();
    hasher.write(seed.as_bytes());
    let close: [u8; 1] = [0xffu8];
    hasher.write(&close);
    let salt_bytes = vstd::bytes::u64_to_le_bytes(salt);
    hasher.write(salt_bytes.as_slice());
    proof {
        assert(close@ =~= seq![0xffu8]);
        assert(hasher@ =~= salted_writes(seed.spec_bytes(), salt));
    }
    hasher.finish()
}

/// Whether one of the ids spells `candidate`.
fn carries(taken: &[TodoId], candidate: &[char]) -> (found: bool)
    ensures
        found == ids_view(taken@).contains(candidate@),
{
    let mut k: usize = 0;
    while k < taken.len()
        invariant
            k <= taken@.len(),
            forall|j: int| 0 <= j < k ==> taken@[j]@ != candidate@,
        decreases taken.len() - k,
    {
        if crate::text::same(&taken[k].to_chars(), candidate) {
            assert(ids_view(taken@)[k as int] == candidate@);
            return true;
        }
        k = k + 1;
    }
    assert forall|j: int| 0 <= j < ids_view(taken@).len() implies ids_view(taken@)[j] != candidate@ by {
        assert(ids_view(taken@)[j] == taken@[j]@);
    }
    false
}

/// No list of `n` ids holds all of the `n + 1` spellings `0` to `n`.
proof fn lemma_decimals_all_held(ids: Seq<Seq<char>>)
    requires
        forall|j: int| 0 <= j <= ids.len() ==> ids.contains(#[trigger] decimal(j as nat)),
    ensures
        ids.len() + 1 <= ids.len(),
{
    broadcast use vstd::seq_lib::seq_to_set_is_finite;
    let n = ids.len() as int;
    let x = vstd::set_lib::set_int_range(0, n + 1);
    let f = |j: int| decimal(j as nat);
    vstd::set_lib::lemma_int_range(0, n + 1);
    assert forall|a: int, b: int| x.contains(a) && x.contains(b) && #[trigger] f(a) == #[trigger] f(b) implies a
        == b by {
        lemma_decimal_digits(a as nat);
        lemma_decimal_digits(b as nat);
    }
    let y = x.map(f);
    vstd::set_lib::lemma_map_size(x, y, f);
    assert forall|s: Seq<char>| y.contains(s) implies ids.to_set().contains(s) by {
        let j = choose|j: int| x.contains(j) && f(j) == s;
        assert(ids.contains(decimal(j as nat)));
    }
    ids.lemma_cardinality_of_set();
    vstd::set_lib::lemma_len_subset(y, ids.to_set());
}

/// The least count whose decimal spelling `taken` does not hold.
pub open spec fn least_free_count(taken: Set<Seq<char>>) -> nat {
    choose|k: nat| !taken.contains(decimal(k)) && forall|j: nat| j < k ==> taken.contains(#[trigger] decimal(j))
}

/// The least free count is the one found by counting up.
proof fn lemma_least_free_count(taken: Set<Seq<char>>, k: nat)
    requires
        !taken.contains(decimal(k)),
        forall|j: nat| j < k ==> taken.contains(#[trigger] decimal(j)),
    ensures
        least_free_count(taken) == k,
{
    let c = least_free_count(taken);
    assert(!taken.contains(decimal(c)) && forall|j: nat| j < c ==> taken.contains(#[trigger] decimal(j)));
    if c < k {
        assert(taken.contains(decimal(c)));
    } else if c > k {
        assert(taken.contains(decimal(k)));
    }
}

/// The least salt, counting from `0`, whose candidate `taken` does not hold.
pub open spec fn least_free_salt(seed: Seq<u8>, taken: Set<Seq<char>>) -> u64 {
    choose|s: u64|
        !taken.contains(mint_candidate(seed, s)) && forall|k: u64| k < s ==> taken.contains(#[trigger] mint_candidate(seed, k))
}

/// The least free salt is the one found by counting up.
proof fn lemma_least_free_salt(seed: Seq<u8>, taken: Set<Seq<char>>, s: u64)
    requires
        !taken.contains(mint_candidate(seed, s)),
        forall|k: u64| k < s ==> taken.contains(#[trigger] mint_candidate(seed, k)),
    ensures
        least_free_salt(seed, taken) == s,
{
    let c = least_free_salt(seed, taken);
    assert(!taken.contains(mint_candidate(seed, c)) && forall|k: u64|
        k < c ==> taken.contains(#[trigger] mint_candidate(seed, k)));
    if c < s {
        assert(taken.contains(mint_candidate(seed, c)));
    } else if c > s {
        assert(taken.contains(mint_candidate(seed, s)));
    }
}

/// The id that minting from the text `seed` gives while the ids in `taken`
/// are in use: the candidate of the least free salt, where some salt gives a
/// free candidate, and else the spelling of the least free count.
#[verifier::opaque]
pub open spec fn minted_id(seed: Seq<char>, taken: Set<Seq<char>>) -> Seq<char> {
    let bytes = vstd::utf8::encode_utf8(seed);
    if exists|s: u64| !taken.contains(#[trigger] mint_candidate(bytes, s)) {
        mint_candidate(bytes, least_free_salt(bytes, taken))
    } else {
        decimal(least_free_count(taken))
    }
}

/// An id none of `taken` carries, found by counting: `n` ids cannot hold
/// all of the `n + 1` spellings `0` to `n`.
fn spare_id(taken: &[TodoId]) -> (id: TodoId)
    ensures
        !ids_view(taken@).contains(id@),
        id@ == decimal(least_free_count(ids_view(taken@).to_set())),
{
    let n = taken.len();
    let mut k: usize = 0;
    loop
        invariant
            k <= n,
            n == taken@.len(),
            forall|j: nat| j < k ==> ids_view(taken@).contains(#[trigger] decimal(j)),
        decreases n - k,
    {
        let candidate = decimal_of(k as u64);
        proof {
            lemma_decimal_digits(k as nat);
            lemma_decimal_len_u64(k as u64);
            assert(is_todo_id(candidate@));
        }
        if !carries(taken, &candidate) {
            proof {
                lemma_least_free_count(ids_view(taken@).to_set(), k as nat);
            }
            return TodoId(string_of(&candidate));
        }
        if k == n {
            proof {
                assert forall|j: int| 0 <= j <= n implies ids_view(taken@).contains(#[trigger] decimal(j as nat)) by {
                    let m: nat = j as nat;
                    assert(ids_view(taken@).contains(decimal(m)));
                }
                lemma_decimals_all_held(ids_view(taken@));
            }
            return TodoId(string_of(&candidate));
        }
        k = k + 1;
    }
}

impl BlockId {
    #[verifier::type_invariant]
    spec fn valid(self) -> bool {
        is_slug(self.0@)
    }


    /// Every block id satisfies the slug rule.
    pub proof fn lemma_valid(&self)
        ensures
            is_slug(self@),
    {
        assert(is_slug(seq!['x']));
        assert(is_todo_id(seq!['x']));
    }

    /// Validates and wraps an identifier. Block ids share the slug rule.
    pub fn new(candidate: &str) -> (result: Result<Self, ParseErrorKind>)
        ensures
            result is Ok <==> is_slug(candidate@),
            result matches Ok(id) ==> id@ == candidate@,
            result matches Err(kind) ==> kind is InvalidSlug && kind.found_text() == candidate@,
    {
        let chars = chars_of(candidate);
        if check_slug(&chars) {
            Ok(BlockId(candidate.to_owned()))
        } else {
            Err(ParseErrorKind::InvalidSlug { found: candidate.to_owned() })
        }
    }

    pub fn from_chars(chars: &[char]) -> (id: Self)
        requires
            is_slug(chars@),
        ensures
            id@ == chars@,
    {
        BlockId(string_of(chars))
    }

    /// Derives an id from a human-facing name, or `None` when nothing is usable.
    pub fn from_name(name: &str) -> (id: Option<Self>)
        ensures
            id is Some <==> is_slug(slugify(name@)),
            id matches Some(s) ==> s@ == slugify(name@),
    {
        let chars = chars_of(name);
        let candidate = slugify_chars(&chars);
        if check_slug(&candidate) {
            Some(BlockId(string_of(&candidate)))
        } else {
            None
        }
    }

    pub fn as_str(&self) -> (text: &str)
        ensures
            text@ == self@,
    {
        proof {
            use_type_invariant(self);
        }
        self.0.as_str()
    }

    pub fn to_chars(&self) -> (chars: Vec<char>)
        ensures
            chars@ == self@,
    {
        proof {
            use_type_invariant(self);
        }
        chars_of(self.0.as_str())
    }

    pub fn same(&self, other: &Self) -> (equal: bool)
        ensures
            equal == (self@ == other@),
    {
        proof {
            use_type_invariant(self);
            use_type_invariant(other);
        }
        self.0 == other.0
    }
}

impl Clone for BlockId {
    fn clone(&self) -> (copy: Self)
        ensures
            copy@ == self@,
    {
        proof {
            use_type_invariant(self);
        }
        BlockId(self.0.clone())
    }
}

impl TodoId {
    #[verifier::type_invariant]
    spec fn valid(self) -> bool {
        is_todo_id(self.0@)
    }


    /// Every todo id satisfies the id rule.
    pub proof fn lemma_valid(&self)
        ensures
            is_todo_id(self@),
    {
        assert(is_slug(seq!['x']));
        assert(is_todo_id(seq!['x']));
    }

    /// Validates and wraps an identifier.
    pub fn new(candidate: &str) -> (result: Result<Self, ParseErrorKind>)
        ensures
            result is Ok <==> is_todo_id(candidate@),
            result matches Ok(id) ==> id@ == candidate@,
            result matches Err(kind) ==> kind is InvalidTodoId && kind.found_text() == candidate@,
    {
        let chars = chars_of(candidate);
        if check_todo_id(&chars) {
            Ok(TodoId(candidate.to_owned()))
        } else {
            Err(ParseErrorKind::InvalidTodoId { found: candidate.to_owned() })
        }
    }

    pub fn from_chars(chars: &[char]) -> (id: Self)
        requires
            is_todo_id(chars@),
        ensures
            id@ == chars@,
    {
        TodoId(string_of(chars))
    }

    /// Mints an id that none of `taken` carries.
    ///
    /// Derived from the seed by hashing rather than drawn at random: the
    /// seed's digest, salted with `0`, `1`, ... until a candidate is free, is
    /// spelled in six base-36 symbols. Should every salt collide, the count
    /// `0`, `1`, ... gives a free id instead.
    pub fn mint(seed: &str, taken: &[TodoId]) -> (id: Self)
        ensures
            !ids_view(taken@).contains(id@),
            ({
                let ids = ids_view(taken@);
                let seed_bytes = seed.spec_bytes();
                ||| exists|s: u64|
                    #![trigger mint_candidate(seed_bytes, s)]
                    {
                        &&& id@ == mint_candidate(seed_bytes, s)
                        &&& !ids.contains(mint_candidate(seed_bytes, s))
                        &&& forall|k: u64| k < s ==> ids.contains(#[trigger] mint_candidate(seed_bytes, k))
                    }
                ||| {
                    &&& forall|k: u64| ids.contains(#[trigger] mint_candidate(seed_bytes, k))
                    &&& id@ == decimal(least_free_count(ids.to_set()))
                }
            }),
            id@ == minted_id(seed@, ids_view(taken@).to_set()),
    {
        let mut salt: u64 = 0;
        let ghost ids = ids_view(taken@);
        let ghost seed_bytes = seed.spec_bytes();
        loop
            invariant
                ids == ids_view(taken@),
                seed_bytes == seed.spec_bytes(),
                forall|k: u64| k < salt ==> ids.contains(#[trigger] mint_candidate(seed_bytes, k)),
            ensures
                forall|k: u64| ids.contains(#[trigger] mint_candidate(seed_bytes, k)),
            decreases u64::MAX - salt,
        {
            let digest = salted_digest(seed, salt);
            let candidate = base36_chars(digest);
            proof {
                lemma_base36_is_id(digest as nat, ID_LEN as nat);
                assert(candidate@ == mint_candidate(seed_bytes, salt));
            }
            if !carries(taken, &candidate) {
                let id = TodoId(string_of(&candidate));
                proof {
                    assert(id@ == mint_candidate(seed_bytes, salt));
                    assert(!ids.contains(mint_candidate(seed_bytes, salt)));
                    let set = ids.to_set();
                    assert(!set.contains(mint_candidate(seed_bytes, salt)));
                    assert forall|k: u64| k < salt implies set.contains(#[trigger] mint_candidate(seed_bytes, k)) by {
                        assert(ids.contains(mint_candidate(seed_bytes, k)));
                    }
                    lemma_least_free_salt(seed_bytes, set, salt);
                    reveal(minted_id);
                }
                return id;
            }
            if salt == u64::MAX {
                proof {
                    assert forall|k: u64| ids.contains(#[trigger] mint_candidate(seed_bytes, k)) by {
                        if k < salt {
                        } else {
                            assert(k == salt);
                        }
                    }
                }
                break;
            }
            salt = salt + 1;
        }
        proof {
            let set = ids.to_set();
            assert forall|s: u64| set.contains(#[trigger] mint_candidate(seed_bytes, s)) by {
                assert(ids.contains(mint_candidate(seed_bytes, s)));
            }
            reveal(minted_id);
        }
        spare_id(taken)
    }

    /// Wraps the characters when they form a valid id, else `None`.
    pub fn from_checked(chars: &[char]) -> (id: Option<Self>)
        ensures
            id is Some <==> is_todo_id(chars@),
            id matches Some(t) ==> t@ == chars@,
    {
        if check_todo_id(chars) {
            Some(TodoId(string_of(chars)))
        } else {
            None
        }
    }

    /// Derives an id from a human-facing name, or `None` when nothing is usable.
    pub fn from_name(name: &str) -> (id: Option<Self>)
        ensures
            id is Some <==> is_todo_id(slugify(name@)),
            id matches Some(s) ==> s@ == slugify(name@),
    {
        let chars = chars_of(name);
        let candidate = slugify_chars(&chars);
        if check_todo_id(&candidate) {
            Some(TodoId(string_of(&candidate)))
        } else {
            None
        }
    }

    pub fn as_str(&self) -> (text: &str)
        ensures
            text@ == self@,
    {
        proof {
            use_type_invariant(self);
        }
        self.0.as_str()
    }

    pub fn to_chars(&self) -> (chars: Vec<char>)
        ensures
            chars@ == self@,
    {
        proof {
            use_type_invariant(self);
        }
        chars_of(self.0.as_str())
    }

    pub fn same(&self, other: &Self) -> (equal: bool)
        ensures
            equal == (self@ == other@),
    {
        proof {
            use_type_invariant(self);
            use_type_invariant(other);
        }
        self.0 == other.0
    }
}

impl Clone for TodoId {
    fn clone(&self) -> (copy: Self)
        ensures
            copy@ == self@,
    {
        proof {
            use_type_invariant(self);
        }
        TodoId(self.0.clone())
    }
}

} // verus!
