//! Why a link read off the front of a text does not depend on what follows
//! the link.

use vstd::prelude::*;

use crate::grammar::{wikilink_parts, wikilink_text};
use crate::ids::is_slug;
use crate::session_line::lemma_first_occurrence_at;
use crate::text::{first_occurrence, occurs_at, starts_with, trim_start};

verus! {

/// The slug of a leading `[[slug]]`, if there is one.
pub open spec fn link_slug(s: Seq<char>) -> Option<Seq<char>> {
    if starts_with(s, seq!['[', '[']) {
        let rest = s.subrange(2, s.len() as int);
        match first_occurrence(rest, seq![']', ']']) {
            Some(c) => if is_slug(rest.subrange(0, c)) {
                Some(rest.subrange(0, c))
            } else {
                None
            },
            None => None,
        }
    } else {
        None
    }
}

/// The link a text is read as is its leading slug.
pub proof fn lemma_link_slug(s: Seq<char>)
    ensures
        wikilink_parts(s).0 == link_slug(s),
{
}

/// Where a pattern occurs, it occurs a first time.
pub proof fn lemma_occurrence_least(s: Seq<char>, pat: Seq<char>, at: int)
    requires
        occurs_at(s, pat, at),
    ensures
        first_occurrence(s, pat) matches Some(m) && occurs_at(s, pat, m) && m <= at && forall|k: int|
            0 <= k < m ==> !occurs_at(s, pat, k),
    decreases at,
{
    reveal(first_occurrence);
    if exists|k: int| 0 <= k < at && occurs_at(s, pat, k) {
        let k = choose|k: int| 0 <= k < at && occurs_at(s, pat, k);
        lemma_occurrence_least(s, pat, k);
    } else {
        lemma_first_occurrence_at(s, pat, at);
    }
}

/// A pattern found in a text is first found at the same place in anything
/// that text begins.
#[verifier::rlimit(50)]
proof fn lemma_occurrence_prefix(rt: Seq<char>, u: Seq<char>, pat: Seq<char>)
    requires
        first_occurrence(rt, pat) is Some,
    ensures
        first_occurrence(rt + u, pat) == first_occurrence(rt, pat),
        occurs_at(rt, pat, first_occurrence(rt, pat)->0),
{
    let rr = rt + u;
    let c = first_occurrence(rt, pat)->0;
    assert(exists|at: int| occurs_at(rt, pat, at)) by {
        reveal(first_occurrence);
    }
    let w = choose|at: int| occurs_at(rt, pat, at);
    lemma_occurrence_least(rt, pat, w);
    let n = pat.len() as int;
    assert(occurs_at(rr, pat, c)) by {
        assert(rr.subrange(c, c + n) =~= rt.subrange(c, c + n));
    }
    assert forall|k: int| 0 <= k < c implies !occurs_at(rr, pat, k) by {
        if occurs_at(rr, pat, k) {
            assert(rt.subrange(k, k + n) =~= rr.subrange(k, k + n));
            assert(occurs_at(rt, pat, k));
        }
    }
    lemma_first_occurrence_at(rr, pat, c);
}

/// A leading link of a text is the leading link of anything that text
/// begins.
pub proof fn lemma_link_prefix(t: Seq<char>, u: Seq<char>)
    requires
        link_slug(t) is Some,
    ensures
        link_slug(t + u) == link_slug(t),
{
    let pat = seq![']', ']'];
    let r = t + u;
    let rt = t.subrange(2, t.len() as int);
    assert(r.subrange(0, 2) =~= t.subrange(0, 2));
    assert(r.subrange(2, r.len() as int) =~= rt + u);
    lemma_occurrence_prefix(rt, u, pat);
    let c = first_occurrence(rt, pat)->0;
    assert((rt + u).subrange(0, c) =~= rt.subrange(0, c));
}

/// A found pattern occurs where it is found, and nowhere before.
pub proof fn lemma_first_found(s: Seq<char>, pat: Seq<char>)
    requires
        first_occurrence(s, pat) is Some,
    ensures
        occurs_at(s, pat, first_occurrence(s, pat)->0),
        forall|k: int| 0 <= k < first_occurrence(s, pat)->0 ==> !occurs_at(s, pat, k),
{
    assert(exists|at: int| occurs_at(s, pat, at)) by {
        reveal(first_occurrence);
    }
    let w = choose|at: int| occurs_at(s, pat, at);
    lemma_occurrence_least(s, pat, w);
}

/// A text that holds no `]` after a link-holding text leaves its link alone.
pub proof fn lemma_link_before(t: Seq<char>, l: Seq<char>)
    requires
        link_slug(t + l) is Some,
        forall|j: int| 0 <= j < l.len() ==> #[trigger] l[j] != ']',
    ensures
        link_slug(t) == link_slug(t + l),
{
    let pat = seq![']', ']'];
    let x = t + l;
    let rest = x.subrange(2, x.len() as int);
    lemma_first_found(rest, pat);
    let c = first_occurrence(rest, pat)->0;
    assert(rest[c + 1] == ']');
    assert(x[c + 3] == rest[c + 1]);
    if c + 3 >= t.len() {
        assert(x[c + 3] == l[c + 3 - t.len()]);
    }
    assert(t.subrange(0, 2) =~= x.subrange(0, 2));
    let rt = t.subrange(2, t.len() as int);
    assert(rest =~= rt + l);
    assert(occurs_at(rt, pat, c)) by {
        assert(rt.subrange(c, c + 2) =~= rest.subrange(c, c + 2));
    }
    lemma_occurrence_least(rt, pat, c);
    lemma_occurrence_prefix(rt, l, pat);
    assert(rest.subrange(0, c) =~= rt.subrange(0, c));
}

/// A link written before a text reads back as that project, leaving the
/// text: `[[slug]] ` then a text with no leading blank reads as the slug and
/// the text. Without a project nothing is written.
pub proof fn law_link_round_trip(slug: Seq<char>, rest: Seq<char>)
    requires
        is_slug(slug),
        trim_start(rest) == rest,
    ensures
        wikilink_text(None) == Seq::<char>::empty(),
        wikilink_parts(wikilink_text(Some(slug)) + rest) == (Some(slug), rest),
{
    let link = seq!['[', '['] + slug + seq![']', ']'];
    let after = seq![' '] + rest;
    assert(wikilink_text(Some(slug)) + rest =~= link + after);
    crate::session_line::lemma_link_read(slug, after);
    assert(crate::text::is_ws(' '));
    assert(after.drop_first() =~= rest);
    assert(trim_start(after) == trim_start(after.drop_first()));
}

} // verus!
