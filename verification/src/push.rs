//! `data/state/push.md`: the browsers subscribed to web push.

use vstd::prelude::*;

use crate::text::{chars_of, same};

verus! {

/// One browser's push subscription, as handed over by the Push API.
#[derive(Debug, PartialEq, Eq)]
pub struct Subscription {
    pub endpoint: String,
    /// The client's public key, base64url.
    pub p256dh: String,
    /// The client's auth secret, base64url.
    pub auth: String,
}

pub open spec fn subscription_view(s: Subscription) -> (Seq<char>, Seq<char>, Seq<char>) {
    (s.endpoint@, s.p256dh@, s.auth@)
}

pub open spec fn subscriptions_view(v: Seq<Subscription>) -> Seq<(Seq<char>, Seq<char>, Seq<char>)> {
    v.map_values(|s: Subscription| subscription_view(s))
}

/// The first subscription for this endpoint.
pub open spec fn endpoint_position(v: Seq<(Seq<char>, Seq<char>, Seq<char>)>, endpoint: Seq<char>) -> Option<int>
    decreases v.len(),
{
    if v.len() == 0 {
        None
    } else {
        match endpoint_position(v.drop_last(), endpoint) {
            Some(i) => Some(i),
            None => if v.last().0 == endpoint {
                Some(v.len() - 1)
            } else {
                None
            },
        }
    }
}

/// `v` without the subscriptions for this endpoint.
pub open spec fn without_endpoint(v: Seq<(Seq<char>, Seq<char>, Seq<char>)>, endpoint: Seq<char>) -> Seq<(Seq<char>, Seq<char>, Seq<char>)>
    decreases v.len(),
{
    if v.len() == 0 {
        v
    } else if v.last().0 == endpoint {
        without_endpoint(v.drop_last(), endpoint)
    } else {
        without_endpoint(v.drop_last(), endpoint).push(v.last())
    }
}

/// Dropping an endpoint leaves none of its subscriptions, and dropping it
/// again changes nothing and finds nothing: unsubscribing is idempotent.
pub proof fn law_unsubscribe_idempotent(v: Seq<(Seq<char>, Seq<char>, Seq<char>)>, endpoint: Seq<char>)
    ensures
        endpoint_position(without_endpoint(v, endpoint), endpoint) is None,
        without_endpoint(without_endpoint(v, endpoint), endpoint) == without_endpoint(v, endpoint),
    decreases v.len(),
{
    if v.len() > 0 {
        law_unsubscribe_idempotent(v.drop_last(), endpoint);
        let w = without_endpoint(v.drop_last(), endpoint);
        if v.last().0 != endpoint {
            let p = w.push(v.last());
            assert(p.drop_last() =~= w);
            assert(p.last() == v.last());
        }
    }
}

impl Clone for Subscription {
    fn clone(&self) -> (copy: Self)
        ensures
            subscription_view(copy) == subscription_view(*self),
    {
        Subscription { endpoint: self.endpoint.clone(), p256dh: self.p256dh.clone(), auth: self.auth.clone() }
    }
}

fn find_endpoint(subscriptions: &Vec<Subscription>, endpoint: &str) -> (found: Option<usize>)
    ensures
        match found {
            Some(i) => endpoint_position(subscriptions_view(subscriptions@), endpoint@) == Some(i as int)
                && i < subscriptions@.len(),
            None => endpoint_position(subscriptions_view(subscriptions@), endpoint@) is None,
        },
{
    let target = chars_of(endpoint);
    let ghost v = subscriptions_view(subscriptions@);
    let mut k: usize = 0;
    while k < subscriptions.len()
        invariant
            k <= subscriptions@.len(),
            v == subscriptions_view(subscriptions@),
            target@ == endpoint@,
            endpoint_position(v.subrange(0, k as int), endpoint@) is None,
        decreases subscriptions.len() - k,
    {
        proof {
            assert(v.subrange(0, k + 1).drop_last() =~= v.subrange(0, k as int));
        }
        let candidate = chars_of(subscriptions[k].endpoint.as_str());
        assert(candidate@ == v[k as int].0);
        if same(&candidate, &target) {
            proof {
                lemma_position_prefix(v, endpoint@, k as int);
            }
            return Some(k);
        }
        k = k + 1;
    }
    assert(v.subrange(0, k as int) =~= v);
    None
}

proof fn lemma_position_prefix(v: Seq<(Seq<char>, Seq<char>, Seq<char>)>, endpoint: Seq<char>, k: int)
    requires
        0 <= k < v.len(),
        endpoint_position(v.subrange(0, k), endpoint) is None,
        v[k].0 == endpoint,
    ensures
        endpoint_position(v, endpoint) == Some(k),
    decreases v.len(),
{
    if k + 1 < v.len() {
        assert(v.drop_last().subrange(0, k) =~= v.subrange(0, k));
        lemma_position_prefix(v.drop_last(), endpoint, k);
    } else {
        assert(v.drop_last() =~= v.subrange(0, k));
    }
}

/// Adds a subscription, replacing an earlier one for the same endpoint:
/// browsers re-issue a subscription after a key rotation, and upserting is
/// what keeps one device from collecting rows.
pub fn subscribe(subscriptions: &mut Vec<Subscription>, subscription: Subscription)
    ensures
        subscriptions_view(final(subscriptions)@) == match endpoint_position(
            subscriptions_view(old(subscriptions)@),
            subscription.endpoint@,
        ) {
            Some(i) => subscriptions_view(old(subscriptions)@).update(i, subscription_view(subscription)),
            None => subscriptions_view(old(subscriptions)@).push(subscription_view(subscription)),
        },
{
    let ghost before = subscriptions_view(subscriptions@);
    let ghost added = subscription_view(subscription);
    match find_endpoint(subscriptions, subscription.endpoint.as_str()) {
        Some(i) => {
            subscriptions.set(i, subscription);
            assert(subscriptions_view(subscriptions@) =~= before.update(i as int, added));
        },
        None => {
            subscriptions.push(subscription);
            assert(subscriptions_view(subscriptions@) =~= before.push(added));
        },
    }
}

/// Drops every subscription for an endpoint, reporting whether there was one.
pub fn unsubscribe(subscriptions: &mut Vec<Subscription>, endpoint: &str) -> (removed: bool)
    ensures
        subscriptions_view(final(subscriptions)@) == without_endpoint(subscriptions_view(old(subscriptions)@), endpoint@),
        removed == (endpoint_position(subscriptions_view(old(subscriptions)@), endpoint@) is Some),
{
    let found = find_endpoint(subscriptions, endpoint);
    let target = chars_of(endpoint);
    let ghost all = subscriptions_view(subscriptions@);
    let mut kept: Vec<Subscription> = Vec::new();
    let mut k: usize = 0;
    while k < subscriptions.len()
        invariant
            k <= subscriptions@.len(),
            all == subscriptions_view(subscriptions@),
            target@ == endpoint@,
            subscriptions_view(kept@) == without_endpoint(all.subrange(0, k as int), endpoint@),
        decreases subscriptions.len() - k,
    {
        proof {
            assert(all.subrange(0, k + 1).drop_last() =~= all.subrange(0, k as int));
        }
        let candidate = chars_of(subscriptions[k].endpoint.as_str());
        if !same(&candidate, &target) {
            let ghost before = subscriptions_view(kept@);
            let copy = subscriptions[k].clone();
            kept.push(copy);
            assert(subscriptions_view(kept@) =~= before.push(all[k as int]));
        }
        k = k + 1;
    }
    assert(all.subrange(0, all.len() as int) =~= all);
    *subscriptions = kept;
    found.is_some()
}

} // verus!
