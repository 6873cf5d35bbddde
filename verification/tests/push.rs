use timemd::push::{subscribe, unsubscribe, Subscription};

fn subscription(endpoint: &str) -> Subscription {
    Subscription {
        endpoint: endpoint.to_owned(),
        p256dh: "public-key".to_owned(),
        auth: "auth-secret".to_owned(),
    }
}

#[test]
fn resubscribing_the_same_endpoint_replaces_rather_than_duplicates() {
    let mut subscriptions = Vec::new();
    subscribe(&mut subscriptions, subscription("https://push.example/1"));
    subscribe(
        &mut subscriptions,
        Subscription { p256dh: "rotated".to_owned(), ..subscription("https://push.example/1") },
    );

    assert_eq!(subscriptions.len(), 1);
    assert_eq!(subscriptions[0].p256dh, "rotated");
}

#[test]
fn unsubscribing_is_idempotent() {
    let mut subscriptions = Vec::new();
    subscribe(&mut subscriptions, subscription("https://push.example/1"));

    assert!(unsubscribe(&mut subscriptions, "https://push.example/1"));
    assert!(!unsubscribe(&mut subscriptions, "https://push.example/1"));
    assert!(subscriptions.is_empty());
}

#[test]
fn a_second_endpoint_is_added_after_the_first() {
    let mut subscriptions = Vec::new();
    subscribe(&mut subscriptions, subscription("https://push.example/1"));
    subscribe(&mut subscriptions, subscription("https://push.example/2"));
    assert_eq!(subscriptions.len(), 2);
    assert_eq!(subscriptions[1].endpoint, "https://push.example/2");
}
