use tinynats::store::{MessageBrokerStore, Subject, SubscriptionId};

#[test]
fn should_add_subscriber_to_cache() {
    let mut cache = MessageBrokerStore::new();
    cache
        .add_subscription(Subject("FOO".to_string()), SubscriptionId("10".to_string()))
        .unwrap();
    cache
        .add_subscription(Subject("FOO".to_string()), SubscriptionId("10".to_string()))
        .unwrap();
    cache
        .add_subscription(Subject("FOO".to_string()), SubscriptionId("10".to_string()))
        .unwrap();

    assert_eq!(
        1,
        cache
            .list_subscriptions(&Subject("FOO".to_string()))
            .unwrap()
            .len()
    )
}

#[test]
fn should_remove_subscriber_from_cache() {
    let mut cache = MessageBrokerStore::new();
    cache
        .add_subscription(Subject("FOO".to_string()), SubscriptionId("10".to_string()))
        .unwrap();
    cache
        .add_subscription(Subject("FOO".to_string()), SubscriptionId("11".to_string()))
        .unwrap();
    cache
        .remove_subscription(
            &Subject("FOO".to_string()),
            &SubscriptionId("10".to_string()),
        )
        .unwrap();

    assert_eq!(
        1,
        cache
            .list_subscriptions(&Subject("FOO".to_string()))
            .unwrap()
            .len()
    )
}

#[test]
fn should_report_whether_cache_insert_was_new() {
    let mut cache = MessageBrokerStore::new();
    assert!(cache
        .add_subscription(Subject("FOO".to_string()), SubscriptionId("10".to_string()))
        .unwrap());
    assert!(!cache
        .add_subscription(Subject("FOO".to_string()), SubscriptionId("10".to_string()))
        .unwrap());
}

#[test]
fn should_fail_cache_removal_for_unknown_subject() {
    let mut cache = MessageBrokerStore::new();
    assert!(cache
        .remove_subscription(
            &Subject("FOO".to_string()),
            &SubscriptionId("10".to_string()),
        )
        .is_err());
}

#[test]
fn should_list_nothing_for_unknown_subject() {
    let cache = MessageBrokerStore::new();
    assert_eq!(
        0,
        cache
            .list_subscriptions(&Subject("FOO".to_string()))
            .unwrap()
            .len()
    );
}
