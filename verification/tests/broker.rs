use tinynats::store::message_broker::{
    MessageBrokerStore, SinkHandle, Subject, SubscriptionId,
};

fn foo() -> Subject {
    Subject("FOO".to_string())
}

#[test]
fn should_register_and_fan_out_one_delivery() {
    let mut store = MessageBrokerStore::new();
    assert!(store
        .add_subscription(foo(), SubscriptionId(1), SinkHandle(100))
        .unwrap());

    let deliveries = store.publish_to_sub(foo(), "Hello John!".to_string());
    assert_eq!(1, deliveries.len());
    assert_eq!(1, deliveries[0].sid.0);
    assert_eq!(100, deliveries[0].sink.0);
    assert_eq!("-MSG FOO 1 11\r\nHello John!\r\n", deliveries[0].message);
}

#[test]
fn should_treat_resubscribe_as_idempotent() {
    let mut store = MessageBrokerStore::new();
    assert!(store
        .add_subscription(foo(), SubscriptionId(1), SinkHandle(100))
        .unwrap());
    assert!(!store
        .add_subscription(foo(), SubscriptionId(1), SinkHandle(100))
        .unwrap());

    // still exactly one delivery, not two
    let deliveries = store.publish_to_sub(foo(), "hi".to_string());
    assert_eq!(1, deliveries.len());
}

#[test]
fn should_remove_sid_from_every_subject() {
    let mut store = MessageBrokerStore::new();
    store
        .add_subscription(foo(), SubscriptionId(7), SinkHandle(100))
        .unwrap();
    store
        .add_subscription(Subject("BAR".to_string()), SubscriptionId(7), SinkHandle(100))
        .unwrap();

    assert_eq!(Ok(true), store.remove_subscription(SubscriptionId(7)));
    assert_eq!(0, store.publish_to_sub(foo(), "x".to_string()).len());
    assert_eq!(
        0,
        store
            .publish_to_sub(Subject("BAR".to_string()), "x".to_string())
            .len()
    );

    // a second removal reports not-found instead of crashing
    assert!(store.remove_subscription(SubscriptionId(7)).is_err());
}

#[test]
fn should_publish_to_empty_subject_as_no_op() {
    let store = MessageBrokerStore::new();
    let deliveries = store.publish_to_sub(foo(), "anything".to_string());
    assert_eq!(0, deliveries.len());
}

#[test]
fn should_fan_out_to_each_subscriber_once() {
    let mut store = MessageBrokerStore::new();
    store
        .add_subscription(foo(), SubscriptionId(1), SinkHandle(100))
        .unwrap();
    store
        .add_subscription(foo(), SubscriptionId(2), SinkHandle(200))
        .unwrap();

    let deliveries = store.publish_to_sub(foo(), "hey".to_string());
    assert_eq!(2, deliveries.len());
    assert_ne!(deliveries[0].sid.0, deliveries[1].sid.0);
    assert_eq!("-MSG FOO 1 3\r\nhey\r\n", deliveries[0].message);
    assert_eq!("-MSG FOO 2 3\r\nhey\r\n", deliveries[1].message);
}

#[test]
fn should_count_payload_bytes_not_characters() {
    let mut store = MessageBrokerStore::new();
    store
        .add_subscription(foo(), SubscriptionId(1), SinkHandle(100))
        .unwrap();
    // a two-byte UTF-8 character: the advertised length counts bytes
    let deliveries = store.publish_to_sub(foo(), "\u{e9}".to_string());
    assert_eq!("-MSG FOO 1 2\r\n\u{e9}\r\n", deliveries[0].message);
}
