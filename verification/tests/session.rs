use tinynats::codec::{CodecEvent, FrameCodec, StepOutcome};
use tinynats::session::{dispatch_command, process_event, SessionOutput};
use tinynats::nats::commands::Command;
use tinynats::store::message_broker::{Delivery, MessageBrokerStore, SinkHandle};

/// Feeds one raw read into a per-connection codec and dispatches every
/// completed frame, as a connection's event loop would; returns the
/// responses for that client and the fan-out deliveries.
fn pump(
    codec: &mut FrameCodec,
    store: &mut MessageBrokerStore,
    sink: SinkHandle,
    data: &[u8],
) -> (Vec<String>, Vec<Delivery>) {
    codec.feed(data);
    let mut responses = Vec::new();
    let mut deliveries = Vec::new();
    loop {
        match codec.step() {
            StepOutcome::NeedMoreData => break,
            StepOutcome::Advanced => continue,
            StepOutcome::Event(event) => {
                let SessionOutput {
                    response,
                    deliveries: out,
                } = process_event(store, sink, event);
                if let Some(r) = response {
                    responses.push(r);
                }
                deliveries.extend(out);
            }
        }
    }
    (responses, deliveries)
}

#[test]
fn should_play_the_example_transcript() {
    let mut store = MessageBrokerStore::new();
    let mut codec1 = FrameCodec::new();
    let mut codec2 = FrameCodec::new();
    let client1 = SinkHandle(1);
    let client2 = SinkHandle(2);

    // first client subscribes and is acknowledged
    let (responses, deliveries) = pump(&mut codec1, &mut store, client1, b"SUB FOO 1\r\n");
    assert_eq!(vec!["+OK\r\n".to_string()], responses);
    assert_eq!(0, deliveries.len());

    // second client publishes: it gets its own ack, and the first
    // client's sink gets exactly one delivery
    let (responses, deliveries) = pump(
        &mut codec2,
        &mut store,
        client2,
        b"PUB FOO 11\r\nHello John!\r\n",
    );
    assert_eq!(vec!["+OK\r\n".to_string()], responses);
    assert_eq!(1, deliveries.len());
    assert_eq!(1, deliveries[0].sink.0);
    assert_eq!(1, deliveries[0].sid.0);
    assert_eq!("-MSG FOO 1 11\r\nHello John!\r\n", deliveries[0].message);
}

#[test]
fn should_answer_ping_with_pong() {
    let mut store = MessageBrokerStore::new();
    let mut codec = FrameCodec::new();
    let (responses, _) = pump(&mut codec, &mut store, SinkHandle(1), b"PING\r\n");
    assert_eq!(vec!["PONG\r\n".to_string()], responses);
}

#[test]
fn should_ack_connect_without_interpreting_options() {
    let mut store = MessageBrokerStore::new();
    let mut codec = FrameCodec::new();
    let (responses, _) = pump(
        &mut codec,
        &mut store,
        SinkHandle(1),
        b"CONNECT {\"verbose\":true}\r\n",
    );
    assert_eq!(vec!["+OK\r\n".to_string()], responses);
}

#[test]
fn should_keep_session_open_after_unknown_command() {
    let mut store = MessageBrokerStore::new();
    let mut codec = FrameCodec::new();
    let (responses, _) = pump(
        &mut codec,
        &mut store,
        SinkHandle(1),
        b"NOPE\r\nPING\r\n",
    );
    assert_eq!(
        vec![
            "-ERR 'Unknown Protocol Operation'\r\n".to_string(),
            "PONG\r\n".to_string()
        ],
        responses
    );
}

#[test]
fn should_not_deliver_on_length_mismatch() {
    let mut store = MessageBrokerStore::new();
    let mut codec1 = FrameCodec::new();
    let mut codec2 = FrameCodec::new();
    pump(&mut codec1, &mut store, SinkHandle(1), b"SUB FOO 1\r\n");

    // declared count disagrees with the payload: an error, no delivery
    let (responses, deliveries) = pump(
        &mut codec2,
        &mut store,
        SinkHandle(2),
        b"PUB FOO 10\r\nHello John!\r\n",
    );
    assert!(responses[0].starts_with("-ERR 'Unknown Protocol Operation'"));
    assert_eq!(0, deliveries.len());
}

#[test]
fn should_treat_publish_without_subscribers_as_silent_no_op() {
    let mut store = MessageBrokerStore::new();
    let mut codec = FrameCodec::new();
    let (responses, deliveries) = pump(
        &mut codec,
        &mut store,
        SinkHandle(1),
        b"PUB LONELY 2\r\nhi\r\n",
    );
    // only the publisher's own ack, nothing else
    assert_eq!(vec!["+OK\r\n".to_string()], responses);
    assert_eq!(0, deliveries.len());
}

#[test]
fn should_report_internal_error_on_double_unsub() {
    let mut store = MessageBrokerStore::new();
    let mut codec = FrameCodec::new();
    let sink = SinkHandle(1);
    pump(&mut codec, &mut store, sink, b"SUB FOO 9\r\n");
    let (responses, _) = pump(&mut codec, &mut store, sink, b"UNSUB 9\r\n");
    assert_eq!(vec!["+OK\r\n".to_string()], responses);

    // the id is gone everywhere; a second UNSUB reports the failure and
    // the session carries on
    let (responses, _) = pump(&mut codec, &mut store, sink, b"UNSUB 9\r\nPING\r\n");
    assert_eq!(
        vec![
            "-ERR 'Internal Error'\r\n".to_string(),
            "PONG\r\n".to_string()
        ],
        responses
    );
}

#[test]
fn should_dispatch_sub_and_pub_commands_directly() {
    let mut store = MessageBrokerStore::new();
    let out = dispatch_command(
        &mut store,
        SinkHandle(5),
        Command::Sub {
            subject: "A".to_string(),
            sid: 3,
        },
    );
    assert_eq!(Some("+OK\r\n".to_string()), out.response);

    let out = dispatch_command(
        &mut store,
        SinkHandle(6),
        Command::Pub {
            subject: "A".to_string(),
            payload: "x".to_string(),
        },
    );
    assert_eq!(Some("+OK\r\n".to_string()), out.response);
    assert_eq!(1, out.deliveries.len());
    assert_eq!(5, out.deliveries[0].sink.0);
    assert_eq!("-MSG A 3 1\r\nx\r\n", out.deliveries[0].message);
}
