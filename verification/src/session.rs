//! Session dispatch: the decisions a connection makes for each decoded
//! frame, separated from the transport that carries them out.
//!
//! A session owns a socket outside this crate; here it owns only a sink
//! handle. Each frame from the codec becomes at most one response for the
//! issuing client plus, for a publication, the fan-out deliveries. The
//! caller writes the response to its own transport and each delivery to
//! the sink it names; for a `PUB`, the publisher's acknowledgement comes
//! first, and fan-out is fire-and-forget from the publisher's point of
//! view.

use vstd::prelude::*;
use vstd::string::StringExecFns;

use crate::codec::CodecEvent;
use crate::nats::commands::{
    pub_ok,
    spec_head,
    spec_pub_payload,
    spec_rest,
    spec_sub_sid,
    spec_unsub_sid,
    sub_ok,
    unsub_ok,
    Command,
};
use crate::nats::errors::ErrMessages;
use crate::nats::parser::{known_verb, parse_nats, spec_verb};
use crate::store::message_broker::{
    add_view,
    deliveries_ok,
    has_subscriber,
    remove_view,
    Delivery,
    MessageBrokerStore,
    SinkHandle,
    Subject,
    SubscriptionId,
};

verus! {

/// What one frame produced: at most one response line for the issuing
/// client, and the fan-out deliveries of a publication.
pub struct SessionOutput {
    pub response: Option<String>,
    pub deliveries: Vec<Delivery>,
}

/// An error response: the error's text, terminated, and nothing fanned
/// out.
pub open spec fn err_response(out: SessionOutput, e: ErrMessages) -> bool {
    &&& out.response matches Some(m) && m@ == e.spec_message() + "\r\n"@
    &&& out.deliveries@.len() == 0
}

/// An acknowledgement: the given text and nothing fanned out.
pub open spec fn ack_response(out: SessionOutput, text: Seq<char>) -> bool {
    &&& out.response matches Some(m) && m@ == text
    &&& out.deliveries@.len() == 0
}

/// What dispatching one command line does to the registry and answers,
/// given the registry before (`v0`) and after (`v1`) and the issuing
/// connection's sink.
pub open spec fn line_outcome(
    v0: Map<Seq<char>, Map<u16, u64>>,
    v1: Map<Seq<char>, Map<u16, u64>>,
    sink: u64,
    line: Seq<char>,
    out: SessionOutput,
) -> bool {
    let verb = spec_verb(line);
    let tail = spec_rest(line);
    &&& (verb == "SUB"@ && sub_ok(tail)) ==> ({
        &&& v1 == add_view(v0, spec_head(tail), spec_sub_sid(tail)->Some_0 as u16, sink)
        &&& ack_response(out, "+OK\r\n"@)
    })
    &&& (verb == "SUB"@ && !sub_ok(tail)) ==> v1 == v0 && err_response(
        out,
        ErrMessages::UnknownProtocalOperation,
    )
    &&& (verb == "UNSUB"@ && unsub_ok(tail)) ==> ({
        let sid = spec_unsub_sid(tail)->Some_0 as u16;
        &&& v1 == remove_view(v0, sid)
        &&& has_subscriber(v0, sid) ==> ack_response(out, "+OK\r\n"@)
        &&& !has_subscriber(v0, sid) ==> err_response(out, ErrMessages::InternalError)
    })
    &&& (verb == "UNSUB"@ && !unsub_ok(tail)) ==> v1 == v0 && err_response(
        out,
        ErrMessages::UnknownProtocalOperation,
    )
    &&& (verb == "PUB"@ && pub_ok(tail)) ==> ({
        &&& v1 == v0
        &&& out.response matches Some(m) && m@ == "+OK\r\n"@
        &&& deliveries_ok(v0, spec_head(tail), spec_pub_payload(tail), out.deliveries@)
    })
    &&& (verb == "PUB"@ && !pub_ok(tail)) ==> v1 == v0 && err_response(
        out,
        ErrMessages::UnknownProtocalOperation,
    )
    &&& verb == "PING"@ ==> v1 == v0 && ack_response(out, "PONG\r\n"@)
    &&& verb == "CONNECT"@ ==> v1 == v0 && ack_response(out, "+OK\r\n"@)
    &&& !known_verb(line) ==> v1 == v0 && err_response(out, ErrMessages::UnknownCommand)
}

/// Carries out one parsed command against the registry: registers,
/// deregisters, or formats the fan-out; acknowledgements per the dispatch
/// table.
pub fn dispatch_command(store: &mut MessageBrokerStore, sink: SinkHandle, command: Command) -> (out:
    SessionOutput)
    requires
        old(store).wf(),
    ensures
        final(store).wf(),
        command matches Command::Sub { subject, sid } ==> ({
            &&& final(store)@ == add_view(old(store)@, subject@, sid, sink.0)
            &&& ack_response(out, "+OK\r\n"@)
        }),
        command matches Command::Unsub(sid) ==> ({
            &&& final(store)@ == remove_view(old(store)@, sid)
            &&& has_subscriber(old(store)@, sid) ==> ack_response(out, "+OK\r\n"@)
            &&& !has_subscriber(old(store)@, sid) ==> err_response(out, ErrMessages::InternalError)
        }),
        command matches Command::Pub { subject, payload } ==> ({
            &&& final(store)@ == old(store)@
            &&& out.response matches Some(m) && m@ == "+OK\r\n"@
            &&& deliveries_ok(old(store)@, subject@, payload@, out.deliveries@)
        }),
        command matches Command::Ping(m) ==> final(store)@ == old(store)@ && ack_response(out, m@),
        command matches Command::Connect(m) ==> final(store)@ == old(store)@ && ack_response(
            out,
            m@,
        ),
    {
    match command {
        Command::Sub { subject, sid } => {
            let res = store.add_subscription(Subject(subject), SubscriptionId(sid), sink);
            proof {
                // registration never fails; nothing to report beyond the ack
                assert(res is Ok);
            }
            SessionOutput { response: Some(String::from_str("+OK\r\n")), deliveries: Vec::new() }
        },
        Command::Unsub(sid) => match store.remove_subscription(SubscriptionId(sid)) {
            Ok(_) => SessionOutput {
                response: Some(String::from_str("+OK\r\n")),
                deliveries: Vec::new(),
            },
            Err(_) => {
                let text = ErrMessages::InternalError.message().concat("\r\n");
                SessionOutput { response: Some(text), deliveries: Vec::new() }
            },
        },
        Command::Pub { subject, payload } => {
            let deliveries = store.publish_to_sub(Subject(subject), payload);
            SessionOutput { response: Some(String::from_str("+OK\r\n")), deliveries }
        },
        Command::Connect(message) => SessionOutput {
            response: Some(message),
            deliveries: Vec::new(),
        },
        Command::Ping(message) => SessionOutput { response: Some(message), deliveries: Vec::new() },
    }
}

/// Handles one codec event: parses a line and dispatches it, dispatches a
/// finished publication, or turns a framing violation into its error
/// response. Protocol violations never touch the registry and never end
/// the session.
pub fn process_event(store: &mut MessageBrokerStore, sink: SinkHandle, event: CodecEvent) -> (out:
    SessionOutput)
    requires
        old(store).wf(),
    ensures
        final(store).wf(),
        event matches CodecEvent::Error(e) ==> final(store)@ == old(store)@ && err_response(out, e),
        event matches CodecEvent::PubMessage { subject, payload } ==> ({
            &&& final(store)@ == old(store)@
            &&& out.response matches Some(m) && m@ == "+OK\r\n"@
            &&& deliveries_ok(old(store)@, subject@, payload@, out.deliveries@)
        }),
        event matches CodecEvent::Line(line) ==> line_outcome(
            old(store)@,
            final(store)@,
            sink.0,
            line@,
            out,
        ),
    {
    match event {
        CodecEvent::Line(line) => match parse_nats(line.as_str()) {
            Ok(command) => dispatch_command(store, sink, command),
            Err(e) => {
                let text = e.message().concat("\r\n");
                SessionOutput { response: Some(text), deliveries: Vec::new() }
            },
        },
        CodecEvent::PubMessage { subject, payload } => dispatch_command(
            store,
            sink,
            Command::Pub { subject, payload },
        ),
        CodecEvent::Error(e) => {
            let text = e.message().concat("\r\n");
            SessionOutput { response: Some(text), deliveries: Vec::new() }
        },
    }
}

} // verus!
