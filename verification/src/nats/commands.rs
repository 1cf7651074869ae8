//! Typed protocol commands and the per-verb argument parsers.
//!
//! Each `handle_*` function takes the part of a command line after the
//! verb (the "tail") and either builds a typed [`Command`] or classifies
//! the violation.

use vstd::prelude::*;
use vstd::string::StrSliceExecFns;
use vstd::string::StringExecFns;

use crate::nats::errors::ErrMessages;
use crate::nats::parse_utils::{
    find_char,
    find_crlf,
    lemma_find_crlf_unique,
    parse_uint,
    parse_u16,
    parse_usize,
    spec_strip_crlf_end,
    spec_trim_start,
    split_data_by_space,
    strip_crlf_end,
    trim_start,
};

verus! {

/// One parsed client command, ready for dispatch.
#[derive(PartialEq, Eq, Debug)]
pub enum Command {
    Sub { subject: String, sid: u16 },
    Pub { subject: String, payload: String },
    Connect(String),
    Ping(String),
    Unsub(u16),
}

/// The number of bytes of the UTF-8 encoding of `s`.
pub open spec fn byte_len(s: Seq<char>) -> nat {
    vstd::utf8::encode_utf8(s).len()
}

/// The part of `s` before its first space.
pub open spec fn spec_head(s: Seq<char>) -> Seq<char> {
    s.take(find_char(s, ' '))
}

/// The part of `s` after its first space; empty if `s` has no space.
pub open spec fn spec_rest(s: Seq<char>) -> Seq<char> {
    if find_char(s, ' ') < s.len() {
        s.skip(find_char(s, ' ') + 1)
    } else {
        Seq::<char>::empty()
    }
}

/// The subscription id of a `SUB` tail: the text after the subject,
/// stripped of its line terminator, read as an unsigned number.
pub open spec fn spec_sub_sid(tail: Seq<char>) -> Option<nat> {
    parse_uint(spec_strip_crlf_end(spec_rest(tail)))
}

/// Whether a `SUB` tail carries a well-formed subscription id.
pub open spec fn sub_ok(tail: Seq<char>) -> bool {
    spec_sub_sid(tail) is Some && spec_sub_sid(tail)->Some_0 <= u16::MAX
}

/// Exactly what `handle_sub` returns for `tail`.
pub open spec fn is_sub_result(tail: Seq<char>, r: Result<Command, ErrMessages>) -> bool {
    if sub_ok(tail) {
        r matches Ok(Command::Sub { subject, sid }) && (subject@ == spec_head(tail) && sid
            == spec_sub_sid(tail)->Some_0)
    } else {
        r == Err::<Command, ErrMessages>(ErrMessages::UnknownProtocalOperation)
    }
}

/// Parses `SUB <subject> <sid>` arguments.
pub fn handle_sub(tail: &str) -> (r: Result<Command, ErrMessages>)
    ensures
        is_sub_result(tail@, r),
{
    let (subject, unparsed_sid) = match split_data_by_space(tail) {
        Ok(p) => p,
        Err(e) => { return Err(e) },
    };
    match parse_u16(strip_crlf_end(unparsed_sid.as_str())) {
        Some(sid) => Ok(Command::Sub { subject, sid }),
        None => Err(ErrMessages::UnknownProtocalOperation),
    }
}

/// The id of an `UNSUB` tail: the whole tail, stripped of its line
/// terminator, read as an unsigned number.
pub open spec fn spec_unsub_sid(tail: Seq<char>) -> Option<nat> {
    parse_uint(spec_strip_crlf_end(tail))
}

/// Whether an `UNSUB` tail carries a well-formed subscription id.
pub open spec fn unsub_ok(tail: Seq<char>) -> bool {
    spec_unsub_sid(tail) is Some && spec_unsub_sid(tail)->Some_0 <= u16::MAX
}

/// Exactly what `handle_unsub` returns for `tail`.
pub open spec fn is_unsub_result(tail: Seq<char>, r: Result<Command, ErrMessages>) -> bool {
    if unsub_ok(tail) {
        r matches Ok(Command::Unsub(sid)) && sid == spec_unsub_sid(tail)->Some_0
    } else {
        r == Err::<Command, ErrMessages>(ErrMessages::UnknownProtocalOperation)
    }
}

/// Parses `UNSUB <sid>` arguments.
pub fn handle_unsub(tail: &str) -> (r: Result<Command, ErrMessages>)
    ensures
        is_unsub_result(tail@, r),
{
    match parse_u16(strip_crlf_end(tail)) {
        Some(sid) => Ok(Command::Unsub(sid)),
        None => Err(ErrMessages::UnknownProtocalOperation),
    }
}

/// The `PUB` arguments after the subject, with leading whitespace
/// removed: `<count>\r\n<payload>\r\n`. Only whitespace in front of the
/// count is dropped; the payload is never touched.
pub open spec fn spec_pub_args(tail: Seq<char>) -> Seq<char> {
    spec_trim_start(spec_rest(tail))
}

/// The declared byte count of a `PUB` tail: the text before the first
/// line terminator, read as an unsigned number.
pub open spec fn spec_pub_count(tail: Seq<char>) -> Option<nat> {
    let t = spec_pub_args(tail);
    parse_uint(t.take(find_crlf(t)))
}

/// `s` with exactly one closing `"\r\n"` removed, if it ends in one;
/// otherwise unchanged.
pub open spec fn spec_drop_final_crlf(s: Seq<char>) -> Seq<char> {
    if s.len() >= 2 && s[s.len() - 2] == '\r' && s[s.len() - 1] == '\n' {
        s.take(s.len() - 2)
    } else {
        s
    }
}

/// The payload of a `PUB` tail: everything after the first line
/// terminator, byte-for-byte, with exactly one closing terminator removed
/// and nothing else changed. Payload content may itself hold whitespace
/// and line terminators and keeps its case.
pub open spec fn spec_pub_payload(tail: Seq<char>) -> Seq<char> {
    let t = spec_pub_args(tail);
    if find_crlf(t) < t.len() {
        spec_drop_final_crlf(t.skip(find_crlf(t) + 2))
    } else {
        Seq::<char>::empty()
    }
}

/// Whether a `PUB` tail is well-formed: a readable byte count that equals
/// the payload's actual encoded length.
pub open spec fn pub_ok(tail: Seq<char>) -> bool {
    &&& spec_pub_count(tail) is Some
    &&& spec_pub_count(tail)->Some_0 <= usize::MAX
    &&& spec_pub_count(tail)->Some_0 == byte_len(spec_pub_payload(tail))
}

/// Exactly what `handle_pub` returns for `tail`.
pub open spec fn is_pub_result(tail: Seq<char>, r: Result<Command, ErrMessages>) -> bool {
    if pub_ok(tail) {
        r matches Ok(Command::Pub { subject, payload }) && (subject@ == spec_head(tail)
            && payload@ == spec_pub_payload(tail))
    } else {
        r == Err::<Command, ErrMessages>(ErrMessages::UnknownProtocalOperation)
    }
}

/// Parses `PUB <subject> <count>\r\n<payload>\r\n` arguments, checking
/// the declared count against the payload's actual byte length; the
/// payload passes through verbatim.
pub fn handle_pub(tail: &str) -> (r: Result<Command, ErrMessages>)
    ensures
        is_pub_result(tail@, r),
{
    let (subject, rest) = match split_data_by_space(tail) {
        Ok(p) => p,
        Err(e) => { return Err(e) },
    };
    let args = trim_start(rest.as_str());
    proof {
        assert(args@ == spec_pub_args(tail@));
    }
    let len = args.unicode_len();
    let mut i: usize = 0;
    loop
        invariant
            len == args@.len(),
            i <= len,
            forall|j: int|
                0 <= j < i ==> !(j + 1 < len && #[trigger] args@[j] == '\r' && args@[j + 1]
                    == '\n'),
        ensures
            i <= len,
            forall|j: int|
                0 <= j < i ==> !(j + 1 < len && #[trigger] args@[j] == '\r' && args@[j + 1]
                    == '\n'),
            i < len ==> i + 1 < len && args@[i as int] == '\r' && args@[i as int + 1] == '\n',
        decreases len - i,
    {
        if i >= len {
            break ;
        }
        if args.get_char(i) == '\r' && i + 1 < len && args.get_char(i + 1) == '\n' {
            break ;
        }
        i = i + 1;
    }
    proof {
        lemma_find_crlf_unique(args@, i as int);
    }
    let count_txt = args.substring_char(0, i);
    proof {
        assert(count_txt@ =~= spec_pub_args(tail@).take(i as int));
    }
    let bytes = match parse_usize(count_txt) {
        Some(b) => b,
        None => { return Err(ErrMessages::UnknownProtocalOperation) },
    };
    proof {
        assert(spec_pub_count(tail@) == Some(bytes as nat));
    }
    let payload: String = if i < len {
        let raw = args.substring_char(i + 2, len);
        proof {
            assert(raw@ =~= spec_pub_args(tail@).skip(i as int + 2));
        }
        let rlen = raw.unicode_len();
        if rlen >= 2 && raw.get_char(rlen - 2) == '\r' && raw.get_char(rlen - 1) == '\n' {
            let closed = raw.substring_char(0, rlen - 2);
            proof {
                assert(closed@ =~= spec_drop_final_crlf(raw@));
            }
            String::from_str(closed)
        } else {
            String::from_str(raw)
        }
    } else {
        String::new()
    };
    proof {
        assert(payload@ == spec_pub_payload(tail@));
    }
    if payload.as_str().as_bytes().len() != bytes {
        return Err(ErrMessages::UnknownProtocalOperation);
    }
    proof {
        assert(byte_len(spec_pub_payload(tail@)) == bytes as nat);
        assert(pub_ok(tail@));
    }
    Ok(Command::Pub { subject, payload })
}

/// Builds the `PING` acknowledgement.
pub fn handle_ping() -> (r: Command)
    ensures
        r matches Command::Ping(m) && m@ == "PONG\r\n"@,
{
    Command::Ping(String::from_str("PONG\r\n"))
}

/// Builds the `CONNECT` acknowledgement.
pub fn handle_connect() -> (r: Command)
    ensures
        r matches Command::Connect(m) && m@ == "+OK\r\n"@,
{
    Command::Connect(String::from_str("+OK\r\n"))
}

} // verus!
