//! The command parser: one decoded line (plus, for `PUB`, its already
//! framed payload) in, one typed [`Command`] or classified error out.
//!
//! The verb is matched up to ASCII case; everything after it is passed to
//! the per-verb parsers verbatim.

use vstd::prelude::*;
use vstd::string::StrSliceExecFns;

use crate::nats::commands::{
    handle_connect,
    handle_ping,
    handle_pub,
    handle_sub,
    handle_unsub,
    is_pub_result,
    is_sub_result,
    is_unsub_result,
    spec_rest,
    Command,
};
use crate::nats::errors::ErrMessages;
use crate::nats::parse_utils::{
    eq_ignore_case,
    find_char,
    spec_strip_crlf_end,
    split_data_by_space,
    strip_crlf_end,
    upper_seq,
};

verus! {

/// The verb of a command line: the text before the first space, stripped
/// of its line terminator and folded to upper case.
pub open spec fn spec_verb(input: Seq<char>) -> Seq<char> {
    upper_seq(spec_strip_crlf_end(input.take(find_char(input, ' '))))
}

/// Whether `input` starts with a known verb.
pub open spec fn known_verb(input: Seq<char>) -> bool {
    ||| spec_verb(input) == "SUB"@
    ||| spec_verb(input) == "PUB"@
    ||| spec_verb(input) == "UNSUB"@
    ||| spec_verb(input) == "PING"@
    ||| spec_verb(input) == "CONNECT"@
}

/// Parses one command line into a typed command: the verb decides the
/// shape, the rest of the line carries the arguments.
pub fn parse_nats(input: &str) -> (r: Result<Command, ErrMessages>)
    ensures
        spec_verb(input@) == "SUB"@ ==> is_sub_result(spec_rest(input@), r),
        spec_verb(input@) == "PUB"@ ==> is_pub_result(spec_rest(input@), r),
        spec_verb(input@) == "UNSUB"@ ==> is_unsub_result(spec_rest(input@), r),
        spec_verb(input@) == "PING"@ ==> (r matches Ok(Command::Ping(m)) && m@ == "PONG\r\n"@),
        spec_verb(input@) == "CONNECT"@ ==> (r matches Ok(Command::Connect(m)) && m@ == "+OK\r\n"@),
        !known_verb(input@) ==> r == Err::<Command, ErrMessages>(ErrMessages::UnknownCommand),
{
    proof {
        reveal_strlit("SUB");
        reveal_strlit("PUB");
        reveal_strlit("UNSUB");
        reveal_strlit("PING");
        reveal_strlit("CONNECT");
        assert(upper_seq("SUB"@) =~= "SUB"@);
        assert(upper_seq("PUB"@) =~= "PUB"@);
        assert(upper_seq("UNSUB"@) =~= "UNSUB"@);
        assert(upper_seq("PING"@) =~= "PING"@);
        assert(upper_seq("CONNECT"@) =~= "CONNECT"@);
        // the two keywords of equal length must be told apart by a character
        assert("SUB"@[0] == 'S' && "PUB"@[0] == 'P');
    }
    let (head, tail) = match split_data_by_space(input) {
        Ok(p) => p,
        Err(e) => { return Err(e) },
    };
    let verb = strip_crlf_end(head.as_str());
    if eq_ignore_case(verb, "SUB") {
        handle_sub(tail.as_str())
    } else if eq_ignore_case(verb, "PUB") {
        handle_pub(tail.as_str())
    } else if eq_ignore_case(verb, "UNSUB") {
        handle_unsub(tail.as_str())
    } else if eq_ignore_case(verb, "PING") {
        Ok(handle_ping())
    } else if eq_ignore_case(verb, "CONNECT") {
        Ok(handle_connect())
    } else {
        Err(ErrMessages::UnknownCommand)
    }
}

} // verus!
