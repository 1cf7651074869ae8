//! Text utilities for the wire protocol: splitting command lines, decimal
//! parsing and formatting, whitespace tokenization, and ASCII case folding.
//!
//! Everything here is stated over `Seq<char>` views. Whitespace means ASCII
//! whitespace throughout.

use vstd::prelude::*;
use vstd::string::StrSliceExecFns;
use vstd::string::StringExecFns;

use crate::nats::errors::ErrMessages;

verus! {

/// Index of the first occurrence of `c` in `s`; `s.len()` if absent.
pub open spec fn find_char(s: Seq<char>, c: char) -> int
    decreases s.len(),
{
    if s.len() == 0 {
        0
    } else if s[0] == c {
        0
    } else {
        1 + find_char(s.drop_first(), c)
    }
}

pub proof fn lemma_find_char(s: Seq<char>, c: char)
    ensures
        0 <= find_char(s, c) <= s.len(),
        forall|j: int| 0 <= j < find_char(s, c) ==> s[j] != c,
        find_char(s, c) < s.len() ==> s[find_char(s, c)] == c,
    decreases s.len(),
{
    if s.len() > 0 && s[0] != c {
        lemma_find_char(s.drop_first(), c);
        assert forall|j: int| 0 <= j < find_char(s, c) implies s[j] != c by {
            if j > 0 {
                assert(s.drop_first()[j - 1] == s[j]);
            }
        }
        if find_char(s, c) < s.len() {
            assert(s.drop_first()[find_char(s, c) - 1] == s[find_char(s, c)]);
        }
    }
}

/// A position with no occurrence before it, and an occurrence (or the end)
/// at it, is exactly `find_char`.
pub proof fn lemma_find_char_unique(s: Seq<char>, c: char, i: int)
    requires
        0 <= i <= s.len(),
        forall|j: int| 0 <= j < i ==> s[j] != c,
        i < s.len() ==> s[i] == c,
    ensures
        i == find_char(s, c),
{
    lemma_find_char(s, c);
    let f = find_char(s, c);
    if i < f {
        assert(s[i] != c);
    } else if f < i {
        assert(s[f] != c);
    }
}

/// Splits `input` at the first space: the head is everything before it,
/// the tail everything after it, verbatim. Without a space the head is the
/// whole input and the tail is empty. Never fails.
pub fn split_data_by_space(input: &str) -> (r: Result<(String, String), ErrMessages>)
    ensures
        r matches Ok(p) && {
            let i = find_char(input@, ' ');
            &&& p.0@ == input@.take(i)
            &&& p.1@ == if i < input@.len() {
                input@.skip(i + 1)
            } else {
                Seq::<char>::empty()
            }
        },
{
    let len = input.unicode_len();
    let mut i: usize = 0;
    loop
        invariant
            len == input@.len(),
            i <= len,
            forall|j: int| 0 <= j < i ==> input@[j] != ' ',
        ensures
            i <= len,
            forall|j: int| 0 <= j < i ==> input@[j] != ' ',
            i < len ==> input@[i as int] == ' ',
        decreases len - i,
    {
        if i >= len {
            break ;
        }
        if input.get_char(i) == ' ' {
            break ;
        }
        i = i + 1;
    }
    proof {
        lemma_find_char_unique(input@, ' ', i as int);
    }
    let head = String::from_str(input.substring_char(0, i));
    let tail = if i < len {
        String::from_str(input.substring_char(i + 1, len))
    } else {
        String::new()
    };
    proof {
        assert(head@ =~= input@.take(i as int));
        if i < len {
            assert(tail@ =~= input@.skip(i as int + 1));
        }
    }
    Ok((head, tail))
}

/// ASCII whitespace: space, tab, carriage return, line feed, vertical tab,
/// form feed.
pub open spec fn is_ws(c: char) -> bool {
    c == ' ' || c == '\t' || c == '\r' || c == '\n' || c == '\u{b}' || c == '\u{c}'
}

fn is_ws_exec(c: char) -> (r: bool)
    ensures
        r == is_ws(c),
{
    c == ' ' || c == '\t' || c == '\r' || c == '\n' || c == '\u{b}' || c == '\u{c}'
}

/// `s` with every trailing repetition of `"\r\n"` removed.
pub open spec fn spec_strip_crlf_end(s: Seq<char>) -> Seq<char>
    decreases s.len(),
{
    if s.len() >= 2 && s[s.len() - 2] == '\r' && s[s.len() - 1] == '\n' {
        spec_strip_crlf_end(s.take(s.len() - 2))
    } else {
        s
    }
}

/// Removes every trailing repetition of `"\r\n"`, as
/// `trim_end_matches("\r\n")` does.
pub fn strip_crlf_end<'a>(s: &'a str) -> (r: &'a str)
    ensures
        r@ == spec_strip_crlf_end(s@),
{
    let len = s.unicode_len();
    let mut end: usize = len;
    proof {
        assert(s@.take(end as int) =~= s@);
    }
    loop
        invariant
            len == s@.len(),
            end <= len,
            spec_strip_crlf_end(s@) == spec_strip_crlf_end(s@.take(end as int)),
        ensures
            end <= s@.len(),
            spec_strip_crlf_end(s@) == s@.take(end as int),
        decreases end,
    {
        if end < 2 {
            break ;
        }
        let c1 = s.get_char(end - 2);
        let c2 = s.get_char(end - 1);
        if c1 == '\r' && c2 == '\n' {
            proof {
                let t = s@.take(end as int);
                assert(t[t.len() - 2] == '\r' && t[t.len() - 1] == '\n');
                assert(t.take(t.len() - 2) =~= s@.take(end - 2));
            }
            end = end - 2;
        } else {
            break ;
        }
    }
    s.substring_char(0, end)
}

/// `s` with every trailing ASCII whitespace character removed.
pub open spec fn spec_trim_end(s: Seq<char>) -> Seq<char>
    decreases s.len(),
{
    if s.len() > 0 && is_ws(s.last()) {
        spec_trim_end(s.drop_last())
    } else {
        s
    }
}

/// Removes trailing ASCII whitespace.
pub fn trim_end<'a>(s: &'a str) -> (r: &'a str)
    ensures
        r@ == spec_trim_end(s@),
{
    let len = s.unicode_len();
    let mut end: usize = len;
    proof {
        assert(s@.take(end as int) =~= s@);
    }
    loop
        invariant
            len == s@.len(),
            end <= len,
            spec_trim_end(s@) == spec_trim_end(s@.take(end as int)),
        ensures
            end <= s@.len(),
            spec_trim_end(s@) == s@.take(end as int),
        decreases end,
    {
        if end == 0 {
            break ;
        }
        let c = s.get_char(end - 1);
        if is_ws_exec(c) {
            proof {
                let t = s@.take(end as int);
                assert(is_ws(t.last()));
                assert(t.drop_last() =~= s@.take(end - 1));
            }
            end = end - 1;
        } else {
            break ;
        }
    }
    s.substring_char(0, end)
}

/// `s` with leading ASCII whitespace removed.
pub open spec fn spec_trim_start(s: Seq<char>) -> Seq<char>
    decreases s.len(),
{
    if s.len() > 0 && is_ws(s[0]) {
        spec_trim_start(s.drop_first())
    } else {
        s
    }
}

/// Removes leading ASCII whitespace.
pub fn trim_start<'a>(s: &'a str) -> (r: &'a str)
    ensures
        r@ == spec_trim_start(s@),
{
    let len = s.unicode_len();
    let mut start: usize = 0;
    proof {
        assert(s@.skip(0) =~= s@);
    }
    loop
        invariant
            len == s@.len(),
            start <= len,
            spec_trim_start(s@) == spec_trim_start(s@.skip(start as int)),
        ensures
            start <= s@.len(),
            spec_trim_start(s@) == s@.skip(start as int),
        decreases len - start,
    {
        if start >= len {
            proof {
                assert(s@.skip(start as int) =~= Seq::<char>::empty());
            }
            break ;
        }
        let c = s.get_char(start);
        if is_ws_exec(c) {
            proof {
                let t = s@.skip(start as int);
                assert(is_ws(t[0]));
                assert(t.drop_first() =~= s@.skip(start as int + 1));
            }
            start = start + 1;
        } else {
            break ;
        }
    }
    s.substring_char(start, len)
}

/// Removes leading and trailing ASCII whitespace, as `str::trim` does.
pub fn trim<'a>(s: &'a str) -> (r: &'a str)
    ensures
        r@ == spec_trim_end(spec_trim_start(s@)),
{
    trim_end(trim_start(s))
}

/// ASCII upper-casing of one character; everything outside `'a'..='z'` is
/// left alone.
pub open spec fn upper_char(c: char) -> char {
    if 'a' <= c && c <= 'z' {
        (((c as u8) - 32) as char)
    } else {
        c
    }
}

/// ASCII upper-casing of a character sequence.
pub open spec fn upper_seq(s: Seq<char>) -> Seq<char> {
    s.map_values(|c: char| upper_char(c))
}

fn char_to_upper(c: char) -> (r: char)
    ensures
        r == upper_char(c),
{
    if 'a' <= c && c <= 'z' {
        ((c as u8) - 32) as char
    } else {
        c
    }
}

/// Compares two strings up to ASCII case, character by character.
pub fn eq_ignore_case(a: &str, b: &str) -> (r: bool)
    ensures
        r == (upper_seq(a@) == upper_seq(b@)),
{
    let alen = a.unicode_len();
    let blen = b.unicode_len();
    if alen != blen {
        proof {
            assert(upper_seq(a@).len() != upper_seq(b@).len());
        }
        return false;
    }
    let mut i: usize = 0;
    while i < alen
        invariant
            alen == a@.len(),
            alen == b@.len(),
            i <= alen,
            forall|j: int| 0 <= j < i ==> upper_char(a@[j]) == upper_char(b@[j]),
        decreases alen - i,
    {
        let ca = char_to_upper(a.get_char(i));
        let cb = char_to_upper(b.get_char(i));
        if ca != cb {
            proof {
                assert(upper_seq(a@)[i as int] != upper_seq(b@)[i as int]);
            }
            return false;
        }
        i = i + 1;
    }
    proof {
        assert(upper_seq(a@) =~= upper_seq(b@));
    }
    true
}

pub open spec fn is_digit(c: char) -> bool {
    '0' <= c && c <= '9'
}

pub open spec fn digit_val(c: char) -> nat {
    (c as int - '0' as int) as nat
}

/// The value of a sequence of decimal digits, most significant first.
pub open spec fn dec_value(s: Seq<char>) -> nat
    decreases s.len(),
{
    if s.len() == 0 {
        0
    } else {
        dec_value(s.drop_last()) * 10 + digit_val(s.last())
    }
}

pub open spec fn all_digits(s: Seq<char>) -> bool {
    forall|i: int| 0 <= i < s.len() ==> is_digit(s[i])
}

/// `s` with one leading `'+'` sign removed, if any.
pub open spec fn sign_stripped(s: Seq<char>) -> Seq<char> {
    if s.len() > 0 && s[0] == '+' {
        s.drop_first()
    } else {
        s
    }
}

/// What Rust's unsigned `parse` accepts: an optional `'+'` sign followed by
/// one or more decimal digits. `None` on anything else; the value is
/// unbounded here, each caller imposes its own range.
pub open spec fn parse_uint(s: Seq<char>) -> Option<nat> {
    if sign_stripped(s).len() > 0 && all_digits(sign_stripped(s)) {
        Some(dec_value(sign_stripped(s)))
    } else {
        None
    }
}

/// A digit string is worth at least any of its prefixes.
proof fn lemma_dec_value_prefix(s: Seq<char>, k: int)
    requires
        0 <= k <= s.len(),
    ensures
        dec_value(s.take(k)) <= dec_value(s),
    decreases s.len(),
{
    if k < s.len() {
        let d = s.drop_last();
        assert(dec_value(d) * 10 + digit_val(s.last()) >= dec_value(d)) by {
            assert(dec_value(d) * 10 >= dec_value(d)) by (nonlinear_arith);
        }
        assert(s.take(k) =~= d.take(k));
        lemma_dec_value_prefix(d, k);
    } else {
        assert(s.take(k) =~= s);
    }
}

/// Parses an unsigned decimal number as `u64::from_str` would: `Some`
/// exactly when the input is an optional `'+'` followed by digits and the
/// value fits in a `u64`.
pub fn parse_u64(s: &str) -> (r: Option<u64>)
    ensures
        r matches Some(v) ==> parse_uint(s@) == Some(v as nat),
        r is None && parse_uint(s@) is Some ==> parse_uint(s@)->Some_0 > u64::MAX,
{
    let len = s.unicode_len();
    let start: usize = if len > 0 && s.get_char(0) == '+' {
        1
    } else {
        0
    };
    let ghost t = sign_stripped(s@);
    proof {
        assert(t =~= s@.skip(start as int));
    }
    if start >= len {
        // empty after the sign: no digits
        return None;
    }
    let mut acc: u64 = 0;
    let mut i: usize = start;
    while i < len
        invariant
            len == s@.len(),
            start <= i <= len,
            start < len,
            t == sign_stripped(s@),
            t == s@.skip(start as int),
            forall|j: int| start <= j < i ==> is_digit(s@[j]),
            acc as nat == dec_value(s@.subrange(start as int, i as int)),
        decreases len - i,
    {
        let c = s.get_char(i);
        if c < '0' || c > '9' {
            proof {
                assert(!is_digit(t[i - start as int]));
                assert(!all_digits(t));
            }
            return None;
        }
        let d: u64 = (c as u8 - 48) as u64;
        proof {
            assert(d as nat == digit_val(c));
        }
        if acc > (u64::MAX - d) / 10 {
            // the digits read so far already overflow a u64
            proof {
                let p = s@.subrange(start as int, i as int + 1);
                assert(p.drop_last() =~= s@.subrange(start as int, i as int));
                assert(p.last() == c);
                assert(dec_value(p) == acc as nat * 10 + d);
                assert(acc as nat * 10 + d > u64::MAX) by (nonlinear_arith)
                    requires
                        acc > (u64::MAX - d) / 10,
                        d <= 9,
                ;
                if parse_uint(s@) is Some {
                    assert(t =~= s@.subrange(start as int, len as int));
                    lemma_dec_value_prefix(t, i as int + 1 - start);
                    assert(t.take(i as int + 1 - start) =~= p);
                }
            }
            return None;
        }
        proof {
            let p = s@.subrange(start as int, i as int + 1);
            assert(p.drop_last() =~= s@.subrange(start as int, i as int));
            assert(p.last() == c);
            assert(acc as nat * 10 + d <= u64::MAX) by (nonlinear_arith)
                requires
                    acc <= (u64::MAX - d) / 10,
                    d <= 9,
            ;
        }
        acc = acc * 10 + d;
        i = i + 1;
    }
    proof {
        assert(t =~= s@.subrange(start as int, len as int));
        assert(all_digits(t));
    }
    Some(acc)
}

/// Parses a subscription id as `u16::from_str` would.
pub fn parse_u16(s: &str) -> (r: Option<u16>)
    ensures
        r matches Some(v) ==> parse_uint(s@) == Some(v as nat),
        r is None && parse_uint(s@) is Some ==> parse_uint(s@)->Some_0 > u16::MAX,
{
    match parse_u64(s) {
        Some(v) => if v <= u16::MAX as u64 {
            Some(v as u16)
        } else {
            None
        },
        None => None,
    }
}

/// Parses a byte count as `usize::from_str` would.
pub fn parse_usize(s: &str) -> (r: Option<usize>)
    ensures
        r matches Some(v) ==> parse_uint(s@) == Some(v as nat),
        r is None && parse_uint(s@) is Some ==> parse_uint(s@)->Some_0 > usize::MAX,
{
    match parse_u64(s) {
        Some(v) => if v <= usize::MAX as u64 {
            Some(v as usize)
        } else {
            None
        },
        None => None,
    }
}

/// The decimal digit character for `d`, which must be below ten.
pub open spec fn digit_char(d: nat) -> char {
    if d == 0 {
        '0'
    } else if d == 1 {
        '1'
    } else if d == 2 {
        '2'
    } else if d == 3 {
        '3'
    } else if d == 4 {
        '4'
    } else if d == 5 {
        '5'
    } else if d == 6 {
        '6'
    } else if d == 7 {
        '7'
    } else if d == 8 {
        '8'
    } else {
        '9'
    }
}

/// The decimal digits of `n`, most significant first, without leading
/// zeros (except for zero itself).
pub open spec fn dec_chars(n: nat) -> Seq<char>
    decreases n,
{
    if n < 10 {
        seq![digit_char(n)]
    } else {
        dec_chars(n / 10).push(digit_char(n % 10))
    }
}

fn digit_str(d: u64) -> (r: &'static str)
    requires
        d < 10,
    ensures
        r@ =~= seq![digit_char(d as nat)],
{
    let r: &'static str = if d == 0 {
        "0"
    } else if d == 1 {
        "1"
    } else if d == 2 {
        "2"
    } else if d == 3 {
        "3"
    } else if d == 4 {
        "4"
    } else if d == 5 {
        "5"
    } else if d == 6 {
        "6"
    } else if d == 7 {
        "7"
    } else if d == 8 {
        "8"
    } else {
        "9"
    };
    proof {
        reveal_strlit("0");
        reveal_strlit("1");
        reveal_strlit("2");
        reveal_strlit("3");
        reveal_strlit("4");
        reveal_strlit("5");
        reveal_strlit("6");
        reveal_strlit("7");
        reveal_strlit("8");
        reveal_strlit("9");
    }
    r
}

/// Formats `n` in decimal.
pub fn u64_to_string(n: u64) -> (r: String)
    ensures
        r@ == dec_chars(n as nat),
    decreases n,
{
    if n < 10 {
        String::from_str(digit_str(n))
    } else {
        let prefix = u64_to_string(n / 10);
        prefix.concat(digit_str(n % 10))
    }
}

/// Length of the leading run of non-whitespace characters.
pub open spec fn token_len(s: Seq<char>) -> int
    decreases s.len(),
{
    if s.len() == 0 || is_ws(s[0]) {
        0
    } else {
        1 + token_len(s.drop_first())
    }
}

pub proof fn lemma_token_len(s: Seq<char>)
    ensures
        0 <= token_len(s) <= s.len(),
        forall|j: int| 0 <= j < token_len(s) ==> !is_ws(s[j]),
        token_len(s) < s.len() ==> is_ws(s[token_len(s)]),
    decreases s.len(),
{
    if s.len() > 0 && !is_ws(s[0]) {
        lemma_token_len(s.drop_first());
        assert forall|j: int| 0 <= j < token_len(s) implies !is_ws(s[j]) by {
            if j > 0 {
                assert(s.drop_first()[j - 1] == s[j]);
            }
        }
        if token_len(s) < s.len() {
            assert(s.drop_first()[token_len(s) - 1] == s[token_len(s)]);
        }
    }
}

pub proof fn lemma_token_len_unique(s: Seq<char>, i: int)
    requires
        0 <= i <= s.len(),
        forall|j: int| 0 <= j < i ==> !is_ws(s[j]),
        i < s.len() ==> is_ws(s[i]),
    ensures
        i == token_len(s),
{
    lemma_token_len(s);
    let f = token_len(s);
    if i < f {
        assert(!is_ws(s[i]));
    } else if f < i {
        assert(!is_ws(s[f]));
    }
}

/// The maximal whitespace-separated tokens of `s`, in order.
pub open spec fn spec_tokens(s: Seq<char>) -> Seq<Seq<char>>
    decreases s.len(),
    via spec_tokens_dec
{
    if s.len() == 0 {
        Seq::empty()
    } else if is_ws(s[0]) {
        spec_tokens(s.drop_first())
    } else {
        seq![s.take(token_len(s))] + spec_tokens(s.skip(token_len(s)))
    }
}

#[via_fn]
proof fn spec_tokens_dec(s: Seq<char>) {
    lemma_token_len(s);
}

/// Splits `s` into its whitespace-separated tokens, as
/// `str::split_whitespace` does.
pub fn split_whitespace(s: &str) -> (r: Vec<String>)
    ensures
        r.deep_view() == spec_tokens(s@),
{
    let len = s.unicode_len();
    let mut out: Vec<String> = Vec::new();
    let mut i: usize = 0;
    proof {
        assert(s@.skip(0) =~= s@);
        assert(out.deep_view() + spec_tokens(s@) =~= spec_tokens(s@));
    }
    while i < len
        invariant
            len == s@.len(),
            i <= len,
            spec_tokens(s@) == out.deep_view() + spec_tokens(s@.skip(i as int)),
        decreases len - i,
    {
        let c = s.get_char(i);
        if is_ws_exec(c) {
            proof {
                let t = s@.skip(i as int);
                assert(t[0] == c);
                assert(t.drop_first() =~= s@.skip(i as int + 1));
            }
            i = i + 1;
        } else {
            // scan to the end of the token
            let mut j: usize = i + 1;
            loop
                invariant
                    len == s@.len(),
                    i < j <= len,
                    forall|k: int| i <= k < j ==> !is_ws(s@[k]),
                ensures
                    i < j <= len,
                    forall|k: int| i <= k < j ==> !is_ws(s@[k]),
                    j < len ==> is_ws(s@[j as int]),
                decreases len - j,
            {
                if j >= len {
                    break ;
                }
                if is_ws_exec(s.get_char(j)) {
                    break ;
                }
                j = j + 1;
            }
            let tok = String::from_str(s.substring_char(i, j));
            proof {
                let t = s@.skip(i as int);
                assert forall|k: int| 0 <= k < j - i implies !is_ws(t[k]) by {
                    assert(t[k] == s@[i + k]);
                }
                if j < len {
                    assert(t[j - i] == s@[j as int]);
                }
                lemma_token_len_unique(t, j - i);
                assert(t.take(j - i) =~= s@.subrange(i as int, j as int));
                assert(t.skip(j - i) =~= s@.skip(j as int));
                assert(spec_tokens(t) == seq![tok@] + spec_tokens(s@.skip(j as int)));
                let ghost prev = out.deep_view();
                assert((prev + spec_tokens(t)).len() == prev.len() + 1 + spec_tokens(
                    s@.skip(j as int),
                ).len());
            }
            let ghost prev = out.deep_view();
            out.push(tok);
            proof {
                assert(out.deep_view() =~= prev.push(tok@));
                assert(out.deep_view() + spec_tokens(s@.skip(j as int)) =~= prev + (seq![tok@]
                    + spec_tokens(s@.skip(j as int))));
            }
            i = j;
        }
    }
    proof {
        assert(s@.skip(i as int) =~= Seq::<char>::empty());
        assert(out.deep_view() + spec_tokens(s@.skip(i as int)) =~= out.deep_view());
    }
    out
}

/// Relies on `String::push`: appends exactly one character.
#[verifier::external_body]
fn push_char(s: &mut String, c: char)
    ensures
        final(s)@ == old(s)@.push(c),
{
    s.push(c);
}

/// Index of the first `"\r\n"` in `s`; `s.len()` if absent.
pub open spec fn find_crlf(s: Seq<char>) -> int
    decreases s.len(),
{
    if s.len() < 2 {
        s.len() as int
    } else if s[0] == '\r' && s[1] == '\n' {
        0
    } else {
        1 + find_crlf(s.drop_first())
    }
}

pub proof fn lemma_find_crlf(s: Seq<char>)
    ensures
        0 <= find_crlf(s) <= s.len(),
        forall|j: int|
            0 <= j < find_crlf(s) ==> !(j + 1 < s.len() && #[trigger] s[j] == '\r' && s[j + 1] == '\n'),
        find_crlf(s) < s.len() ==> find_crlf(s) + 1 < s.len() && s[find_crlf(s)] == '\r'
            && s[find_crlf(s) + 1] == '\n',
    decreases s.len(),
{
    if s.len() >= 2 && !(s[0] == '\r' && s[1] == '\n') {
        lemma_find_crlf(s.drop_first());
        let f = find_crlf(s);
        assert forall|j: int|
            0 <= j < f implies !(j + 1 < s.len() && #[trigger] s[j] == '\r' && s[j + 1] == '\n') by {
            if j > 0 {
                assert(s.drop_first()[j - 1] == s[j]);
                assert(j + 1 < s.len() ==> s.drop_first()[j] == s[j + 1]);
            }
        }
        if f < s.len() {
            assert(s.drop_first()[f - 1] == s[f]);
            assert(s.drop_first()[f] == s[f + 1]);
        }
    }
}

pub proof fn lemma_find_crlf_unique(s: Seq<char>, i: int)
    requires
        0 <= i <= s.len(),
        forall|j: int| 0 <= j < i ==> !(j + 1 < s.len() && #[trigger] s[j] == '\r' && s[j + 1] == '\n'),
        i < s.len() ==> i + 1 < s.len() && s[i] == '\r' && s[i + 1] == '\n',
    ensures
        i == find_crlf(s),
{
    lemma_find_crlf(s);
    let f = find_crlf(s);
    if i < f {
        assert(!(i + 1 < s.len() && s[i] == '\r' && s[i + 1] == '\n'));
    } else if f < i {
        assert(!(f + 1 < s.len() && s[f] == '\r' && s[f + 1] == '\n'));
    }
}

/// `s` with every `"\r\n"` replaced by a single space: the effect of
/// splitting on `"\r\n"` and re-joining the pieces with `" "`.
pub open spec fn spec_crlf_join(s: Seq<char>) -> Seq<char>
    decreases s.len(),
{
    if s.len() < 2 {
        s
    } else if s[0] == '\r' && s[1] == '\n' {
        seq![' '] + spec_crlf_join(s.skip(2))
    } else {
        seq![s[0]] + spec_crlf_join(s.drop_first())
    }
}

fn crlf_join(s: &str) -> (r: String)
    ensures
        r@ == spec_crlf_join(s@),
{
    let len = s.unicode_len();
    let mut out = String::new();
    let mut i: usize = 0;
    proof {
        assert(s@.skip(0) =~= s@);
        assert(out@ + spec_crlf_join(s@) =~= spec_crlf_join(s@));
    }
    while i < len
        invariant
            len == s@.len(),
            i <= len,
            spec_crlf_join(s@) == out@ + spec_crlf_join(s@.skip(i as int)),
        decreases len - i,
    {
        let ghost prev = out@;
        let ghost t = s@.skip(i as int);
        let c = s.get_char(i);
        proof {
            assert(t[0] == c);
        }
        if c == '\r' && i + 1 < len && s.get_char(i + 1) == '\n' {
            push_char(&mut out, ' ');
            proof {
                assert(t[1] == '\n');
                assert(t.skip(2) =~= s@.skip(i as int + 2));
                assert(prev + (seq![' '] + spec_crlf_join(t.skip(2))) =~= out@ + spec_crlf_join(
                    s@.skip(i as int + 2),
                ));
            }
            i = i + 2;
        } else {
            push_char(&mut out, c);
            proof {
                if t.len() < 2 {
                    assert(t =~= seq![c]);
                    assert(s@.skip(i as int + 1) =~= Seq::<char>::empty());
                    assert(prev + spec_crlf_join(t) =~= out@ + spec_crlf_join(
                        s@.skip(i as int + 1),
                    ));
                } else {
                    assert(i + 1 < len);
                    assert(t[1] == s@[i as int + 1]);
                    assert(!(t[0] == '\r' && t[1] == '\n'));
                    assert(t.drop_first() =~= s@.skip(i as int + 1));
                    assert(prev + (seq![c] + spec_crlf_join(t.drop_first())) =~= out@
                        + spec_crlf_join(s@.skip(i as int + 1)));
                }
            }
            i = i + 1;
        }
    }
    proof {
        assert(s@.skip(i as int) =~= Seq::<char>::empty());
        assert(out@ + spec_crlf_join(s@.skip(i as int)) =~= out@);
    }
    out
}

/// Splits `input` at the first `"\r\n"`: the head is everything before it;
/// the tail is the rest with any further `"\r\n"` collapsed to single
/// spaces and trailing whitespace removed. Without a `"\r\n"` the head is
/// the whole input and the tail is empty. Never fails.
pub fn split_data_by_crlf(input: &str) -> (r: Result<(String, String), ErrMessages>)
    ensures
        r matches Ok(p) && {
            let i = find_crlf(input@);
            &&& p.0@ == input@.take(i)
            &&& p.1@ == if i < input@.len() {
                spec_trim_end(spec_crlf_join(input@.skip(i + 2)))
            } else {
                Seq::<char>::empty()
            }
        },
{
    let len = input.unicode_len();
    let mut i: usize = 0;
    loop
        invariant
            len == input@.len(),
            i <= len,
            forall|j: int|
                0 <= j < i ==> !(j + 1 < len && #[trigger] input@[j] == '\r' && input@[j + 1] == '\n'),
        ensures
            i <= len,
            forall|j: int|
                0 <= j < i ==> !(j + 1 < len && #[trigger] input@[j] == '\r' && input@[j + 1] == '\n'),
            i < len ==> i + 1 < len && input@[i as int] == '\r' && input@[i as int + 1] == '\n',
        decreases len - i,
    {
        if i >= len {
            break ;
        }
        if input.get_char(i) == '\r' && i + 1 < len && input.get_char(i + 1) == '\n' {
            break ;
        }
        i = i + 1;
    }
    proof {
        lemma_find_crlf_unique(input@, i as int);
    }
    let head = String::from_str(input.substring_char(0, i));
    proof {
        assert(head@ =~= input@.take(i as int));
    }
    let tail = if i < len {
        let rest = input.substring_char(i + 2, len);
        proof {
            assert(rest@ =~= input@.skip(i as int + 2));
        }
        let joined = crlf_join(rest);
        String::from_str(trim_end(joined.as_str()))
    } else {
        String::new()
    };
    Ok((head, tail))
}

} // verus!
