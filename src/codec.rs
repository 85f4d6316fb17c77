//! The record format shared by the log files and the wire.
//!
//! A record is `<len>\n<payload>\n`, where `<len>` is the byte length of the
//! payload in decimal. The payload names the request and carries its
//! strings as UTF-8:
//!
//! - `set <klen> <key><val>`, where `<klen>` is the byte length of the key;
//! - `rm <key>`;
//! - `get <key>`.
use vstd::prelude::*;
use vstd::utf8::*;

use crate::error::KvsError;

verus! {

// ---------------------------------------------------------------------------
// Decimal numbers
// ---------------------------------------------------------------------------

pub open spec fn is_digit(b: u8) -> bool {
    48 <= b && b <= 57
}

/// The decimal digits of `n`, most significant first, without leading zeros.
pub open spec fn decimal(n: nat) -> Seq<u8>
    decreases n,
{
    if n < 10 {
        seq![(n + 48) as u8]
    } else {
        decimal(n / 10).push((n % 10 + 48) as u8)
    }
}

/// The number that a run of decimal digits denotes.
pub open spec fn digits_value(s: Seq<u8>) -> nat
    decreases s.len(),
{
    if s.len() == 0 {
        0
    } else {
        digits_value(s.drop_last()) * 10 + (s.last() as int - 48) as nat
    }
}

/// The first index at or after `i` that does not hold a digit.
pub open spec fn digits_end(s: Seq<u8>, i: int) -> int
    decreases s.len() - i,
{
    if 0 <= i < s.len() && is_digit(s[i]) {
        digits_end(s, i + 1)
    } else {
        i
    }
}

/// A non-empty run of digits at `i`, closed by the byte `term`: its value,
/// and the index just past `term`.
pub open spec fn parse_number(s: Seq<u8>, i: int, term: u8) -> Option<(nat, int)> {
    let j = digits_end(s, i);
    if 0 <= i < j && j < s.len() && s[j] == term {
        Some((digits_value(s.subrange(i, j)), j + 1))
    } else {
        None
    }
}

pub proof fn lemma_decimal(n: nat)
    ensures
        decimal(n).len() >= 1,
        forall|k: int| 0 <= k < decimal(n).len() ==> is_digit(#[trigger] decimal(n)[k]),
        digits_value(decimal(n)) == n,
    decreases n,
{
    if n >= 10 {
        lemma_decimal(n / 10);
        let d = decimal(n / 10);
        assert(decimal(n).drop_last() =~= d);
        assert(decimal(n).last() as int == n % 10 + 48);
        assert(digits_value(decimal(n)) == digits_value(d) * 10 + (n % 10) as nat);
        assert(n == (n / 10) * 10 + n % 10);
    } else {
        assert(decimal(n).drop_last() =~= Seq::<u8>::empty());
        assert(digits_value(Seq::<u8>::empty()) == 0);
        assert(decimal(n).last() as int == n + 48);
        assert(digits_value(decimal(n)) == n);
    }
}

pub proof fn lemma_digits_end_bounds(s: Seq<u8>, i: int)
    requires
        0 <= i <= s.len(),
    ensures
        i <= digits_end(s, i) <= s.len(),
        forall|k: int| i <= k < digits_end(s, i) ==> is_digit(#[trigger] s[k]),
        digits_end(s, i) < s.len() ==> !is_digit(s[digits_end(s, i)]),
    decreases s.len() - i,
{
    if i < s.len() && is_digit(s[i]) {
        lemma_digits_end_bounds(s, i + 1);
    }
}

/// The index where a run of digits stops, read from a byte that is known to
/// stop it.
pub proof fn lemma_digits_end_at(s: Seq<u8>, i: int, j: int)
    requires
        0 <= i <= j <= s.len(),
        forall|k: int| i <= k < j ==> is_digit(#[trigger] s[k]),
        j == s.len() || !is_digit(s[j]),
    ensures
        digits_end(s, i) == j,
    decreases j - i,
{
    if i < j {
        lemma_digits_end_at(s, i + 1, j);
    }
}

proof fn lemma_digits_value_push(s: Seq<u8>, b: u8)
    ensures
        digits_value(s.push(b)) == digits_value(s) * 10 + (b as int - 48) as nat,
{
    assert(s.push(b).drop_last() =~= s);
}

/// A longer run of digits is worth at least as much as its prefix.
proof fn lemma_digits_value_mono(s: Seq<u8>, a: int, b: int)
    requires
        0 <= a <= b <= s.len(),
        forall|k: int| 0 <= k < s.len() ==> is_digit(#[trigger] s[k]),
    ensures
        digits_value(s.subrange(0, a)) <= digits_value(s.subrange(0, b)),
    decreases b - a,
{
    if a < b {
        lemma_digits_value_mono(s, a, b - 1);
        assert(s.subrange(0, b).drop_last() =~= s.subrange(0, b - 1));
    }
}

/// A run of digits found in a suffix is found at the same place in the
/// whole sequence.
proof fn lemma_digits_end_shift(s: Seq<u8>, at: int, x: int)
    requires
        0 <= at <= s.len(),
        0 <= x <= s.len() - at,
    ensures
        digits_end(s, at + x) == at + digits_end(s.subrange(at, s.len() as int), x),
    decreases s.len() - at - x,
{
    let t = s.subrange(at, s.len() as int);
    if x < t.len() && is_digit(t[x]) {
        lemma_digits_end_shift(s, at, x + 1);
    }
}

/// Reading a number at `at` of `s` is reading it at the start of the suffix.
proof fn lemma_parse_number_shift(s: Seq<u8>, at: int, term: u8)
    requires
        0 <= at <= s.len(),
    ensures
        parse_number(s, at, term) == match parse_number(s.subrange(at, s.len() as int), 0, term) {
            Some((n, e)) => Some((n, e + at)),
            None => None,
        },
{
    let t = s.subrange(at, s.len() as int);
    lemma_digits_end_shift(s, at, 0);
    let j = digits_end(t, 0);
    lemma_digits_end_bounds(t, 0);
    if 0 < j && j < t.len() {
        assert(s.subrange(at, at + j) =~= t.subrange(0, j));
    }
}

/// A number that is closed inside `s` reads the same in any extension of `s`.
proof fn lemma_parse_number_extend(s: Seq<u8>, y: Seq<u8>, i: int, term: u8)
    requires
        0 <= i <= s.len(),
        parse_number(s, i, term) is Some,
    ensures
        parse_number(s + y, i, term) == parse_number(s, i, term),
{
    let t = s + y;
    lemma_digits_end_bounds(s, i);
    let j = digits_end(s, i);
    assert forall|k: int| i <= k < j implies is_digit(#[trigger] t[k]) by {
        assert(t[k] == s[k]);
    }
    assert(t[j] == s[j]);
    lemma_digits_end_at(t, i, j);
    assert(t.subrange(i, j) =~= s.subrange(i, j));
}

// ---------------------------------------------------------------------------
// Byte helpers
// ---------------------------------------------------------------------------

/// Appends the decimal digits of `n`.
pub fn push_decimal(out: &mut Vec<u8>, n: usize)
    ensures
        final(out)@ == old(out)@ + decimal(n as nat),
    decreases n,
{
    if n >= 10 {
        push_decimal(out, n / 10);
    }
    let d: u8 = (n % 10) as u8;
    out.push(d + 48);
    assert(out@ =~= old(out)@ + decimal(n as nat)) by {
        if n >= 10 {
            assert(decimal(n as nat) == decimal((n / 10) as nat).push((n % 10 + 48) as u8));
        }
    }
}

/// Appends the bytes of `b`.
pub fn push_bytes(out: &mut Vec<u8>, b: &[u8])
    ensures
        final(out)@ == old(out)@ + b@,
{
    let mut i: usize = 0;
    while i < b.len()
        invariant
            i <= b@.len(),
            out@ == old(out)@ + b@.subrange(0, i as int),
        decreases b@.len() - i,
    {
        out.push(b[i]);
        i = i + 1;
        assert(out@ =~= old(out)@ + b@.subrange(0, i as int));
    }
    assert(b@.subrange(0, i as int) =~= b@);
}

/// The bytes of `s` from `a` up to `b`.
pub fn copy_range(s: &[u8], a: usize, b: usize) -> (r: Vec<u8>)
    requires
        a <= b <= s@.len(),
    ensures
        r@ == s@.subrange(a as int, b as int),
{
    let mut r: Vec<u8> = Vec::new();
    let mut i: usize = a;
    while i < b
        invariant
            a <= i <= b <= s@.len(),
            r@ == s@.subrange(a as int, i as int),
        decreases b - i,
    {
        r.push(s[i]);
        i = i + 1;
        assert(r@ =~= s@.subrange(a as int, i as int));
    }
    r
}

// ---------------------------------------------------------------------------
// Requests and their payloads
// ---------------------------------------------------------------------------

/// A request as a value: its kind and its strings.
pub enum Op {
    Get(Seq<char>),
    Put(Seq<char>, Seq<char>),
    Rm(Seq<char>),
}

/// A request to the store. Only `Put` and `Rm` are ever written to a log.
#[derive(Debug, Clone, PartialEq, Eq)]
pub enum Request {
    Get { key: String },
    Put { key: String, val: String },
    Rm { key: String },
}

impl View for Request {
    type V = Op;

    open spec fn view(&self) -> Op {
        match self {
            Request::Get { key } => Op::Get(key@),
            Request::Put { key, val } => Op::Put(key@, val@),
            Request::Rm { key } => Op::Rm(key@),
        }
    }
}

/// `set `
pub open spec fn set_tag() -> Seq<u8> {
    seq![115u8, 101u8, 116u8, 32u8]
}

/// `rm `
pub open spec fn rm_tag() -> Seq<u8> {
    seq![114u8, 109u8, 32u8]
}

/// `get `
pub open spec fn get_tag() -> Seq<u8> {
    seq![103u8, 101u8, 116u8, 32u8]
}

/// The payload that encodes `op`.
pub open spec fn payload_of(op: Op) -> Seq<u8> {
    match op {
        Op::Put(k, v) => set_tag() + decimal(encode_utf8(k).len()) + seq![32u8] + encode_utf8(k)
            + encode_utf8(v),
        Op::Rm(k) => rm_tag() + encode_utf8(k),
        Op::Get(k) => get_tag() + encode_utf8(k),
    }
}

/// A payload framed with its length.
pub open spec fn frame_of(p: Seq<u8>) -> Seq<u8> {
    decimal(p.len()) + seq![10u8] + p + seq![10u8]
}

/// The record that encodes `op`.
pub open spec fn record_of(op: Op) -> Seq<u8> {
    frame_of(payload_of(op))
}

fn encode_payload(r: &Request) -> (p: Vec<u8>)
    ensures
        p@ == payload_of(r@),
{
    let mut p: Vec<u8> = Vec::new();
    match r {
        Request::Put { key, val } => {
            p.push(115);
            p.push(101);
            p.push(116);
            p.push(32);
            let kb = key.as_str().as_bytes();
            push_decimal(&mut p, kb.len());
            p.push(32);
            push_bytes(&mut p, kb);
            push_bytes(&mut p, val.as_str().as_bytes());
        },
        Request::Rm { key } => {
            p.push(114);
            p.push(109);
            p.push(32);
            push_bytes(&mut p, key.as_str().as_bytes());
        },
        Request::Get { key } => {
            p.push(103);
            p.push(101);
            p.push(116);
            p.push(32);
            push_bytes(&mut p, key.as_str().as_bytes());
        },
    }
    assert(p@ =~= payload_of(r@));
    p
}

/// Encodes a request as one record.
pub fn serialize(r: &Request) -> (out: Vec<u8>)
    ensures
        out@ == record_of(r@),
{
    let p = encode_payload(r);
    let mut out: Vec<u8> = Vec::new();
    push_decimal(&mut out, p.len());
    out.push(10);
    push_bytes(&mut out, p.as_slice());
    out.push(10);
    assert(out@ =~= record_of(r@));
    out
}

// ---------------------------------------------------------------------------
// Parsing
// ---------------------------------------------------------------------------

/// What a payload decodes to.
pub enum Decoded {
    Req(Op),
    /// The payload is shaped as a request, but a string in it is not UTF-8.
    BadUtf8,
    /// The payload is no request.
    Malformed,
}

pub open spec fn has_prefix(s: Seq<u8>, t: Seq<u8>) -> bool {
    t.len() <= s.len() && s.subrange(0, t.len() as int) == t
}

/// A payload that carries one string after a tag of `n` bytes.
pub open spec fn key_only(p: Seq<u8>, n: int, is_rm: bool) -> Decoded {
    let kb = p.subrange(n, p.len() as int);
    if valid_utf8(kb) {
        if is_rm {
            Decoded::Req(Op::Rm(decode_utf8(kb)))
        } else {
            Decoded::Req(Op::Get(decode_utf8(kb)))
        }
    } else {
        Decoded::BadUtf8
    }
}

/// What the payload `p` says.
pub open spec fn parse_payload(p: Seq<u8>) -> Decoded {
    if has_prefix(p, set_tag()) {
        match parse_number(p, 4, 32) {
            Some((kl, ks)) => if ks + kl <= p.len() {
                let kb = p.subrange(ks, ks + kl);
                let vb = p.subrange(ks + kl, p.len() as int);
                if valid_utf8(kb) && valid_utf8(vb) {
                    Decoded::Req(Op::Put(decode_utf8(kb), decode_utf8(vb)))
                } else {
                    Decoded::BadUtf8
                }
            } else {
                Decoded::Malformed
            },
            None => Decoded::Malformed,
        }
    } else if has_prefix(p, rm_tag()) {
        key_only(p, 3, true)
    } else if has_prefix(p, get_tag()) {
        key_only(p, 4, false)
    } else {
        Decoded::Malformed
    }
}

/// The frame at the start of `s`: where its payload starts, and where the
/// frame ends.
pub open spec fn parse_frame(s: Seq<u8>) -> Option<(int, int)> {
    match parse_number(s, 0, 10) {
        Some((n, p)) => if p + n < s.len() && s[p + n] == 10 {
            Some((p, p + n + 1))
        } else {
            None
        },
        None => None,
    }
}

/// The payload of `s`, when `s` is exactly one frame.
pub open spec fn frame_payload(s: Seq<u8>) -> Option<Seq<u8>> {
    match parse_frame(s) {
        Some((p, e)) => if e == s.len() {
            Some(s.subrange(p, e - 1))
        } else {
            None
        },
        None => None,
    }
}

/// Reads a run of digits at `i` closed by `term`, when its value is at most
/// `limit`: the value, and the index past `term`.
pub(crate) fn read_number(s: &[u8], i: usize, term: u8, limit: usize) -> (r: Option<(usize, usize)>)
    requires
        i <= s@.len(),
    ensures
        match parse_number(s@, i as int, term) {
            Some((n, e)) => if n <= limit {
                r == Some((n as usize, e as usize))
            } else {
                r is None
            },
            None => r is None,
        },
{
    let mut j: usize = i;
    let mut v: usize = 0;
    proof {
        lemma_digits_end_bounds(s@, i as int);
        assert(s@.subrange(i as int, i as int) =~= Seq::<u8>::empty());
    }
    while j < s.len() && 48 <= s[j] && s[j] <= 57
        invariant
            i <= j <= s@.len(),
            forall|k: int| i <= k < j ==> is_digit(#[trigger] s@[k]),
            v == digits_value(s@.subrange(i as int, j as int)),
            v <= limit,
        decreases s@.len() - j,
    {
        let d: usize = (s[j] - 48) as usize;
        proof {
            lemma_digits_value_push(s@.subrange(i as int, j as int), s@[j as int]);
            assert(s@.subrange(i as int, j as int).push(s@[j as int]) =~= s@.subrange(
                i as int,
                j + 1,
            ));
        }
        if v > limit / 10 || d > limit - v * 10 {
            proof {
                assert(v * 10 + d > limit) by (nonlinear_arith)
                    requires
                        v > limit / 10 || d > limit - v * 10,
                        v * 10 <= limit || v > limit / 10,
                ;
                lemma_number_too_big(s@, i as int, j as int + 1, term, limit as nat);
            }
            return None;
        }
        v = v * 10 + d;
        j = j + 1;
    }
    proof {
        lemma_digits_end_at(s@, i as int, j as int);
    }
    if i < j && j < s.len() && s[j] == term {
        Some((v, j + 1))
    } else {
        None
    }
}

/// Once the digits read so far are worth more than `limit`, so is the whole
/// run.
proof fn lemma_number_too_big(s: Seq<u8>, i: int, j: int, term: u8, limit: nat)
    requires
        0 <= i < j <= s.len(),
        forall|k: int| i <= k < j ==> is_digit(#[trigger] s[k]),
        digits_value(s.subrange(i, j)) > limit,
    ensures
        match parse_number(s, i, term) {
            Some((n, e)) => n > limit,
            None => true,
        },
{
    lemma_digits_end_bounds(s, i);
    let e = digits_end(s, i);
    if e < j {
        assert(!is_digit(s[e]));
    }
    let t = s.subrange(i, e);
    lemma_digits_value_mono(t, j - i, e - i);
    assert(t.subrange(0, j - i) =~= s.subrange(i, j));
    assert(t.subrange(0, e - i) =~= t);
}

/// The frame that starts at `at`: where its payload starts, and where the
/// frame ends.
pub fn frame_at(s: &[u8], at: usize) -> (r: Option<(usize, usize)>)
    requires
        at <= s@.len(),
    ensures
        match parse_frame(s@.subrange(at as int, s@.len() as int)) {
            Some((p, e)) => r matches Some((a, b)) && a == p + at && b == e + at,
            None => r is None,
        },
{
    let ghost t = s@.subrange(at as int, s@.len() as int);
    proof {
        lemma_parse_number_shift(s@, at as int, 10);
    }
    match read_number(s, at, 10, s.len()) {
        Some((n, p)) => {
            if n < s.len() - p && s[p + n] == 10 {
                Some((p, p + n + 1))
            } else {
                None
            }
        },
        None => None,
    }
}

/// Relies on `String::from_utf8`: it accepts exactly the byte vectors that
/// are valid UTF-8, and the string it returns holds those bytes.
#[verifier::external_body]
fn string_from_utf8(b: Vec<u8>) -> (r: Option<String>)
    ensures
        r is Some <==> valid_utf8(b@),
        r matches Some(s) ==> encode_utf8(s@) == b@,
{
    String::from_utf8(b).ok()
}

/// The text held by the bytes of `s` from `a` up to `b`.
fn text_at(s: &[u8], a: usize, b: usize) -> (r: Option<String>)
    requires
        a <= b <= s@.len(),
    ensures
        r is Some <==> valid_utf8(s@.subrange(a as int, b as int)),
        r matches Some(t) ==> t@ == decode_utf8(s@.subrange(a as int, b as int)),
{
    let r = string_from_utf8(copy_range(s, a, b));
    proof {
        if r is Some {
            encode_utf8_decode_utf8(r->0@);
        }
    }
    r
}

/// The outcome of decoding a payload, as an error of the store where it
/// fails.
pub open spec fn decode_result_matches(p: Seq<u8>, r: Result<Request, KvsError>) -> bool {
    match parse_payload(p) {
        Decoded::Req(op) => r is Ok && r->Ok_0@ == op,
        Decoded::BadUtf8 => r is Err && r->Err_0 is Utf8,
        Decoded::Malformed => r is Err && r->Err_0 is KvsDeserializer && r->Err_0->KvsDeserializer_0@
            == p,
    }
}

fn malformed(p: &[u8]) -> (r: Result<Request, KvsError>)
    ensures
        r is Err && r->Err_0 is KvsDeserializer && r->Err_0->KvsDeserializer_0@ == p@,
{
    Err(KvsError::KvsDeserializer(copy_range(p, 0, p.len()), "no request in payload".to_owned()))
}

fn bad_utf8() -> (r: Result<Request, KvsError>)
    ensures
        r is Err && r->Err_0 is Utf8,
{
    Err(KvsError::Utf8("key or value is not valid UTF-8".to_owned()))
}

/// Decodes a payload into a request.
pub fn decode_payload(p: &[u8]) -> (r: Result<Request, KvsError>)
    ensures
        decode_result_matches(p@, r),
{
    let n = p.len();
    if n >= 4 && p[0] == 115 && p[1] == 101 && p[2] == 116 && p[3] == 32 {
        assert(has_prefix(p@, set_tag())) by {
            assert(p@.subrange(0, 4) =~= set_tag());
        }
        match read_number(p, 4, 32, n) {
            Some((kl, ks)) => {
                if kl <= n - ks {
                    let k = text_at(p, ks, ks + kl);
                    let v = text_at(p, ks + kl, n);
                    match (k, v) {
                        (Some(key), Some(val)) => Ok(Request::Put { key, val }),
                        _ => bad_utf8(),
                    }
                } else {
                    malformed(p)
                }
            },
            None => malformed(p),
        }
    } else if n >= 3 && p[0] == 114 && p[1] == 109 && p[2] == 32 {
        assert(!has_prefix(p@, set_tag()));
        assert(has_prefix(p@, rm_tag())) by {
            assert(p@.subrange(0, 3) =~= rm_tag());
        }
        match text_at(p, 3, n) {
            Some(key) => Ok(Request::Rm { key }),
            None => bad_utf8(),
        }
    } else if n >= 4 && p[0] == 103 && p[1] == 101 && p[2] == 116 && p[3] == 32 {
        assert(!has_prefix(p@, set_tag()));
        assert(!has_prefix(p@, rm_tag()));
        assert(has_prefix(p@, get_tag())) by {
            assert(p@.subrange(0, 4) =~= get_tag());
        }
        match text_at(p, 4, n) {
            Some(key) => Ok(Request::Get { key }),
            None => bad_utf8(),
        }
    } else {
        assert(!has_prefix(p@, set_tag())) by {
            if has_prefix(p@, set_tag()) {
                assert(p@[0] == p@.subrange(0, 4)[0]);
                assert(p@[3] == p@.subrange(0, 4)[3]);
            }
        }
        assert(!has_prefix(p@, rm_tag())) by {
            if has_prefix(p@, rm_tag()) {
                assert(p@[0] == p@.subrange(0, 3)[0]);
                assert(p@[2] == p@.subrange(0, 3)[2]);
            }
        }
        assert(!has_prefix(p@, get_tag())) by {
            if has_prefix(p@, get_tag()) {
                assert(p@[0] == p@.subrange(0, 4)[0]);
                assert(p@[3] == p@.subrange(0, 4)[3]);
            }
        }
        malformed(p)
    }
}

/// The payload length announced by the first line of a frame, `line`
/// holding that line with its newline.
pub fn frame_header(line: &[u8]) -> (r: Option<usize>)
    ensures
        r == (match parse_number(line@, 0, 10) {
            Some((n, e)) => if e == line@.len() && n + e + 1 <= usize::MAX {
                Some(n as usize)
            } else {
                None::<usize>
            },
            None => None::<usize>,
        }),
{
    match read_number(line, 0, 10, usize::MAX) {
        Some((n, e)) => {
            if e == line.len() && n < usize::MAX - e {
                Some(n)
            } else {
                None
            }
        },
        None => {
            proof {
                lemma_digits_end_bounds(line@, 0);
            }
            None
        },
    }
}

/// Decodes a buffer that holds exactly one record.
///
/// A buffer that is not one frame gives `Parser`; a frame whose payload is no
/// request gives `KvsDeserializer` with that payload, or `Utf8`.
pub fn deserialize(buf: &[u8]) -> (r: Result<Request, KvsError>)
    ensures
        match frame_payload(buf@) {
            Some(p) => decode_result_matches(p, r),
            None => r is Err && r->Err_0 is Parser,
        },
{
    proof {
        assert(buf@.subrange(0, buf@.len() as int) =~= buf@);
    }
    match frame_at(buf, 0) {
        Some((p, e)) => {
            if e == buf.len() {
                let payload = copy_range(buf, p, e - 1);
                decode_payload(payload.as_slice())
            } else {
                Err(KvsError::Parser("trailing bytes after the record".to_owned()))
            }
        },
        None => Err(KvsError::Parser("no record frame".to_owned())),
    }
}

// ---------------------------------------------------------------------------
// Round trips
// ---------------------------------------------------------------------------

/// A payload decodes to the request that it encodes.
pub proof fn lemma_payload_round_trip(op: Op)
    ensures
        parse_payload(payload_of(op)) == Decoded::Req(op),
{
    let p = payload_of(op);
    match op {
        Op::Put(k, v) => {
            let kb = encode_utf8(k);
            let vb = encode_utf8(v);
            encode_utf8_valid_utf8(k);
            encode_utf8_valid_utf8(v);
            encode_utf8_decode_utf8(k);
            encode_utf8_decode_utf8(v);
            let d = decimal(kb.len());
            lemma_decimal(kb.len());
            assert(p.subrange(0, 4) =~= set_tag());
            let j: int = 4 + d.len() as int;
            assert forall|x: int| 4 <= x < j implies is_digit(#[trigger] p[x]) by {
                assert(p[x] == d[x - 4]);
            }
            assert(p[j] == 32u8);
            lemma_digits_end_at(p, 4, j);
            assert(p.subrange(4, j) =~= d);
            assert(p.subrange(j + 1, j + 1 + kb.len()) =~= kb);
            assert(p.subrange(j + 1 + kb.len(), p.len() as int) =~= vb);
        },
        Op::Rm(k) => {
            encode_utf8_valid_utf8(k);
            encode_utf8_decode_utf8(k);
            assert(p.subrange(0, 3) =~= rm_tag());
            assert(!has_prefix(p, set_tag())) by {
                if has_prefix(p, set_tag()) {
                    assert(p[0] == p.subrange(0, 4)[0]);
                }
            }
            assert(p.subrange(3, p.len() as int) =~= encode_utf8(k));
        },
        Op::Get(k) => {
            encode_utf8_valid_utf8(k);
            encode_utf8_decode_utf8(k);
            assert(p.subrange(0, 4) =~= get_tag());
            assert(!has_prefix(p, set_tag())) by {
                if has_prefix(p, set_tag()) {
                    assert(p[0] == p.subrange(0, 4)[0]);
                }
            }
            assert(!has_prefix(p, rm_tag())) by {
                if has_prefix(p, rm_tag()) {
                    assert(p[0] == p.subrange(0, 3)[0]);
                }
            }
            assert(p.subrange(4, p.len() as int) =~= encode_utf8(k));
        },
    }
}

/// A frame parses back to its payload, whatever follows it.
pub proof fn lemma_frame_parse(p: Seq<u8>, rest: Seq<u8>)
    ensures
        parse_frame(frame_of(p) + rest) == Some(
            (decimal(p.len()).len() + 1int, frame_of(p).len() as int),
        ),
        (frame_of(p) + rest).subrange(decimal(p.len()).len() + 1int, frame_of(p).len() - 1int)
            == p,
{
    let s = frame_of(p) + rest;
    let d = decimal(p.len());
    lemma_decimal(p.len());
    let j = d.len() as int;
    assert forall|x: int| 0 <= x < j implies is_digit(#[trigger] s[x]) by {
        assert(s[x] == d[x]);
    }
    assert(s[j] == 10u8);
    lemma_digits_end_at(s, 0, j);
    assert(s.subrange(0, j) =~= d);
    assert(s[j + 1 + p.len()] == 10u8);
    assert(s.subrange(j + 1, frame_of(p).len() - 1) =~= p);
}

/// A record decodes to the request that it encodes.
pub proof fn lemma_record_round_trip(op: Op)
    ensures
        frame_payload(record_of(op)) == Some(payload_of(op)),
        parse_payload(payload_of(op)) == Decoded::Req(op),
{
    lemma_frame_parse(payload_of(op), Seq::empty());
    assert(record_of(op) + Seq::<u8>::empty() =~= record_of(op));
    lemma_payload_round_trip(op);
}

/// A frame at the start of `s` is the same frame in any extension of `s`.
pub proof fn lemma_parse_frame_extend(s: Seq<u8>, y: Seq<u8>)
    requires
        parse_frame(s) is Some,
    ensures
        parse_frame(s + y) == parse_frame(s),
{
    lemma_parse_number_extend(s, y, 0, 10);
    let (n, p) = parse_number(s, 0, 10)->0;
    assert((s + y)[p + n] == s[p + n]);
}

/// A number closed inside the first `m` bytes reads the same in them alone.
proof fn lemma_parse_number_restrict(s: Seq<u8>, m: int, i: int, term: u8)
    requires
        0 <= i <= m <= s.len(),
        parse_number(s, i, term) matches Some((n, e)) && e <= m,
    ensures
        parse_number(s.subrange(0, m), i, term) == parse_number(s, i, term),
{
    let t = s.subrange(0, m);
    lemma_digits_end_bounds(s, i);
    let j = digits_end(s, i);
    assert forall|k: int| i <= k < j implies is_digit(#[trigger] t[k]) by {
        assert(t[k] == s[k]);
    }
    assert(t[j] == s[j]);
    lemma_digits_end_at(t, i, j);
    assert(t.subrange(i, j) =~= s.subrange(i, j));
}

/// Where the frame at the start of `s` ends.
pub open spec fn frame_end(s: Seq<u8>) -> int {
    match parse_frame(s) {
        Some((p, e)) => e,
        None => 0,
    }
}

/// A frame read alone: the bytes up to its end hold the same frame.
proof fn lemma_parse_frame_restrict(s: Seq<u8>)
    requires
        parse_frame(s) is Some,
    ensures
        parse_frame(s.subrange(0, frame_end(s))) == parse_frame(s),
{
    let e = frame_end(s);
    lemma_parse_number_restrict(s, e, 0, 10);
    let (n, p) = parse_number(s, 0, 10)->0;
    assert(s.subrange(0, e)[p + n] == s[p + n]);
}

// ---------------------------------------------------------------------------
// Records in a buffer
// ---------------------------------------------------------------------------

/// A record found in a buffer: what it says, where it starts, how long it is.
pub struct Entry {
    pub op: Op,
    pub start: int,
    pub len: int,
}

/// The records of `s` from `at` on, in order, up to the first place where no
/// frame can be read or a payload holds no request.
pub open spec fn entries_from(s: Seq<u8>, at: int) -> Seq<Entry>
    decreases s.len() - at,
{
    if 0 <= at < s.len() {
        match parse_frame(s.subrange(at, s.len() as int)) {
            Some((p, e)) => if 0 < e {
                match parse_payload(s.subrange(at + p, at + e - 1)) {
                    Decoded::Req(op) => seq![Entry { op, start: at, len: e }] + entries_from(
                        s,
                        at + e,
                    ),
                    _ => seq![],
                }
            } else {
                seq![]
            },
            None => seq![],
        }
    } else {
        seq![]
    }
}

/// Where reading records from `at` stops.
pub open spec fn entries_end(s: Seq<u8>, at: int) -> int
    decreases s.len() - at,
{
    if 0 <= at < s.len() {
        match parse_frame(s.subrange(at, s.len() as int)) {
            Some((p, e)) => if 0 < e {
                match parse_payload(s.subrange(at + p, at + e - 1)) {
                    Decoded::Req(op) => entries_end(s, at + e),
                    _ => at,
                }
            } else {
                at
            },
            None => at,
        }
    } else {
        at
    }
}

/// `s` is a whole number of records.
pub open spec fn all_records(s: Seq<u8>) -> bool {
    entries_end(s, 0) == s.len()
}

/// The entries `es`, moved `d` bytes further on.
pub open spec fn shift_entries(es: Seq<Entry>, d: int) -> Seq<Entry> {
    es.map_values(|e: Entry| Entry { op: e.op, start: e.start + d, len: e.len })
}

/// The bytes of `s` at an entry of `s` hold one record, which says what the
/// entry says.
pub open spec fn entry_holds(s: Seq<u8>, e: Entry) -> bool {
    &&& 0 <= e.start
    &&& 0 < e.len
    &&& e.start + e.len <= s.len()
    &&& frame_payload(s.subrange(e.start, e.start + e.len)) matches Some(p)
    &&& parse_payload(p) == Decoded::Req(e.op)
}

pub proof fn lemma_entries_facts(s: Seq<u8>, at: int)
    requires
        0 <= at,
    ensures
        at <= entries_end(s, at),
        at <= s.len() ==> entries_end(s, at) <= s.len(),
        forall|i: int|
            #![trigger entries_from(s, at)[i]]
            0 <= i < entries_from(s, at).len() ==> entry_holds(s, entries_from(s, at)[i]) && at
                <= entries_from(s, at)[i].start && entries_from(s, at)[i].start + entries_from(
                s,
                at,
            )[i].len <= entries_end(s, at),
    decreases s.len() - at,
{
    if 0 <= at < s.len() {
        let x = s.subrange(at, s.len() as int);
        match parse_frame(x) {
            Some((p, e)) => if 0 < e {
                match parse_payload(s.subrange(at + p, at + e - 1)) {
                    Decoded::Req(op) => {
                        lemma_entries_facts(s, at + e);
                        lemma_parse_frame_restrict(x);
                        lemma_parse_number_bounds(x);
                        let slice = s.subrange(at, at + e);
                        assert(slice =~= x.subrange(0, e));
                        assert(slice.subrange(p, e - 1) =~= s.subrange(at + p, at + e - 1));
                        let es = entries_from(s, at);
                        let e0 = Entry { op, start: at, len: e };
                        assert(es == seq![e0] + entries_from(s, at + e));
                        assert(entries_end(s, at) == entries_end(s, at + e));
                        assert(frame_payload(slice) == Some(s.subrange(at + p, at + e - 1)));
                        assert(entry_holds(s, e0));
                        assert forall|i: int| 0 <= i < es.len() implies entry_holds(
                            s,
                            #[trigger] es[i],
                        ) && at <= es[i].start && es[i].start + es[i].len <= entries_end(
                            s,
                            at,
                        ) by {
                            if i > 0 {
                                assert(es[i] == entries_from(s, at + e)[i - 1]);
                            } else {
                                assert(es[i] == e0);
                            }
                        }
                    },
                    _ => {
                        assert(entries_from(s, at) =~= Seq::<Entry>::empty());
                    },
                }
            } else {
                assert(entries_from(s, at) =~= Seq::<Entry>::empty());
            },
            None => {
                assert(entries_from(s, at) =~= Seq::<Entry>::empty());
            },
        }
    } else {
        assert(entries_from(s, at) =~= Seq::<Entry>::empty());
    }
}

/// Where a frame's parts lie.
pub proof fn lemma_parse_number_bounds(x: Seq<u8>)
    requires
        parse_frame(x) is Some,
    ensures
        parse_frame(x) matches Some((p, e)) && 0 < p <= e - 1 && e <= x.len(),
{
    lemma_digits_end_bounds(x, 0);
}

/// The entries of a suffix, read inside a longer sequence, are the same
/// entries moved by the length of what precedes.
proof fn lemma_entries_shift(a: Seq<u8>, b: Seq<u8>, y: int)
    requires
        0 <= y <= b.len(),
    ensures
        entries_from(a + b, a.len() + y) == shift_entries(entries_from(b, y), a.len() as int),
        entries_end(a + b, a.len() + y) == a.len() + entries_end(b, y),
    decreases b.len() - y,
{
    let s = a + b;
    let at = a.len() + y;
    assert(s.subrange(at, s.len() as int) =~= b.subrange(y, b.len() as int));
    if y < b.len() {
        let x = b.subrange(y, b.len() as int);
        match parse_frame(x) {
            Some((p, e)) => if 0 < e {
                assert(s.subrange(at + p, at + e - 1) =~= b.subrange(y + p, y + e - 1));
                match parse_payload(b.subrange(y + p, y + e - 1)) {
                    Decoded::Req(op) => {
                        lemma_parse_number_bounds(x);
                        lemma_entries_shift(a, b, y + e);
                        assert(entries_from(s, at) =~= shift_entries(
                            entries_from(b, y),
                            a.len() as int,
                        ));
                    },
                    _ => {},
                }
            } else {
            },
            None => {},
        }
    } else {
        assert(entries_from(b, y) =~= Seq::<Entry>::empty());
        assert(shift_entries(entries_from(b, y), a.len() as int) =~= Seq::<Entry>::empty());
    }
}

/// Records appended after a whole number of records are read after them.
pub proof fn lemma_entries_append(a: Seq<u8>, b: Seq<u8>, at: int)
    requires
        0 <= at <= a.len(),
        entries_end(a, at) == a.len(),
    ensures
        entries_from(a + b, at) == entries_from(a, at) + shift_entries(
            entries_from(b, 0),
            a.len() as int,
        ),
        entries_end(a + b, at) == a.len() + entries_end(b, 0),
    decreases a.len() - at,
{
    let s = a + b;
    if at == a.len() {
        lemma_entries_shift(a, b, 0);
        assert(entries_from(a, at) =~= Seq::<Entry>::empty());
        assert(entries_from(s, at) =~= entries_from(a, at) + shift_entries(
            entries_from(b, 0),
            a.len() as int,
        ));
    } else {
        let x = a.subrange(at, a.len() as int);
        assert(s.subrange(at, s.len() as int) =~= x + b);
        let (p, e) = parse_frame(x)->0;
        lemma_parse_frame_extend(x, b);
        lemma_parse_number_bounds(x);
        assert(s.subrange(at + p, at + e - 1) =~= a.subrange(at + p, at + e - 1));
        lemma_entries_append(a, b, at + e);
        assert(entries_from(s, at) =~= entries_from(a, at) + shift_entries(
            entries_from(b, 0),
            a.len() as int,
        ));
    }
}

/// Bytes that are exactly one record of `op` are one entry.
pub proof fn lemma_one_record(b: Seq<u8>, op: Op)
    requires
        frame_payload(b) matches Some(p) && parse_payload(p) == Decoded::Req(op),
    ensures
        entries_from(b, 0) == seq![Entry { op, start: 0, len: b.len() as int }],
        all_records(b),
{
    assert(b.subrange(0, b.len() as int) =~= b);
    lemma_parse_number_bounds(b);
    assert(entries_from(b, b.len() as int) =~= Seq::<Entry>::empty());
    assert(entries_end(b, b.len() as int) == b.len());
    assert(entries_end(b, 0) == entries_end(b, b.len() as int));
    assert(entries_from(b, 0) =~= seq![Entry { op, start: 0, len: b.len() as int }]);
}

/// A record alone is one entry.
pub proof fn lemma_record_entries(op: Op)
    ensures
        entries_from(record_of(op), 0) == seq![
            Entry { op, start: 0, len: record_of(op).len() as int },
        ],
        all_records(record_of(op)),
{
    let r = record_of(op);
    let p = payload_of(op);
    lemma_frame_parse(p, Seq::empty());
    assert(r + Seq::<u8>::empty() =~= r);
    assert(r.subrange(0, r.len() as int) =~= r);
    lemma_payload_round_trip(op);
    assert(entries_from(r, r.len() as int) =~= Seq::<Entry>::empty());
    assert(entries_end(r, r.len() as int) == r.len());
    let d = decimal(p.len()).len() as int;
    assert(r.subrange(d + 1, r.len() - 1) == p);
    assert(entries_end(r, 0) == entries_end(r, r.len() as int));
    assert(entries_from(r, 0) =~= seq![Entry { op, start: 0, len: r.len() as int }]);
}

// ---------------------------------------------------------------------------
// Streaming
// ---------------------------------------------------------------------------

/// Reads the frames of a buffer one at a time, and keeps count of the bytes
/// that it has consumed.
pub struct RecordParser<'a> {
    buf: &'a [u8],
    pos: usize,
}

impl<'a> RecordParser<'a> {
    /// The buffer being read.
    pub closed spec fn bytes(&self) -> Seq<u8> {
        self.buf@
    }

    /// How many bytes have been consumed.
    pub closed spec fn consumed(&self) -> int {
        self.pos as int
    }

    pub closed spec fn wf(&self) -> bool {
        self.pos <= self.buf@.len()
    }

    /// A parser at the start of `buf`.
    pub fn new(buf: &'a [u8]) -> (r: Self)
        ensures
            r.wf(),
            r.bytes() == buf@,
            r.consumed() == 0,
    {
        RecordParser { buf, pos: 0 }
    }

    /// The number of bytes consumed so far.
    pub fn read_so_far(&self) -> (r: usize)
        ensures
            r == self.consumed(),
    {
        self.pos
    }

    /// The next frame: where it starts, where it ends, and its payload. At
    /// the end of the buffer, or where no frame can be read, nothing is
    /// consumed and `None` comes back.
    pub fn next(&mut self) -> (r: Option<(usize, usize, Vec<u8>)>)
        requires
            old(self).wf(),
        ensures
            final(self).wf(),
            final(self).bytes() == old(self).bytes(),
            match parse_frame(old(self).bytes().subrange(old(self).consumed(), old(self).bytes().len() as int)) {
                Some((p, e)) => r matches Some((a, b, pl)) && a == old(self).consumed() && b
                    == old(self).consumed() + e && pl@ == old(self).bytes().subrange(a + p, b - 1)
                    && final(self).consumed() == b,
                None => r is None && final(self).consumed() == old(self).consumed(),
            },
    {
        let start = self.pos;
        match frame_at(self.buf, start) {
            Some((p, e)) => {
                let ghost x = self.buf@.subrange(start as int, self.buf@.len() as int);
                proof {
                    lemma_parse_number_bounds(x);
                }
                let payload = copy_range(self.buf, p, e - 1);
                self.pos = e;
                Some((start, e, payload))
            },
            None => None,
        }
    }
}

} // verus!
