//! Wire codec: one frame is a 4-byte big-endian length prefix followed by a
//! canonical JSON rendering of one message, `{"time":"..","user":"..",
//! "message":"..","msg_type":".."}`, with `"` and `\` escaped inside fields.
//! The decoder works on an accumulating buffer and answers `Complete`,
//! `Incomplete` or `Malformed`; encoding then decoding returns the message
//! exactly, and a frame split at any byte offset decodes as `Incomplete`
//! until the remainder arrives.

use vstd::prelude::*;
use crate::datatypes::{ChatMessage, MessageType, MsgModel, field_ok, wf_field, wf_msg, MAX_FIELD_BYTES};

verus! {

/// Upper bound the decoder accepts for a declared payload length; a larger
/// declared length is structurally invalid. Every well-formed message's
/// canonical payload stays far below it.
pub const MAX_PAYLOAD: usize = 1048576;

/// The literal `{"time":"`.
pub open spec fn lit_time() -> Seq<u8> {
    seq![0x7bu8, 0x22u8, 0x74u8, 0x69u8, 0x6du8, 0x65u8, 0x22u8, 0x3au8, 0x22u8]
}

/// The literal `","user":"`.
pub open spec fn lit_user() -> Seq<u8> {
    seq![0x22u8, 0x2cu8, 0x22u8, 0x75u8, 0x73u8, 0x65u8, 0x72u8, 0x22u8, 0x3au8, 0x22u8]
}

/// The literal `","message":"`.
pub open spec fn lit_message() -> Seq<u8> {
    seq![
        0x22u8,
        0x2cu8,
        0x22u8,
        0x6du8,
        0x65u8,
        0x73u8,
        0x73u8,
        0x61u8,
        0x67u8,
        0x65u8,
        0x22u8,
        0x3au8,
        0x22u8,
    ]
}

/// The literal `","msg_type":"`.
pub open spec fn lit_type() -> Seq<u8> {
    seq![
        0x22u8,
        0x2cu8,
        0x22u8,
        0x6du8,
        0x73u8,
        0x67u8,
        0x5fu8,
        0x74u8,
        0x79u8,
        0x70u8,
        0x65u8,
        0x22u8,
        0x3au8,
        0x22u8,
    ]
}

/// The literal `"}` closing a payload.
pub open spec fn lit_end() -> Seq<u8> {
    seq![0x22u8, 0x7du8]
}

/// The kind name `Chat`.
pub open spec fn kind_chat() -> Seq<u8> {
    seq![0x43u8, 0x68u8, 0x61u8, 0x74u8]
}

/// The kind name `System`.
pub open spec fn kind_system() -> Seq<u8> {
    seq![0x53u8, 0x79u8, 0x73u8, 0x74u8, 0x65u8, 0x6du8]
}

/// The kind name serialized for a message kind.
pub open spec fn kind_bytes(k: MessageType) -> Seq<u8> {
    match k {
        MessageType::Chat => kind_chat(),
        MessageType::System => kind_system(),
    }
}

/// How one field byte is written inside a JSON string: `"` and `\` get a
/// backslash escape, every other byte stands for itself.
pub open spec fn esc_byte(b: u8) -> Seq<u8> {
    if b == 0x22 {
        seq![0x5cu8, 0x22u8]
    } else if b == 0x5c {
        seq![0x5cu8, 0x5cu8]
    } else {
        seq![b]
    }
}

/// The escaped form of a whole field.
pub open spec fn esc(s: Seq<u8>) -> Seq<u8>
    decreases s.len(),
{
    if s.len() == 0 {
        Seq::empty()
    } else {
        esc_byte(s[0]) + esc(s.skip(1))
    }
}

/// The canonical JSON payload of a message.
pub open spec fn spec_payload(m: MsgModel) -> Seq<u8> {
    lit_time() + (esc(m.time) + (lit_user() + (esc(m.user) + (lit_message() + (esc(m.message) + (
    lit_type() + (kind_bytes(m.kind) + lit_end())))))))
}

/// The four big-endian bytes of a 32-bit length.
pub open spec fn be32(n: u32) -> Seq<u8> {
    seq![
        (n >> 24) as u8,
        ((n >> 16) & 0xff) as u8,
        ((n >> 8) & 0xff) as u8,
        (n & 0xff) as u8,
    ]
}

/// The 32-bit value read from four big-endian bytes.
pub open spec fn be32_val(s: Seq<u8>) -> u32
    recommends
        s.len() >= 4,
{
    (((s[0] as u32) << 24) | ((s[1] as u32) << 16) | ((s[2] as u32) << 8) | (s[3] as u32)) as u32
}

/// The full frame of a message: length prefix, then payload.
pub open spec fn spec_encode(m: MsgModel) -> Seq<u8> {
    be32(spec_payload(m).len() as u32) + spec_payload(m)
}

/// Escaping distributes over concatenation.
pub proof fn lemma_esc_append(a: Seq<u8>, b: Seq<u8>)
    ensures
        esc(a + b) == esc(a) + esc(b),
    decreases a.len(),
{
    if a.len() == 0 {
        assert(a + b =~= b);
        assert(esc(a) + esc(b) =~= esc(b));
    } else {
        assert((a + b).skip(1) =~= a.skip(1) + b);
        lemma_esc_append(a.skip(1), b);
        assert(esc(a + b) =~= esc(a) + esc(b));
    }
}

/// The escaped form is at least as long as the field and at most twice it.
pub proof fn lemma_esc_len(s: Seq<u8>)
    ensures
        s.len() <= esc(s).len() <= 2 * s.len(),
    decreases s.len(),
{
    if s.len() > 0 {
        lemma_esc_len(s.skip(1));
    }
}

/// Reads one JSON string body up to (not including) its terminating quote:
/// the unescaped field bytes and how many input bytes they spanned. `None`
/// when the input ends, holds a raw control byte, or uses an unknown escape.
pub open spec fn spec_ps(s: Seq<u8>) -> Option<(Seq<u8>, int)>
    decreases s.len(),
{
    if s.len() == 0 {
        None
    } else if s[0] == 0x22 {
        Some((Seq::empty(), 0))
    } else if s[0] == 0x5c {
        if s.len() >= 2 && (s[1] == 0x22 || s[1] == 0x5c) {
            match spec_ps(s.skip(2)) {
                Some(tc) => Some((seq![s[1]] + tc.0, tc.1 + 2)),
                None => None,
            }
        } else {
            None
        }
    } else if s[0] < 0x20 {
        None
    } else {
        match spec_ps(s.skip(1)) {
            Some(tc) => Some((seq![s[0]] + tc.0, tc.1 + 1)),
            None => None,
        }
    }
}

/// Parsing the escaped form of a control-free field, followed by anything
/// that opens with a quote, recovers the field exactly.
pub proof fn lemma_ps_round_trip(f: Seq<u8>, rest: Seq<u8>)
    requires
        forall|i: int| 0 <= i < f.len() ==> f[i] >= 0x20,
        rest.len() > 0,
        rest[0] == 0x22,
    ensures
        spec_ps(esc(f) + rest) == Some((f, esc(f).len() as int)),
    decreases f.len(),
{
    let s = esc(f) + rest;
    if f.len() == 0 {
        assert(s =~= rest);
    } else {
        lemma_ps_round_trip(f.skip(1), rest);
        let b = f[0];
        if b == 0x22 || b == 0x5c {
            assert(s.skip(2) =~= esc(f.skip(1)) + rest);
            assert(s[0] == 0x5c && s[1] == b);
            assert(seq![b] + f.skip(1) =~= f);
        } else {
            assert(s.skip(1) =~= esc(f.skip(1)) + rest);
            assert(s[0] == b);
            assert(seq![b] + f.skip(1) =~= f);
        }
    }
}

/// Strips an expected literal from the front of the input.
pub open spec fn strip_lit(s: Seq<u8>, lit: Seq<u8>) -> Option<Seq<u8>> {
    if s.len() >= lit.len() && s.subrange(0, lit.len() as int) == lit {
        Some(s.skip(lit.len() as int))
    } else {
        None
    }
}

/// Stripping a literal from input that starts with it yields the remainder.
pub proof fn lemma_strip_lit(lit: Seq<u8>, rest: Seq<u8>)
    ensures
        strip_lit(lit + rest, lit) == Some(rest),
{
    let s = lit + rest;
    assert(s.subrange(0, lit.len() as int) =~= lit);
    assert(s.skip(lit.len() as int) =~= rest);
}

/// Dropping the front of a concatenation leaves its tail.
pub proof fn lemma_skip_concat(a: Seq<u8>, b: Seq<u8>)
    ensures
        (a + b).skip(a.len() as int) == b,
{
    assert((a + b).skip(a.len() as int) =~= b);
}

/// Skipping twice is skipping once by the sum.
pub proof fn lemma_skip_skip(s: Seq<u8>, x: int, y: int)
    requires
        0 <= x,
        0 <= y,
        x + y <= s.len(),
    ensures
        s.skip(x).skip(y) == s.skip(x + y),
{
    assert(s.skip(x).skip(y) =~= s.skip(x + y));
}

/// Reads one field and then the literal that must follow its closing quote,
/// yielding the field and the remainder after the literal.
pub open spec fn field_then(s: Seq<u8>, lit: Seq<u8>) -> Option<(Seq<u8>, Seq<u8>)> {
    match spec_ps(s) {
        None => None,
        Some((f, c)) => match strip_lit(s.skip(c), lit) {
            None => None,
            Some(r) => Some((f, r)),
        },
    }
}

/// Reading a control-free field's escaped form followed by its literal
/// recovers the field and what follows the literal.
pub proof fn lemma_field_then(f: Seq<u8>, lit: Seq<u8>, rest: Seq<u8>)
    requires
        forall|i: int| 0 <= i < f.len() ==> f[i] >= 0x20,
        lit.len() > 0,
        lit[0] == 0x22,
    ensures
        field_then(esc(f) + (lit + rest), lit) == Some((f, rest)),
{
    let tail = lit + rest;
    assert(tail[0] == 0x22);
    lemma_ps_round_trip(f, tail);
    lemma_skip_concat(esc(f), tail);
    lemma_strip_lit(lit, rest);
}

/// Parses a whole payload: the fixed literals, the three fields, and the
/// kind name, with nothing left over; the decoded fields must satisfy the
/// protocol's field bounds.
pub open spec fn spec_parse_msg(p: Seq<u8>) -> Option<MsgModel> {
    match strip_lit(p, lit_time()) {
        None => None,
        Some(s1) => match field_then(s1, lit_user()) {
            None => None,
            Some((tf, s2)) => match field_then(s2, lit_message()) {
                None => None,
                Some((uf, s3)) => match field_then(s3, lit_type()) {
                    None => None,
                    Some((mf, s4)) => match field_then(s4, lit_end()) {
                        None => None,
                        Some((kf, s5)) => spec_finish_msg(tf, uf, mf, kf, s5),
                    },
                },
            },
        },
    }
}

/// Final payload checks: a known kind name, no trailing bytes, fields within
/// bounds.
pub open spec fn spec_finish_msg(
    tf: Seq<u8>,
    uf: Seq<u8>,
    mf: Seq<u8>,
    kf: Seq<u8>,
    s5: Seq<u8>,
) -> Option<MsgModel> {
    if s5.len() != 0 {
        None
    } else if kf == kind_chat() {
        spec_check_msg(MsgModel { time: tf, user: uf, message: mf, kind: MessageType::Chat })
    } else if kf == kind_system() {
        spec_check_msg(MsgModel { time: tf, user: uf, message: mf, kind: MessageType::System })
    } else {
        None
    }
}

/// Accepts a parsed message only when well formed.
pub open spec fn spec_check_msg(m: MsgModel) -> Option<MsgModel> {
    if wf_msg(m) {
        Some(m)
    } else {
        None
    }
}

/// Parsing the canonical payload of a well-formed message recovers it.
#[verifier::rlimit(100)]
pub proof fn lemma_parse_payload(m: MsgModel)
    requires
        wf_msg(m),
    ensures
        spec_parse_msg(spec_payload(m)) == Some(m),
{
    let e1 = esc(m.time);
    let e2 = esc(m.user);
    let e3 = esc(m.message);
    let kb = kind_bytes(m.kind);
    let p = spec_payload(m);

    let empty_rest: Seq<u8> = Seq::empty();
    let kb_end = esc(kb) + (lit_end() + empty_rest);
    let rest3 = e3 + (lit_type() + kb_end);
    let rest2 = e2 + (lit_message() + rest3);
    let r1 = e1 + (lit_user() + rest2);

    assert(strip_lit(p, lit_time()) == Some(r1)) by {
        lemma_kind_field(m.kind);
        assert(kb + lit_end() =~= kb_end);
        lemma_strip_lit(lit_time(), r1);
    }
    assert(field_then(r1, lit_user()) == Some((m.time, rest2))) by {
        lemma_field_then(m.time, lit_user(), rest2);
    }
    assert(field_then(rest2, lit_message()) == Some((m.user, rest3))) by {
        lemma_field_then(m.user, lit_message(), rest3);
    }
    assert(field_then(rest3, lit_type()) == Some((m.message, kb_end))) by {
        lemma_field_then(m.message, lit_type(), kb_end);
    }
    assert(field_then(kb_end, lit_end()) == Some((kb, empty_rest))) by {
        lemma_kind_field(m.kind);
        lemma_field_then(kb, lit_end(), empty_rest);
    }
    assert(spec_finish_msg(m.time, m.user, m.message, kb, empty_rest) == Some(m)) by {
        lemma_kind_field(m.kind);
        assert(kind_bytes(MessageType::Chat) != kind_bytes(MessageType::System));
        assert(m == (MsgModel { time: m.time, user: m.user, message: m.message, kind: m.kind }));
    }
}

/// A kind name escapes to itself, holds no control byte, and starts parsing
/// as a plain field.
pub proof fn lemma_kind_field(k: MessageType)
    ensures
        esc(kind_bytes(k)) == kind_bytes(k),
        forall|i: int| 0 <= i < kind_bytes(k).len() ==> kind_bytes(k)[i] >= 0x20,
{
    lemma_esc_plain(kind_bytes(k));
}

/// What a decode attempt on an accumulating buffer can say, at the model
/// level: a full well-formed frame and the bytes it spans, too few bytes so
/// far, or a structurally invalid frame.
pub ghost enum SpecDecode {
    Complete(MsgModel, int),
    Incomplete,
    Malformed,
}

/// Decoding one frame from the front of the buffer: fewer than four bytes or
/// fewer than the declared payload length mean `Incomplete`; an oversized
/// declared length or an invalid payload means `Malformed`.
pub open spec fn spec_decode(s: Seq<u8>) -> SpecDecode {
    if s.len() < 4 {
        SpecDecode::Incomplete
    } else {
        let n = be32_val(s.subrange(0, 4)) as int;
        if n > MAX_PAYLOAD as int {
            SpecDecode::Malformed
        } else if s.len() < 4 + n {
            SpecDecode::Incomplete
        } else {
            match spec_parse_msg(s.subrange(4, 4 + n)) {
                Some(m) => SpecDecode::Complete(m, 4 + n),
                None => SpecDecode::Malformed,
            }
        }
    }
}

/// Reading back the four big-endian bytes of a 32-bit value returns it.
pub proof fn lemma_be32_round_trip(n: u32)
    ensures
        be32_val(be32(n)) == n,
{
    let b0 = (n >> 24) as u8;
    let b1 = ((n >> 16) & 0xff) as u8;
    let b2 = ((n >> 8) & 0xff) as u8;
    let b3 = (n & 0xff) as u8;
    assert((((b0 as u32) << 24) | ((b1 as u32) << 16) | ((b2 as u32) << 8) | (b3 as u32)) as u32
        == n) by (bit_vector)
        requires
            b0 == (n >> 24) as u8,
            b1 == ((n >> 16) & 0xff) as u8,
            b2 == ((n >> 8) & 0xff) as u8,
            b3 == (n & 0xff) as u8,
    ;
}

/// The canonical payload of a well-formed message stays within the length
/// the decoder accepts.
pub proof fn lemma_payload_bound(m: MsgModel)
    requires
        wf_msg(m),
    ensures
        48 <= spec_payload(m).len() <= MAX_PAYLOAD,
{
    lemma_esc_len(m.time);
    lemma_esc_len(m.user);
    lemma_esc_len(m.message);
    assert(kind_bytes(m.kind).len() <= 6) by {
        match m.kind {
            MessageType::Chat => {},
            MessageType::System => {},
        }
    }
}

/// Round-trip law: the frame of any well-formed message decodes back to the
/// message, consuming the whole frame.
pub proof fn lemma_round_trip(m: MsgModel)
    requires
        wf_msg(m),
    ensures
        spec_decode(spec_encode(m)) == SpecDecode::Complete(m, spec_encode(m).len() as int),
{
    let p = spec_payload(m);
    let f = spec_encode(m);
    lemma_payload_bound(m);
    let w = p.len() as u32;
    lemma_be32_round_trip(w);
    assert(f.subrange(0, 4) =~= be32(w));
    assert(f.subrange(4, 4 + p.len() as int) =~= p);
    lemma_parse_payload(m);
}

/// Splitting law: any strict prefix of a frame decodes as `Incomplete`, and
/// the prefix with the remainder appended decodes the full message.
#[verifier::rlimit(50)]
pub proof fn lemma_split_frame(m: MsgModel, i: int)
    requires
        wf_msg(m),
        0 <= i < spec_encode(m).len(),
    ensures
        spec_decode(spec_encode(m).take(i)) is Incomplete,
        spec_decode(spec_encode(m).take(i) + spec_encode(m).skip(i)) == SpecDecode::Complete(
            m,
            spec_encode(m).len() as int,
        ),
{
    let f = spec_encode(m);
    let p = spec_payload(m);
    lemma_round_trip(m);
    lemma_payload_bound(m);
    assert(f.take(i) + f.skip(i) =~= f);
    let pre = f.take(i);
    if i >= 4 {
        assert(pre.subrange(0, 4) =~= f.subrange(0, 4));
        lemma_be32_round_trip(p.len() as u32);
        assert(pre.len() < 4 + p.len());
    }
}

/// The literal `{"time":"` as bytes.
fn lit_time_vec() -> (v: Vec<u8>)
    ensures
        v@ == lit_time(),
{
    let v: Vec<u8> = vec![0x7b, 0x22, 0x74, 0x69, 0x6d, 0x65, 0x22, 0x3a, 0x22];
    v
}

/// The literal `","user":"` as bytes.
fn lit_user_vec() -> (v: Vec<u8>)
    ensures
        v@ == lit_user(),
{
    let v: Vec<u8> = vec![0x22, 0x2c, 0x22, 0x75, 0x73, 0x65, 0x72, 0x22, 0x3a, 0x22];
    v
}

/// The literal `","message":"` as bytes.
fn lit_message_vec() -> (v: Vec<u8>)
    ensures
        v@ == lit_message(),
{
    let v: Vec<u8> = vec![
        0x22,
        0x2c,
        0x22,
        0x6d,
        0x65,
        0x73,
        0x73,
        0x61,
        0x67,
        0x65,
        0x22,
        0x3a,
        0x22,
    ];
    v
}

/// The literal `","msg_type":"` as bytes.
fn lit_type_vec() -> (v: Vec<u8>)
    ensures
        v@ == lit_type(),
{
    let v: Vec<u8> = vec![
        0x22,
        0x2c,
        0x22,
        0x6d,
        0x73,
        0x67,
        0x5f,
        0x74,
        0x79,
        0x70,
        0x65,
        0x22,
        0x3a,
        0x22,
    ];
    v
}

/// The literal `"}` as bytes.
fn lit_end_vec() -> (v: Vec<u8>)
    ensures
        v@ == lit_end(),
{
    let v: Vec<u8> = vec![0x22, 0x7d];
    v
}

/// The serialized kind name as bytes.
fn kind_vec(k: MessageType) -> (v: Vec<u8>)
    ensures
        v@ == kind_bytes(k),
{
    match k {
        MessageType::Chat => {
            let v: Vec<u8> = vec![0x43, 0x68, 0x61, 0x74];
            v
        },
        MessageType::System => {
            let v: Vec<u8> = vec![0x53, 0x79, 0x73, 0x74, 0x65, 0x6d];
            v
        },
    }
}

/// Whether two byte vectors hold the same bytes.
fn vec_eq(a: &Vec<u8>, b: &Vec<u8>) -> (r: bool)
    ensures
        r == (a@ == b@),
{
    if a.len() != b.len() {
        return false;
    }
    let mut i: usize = 0;
    while i < a.len()
        invariant
            i <= a.len(),
            a@.len() == b@.len(),
            forall|j: int| 0 <= j < i ==> a@[j] == b@[j],
        decreases a.len() - i,
    {
        if a[i] != b[i] {
            return false;
        }
        i += 1;
    }
    proof {
        assert(a@ =~= b@);
    }
    true
}

/// Whether the expected literal stands at position `i` of the buffer.
fn has_lit_at(buf: &Vec<u8>, i: usize, lit: &Vec<u8>) -> (r: bool)
    requires
        i <= buf@.len(),
    ensures
        r == (strip_lit(buf@.skip(i as int), lit@) is Some),
        r ==> i + lit@.len() <= buf@.len(),
{
    let ghost s = buf@.skip(i as int);
    if buf.len() - i < lit.len() {
        return false;
    }
    let mut j: usize = 0;
    while j < lit.len()
        invariant
            j <= lit@.len(),
            i <= buf@.len(),
            i + lit@.len() <= buf@.len(),
            buf@.len() <= usize::MAX,
            s == buf@.skip(i as int),
            forall|k: int| 0 <= k < j ==> buf@[i + k] == lit@[k],
        decreases lit@.len() - j,
    {
        if buf[i + j] != lit[j] {
            proof {
                let l = lit@.len() as int;
                assert(s.len() == buf@.len() - i);
                assert(s.subrange(0, l)[j as int] == s[j as int]);
                assert(s[j as int] == buf@[i + j]);
            }
            return false;
        }
        j += 1;
    }
    proof {
        assert(s.subrange(0, lit@.len() as int) =~= lit@);
    }
    true
}

/// Prepends already-read bytes and their consumed count to a field-parse
/// result.
pub open spec fn ps_prepend(pre: Seq<u8>, k: int, r: Option<(Seq<u8>, int)>) -> Option<
    (Seq<u8>, int),
> {
    match r {
        Some((t, c)) => Some((pre + t, k + c)),
        None => None,
    }
}

/// Prepending nothing changes nothing.
proof fn lemma_ps_prepend_empty(r: Option<(Seq<u8>, int)>)
    ensures
        ps_prepend(Seq::empty(), 0, r) == r,
{
    match r {
        Some((t, c)) => {
            assert(Seq::empty() + t =~= t);
        },
        None => {},
    }
}

/// Prepending twice is prepending the concatenation.
proof fn lemma_ps_prepend_assoc(a: Seq<u8>, x: int, b: Seq<u8>, y: int, r: Option<(Seq<u8>, int)>)
    ensures
        ps_prepend(a, x, ps_prepend(b, y, r)) == ps_prepend(a + b, x + y, r),
{
    match r {
        Some((t, c)) => {
            assert(a + (b + t) =~= (a + b) + t);
        },
        None => {},
    }
}

/// Reads one string field starting at `start`: the unescaped bytes and how
/// many input bytes they spanned, the terminating quote excluded.
fn parse_field(buf: &Vec<u8>, start: usize) -> (r: Option<(Vec<u8>, usize)>)
    requires
        start <= buf@.len(),
    ensures
        buf@.len() <= usize::MAX,
        match r {
            Some(fc) => spec_ps(buf@.skip(start as int)) == Some((fc.0@, fc.1 as int)) && start
                + fc.1 < buf@.len(),
            None => spec_ps(buf@.skip(start as int)) is None,
        },
{
    let mut i: usize = start;
    let mut out: Vec<u8> = Vec::new();
    proof {
        lemma_ps_prepend_empty(spec_ps(buf@.skip(start as int)));
    }
    loop
        invariant
            start <= i <= buf@.len(),
            spec_ps(buf@.skip(start as int)) == ps_prepend(
                out@,
                i - start,
                spec_ps(buf@.skip(i as int)),
            ),
        decreases buf@.len() - i,
    {
        if i >= buf.len() {
            proof {
                assert(buf@.skip(i as int) =~= Seq::<u8>::empty());
            }
            return None;
        }
        let b = buf[i];
        assert(buf@.skip(i as int)[0] == b);
        if b == 0x22 {
            proof {
                assert(out@ + Seq::<u8>::empty() =~= out@);
            }
            return Some((out, i - start));
        } else if b == 0x5c {
            if i + 1 >= buf.len() {
                proof {
                    assert(buf@.skip(i as int).len() == 1);
                }
                return None;
            }
            let b2 = buf[i + 1];
            assert(buf@.skip(i as int)[1] == b2);
            if b2 == 0x22 || b2 == 0x5c {
                proof {
                    lemma_skip_skip(buf@, i as int, 2);
                    lemma_ps_prepend_assoc(
                        out@,
                        i - start,
                        seq![b2],
                        2,
                        spec_ps(buf@.skip(i as int + 2)),
                    );
                    assert(out@ + seq![b2] =~= out@.push(b2));
                }
                out.push(b2);
                i += 2;
            } else {
                return None;
            }
        } else if b < 0x20 {
            return None;
        } else {
            proof {
                lemma_skip_skip(buf@, i as int, 1);
                lemma_ps_prepend_assoc(
                    out@,
                    i - start,
                    seq![b],
                    1,
                    spec_ps(buf@.skip(i as int + 1)),
                );
                assert(out@ + seq![b] =~= out@.push(b));
            }
            out.push(b);
            i += 1;
        }
    }
}

/// Reads one field and the literal after it, returning the field bytes and
/// the buffer position just past the literal.
fn field_and_lit(p: &Vec<u8>, pos: usize, lit: &Vec<u8>) -> (r: Option<(Vec<u8>, usize)>)
    requires
        pos <= p@.len(),
        lit@.len() > 0,
    ensures
        match r {
            Some(fp) => field_then(p@.skip(pos as int), lit@) == Some(
                (fp.0@, p@.skip(fp.1 as int)),
            ) && pos < fp.1 <= p@.len(),
            None => field_then(p@.skip(pos as int), lit@) is None,
        },
{
    let fc = match parse_field(p, pos) {
        Some(x) => x,
        None => {
            return None;
        },
    };
    let (fv, c) = fc;
    proof {
        lemma_skip_skip(p@, pos as int, c as int);
    }
    if !has_lit_at(p, pos + c, lit) {
        return None;
    }
    proof {
        lemma_skip_skip(p@, pos as int + c as int, lit@.len() as int);
    }
    Some((fv, pos + c + lit.len()))
}

/// Parses one whole payload into a message, exactly as the payload grammar
/// says.
fn parse_msg_exec(p: &Vec<u8>) -> (r: Option<ChatMessage>)
    ensures
        match r {
            Some(m) => spec_parse_msg(p@) == Some(m@) && m.wf(),
            None => spec_parse_msg(p@) is None,
        },
{
    let lt = lit_time_vec();
    let lu = lit_user_vec();
    let lm = lit_message_vec();
    let lk = lit_type_vec();
    let le = lit_end_vec();
    proof {
        assert(p@.skip(0) =~= p@);
    }
    if !has_lit_at(p, 0, &lt) {
        return None;
    }
    let pos1 = lt.len();
    let (tv, pos2) = match field_and_lit(p, pos1, &lu) {
        Some(x) => x,
        None => {
            return None;
        },
    };
    let (uv, pos3) = match field_and_lit(p, pos2, &lm) {
        Some(x) => x,
        None => {
            return None;
        },
    };
    let (mv, pos4) = match field_and_lit(p, pos3, &lk) {
        Some(x) => x,
        None => {
            return None;
        },
    };
    let (kv, pos5) = match field_and_lit(p, pos4, &le) {
        Some(x) => x,
        None => {
            return None;
        },
    };
    if pos5 != p.len() {
        proof {
            assert(p@.skip(pos5 as int).len() != 0);
        }
        return None;
    }
    proof {
        assert(p@.skip(pos5 as int) =~= Seq::<u8>::empty());
    }
    let kc = kind_vec(MessageType::Chat);
    let ks = kind_vec(MessageType::System);
    let kind = if vec_eq(&kv, &kc) {
        MessageType::Chat
    } else if vec_eq(&kv, &ks) {
        MessageType::System
    } else {
        return None;
    };
    if field_ok(&tv) && field_ok(&uv) && field_ok(&mv) {
        Some(ChatMessage { time: tv, user: uv, message: mv, msg_type: kind })
    } else {
        None
    }
}

/// A single byte escapes as that byte's escape.
proof fn lemma_esc_one(b: u8)
    ensures
        esc(seq![b]) == esc_byte(b),
{
    assert(seq![b].skip(1) =~= Seq::<u8>::empty());
    assert(esc(Seq::<u8>::empty()) =~= Seq::<u8>::empty());
    assert(esc_byte(b) + Seq::<u8>::empty() =~= esc_byte(b));
}

/// Appends the escaped form of a field to the output.
fn push_escaped(out: &mut Vec<u8>, f: &Vec<u8>)
    ensures
        final(out)@ == old(out)@ + esc(f@),
{
    proof {
        assert(f@.take(0) =~= Seq::<u8>::empty());
        assert(old(out)@ + esc(Seq::<u8>::empty()) =~= old(out)@);
    }
    let mut i: usize = 0;
    while i < f.len()
        invariant
            i <= f@.len(),
            out@ == old(out)@ + esc(f@.take(i as int)),
        decreases f@.len() - i,
    {
        let b = f[i];
        proof {
            lemma_esc_append(f@.take(i as int), seq![b]);
            lemma_esc_one(b);
            assert(f@.take(i as int + 1) =~= f@.take(i as int) + seq![b]);
        }
        if b == 0x22 {
            out.push(0x5c);
            out.push(0x22);
        } else if b == 0x5c {
            out.push(0x5c);
            out.push(0x5c);
        } else {
            out.push(b);
        }
        proof {
            assert(out@ =~= old(out)@ + esc(f@.take(i as int + 1)));
        }
        i += 1;
    }
    proof {
        assert(f@.take(f@.len() as int) =~= f@);
    }
}

/// Encodes one well-formed message as a frame: 4-byte big-endian payload
/// length, then the canonical JSON payload.
#[verifier::rlimit(100)]
pub fn encode(m: &ChatMessage) -> (r: Vec<u8>)
    requires
        m.wf(),
    ensures
        r@ == spec_encode(m@),
        r@.len() <= 4 + MAX_PAYLOAD,
{
    let mut p = lit_time_vec();
    push_escaped(&mut p, &m.time);
    let mut lu = lit_user_vec();
    p.append(&mut lu);
    push_escaped(&mut p, &m.user);
    let mut lm = lit_message_vec();
    p.append(&mut lm);
    push_escaped(&mut p, &m.message);
    let mut lk = lit_type_vec();
    p.append(&mut lk);
    let mut kb = kind_vec(m.msg_type);
    p.append(&mut kb);
    let mut le = lit_end_vec();
    p.append(&mut le);
    proof {
        assert(p@ =~= spec_payload(m@));
        lemma_payload_bound(m@);
    }
    let n: usize = p.len();
    let w: u32 = n as u32;
    let mut out: Vec<u8> = Vec::new();
    out.push((w >> 24) as u8);
    out.push(((w >> 16) & 0xff) as u8);
    out.push(((w >> 8) & 0xff) as u8);
    out.push((w & 0xff) as u8);
    proof {
        assert(out@ =~= be32(w));
        assert(w == spec_payload(m@).len() as u32);
    }
    out.append(&mut p);
    proof {
        assert(out@ =~= spec_encode(m@));
    }
    out
}

/// Copies `v[from..to]` into a fresh vector.
fn subvec(v: &Vec<u8>, from: usize, to: usize) -> (r: Vec<u8>)
    requires
        from <= to <= v@.len(),
    ensures
        r@ == v@.subrange(from as int, to as int),
{
    let mut r: Vec<u8> = Vec::new();
    proof {
        assert(v@.subrange(from as int, from as int) =~= Seq::<u8>::empty());
    }
    let mut i = from;
    while i < to
        invariant
            from <= i <= to,
            to <= v@.len(),
            r@ == v@.subrange(from as int, i as int),
        decreases to - i,
    {
        let b = v[i];
        r.push(b);
        proof {
            assert(v@.subrange(from as int, i as int + 1) =~= v@.subrange(
                from as int,
                i as int,
            ).push(v@[i as int]));
        }
        i += 1;
    }
    r
}

/// What one decode attempt on the buffer answered.
pub enum DecodeResult {
    Complete(ChatMessage, usize),
    Incomplete,
    Malformed,
}

/// Decodes at most one frame from the front of the accumulating buffer,
/// consuming nothing; the result is exactly what the decode model says.
pub fn decode(buf: &Vec<u8>) -> (r: DecodeResult)
    ensures
        r matches DecodeResult::Complete(m, c) ==> spec_decode(buf@) == SpecDecode::Complete(
            m@,
            c as int,
        ) && m.wf() && 4 <= c <= buf@.len(),
        r is Incomplete <==> spec_decode(buf@) is Incomplete,
        r is Malformed <==> spec_decode(buf@) is Malformed,
{
    if buf.len() < 4 {
        return DecodeResult::Incomplete;
    }
    let b0 = buf[0];
    let b1 = buf[1];
    let b2 = buf[2];
    let b3 = buf[3];
    let w: u32 = ((b0 as u32) << 24) | ((b1 as u32) << 16) | ((b2 as u32) << 8) | (b3 as u32);
    proof {
        let h = buf@.subrange(0, 4);
        assert(h[0] == b0 && h[1] == b1 && h[2] == b2 && h[3] == b3);
    }
    if w > MAX_PAYLOAD as u32 {
        return DecodeResult::Malformed;
    }
    let n: usize = w as usize;
    if buf.len() - 4 < n {
        return DecodeResult::Incomplete;
    }
    let payload = subvec(buf, 4, 4 + n);
    match parse_msg_exec(&payload) {
        Some(m) => DecodeResult::Complete(m, 4 + n),
        None => DecodeResult::Malformed,
    }
}

/// What repeatedly decoding from the front of a buffer leaves: the decoded
/// messages in order, the unconsumed rest, and whether a malformed frame
/// stopped the drain.
#[verifier::ext_equal]
pub ghost struct DrainModel {
    pub msgs: Seq<MsgModel>,
    pub rest: Seq<u8>,
    pub malformed: bool,
}

/// Decodes complete frames from the front of the buffer until the bytes run
/// out or a frame is malformed.
pub open spec fn spec_drain(s: Seq<u8>) -> DrainModel
    decreases s.len(),
{
    match spec_decode(s) {
        SpecDecode::Complete(m, c) => {
            if 4 <= c <= s.len() {
                let d = spec_drain(s.skip(c));
                DrainModel { msgs: seq![m] + d.msgs, rest: d.rest, malformed: d.malformed }
            } else {
                DrainModel { msgs: Seq::empty(), rest: s, malformed: true }
            }
        },
        SpecDecode::Incomplete => DrainModel { msgs: Seq::empty(), rest: s, malformed: false },
        SpecDecode::Malformed => DrainModel { msgs: Seq::empty(), rest: s, malformed: true },
    }
}

/// The views of a vector of messages.
pub open spec fn views_of(s: Seq<ChatMessage>) -> Seq<MsgModel> {
    s.map_values(|m: ChatMessage| m@)
}

/// Prepends already-drained messages to a drain result.
pub open spec fn drain_prepend(ms: Seq<MsgModel>, d: DrainModel) -> DrainModel {
    DrainModel { msgs: ms + d.msgs, rest: d.rest, malformed: d.malformed }
}

/// Prepending twice is prepending the concatenation.
proof fn lemma_drain_prepend_assoc(a: Seq<MsgModel>, b: Seq<MsgModel>, d: DrainModel)
    ensures
        drain_prepend(a, drain_prepend(b, d)) == drain_prepend(a + b, d),
{
    assert(a + (b + d.msgs) =~= (a + b) + d.msgs);
}

/// Appending one message to the vector appends its view.
proof fn lemma_views_push(s: Seq<ChatMessage>, m: ChatMessage)
    ensures
        views_of(s.push(m)) == views_of(s) + seq![m@],
{
    assert(views_of(s.push(m)) =~= views_of(s) + seq![m@]);
}

/// Appends the incoming bytes to the accumulation buffer, then decodes every
/// complete frame from its front, in order. Returns the decoded messages and
/// whether a malformed frame was hit (the caller must then drop the
/// connection); the buffer keeps exactly the unconsumed bytes.
pub fn drain_frames(buf: &mut Vec<u8>, incoming: &Vec<u8>) -> (r: (Vec<ChatMessage>, bool))
    ensures
        ({
            let d = spec_drain(old(buf)@ + incoming@);
            &&& views_of(r.0@) == d.msgs
            &&& final(buf)@ == d.rest
            &&& r.1 == d.malformed
        }),
        forall|j: int| 0 <= j < r.0@.len() ==> (#[trigger] r.0@[j]).wf(),
{
    let ghost s0 = old(buf)@ + incoming@;
    buf.extend_from_slice(incoming.as_slice());
    let mut msgs: Vec<ChatMessage> = Vec::new();
    proof {
        assert(buf@ == s0);
        assert(views_of(msgs@) =~= Seq::<MsgModel>::empty());
        assert(drain_prepend(views_of(msgs@), spec_drain(buf@)) == spec_drain(s0)) by {
            let d = spec_drain(s0);
            assert(views_of(msgs@) + d.msgs =~= d.msgs);
            assert(drain_prepend(views_of(msgs@), d) =~= d);
        }
    }
    loop
        invariant
            s0 == old(buf)@ + incoming@,
            spec_drain(s0) == drain_prepend(views_of(msgs@), spec_drain(buf@)),
            forall|j: int| 0 <= j < msgs@.len() ==> (#[trigger] msgs@[j]).wf(),
        decreases buf@.len(),
    {
        match decode(buf) {
            DecodeResult::Complete(m, c) => {
                let ghost b_pre = buf@;
                proof {
                    let d_next = spec_drain(b_pre.skip(c as int));
                    assert(spec_drain(b_pre) == drain_prepend(seq![m@], d_next));
                    lemma_drain_prepend_assoc(views_of(msgs@), seq![m@], d_next);
                    lemma_views_push(msgs@, m);
                }
                msgs.push(m);
                let tail = buf.split_off(c);
                proof {
                    assert(tail@ =~= b_pre.skip(c as int));
                }
                *buf = tail;
            },
            DecodeResult::Incomplete => {
                proof {
                    assert(views_of(msgs@) + Seq::<MsgModel>::empty() =~= views_of(msgs@));
                }
                return (msgs, false);
            },
            DecodeResult::Malformed => {
                proof {
                    assert(views_of(msgs@) + Seq::<MsgModel>::empty() =~= views_of(msgs@));
                }
                return (msgs, true);
            },
        }
    }
}

/// A field with no quote, backslash or control byte escapes to itself.
pub proof fn lemma_esc_plain(s: Seq<u8>)
    requires
        forall|i: int| 0 <= i < s.len() ==> s[i] >= 0x20 && s[i] != 0x22 && s[i] != 0x5c,
    ensures
        esc(s) == s,
    decreases s.len(),
{
    if s.len() == 0 {
        assert(esc(s) =~= s);
    } else {
        lemma_esc_plain(s.skip(1));
        assert(esc(s) =~= s);
    }
}

} // verus!
