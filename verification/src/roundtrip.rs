//! The UDP clock round trip.
//!
//! The client sends a message holding its clock reading; the server answers
//! with the same message, its own clock reading written into the second
//! half. From the answer the client computes the round trip time and how far
//! the server's clock is off. Clock readings are in microseconds and are
//! written in the machine's byte order.

use vstd::endian::{endianness, Endian};
use vstd::prelude::*;

verus! {

/// The size of a message: two clock readings of eight bytes each.
pub const MSG_SIZE: usize = 16;

/// The eight bytes of `x`, least significant first.
pub open spec fn le_bytes(x: i64) -> Seq<u8> {
    Seq::new(8, |k: int| ((x as u64) >> ((8 * k) as u64)) as u8)
}

/// The eight bytes of `x`, most significant first.
pub open spec fn be_bytes(x: i64) -> Seq<u8> {
    le_bytes(x).reverse()
}

/// `b` is `x` written in one of the two byte orders a machine can have.
pub open spec fn native_bytes_of(b: Seq<u8>, x: i64) -> bool {
    b == le_bytes(x) || b == be_bytes(x)
}

/// The bytes of `x` in the byte order of the machine running the code, the
/// same order everywhere in one program.
pub open spec fn ne_bytes(x: i64) -> Seq<u8> {
    match endianness() {
        Endian::Little => le_bytes(x),
        Endian::Big => be_bytes(x),
    }
}

/// Different numbers have different bytes in little-endian order.
pub proof fn lemma_le_bytes_injective(x: i64, y: i64)
    requires
        le_bytes(x) == le_bytes(y),
    ensures
        x == y,
{
    let a = x as u64;
    let b = y as u64;
    assert(le_bytes(x)[0] == le_bytes(y)[0]);
    assert(le_bytes(x)[0] == (a >> 0u64) as u8);
    assert(le_bytes(y)[0] == (b >> 0u64) as u8);
    assert(le_bytes(x)[1] == le_bytes(y)[1]);
    assert(le_bytes(x)[1] == (a >> 8u64) as u8);
    assert(le_bytes(y)[1] == (b >> 8u64) as u8);
    assert(le_bytes(x)[2] == le_bytes(y)[2]);
    assert(le_bytes(x)[2] == (a >> 16u64) as u8);
    assert(le_bytes(y)[2] == (b >> 16u64) as u8);
    assert(le_bytes(x)[3] == le_bytes(y)[3]);
    assert(le_bytes(x)[3] == (a >> 24u64) as u8);
    assert(le_bytes(y)[3] == (b >> 24u64) as u8);
    assert(le_bytes(x)[4] == le_bytes(y)[4]);
    assert(le_bytes(x)[4] == (a >> 32u64) as u8);
    assert(le_bytes(y)[4] == (b >> 32u64) as u8);
    assert(le_bytes(x)[5] == le_bytes(y)[5]);
    assert(le_bytes(x)[5] == (a >> 40u64) as u8);
    assert(le_bytes(y)[5] == (b >> 40u64) as u8);
    assert(le_bytes(x)[6] == le_bytes(y)[6]);
    assert(le_bytes(x)[6] == (a >> 48u64) as u8);
    assert(le_bytes(y)[6] == (b >> 48u64) as u8);
    assert(le_bytes(x)[7] == le_bytes(y)[7]);
    assert(le_bytes(x)[7] == (a >> 56u64) as u8);
    assert(le_bytes(y)[7] == (b >> 56u64) as u8);
    assert(a == b) by (bit_vector)
        requires
            (a >> 0u64) as u8 == (b >> 0u64) as u8,
            (a >> 8u64) as u8 == (b >> 8u64) as u8,
            (a >> 16u64) as u8 == (b >> 16u64) as u8,
            (a >> 24u64) as u8 == (b >> 24u64) as u8,
            (a >> 32u64) as u8 == (b >> 32u64) as u8,
            (a >> 40u64) as u8 == (b >> 40u64) as u8,
            (a >> 48u64) as u8 == (b >> 48u64) as u8,
            (a >> 56u64) as u8 == (b >> 56u64) as u8,
    ;
    assert(x == y) by (bit_vector)
        requires
            x as u64 == y as u64,
    ;
}

/// Different numbers have different bytes in the machine's byte order, so a
/// clock reading read back from its bytes is the reading that was written.
pub proof fn lemma_ne_bytes_injective(x: i64, y: i64)
    requires
        ne_bytes(x) == ne_bytes(y),
    ensures
        x == y,
{
    match endianness() {
        Endian::Little => lemma_le_bytes_injective(x, y),
        Endian::Big => {
            assert(le_bytes(x) =~= be_bytes(x).reverse());
            assert(le_bytes(y) =~= be_bytes(y).reverse());
            lemma_le_bytes_injective(x, y);
        },
    }
}

/// `i64::to_ne_bytes`: `x` in the machine's byte order, vstd's
/// `endianness()`.
#[verifier::external_body]
fn i64_to_ne_bytes(x: i64) -> (b: Vec<u8>)
    ensures
        native_bytes_of(b@, x),
        b@ == ne_bytes(x),
{
    x.to_ne_bytes().to_vec()
}

/// `i64::from_ne_bytes`: the number that `b` writes in the machine's byte
/// order, vstd's `endianness()`.
#[verifier::external_body]
fn i64_from_ne_bytes(b: &[u8]) -> (x: i64)
    requires
        b@.len() == 8,
    ensures
        native_bytes_of(b@, x),
        b@ == ne_bytes(x),
{
    let mut a = [0u8; 8];
    a.copy_from_slice(b);
    i64::from_ne_bytes(a)
}

/// The message the client sends: its clock reading `now`, then eight zero
/// bytes where the server will write its own.
pub fn request_message(now: i64) -> (msg: Vec<u8>)
    ensures
        msg@.len() == MSG_SIZE,
        native_bytes_of(msg@.subrange(0, 8), now),
        msg@.subrange(0, 8) == ne_bytes(now),
        msg@.subrange(8, 16) == Seq::new(8, |k: int| 0u8),
{
    let mut msg = i64_to_ne_bytes(now);
    let ghost first = msg@;
    let mut i: usize = 0;
    while i < 8
        invariant
            i <= 8,
            first.len() == 8,
            msg@ == first + Seq::new(i as nat, |k: int| 0u8),
        decreases 8 - i,
    {
        msg.push(0u8);
        i = i + 1;
        proof {
            assert(msg@ =~= first + Seq::new(i as nat, |k: int| 0u8));
        }
    }
    assert(msg@.subrange(0, 8) =~= first);
    assert(msg@.subrange(8, 16) =~= Seq::new(8, |k: int| 0u8));
    msg
}

/// The server's answer to `request`: its first half unchanged, the server's
/// clock reading `now` in the second half.
pub fn reply_message(request: &[u8], now: i64) -> (msg: Vec<u8>)
    requires
        request@.len() == MSG_SIZE,
    ensures
        msg@.len() == MSG_SIZE,
        msg@.subrange(0, 8) == request@.subrange(0, 8),
        native_bytes_of(msg@.subrange(8, 16), now),
        msg@.subrange(8, 16) == ne_bytes(now),
{
    let stamp = i64_to_ne_bytes(now);
    let mut msg: Vec<u8> = Vec::with_capacity(MSG_SIZE);
    let mut i: usize = 0;
    while i < 8
        invariant
            i <= 8,
            request@.len() == MSG_SIZE,
            msg@ == request@.subrange(0, i as int),
        decreases 8 - i,
    {
        msg.push(request[i]);
        i = i + 1;
    }
    let mut j: usize = 0;
    while j < 8
        invariant
            j <= 8,
            stamp@.len() == 8,
            msg@ == request@.subrange(0, 8) + stamp@.subrange(0, j as int),
        decreases 8 - j,
    {
        msg.push(stamp[j]);
        j = j + 1;
    }
    assert(msg@.subrange(0, 8) =~= request@.subrange(0, 8));
    assert(msg@.subrange(8, 16) =~= stamp@);
    msg
}

/// The two clock readings of a message: the client's, then the server's.
pub fn read_message(msg: &[u8]) -> (r: (i64, i64))
    requires
        msg@.len() == MSG_SIZE,
    ensures
        native_bytes_of(msg@.subrange(0, 8), r.0),
        native_bytes_of(msg@.subrange(8, 16), r.1),
        msg@.subrange(0, 8) == ne_bytes(r.0),
        msg@.subrange(8, 16) == ne_bytes(r.1),
{
    let req = i64_from_ne_bytes(&msg[0..8]);
    let res = i64_from_ne_bytes(&msg[8..16]);
    (req, res)
}

/// `x / 2` rounded toward zero, as Rust's integer division does.
pub open spec fn half_toward_zero(x: int) -> int {
    if x >= 0 {
        x / 2
    } else {
        -((-x) / 2)
    }
}

/// What the client reports of an answer.
#[derive(Debug, PartialEq, Eq, Clone, Copy)]
pub struct ClockReport {
    /// Microseconds between sending the request and reading the answer.
    pub round_trip: i64,
    /// How far the server's clock is ahead of the midpoint of the round trip.
    pub clock_error: i64,
}

/// The round trip time and the server's clock error, from the client's
/// clock reading `now` when the answer came, its reading `req` when it sent
/// the request, and the server's reading `res`. The midpoint of the round
/// trip is the mean of `now` and `req`, rounded toward zero.
pub fn clock_report(now: i64, req: i64, res: i64) -> (r: ClockReport)
    requires
        i64::MIN <= now + req <= i64::MAX,
        i64::MIN <= now - req <= i64::MAX,
        i64::MIN <= res - half_toward_zero(now + req) <= i64::MAX,
    ensures
        r.round_trip == now - req,
        r.clock_error == res - half_toward_zero(now + req),
{
    let sum = now + req;
    let mine = sum / 2;
    assert(mine == half_toward_zero(sum as int));
    ClockReport { round_trip: now - req, clock_error: res - mine }
}

/// How many bytes of a message a send or a receive moved.
#[derive(Debug, PartialEq, Eq, Clone, Copy)]
pub enum Transfer {
    /// The whole message.
    Complete,
    /// Nothing.
    Empty,
    /// Part of the message: the number of bytes moved.
    Partial(usize),
}

pub fn classify_transfer(count: usize) -> (t: Transfer)
    ensures
        t == (if count == MSG_SIZE {
            Transfer::Complete
        } else if count == 0 {
            Transfer::Empty
        } else {
            Transfer::Partial(count)
        }),
{
    if count == MSG_SIZE {
        Transfer::Complete
    } else if count == 0 {
        Transfer::Empty
    } else {
        Transfer::Partial(count)
    }
}

/// Reading back what was written: a message whose halves are the bytes of
/// `a` and `b`, read with the contract of `read_message`, gives `a` and `b`.
/// So the client reads back its own send time and the server's stamp.
pub proof fn lemma_message_reads_back(msg: Seq<u8>, a: i64, b: i64, r: (i64, i64))
    requires
        msg.len() == MSG_SIZE,
        msg.subrange(0, 8) == ne_bytes(a),
        msg.subrange(8, 16) == ne_bytes(b),
        msg.subrange(0, 8) == ne_bytes(r.0),
        msg.subrange(8, 16) == ne_bytes(r.1),
    ensures
        r == (a, b),
{
    lemma_ne_bytes_injective(r.0, a);
    lemma_ne_bytes_injective(r.1, b);
}

/// The whole round trip: the server's answer to the client's request, read
/// by the client, gives the client's send time and the server's stamp.
pub proof fn lemma_round_trip_reads_back(
    request: Seq<u8>,
    reply: Seq<u8>,
    sent: i64,
    stamp: i64,
    r: (i64, i64),
)
    requires
        request.len() == MSG_SIZE,
        request.subrange(0, 8) == ne_bytes(sent),
        reply.len() == MSG_SIZE,
        reply.subrange(0, 8) == request.subrange(0, 8),
        reply.subrange(8, 16) == ne_bytes(stamp),
        reply.subrange(0, 8) == ne_bytes(r.0),
        reply.subrange(8, 16) == ne_bytes(r.1),
    ensures
        r == (sent, stamp),
{
    lemma_message_reads_back(reply, sent, stamp, r);
}

} // verus!
