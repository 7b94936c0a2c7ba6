//! The line protocol of the sudoku server.
//!
//! A request is one line, `id:puzzle\r\n` or `puzzle\r\n`, and the answer
//! goes back as `id:answer\r\n` or `answer\r\n`. This module reads requests
//! out of the bytes a connection has buffered, writes answers, and decides
//! how the listener retries a failed accept.

use subslice::SubsliceExt;
use vstd::prelude::*;
use vstd::string::StringSliceAdditionalSpecFns;
use vstd::utf8::*;

verus! {

broadcast use {encode_utf8_decode_utf8, decode_utf8_encode_utf8, encode_utf8_valid_utf8};

/// `needle` occurs in `hay` at position `i`.
pub open spec fn occurs_at(hay: Seq<u8>, needle: Seq<u8>, i: int) -> bool {
    0 <= i && i + needle.len() <= hay.len() && hay.subrange(i, i + needle.len()) == needle
}

/// `needle` occurs in `hay` at position `i` and at no position before it.
pub open spec fn is_first_match(hay: Seq<u8>, needle: Seq<u8>, i: int) -> bool {
    &&& occurs_at(hay, needle, i)
    &&& forall|j: int| 0 <= j < i ==> !occurs_at(hay, needle, j)
}

pub open spec fn has_match(hay: Seq<u8>, needle: Seq<u8>) -> bool {
    exists|i: int| occurs_at(hay, needle, i)
}

/// Where `needle` first occurs in `hay`, when it occurs at all.
pub open spec fn first_match(hay: Seq<u8>, needle: Seq<u8>) -> int {
    choose|i: int| is_first_match(hay, needle, i)
}

proof fn lemma_first_match_unique(hay: Seq<u8>, needle: Seq<u8>, i: int)
    requires
        is_first_match(hay, needle, i),
    ensures
        has_match(hay, needle),
        first_match(hay, needle) == i,
{
    let j = first_match(hay, needle);
    assert(is_first_match(hay, needle, j));
    if j < i {
        assert(!occurs_at(hay, needle, j));
    } else if i < j {
        assert(!occurs_at(hay, needle, i));
    }
}

/// `subslice::SubsliceExt::find` on byte slices: the position of the first
/// occurrence of `needle` in `hay`, or `None` when there is none.
#[verifier::external_body]
fn find_subslice(hay: &[u8], needle: &[u8]) -> (r: Option<usize>)
    ensures
        match r {
            Some(i) => is_first_match(hay@, needle@, i as int),
            None => !has_match(hay@, needle@),
        },
{
    hay.find(needle)
}

/// `std::str::from_utf8`: the bytes as a string when they are valid UTF-8.
#[verifier::external_body]
fn str_from_utf8(bytes: &[u8]) -> (r: Option<&str>)
    ensures
        r is Some <==> valid_utf8(bytes@),
        r matches Some(s) ==> s.spec_bytes() == bytes@,
{
    std::str::from_utf8(bytes).ok()
}

/// The end of a line.
pub open spec fn crlf() -> Seq<u8> {
    seq![13u8, 10u8]
}

/// The separator between the id and the puzzle.
pub open spec fn colon() -> Seq<u8> {
    seq![58u8]
}

/// The text that `bytes` encode, when they are valid UTF-8.
pub open spec fn text_of(bytes: Seq<u8>) -> Option<Seq<char>> {
    if valid_utf8(bytes) {
        Some(decode_utf8(bytes))
    } else {
        None
    }
}

/// Why a request could not be read.
#[derive(Debug, PartialEq, Eq, Clone, Copy)]
pub enum FrameError {
    /// A line with more than one `:`.
    ProtocolError,
    /// A part of the line that is not valid UTF-8.
    InvalidUtf8,
    /// The peer closed the connection in the middle of a line.
    ConnectionReset,
}

/// One request: an optional id and a puzzle.
#[derive(Debug)]
pub struct Frame {
    pub id: Option<String>,
    pub puzzle: String,
}

/// The text of a request.
pub struct FrameText {
    pub id: Option<Seq<char>>,
    pub puzzle: Seq<char>,
}

impl View for Frame {
    type V = FrameText;

    open spec fn view(&self) -> FrameText {
        FrameText {
            id: match self.id {
                Some(s) => Some(s@),
                None => None,
            },
            puzzle: self.puzzle@,
        }
    }
}

/// What reading one request from the buffered bytes `buf` gives: no request
/// while no line is complete; otherwise the request in the first line and
/// the number of bytes it takes from the buffer, or an error.
///
/// The line is split at its first `:`. Without one, the whole line is the
/// puzzle. With one, the id comes before it and the puzzle after it; the id
/// is decoded first, then the puzzle, and only then is a second `:` an
/// error. A request takes its line and the line end from the buffer.
pub open spec fn spec_parse_frame(buf: Seq<u8>) -> Result<Option<(FrameText, int)>, FrameError> {
    if !has_match(buf, crlf()) {
        Ok(None)
    } else {
        let end = first_match(buf, crlf());
        let line = buf.subrange(0, end);
        if !has_match(line, colon()) {
            match text_of(line) {
                None => Err(FrameError::InvalidUtf8),
                Some(p) => Ok(Some((FrameText { id: None, puzzle: p }, end + 2))),
            }
        } else {
            let c = first_match(line, colon());
            let first = line.subrange(0, c);
            let rest = line.subrange(c + 1, line.len() as int);
            let more = has_match(rest, colon());
            let second = if more {
                rest.subrange(0, first_match(rest, colon()))
            } else {
                rest
            };
            match text_of(first) {
                None => Err(FrameError::InvalidUtf8),
                Some(id) => match text_of(second) {
                    None => Err(FrameError::InvalidUtf8),
                    Some(p) => if more {
                        Err(FrameError::ProtocolError)
                    } else {
                        Ok(Some((FrameText { id: Some(id), puzzle: p }, end + 2)))
                    },
                },
            }
        }
    }
}

/// The result of `parse_frame` stands for the spec result `s`.
pub open spec fn parse_result_is(
    r: Result<Option<(Frame, usize)>, FrameError>,
    s: Result<Option<(FrameText, int)>, FrameError>,
) -> bool {
    match r {
        Ok(None) => s == Ok::<Option<(FrameText, int)>, FrameError>(None),
        Ok(Some((f, n))) => s matches Ok(Some((t, m))) && f@ == t && n == m,
        Err(e) => s == Err::<Option<(FrameText, int)>, FrameError>(e),
    }
}

/// The text of `bytes` as an owned string.
fn decode_part(bytes: &[u8]) -> (r: Option<String>)
    ensures
        match r {
            Some(s) => text_of(bytes@) == Some(s@),
            None => text_of(bytes@) is None,
        },
{
    match str_from_utf8(bytes) {
        Some(s) => {
            let owned = s.to_owned();
            proof {
                assert(decode_utf8(encode_utf8(s@)) == s@);
            }
            Some(owned)
        },
        None => None,
    }
}

/// Reads one request from the buffered bytes `buffer`; see
/// `spec_parse_frame`. On success it also returns how many bytes the
/// request takes from the front of the buffer.
pub fn parse_frame(buffer: &[u8]) -> (r: Result<Option<(Frame, usize)>, FrameError>)
    ensures
        parse_result_is(r, spec_parse_frame(buffer@)),
{
    let crlf_bytes: [u8; 2] = [13u8, 10u8];
    let line_end = match find_subslice(buffer, crlf_bytes.as_slice()) {
        Some(end) => end,
        None => {
            assert(crlf_bytes@ == crlf());
            return Ok(None);
        },
    };
    proof {
        assert(crlf_bytes@ =~= crlf());
        lemma_first_match_unique(buffer@, crlf(), line_end as int);
        assert(line_end + 2 <= buffer@.len());
    }
    let buffer_len = buffer.len();
    assert(line_end + 2 <= buffer_len);
    let line = &buffer[0..line_end];
    let colon_bytes: [u8; 1] = [58u8];
    proof {
        assert(colon_bytes@ =~= colon());
    }
    match find_subslice(line, colon_bytes.as_slice()) {
        None => {
            match decode_part(line) {
                Some(puzzle) => Ok(Some((Frame { id: None, puzzle }, line_end + 2))),
                None => Err(FrameError::InvalidUtf8),
            }
        },
        Some(c) => {
            proof {
                lemma_first_match_unique(line@, colon(), c as int);
            }
            let first = &line[0..c];
            let rest = &line[c + 1..line.len()];
            let second_end = find_subslice(rest, colon_bytes.as_slice());
            proof {
                if let Some(c2) = second_end {
                    lemma_first_match_unique(rest@, colon(), c2 as int);
                }
            }
            let second = match second_end {
                Some(c2) => &rest[0..c2],
                None => rest,
            };
            let id = match decode_part(first) {
                Some(id) => id,
                None => return Err(FrameError::InvalidUtf8),
            };
            let puzzle = match decode_part(second) {
                Some(p) => p,
                None => return Err(FrameError::InvalidUtf8),
            };
            if second_end.is_some() {
                return Err(FrameError::ProtocolError);
            }
            Ok(Some((Frame { id: Some(id), puzzle }, line_end + 2)))
        },
    }
}

/// What the connection does next after looking at its buffered bytes.
#[derive(Debug)]
pub enum ReadStep {
    /// A request was read; it takes this many bytes from the buffer.
    Frame(Frame, usize),
    /// No complete line yet: read more bytes.
    NeedMore,
    /// The peer closed the connection between requests.
    Closed,
    /// The request cannot be read.
    Failed(FrameError),
}

/// One step of reading a request. `at_eof` says whether the last read from
/// the socket returned no bytes. When no line is complete, the connection
/// reads more; at the end of the stream, an empty buffer is a clean close and
/// anything left in it means that the peer reset the connection mid-line.
pub fn read_frame_step(buffer: &[u8], at_eof: bool) -> (r: ReadStep)
    ensures
        match spec_parse_frame(buffer@) {
            Err(e) => r == ReadStep::Failed(e),
            Ok(Some((t, n))) => r matches ReadStep::Frame(f, m) && f@ == t && m == n,
            Ok(None) => if !at_eof {
                r is NeedMore
            } else if buffer@.len() == 0 {
                r is Closed
            } else {
                r == ReadStep::Failed(FrameError::ConnectionReset)
            },
        },
{
    match parse_frame(buffer) {
        Err(e) => ReadStep::Failed(e),
        Ok(Some((frame, n))) => ReadStep::Frame(frame, n),
        Ok(None) => {
            if !at_eof {
                ReadStep::NeedMore
            } else if buffer.len() == 0 {
                ReadStep::Closed
            } else {
                ReadStep::Failed(FrameError::ConnectionReset)
            }
        },
    }
}

/// The bytes of an answer line: the id and `:` when there is an id, then
/// the answer, then the line end.
pub open spec fn spec_answer_line(id: Option<Seq<char>>, ans: Seq<char>) -> Seq<u8> {
    let head = match id {
        Some(i) => encode_utf8(i) + colon(),
        None => Seq::<u8>::empty(),
    };
    head + encode_utf8(ans) + crlf()
}

fn push_bytes(out: &mut Vec<u8>, bytes: &[u8])
    ensures
        final(out)@ == old(out)@ + bytes@,
{
    let mut i: usize = 0;
    while i < bytes.len()
        invariant
            i <= bytes@.len(),
            out@ == old(out)@ + bytes@.subrange(0, i as int),
        decreases bytes@.len() - i,
    {
        out.push(bytes[i]);
        i = i + 1;
    }
    assert(bytes@.subrange(0, bytes@.len() as int) == bytes@);
}

/// The answer to a request, as the bytes sent back to the client.
pub fn encode_result(id: Option<&str>, ans: &str) -> (r: Vec<u8>)
    ensures
        r@ == spec_answer_line(
            match id {
                Some(s) => Some(s@),
                None => None,
            },
            ans@,
        ),
{
    let mut out: Vec<u8> = Vec::new();
    if let Some(id) = id {
        push_bytes(&mut out, id.as_bytes());
        out.push(58u8);
    }
    push_bytes(&mut out, ans.as_bytes());
    out.push(13u8);
    out.push(10u8);
    proof {
        let id_view = match id {
            Some(s) => Some(s@),
            None => None::<Seq<char>>,
        };
        assert(out@ =~= spec_answer_line(id_view, ans@));
    }
    out
}

proof fn lemma_no_byte_no_match(s: Seq<u8>)
    requires
        !s.contains(58u8),
    ensures
        !has_match(s, colon()),
{
    assert forall|j: int| !occurs_at(s, colon(), j) by {
        if occurs_at(s, colon(), j) {
            assert(s.subrange(j, j + 1)[0] == s[j]);
            assert(s[j] == 58u8);
        }
    }
}

/// An answer line reads back as a request: parsing it gives the same id and
/// the answer as the puzzle, when neither the id nor the answer holds a `:`
/// and the line holds no line end of its own. The whole line is taken from
/// the buffer.
pub proof fn lemma_answer_line_reads_back(id: Option<Seq<char>>, ans: Seq<char>)
    requires
        id matches Some(i) ==> !encode_utf8(i).contains(58u8),
        !encode_utf8(ans).contains(58u8),
        !has_match(spec_answer_line(id, ans).drop_last().drop_last(), crlf()),
    ensures
        spec_parse_frame(spec_answer_line(id, ans)) matches Ok(Some((t, n))) && t.id == id
            && t.puzzle == ans && n == spec_answer_line(id, ans).len(),
{
    let buf = spec_answer_line(id, ans);
    let a = encode_utf8(ans);
    let head = match id {
        Some(i) => encode_utf8(i) + colon(),
        None => Seq::<u8>::empty(),
    };
    let line = head + a;
    assert(buf =~= line + crlf());
    assert(buf.drop_last().drop_last() =~= line);
    let l = line.len() as int;
    assert(buf.subrange(l, l + 2) =~= crlf());
    assert forall|j: int| 0 <= j < l implies !occurs_at(buf, crlf(), j) by {
        if j + 2 <= l {
            assert(buf.subrange(j, j + 2) =~= line.subrange(j, j + 2));
            assert(!occurs_at(line, crlf(), j));
        } else {
            assert(buf.subrange(j, j + 2)[1] == buf[l]);
        }
    }
    assert(is_first_match(buf, crlf(), l));
    lemma_first_match_unique(buf, crlf(), l);
    assert(buf.subrange(0, l) =~= line);
    match id {
        Some(i) => {
            let ib = encode_utf8(i);
            let c = ib.len() as int;
            assert(line.subrange(c, c + 1) =~= colon());
            assert forall|j: int| 0 <= j < c implies !occurs_at(line, colon(), j) by {
                if occurs_at(line, colon(), j) {
                    assert(line.subrange(j, j + 1)[0] == ib[j]);
                    assert(ib.contains(ib[j]));
                }
            }
            assert(is_first_match(line, colon(), c));
            lemma_first_match_unique(line, colon(), c);
            assert(line.subrange(0, c) =~= ib);
            assert(line.subrange(c + 1, l) =~= a);
            lemma_no_byte_no_match(a);
        },
        None => {
            assert(line =~= a);
            lemma_no_byte_no_match(a);
        },
    }
}

/// How the listener goes on after an accept failed while waiting `backoff`
/// seconds between tries.
#[derive(Debug, PartialEq, Eq, Clone, Copy)]
pub enum AcceptRetry {
    /// Accept has failed too often: report the error.
    GiveUp,
    /// Sleep `delay_secs` seconds, then try again with the next backoff.
    RetryAfter { delay_secs: u64, next_backoff: u64 },
}

/// The backoff before the first retry.
pub const INITIAL_ACCEPT_BACKOFF: u64 = 1;

/// The largest backoff after which the listener still retries.
pub const MAX_ACCEPT_BACKOFF: u64 = 64;

pub open spec fn spec_accept_retry(backoff: u64) -> AcceptRetry {
    if backoff > MAX_ACCEPT_BACKOFF {
        AcceptRetry::GiveUp
    } else {
        AcceptRetry::RetryAfter { delay_secs: backoff, next_backoff: (2 * backoff) as u64 }
    }
}

/// After a failed accept: give up once the backoff has passed 64 seconds,
/// else sleep for the backoff and double it.
pub fn accept_retry(backoff: u64) -> (r: AcceptRetry)
    ensures
        r == spec_accept_retry(backoff),
{
    if backoff > MAX_ACCEPT_BACKOFF {
        AcceptRetry::GiveUp
    } else {
        AcceptRetry::RetryAfter { delay_secs: backoff, next_backoff: backoff * 2 }
    }
}


/// The backoff in force at the `k`-th failed accept of a run of failures.
pub open spec fn nth_accept_backoff(k: nat) -> u64
    decreases k,
{
    if k == 0 {
        INITIAL_ACCEPT_BACKOFF
    } else {
        (2 * nth_accept_backoff((k - 1) as nat)) as u64
    }
}

/// The listener accepts at most eight times in a row: the first seven
/// failures each lead to a retry, after 1, 2, 4, ... 64 seconds, each delay
/// twice the one before; the eighth failure gives up.
pub proof fn lemma_accept_gives_up_after_eight_failures()
    ensures
        forall|k: nat|
            k < 7 ==> spec_accept_retry(#[trigger] nth_accept_backoff(k)) == (AcceptRetry::RetryAfter {
                delay_secs: nth_accept_backoff(k),
                next_backoff: nth_accept_backoff(k + 1),
            }),
        nth_accept_backoff(0) == 1,
        nth_accept_backoff(6) == 64,
        spec_accept_retry(nth_accept_backoff(7)) == AcceptRetry::GiveUp,
{
    reveal_with_fuel(nth_accept_backoff, 8);
    assert(nth_accept_backoff(7) == 128);
    assert forall|k: nat| k < 7 implies spec_accept_retry(#[trigger] nth_accept_backoff(k))
        == (AcceptRetry::RetryAfter {
        delay_secs: nth_accept_backoff(k),
        next_backoff: nth_accept_backoff(k + 1),
    }) by {
        reveal_with_fuel(nth_accept_backoff, 8);
        assert(nth_accept_backoff(k) <= 64);
    }
}

} // verus!
