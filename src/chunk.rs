//! The chunked transfer decoder: one frame at a time from the front of the
//! connection buffer.
use vstd::prelude::*;

use crate::bytes::{drop_front, find_from, first_match, lemma_first_match_extend, lemma_first_match_found, take_front, matches_at};

verus! {

/// What one call of the decoder found.
pub enum ParseStatus {
    /// The frame at the front is not fully buffered; nothing was consumed.
    NotEnoughData,
    /// One frame was consumed: whether it is the terminal one, and its payload.
    Chunk(bool, Vec<u8>),
}

/// A malformed frame.
#[derive(PartialEq, Eq, Structural, Debug, Clone, Copy)]
pub enum ChunkError {
    /// The size line does not start with a hex size (optionally followed by
    /// `;` extensions), or the size does not fit a `usize`.
    BadSize,
    /// The payload is not followed by a line terminator.
    BadTerminator,
}

/// The outcome of decoding the front of a buffer.
pub enum Decoded {
    NeedMore,
    Invalid(ChunkError),
    /// Payload, bytes consumed, terminal.
    Frame(Seq<u8>, int, bool),
}

/// `\r\n`.
pub open spec fn crlf() -> Seq<u8> {
    seq![13u8, 10u8]
}

/// `\r\n\r\n`.
pub open spec fn blank_line() -> Seq<u8> {
    seq![13u8, 10u8, 13u8, 10u8]
}

pub open spec fn is_hex(b: u8) -> bool {
    (48 <= b <= 57) || (65 <= b <= 70) || (97 <= b <= 102)
}

pub open spec fn hex_val(b: u8) -> nat {
    if 48 <= b <= 57 {
        (b - 48) as nat
    } else if 65 <= b <= 70 {
        (b - 55) as nat
    } else {
        (b - 87) as nat
    }
}

/// The number that a string of hex digits writes.
pub open spec fn hex_num(s: Seq<u8>) -> nat
    decreases s.len(),
{
    if s.len() == 0 {
        0
    } else {
        hex_num(s.drop_last()) * 16 + hex_val(s.last())
    }
}

/// The end of the run of hex digits in `s` that starts at `i`.
pub open spec fn digit_run(s: Seq<u8>, i: int) -> int
    decreases s.len() - i,
{
    if i < 0 || i >= s.len() || !is_hex(s[i]) {
        i
    } else {
        digit_run(s, i + 1)
    }
}

/// Decodes the frame at the front of `s`: a hex size, optional `;`
/// extensions, `\r\n`, the payload and `\r\n`. A zero size is the terminal
/// frame, which runs to the first empty line (trailer lines are skipped).
pub open spec fn decode(s: Seq<u8>) -> Decoded {
    let e = first_match(s, 0, crlf());
    if e < 0 {
        Decoded::NeedMore
    } else {
        let line = s.subrange(0, e);
        let d = digit_run(line, 0);
        if d == 0 || (d < line.len() && line[d] != 59u8) || hex_num(line.subrange(0, d)) > usize::MAX {
            Decoded::Invalid(ChunkError::BadSize)
        } else {
            let size = hex_num(line.subrange(0, d)) as int;
            if size == 0 {
                let q = first_match(s, e, blank_line());
                if q < 0 {
                    Decoded::NeedMore
                } else {
                    Decoded::Frame(Seq::empty(), q + 4, true)
                }
            } else if s.len() < e + 2 + size + 2 {
                Decoded::NeedMore
            } else if !matches_at(s, e + 2 + size, crlf()) {
                Decoded::Invalid(ChunkError::BadTerminator)
            } else {
                Decoded::Frame(s.subrange(e + 2, e + 2 + size), e + 2 + size + 2, false)
            }
        }
    }
}

/// Whether a decoder result and a buffer change agree with `decode(before)`.
pub open spec fn decoded_as(
    r: Result<ParseStatus, ChunkError>,
    before: Seq<u8>,
    after: Seq<u8>,
) -> bool {
    match decode(before) {
        Decoded::NeedMore => r matches Ok(ParseStatus::NotEnoughData) && after == before,
        Decoded::Invalid(err) => r == Err::<ParseStatus, ChunkError>(err) && after == before,
        Decoded::Frame(payload, n, last) => match r {
            Ok(ParseStatus::Chunk(l, p)) => l == last && p@ == payload && after == before.subrange(
                n,
                before.len() as int,
            ),
            _ => false,
        },
    }
}

/// The value of a hex digit.
fn hex_digit(b: u8) -> (r: usize)
    requires
        is_hex(b),
    ensures
        r as nat == hex_val(b),
        r < 16,
{
    if 48 <= b && b <= 57 {
        (b - 48) as usize
    } else if 65 <= b && b <= 70 {
        (b - 55) as usize
    } else {
        (b - 87) as usize
    }
}

/// Decodes one frame from the front of `buf`, consuming it.
pub fn parse(buf: &mut Vec<u8>) -> (r: Result<ParseStatus, ChunkError>)
    ensures
        decoded_as(r, old(buf)@, final(buf)@),
{
    let ghost s = buf@;
    let mut cr: [u8; 2] = [13u8, 10u8];
    proof {
        assert(cr@ =~= crlf());
    }
    let e = match find_from(buf.as_slice(), 0, &cr) {
        None => return Ok(ParseStatus::NotEnoughData),
        Some(e) => e,
    };
    let blen = buf.len();
    proof {
        lemma_first_match_found(s, 0, crlf());
    }
    let ghost line = s.subrange(0, e as int);
    // the hex size
    let mut d: usize = 0;
    let mut size: usize = 0;
    let mut over = false;
    while d < e && is_hex_byte(buf[d])
        invariant
            buf@ == s,
            blen == s.len(),
            e + 2 <= s.len(),
            line == s.subrange(0, e as int),
            0 <= d <= e,
            digit_run(line, 0) == digit_run(line, d as int),
            forall|j: int| 0 <= j < d ==> is_hex(#[trigger] line[j]),
            !over ==> size as nat == hex_num(line.subrange(0, d as int)),
            over ==> hex_num(line.subrange(0, d as int)) > usize::MAX,
        decreases e - d,
    {
        let v = hex_digit(buf[d]);
        proof {
            assert(line.subrange(0, d + 1).drop_last() =~= line.subrange(0, d as int));
            assert(line.subrange(0, d + 1).last() == line[d as int]);
        }
        if !over {
            if size > (usize::MAX - v) / 16 {
                over = true;
            } else {
                size = size * 16 + v;
            }
        }
        d += 1;
    }
    if d == 0 || (d < e && buf[d] != 59u8) || over {
        return Err(ChunkError::BadSize);
    }
    if size == 0 {
        let bl: [u8; 4] = [13u8, 10u8, 13u8, 10u8];
        proof {
            assert(bl@ =~= blank_line());
        }
        match find_from(buf.as_slice(), e, &bl) {
            None => return Ok(ParseStatus::NotEnoughData),
            Some(q) => {
                proof {
                    lemma_first_match_found(s, e as int, blank_line());
                    assert(q + 4 <= s.len());
                }
                drop_front(buf, q + 4);
                return Ok(ParseStatus::Chunk(true, Vec::new()));
            },
        }
    }
    let start = e + 2;
    let sz = size;
    if buf.len() - start < sz || buf.len() - start - sz < 2 {
        return Ok(ParseStatus::NotEnoughData);
    }
    let end = start + sz;
    if !(buf[end] == 13u8 && buf[end + 1] == 10u8) {
        proof {
            assert(!matches_at(s, end as int, crlf())) by {
                if matches_at(s, end as int, crlf()) {
                    assert(s.subrange(end as int, end + 2)[0] == s[end as int]);
                    assert(s.subrange(end as int, end + 2)[1] == s[end + 1]);
                }
            }
        }
        return Err(ChunkError::BadTerminator);
    }
    proof {
        assert(s.subrange(end as int, end + 2) =~= crlf());
    }
    drop_front(buf, start);
    let payload = take_front(buf, sz);
    drop_front(buf, 2);
    proof {
        assert(payload@ =~= s.subrange(start as int, end as int));
        assert(buf@ =~= s.subrange(end + 2, s.len() as int));
    }
    Ok(ParseStatus::Chunk(false, payload))
}

/// Whether `b` is a hex digit.
fn is_hex_byte(b: u8) -> (r: bool)
    ensures
        r == is_hex(b),
{
    (48 <= b && b <= 57) || (65 <= b && b <= 70) || (97 <= b && b <= 102)
}

/// Bytes that arrive after the front frame is complete (or known to be
/// malformed) do not change how that frame decodes: however a stream is cut
/// into reads, each frame decodes as it does from the whole stream.
pub proof fn lemma_decode_extend(s: Seq<u8>, t: Seq<u8>)
    requires
        !(decode(s) is NeedMore),
    ensures
        decode(s + t) == decode(s),
{
    let u = s + t;
    let e = first_match(s, 0, crlf());
    lemma_first_match_extend(s, t, 0, crlf());
    lemma_first_match_found(s, 0, crlf());
    assert(u.subrange(0, e) =~= s.subrange(0, e));
    let line = s.subrange(0, e);
    let d = digit_run(line, 0);
    if !(d == 0 || (d < line.len() && line[d] != 59u8) || hex_num(line.subrange(0, d)) > usize::MAX) {
        let size = hex_num(line.subrange(0, d)) as int;
        if size == 0 {
            lemma_first_match_extend(s, t, e, blank_line());
        } else {
            let end = e + 2 + size;
            assert(u.subrange(end, end + 2) =~= s.subrange(end, end + 2));
            assert(u.subrange(e + 2, end) =~= s.subrange(e + 2, end));
        }
    }
}

/// A decoded frame lies within the buffer.
pub proof fn lemma_frame_in_buffer(s: Seq<u8>)
    ensures
        decode(s) matches Decoded::Frame(_, n, _) ==> 0 < n <= s.len(),
{
    let e = first_match(s, 0, crlf());
    if e >= 0 {
        lemma_first_match_found(s, 0, crlf());
        if first_match(s, e, blank_line()) >= 0 {
            lemma_first_match_found(s, e, blank_line());
        }
    }
}

/// The frame of a chunk of four bytes, `4\r\n<p>\r\n`.
pub open spec fn frame_of_four(p: Seq<u8>) -> Seq<u8> {
    seq![52u8, 13, 10] + p + seq![13u8, 10]
}

/// The terminal frame `0\r\n\r\n`.
pub open spec fn last_frame() -> Seq<u8> {
    seq![48u8, 13, 10, 13, 10]
}

/// How the two frames decode, whatever follows them.
pub proof fn lemma_four_then_last(p: Seq<u8>, t: Seq<u8>)
    requires
        p.len() == 4,
    ensures
        decode(frame_of_four(p) + t) == Decoded::Frame(p, 9, false),
        decode(last_frame() + t) == Decoded::Frame(Seq::empty(), 5, true),
{
    let s = frame_of_four(p);
    assert(s.subrange(0, 2)[0] == 52u8);
    assert(s.subrange(1, 3) =~= crlf());
    assert(first_match(s, 1, crlf()) == 1);
    assert(first_match(s, 0, crlf()) == 1);
    let line = s.subrange(0, 1);
    assert(line[0] == 52u8);
    assert(digit_run(line, 1) == 1);
    assert(digit_run(line, 0) == 1);
    assert(line.subrange(0, 1) =~= line);
    assert(line.drop_last() =~= Seq::<u8>::empty());
    assert(hex_num(Seq::<u8>::empty()) == 0);
    assert(line.last() == 52u8);
    assert(hex_num(line) == 4);
    assert(s.subrange(7, 9) =~= crlf());
    assert(s.subrange(3, 7) =~= p);
    lemma_decode_extend(s, t);
    let z = last_frame();
    assert(z.subrange(0, 2)[0] == 48u8);
    assert(z.subrange(1, 3) =~= crlf());
    assert(first_match(z, 1, crlf()) == 1);
    assert(first_match(z, 0, crlf()) == 1);
    let zl = z.subrange(0, 1);
    assert(zl[0] == 48u8);
    assert(digit_run(zl, 1) == 1);
    assert(digit_run(zl, 0) == 1);
    assert(zl.subrange(0, 1) =~= zl);
    assert(zl.drop_last() =~= Seq::<u8>::empty());
    assert(hex_num(Seq::<u8>::empty()) == 0);
    assert(zl.last() == 48u8);
    assert(hex_num(zl) == 0);
    assert(z.subrange(1, 5) =~= blank_line());
    assert(first_match(z, 1, blank_line()) == 1);
    lemma_decode_extend(z, t);
}

} // verus!
