//! The byte layout of instructions and cell contents: integers in little
//! endian, and byte strings framed by their length as four little-endian
//! bytes.

use vstd::prelude::*;
use vstd::utf8::*;

verus! {

/// The four little-endian bytes of `n`, taken modulo 2^32.
pub open spec fn u32_le(n: nat) -> Seq<u8> {
    seq![(n % 256) as u8, ((n / 256) % 256) as u8, ((n / 65536) % 256) as u8, ((n / 16777216) % 256) as u8]
}

/// The number that four little-endian bytes stand for.
pub open spec fn u32_of_le(b: Seq<u8>) -> nat {
    (b[0] as nat) + 256 * (b[1] as nat) + 65536 * (b[2] as nat) + 16777216 * (b[3] as nat)
}

/// A byte string framed by its length.
pub open spec fn framed(b: Seq<u8>) -> Seq<u8> {
    u32_le(b.len()) + b
}

/// Whether a frame of length at most `u32::MAX` holding `b` starts at `pos` in `d`.
pub open spec fn frame_at(d: Seq<u8>, pos: int, b: Seq<u8>) -> bool {
    &&& 0 <= pos
    &&& b.len() <= u32::MAX
    &&& pos + 4 + b.len() <= d.len()
    &&& d.subrange(pos, pos + 4 + b.len()) == framed(b)
}

/// The UTF-8 bytes of a string.
pub open spec fn utf8(s: Seq<char>) -> Seq<u8> {
    encode_utf8(s)
}

pub proof fn lemma_u32_le_round_trip(n: nat)
    requires
        n <= u32::MAX,
    ensures
        u32_of_le(u32_le(n)) == n,
{
}

pub proof fn lemma_u32_of_le_round_trip(b: Seq<u8>)
    requires
        b.len() == 4,
    ensures
        u32_of_le(b) <= u32::MAX,
        u32_le(u32_of_le(b)) == b,
{
    let n = u32_of_le(b);
    let (b0, b1, b2, b3) = (b[0] as nat, b[1] as nat, b[2] as nat, b[3] as nat);
    assert(n % 256 == b0 && (n / 256) % 256 == b1 && (n / 65536) % 256 == b2 && (n / 16777216) % 256 == b3) by (nonlinear_arith)
        requires
            n == b0 + 256 * b1 + 65536 * b2 + 16777216 * b3,
            b0 < 256,
            b1 < 256,
            b2 < 256,
            b3 < 256,
    ;
    assert(u32_le(n) =~= b);
}

/// Two frames at one position hold the same bytes.
pub proof fn lemma_frame_unique(d: Seq<u8>, pos: int, b1: Seq<u8>, b2: Seq<u8>)
    requires
        frame_at(d, pos, b1),
        frame_at(d, pos, b2),
    ensures
        b1 == b2,
{
    lemma_frame_length(d, pos, b1);
    lemma_frame_length(d, pos, b2);
}

/// Appends the four little-endian bytes of `n`.
pub fn push_u32_le(out: &mut Vec<u8>, n: u32)
    ensures
        final(out)@ == old(out)@ + u32_le(n as nat),
{
    out.push((n % 256) as u8);
    out.push(((n / 256) % 256) as u8);
    out.push(((n / 65536) % 256) as u8);
    out.push(((n / 16777216) % 256) as u8);
    assert(final(out)@ =~= old(out)@ + u32_le(n as nat));
}

/// Appends the bytes of `b`.
pub fn push_bytes(out: &mut Vec<u8>, b: &[u8])
    ensures
        final(out)@ == old(out)@ + b@,
{
    let mut i: usize = 0;
    while i < b.len()
        invariant
            i <= b@.len(),
            out@ == old(out)@ + b@.subrange(0, i as int),
        decreases b@.len() - i,
    {
        out.push(b[i]);
        i = i + 1;
        assert(out@ =~= old(out)@ + b@.subrange(0, i as int));
    }
    assert(b@.subrange(0, b@.len() as int) =~= b@);
}

/// Appends `b` framed by its length.
pub fn push_framed(out: &mut Vec<u8>, b: &[u8])
    requires
        b@.len() <= u32::MAX,
    ensures
        final(out)@ == old(out)@ + framed(b@),
{
    push_u32_le(out, b.len() as u32);
    push_bytes(out, b);
    assert(final(out)@ =~= old(out)@ + framed(b@));
}

/// The byte at `pos`, and the position after it.
pub fn read_u8(d: &[u8], pos: usize) -> (r: Option<(u8, usize)>)
    ensures
        match r {
            Some((x, p)) => pos < d@.len() && x == d@[pos as int] && p == pos + 1,
            None => pos >= d@.len(),
        },
{
    if pos < d.len() {
        Some((d[pos], pos + 1))
    } else {
        None
    }
}

/// The number held in the four little-endian bytes at `pos`.
fn read_u32_le(d: &[u8], pos: usize) -> (r: u32)
    requires
        pos + 4 <= d@.len(),
    ensures
        r as nat == u32_of_le(d@.subrange(pos as int, pos + 4)),
{
    let n: u32 = d[pos] as u32 + 256 * (d[pos + 1] as u32) + 65536 * (d[pos + 2] as u32) + 16777216 * (d[pos + 3] as u32);
    n
}

/// No frame at `pos` is longer than what the four bytes there give.
proof fn lemma_frame_length(d: Seq<u8>, pos: int, b: Seq<u8>)
    requires
        frame_at(d, pos, b),
    ensures
        b.len() == u32_of_le(d.subrange(pos, pos + 4)),
        b == d.subrange(pos + 4, pos + 4 + b.len()),
{
    lemma_u32_le_round_trip(b.len());
    assert(d.subrange(pos, pos + 4) =~= d.subrange(pos, pos + 4 + b.len()).subrange(0, 4));
    assert(framed(b).subrange(0, 4) =~= u32_le(b.len()));
    assert(framed(b).subrange(4, 4 + b.len() as int) =~= b);
    assert(d.subrange(pos + 4, pos + 4 + b.len()) =~= d.subrange(pos, pos + 4 + b.len()).subrange(4, 4 + b.len() as int));
}

/// The frame that starts at `pos`, and the position after it.
pub fn read_frame(d: &[u8], pos: usize) -> (r: Option<(Vec<u8>, usize)>)
    ensures
        match r {
            Some((b, p)) => frame_at(d@, pos as int, b@) && p == pos + 4 + b@.len(),
            None => forall|b: Seq<u8>| !#[trigger] frame_at(d@, pos as int, b),
        },
{
    if d.len() < 4 || pos > d.len() - 4 {
        return None;
    }
    let n: u32 = read_u32_le(d, pos);
    if n as usize > d.len() - pos - 4 {
        proof {
            assert forall|b: Seq<u8>| !#[trigger] frame_at(d@, pos as int, b) by {
                if frame_at(d@, pos as int, b) {
                    lemma_frame_length(d@, pos as int, b);
                }
            }
        }
        return None;
    }
    let start: usize = pos + 4;
    let end: usize = start + n as usize;
    let mut b: Vec<u8> = Vec::new();
    let mut i: usize = start;
    while i < end
        invariant
            start <= i <= end <= d@.len(),
            b@ == d@.subrange(start as int, i as int),
        decreases end - i,
    {
        b.push(d[i]);
        i = i + 1;
        assert(b@ =~= d@.subrange(start as int, i as int));
    }
    proof {
        lemma_u32_of_le_round_trip(d@.subrange(pos as int, pos + 4));
        assert(d@.subrange(pos as int, end as int) =~= framed(b@));
    }
    Some((b, end))
}

/// Relies on `String::from_utf8`: it succeeds exactly on valid UTF-8 and the
/// string then holds those bytes.
#[verifier::external_body]
fn string_from_utf8(b: Vec<u8>) -> (r: Option<String>)
    ensures
        r is Some <==> valid_utf8(b@),
        r matches Some(s) ==> utf8(s@) == b@,
{
    String::from_utf8(b).ok()
}

/// The string framed at `pos`, and the position after it.
pub fn read_string(d: &[u8], pos: usize) -> (r: Option<(String, usize)>)
    ensures
        match r {
            Some((s, p)) => frame_at(d@, pos as int, utf8(s@)) && p == pos + 4 + utf8(s@).len(),
            None => forall|s: Seq<char>| !#[trigger] frame_at(d@, pos as int, utf8(s)),
        },
{
    match read_frame(d, pos) {
        None => None,
        Some((b, p)) => {
            let ghost bv = b@;
            match string_from_utf8(b) {
                Some(s) => Some((s, p)),
                None => {
                    proof {
                        assert forall|s: Seq<char>| !#[trigger] frame_at(d@, pos as int, utf8(s)) by {
                            if frame_at(d@, pos as int, utf8(s)) {
                                lemma_frame_unique(d@, pos as int, bv, utf8(s));
                                encode_utf8_valid_utf8(s);
                            }
                        }
                    }
                    None
                },
            }
        },
    }
}

/// A frame followed by `rest` fills `d` from `pos` exactly when the frame
/// stands at `pos` and `rest` fills what follows it.
pub proof fn lemma_frame_then(d: Seq<u8>, pos: int, a: Seq<u8>, rest: Seq<u8>)
    requires
        0 <= pos <= d.len(),
        a.len() <= u32::MAX,
    ensures
        (d.subrange(pos, d.len() as int) == framed(a) + rest) <==> (frame_at(d, pos, a) && d.subrange(
            pos + 4 + a.len(),
            d.len() as int,
        ) == rest),
{
    let tail = d.subrange(pos, d.len() as int);
    let f = framed(a);
    if tail == f + rest {
        assert(d.subrange(pos, pos + 4 + a.len()) =~= tail.subrange(0, f.len() as int));
        assert((f + rest).subrange(0, f.len() as int) =~= f);
        assert(d.subrange(pos + 4 + a.len(), d.len() as int) =~= tail.subrange(f.len() as int, tail.len() as int));
        assert((f + rest).subrange(f.len() as int, (f + rest).len() as int) =~= rest);
    }
    if frame_at(d, pos, a) && d.subrange(pos + 4 + a.len(), d.len() as int) == rest {
        assert(tail =~= d.subrange(pos, pos + 4 + a.len()) + d.subrange(pos + 4 + a.len(), d.len() as int));
    }
}

/// A byte followed by `rest` fills `d` from `pos` exactly when the byte
/// stands at `pos` and `rest` fills what follows it.
pub proof fn lemma_byte_then(d: Seq<u8>, pos: int, x: u8, rest: Seq<u8>)
    requires
        0 <= pos <= d.len(),
    ensures
        (d.subrange(pos, d.len() as int) == seq![x] + rest) <==> (pos < d.len() && d[pos] == x
            && d.subrange(pos + 1, d.len() as int) == rest),
{
    let tail = d.subrange(pos, d.len() as int);
    if tail == seq![x] + rest {
        assert(tail[0] == x);
        assert(d.subrange(pos + 1, d.len() as int) =~= tail.subrange(1, tail.len() as int));
        assert((seq![x] + rest).subrange(1, (seq![x] + rest).len() as int) =~= rest);
    }
    if pos < d.len() && d[pos] == x && d.subrange(pos + 1, d.len() as int) == rest {
        assert(tail =~= seq![x] + rest);
    }
}

} // verus!
