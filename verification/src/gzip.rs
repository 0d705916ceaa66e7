use vstd::prelude::*;

use crate::errors::Error;

verus! {

/// Whether bit `bit` of `val` is set.
pub open spec fn spec_has_bit(val: u8, bit: u8) -> bool {
    val & (1u8 << bit) == (1u8 << bit)
}

/// The position just after the first zero byte at or after `p`, if there is one.
pub open spec fn null_end(b: Seq<u8>, p: int) -> Option<int>
    decreases b.len() - p,
{
    if p < 0 || p >= b.len() {
        None
    } else if b[p] == 0 {
        Some(p + 1)
    } else {
        null_end(b, p + 1)
    }
}

pub proof fn lemma_null_end_bounds(b: Seq<u8>, p: int)
    ensures
        null_end(b, p) matches Some(q) ==> p < q <= b.len(),
    decreases b.len() - p,
{
    if 0 <= p < b.len() && b[p] != 0 {
        lemma_null_end_bounds(b, p + 1);
    }
}

/// Skips a zero-terminated field starting at `p`, when `present`.
pub open spec fn skip_field(b: Seq<u8>, p: Result<int, Error>, present: bool) -> Result<int, Error> {
    match p {
        Err(e) => Err(e),
        Ok(p) => if !present {
            Ok(p)
        } else {
            match null_end(b, p) {
                None => Err(Error::UnexpectedEof),
                Some(q) => Ok(q),
            }
        },
    }
}

/// The length of the gzip header at the start of `b`: ten fixed bytes (magic `1f 8b`, method 8,
/// flags with the top three bits clear, time, extra flags, system), then, as the flags say,
/// an extra field with a little-endian length, a zero-terminated name, a zero-terminated
/// comment and a two-byte check.
pub open spec fn spec_header_len(b: Seq<u8>) -> Result<int, Error> {
    if b.len() < 10 {
        Err(Error::UnexpectedEof)
    } else if !(b[0] == 0x1f && b[1] == 0x8b) {
        Err(Error::InvalidMagic)
    } else if b[2] != 0x08 {
        Err(Error::UnsupportedMethod)
    } else if b[3] & 0xe0u8 != 0 {
        Err(Error::ReservedFlags)
    } else {
        let flags = b[3];
        let extra: Result<int, Error> = if !spec_has_bit(flags, 2) {
            Ok(10)
        } else if b.len() < 12 {
            Err(Error::UnexpectedEof)
        } else {
            let len = b[10] as int + 256 * b[11] as int;
            if 12 + len > b.len() {
                Err(Error::UnexpectedEof)
            } else {
                Ok(12 + len)
            }
        };
        let name = skip_field(b, extra, spec_has_bit(flags, 3));
        let comment = skip_field(b, name, spec_has_bit(flags, 4));
        match comment {
            Err(e) => Err(e),
            Ok(p) => if !spec_has_bit(flags, 1) {
                Ok(p)
            } else if p + 2 > b.len() {
                Err(Error::UnexpectedEof)
            } else {
                Ok(p + 2)
            },
        }
    }
}

/// A header that reads lies within the input.
pub proof fn lemma_header_len_bounds(b: Seq<u8>)
    ensures
        spec_header_len(b) matches Ok(n) ==> 10 <= n <= b.len(),
{
    if b.len() >= 12 {
        let len = b[10] as int + 256 * b[11] as int;
        lemma_null_end_bounds(b, 12 + len);
    }
    lemma_null_end_bounds(b, 10);
    if let Some(q) = null_end(b, 10) {
        lemma_null_end_bounds(b, q);
    }
    if b.len() >= 12 {
        let len = b[10] as int + 256 * b[11] as int;
        if let Some(q) = null_end(b, 12 + len) {
            lemma_null_end_bounds(b, q);
        }
    }
}

pub fn has_bit(val: u8, bit: u8) -> (r: bool)
    requires
        bit < 8,
    ensures
        r == spec_has_bit(val, bit),
{
    (val & (1 << bit)) == (1 << bit)
}

/// Copies the zero-terminated field starting at `pos` into `into`; the position after it.
pub fn read_null_terminated(from: &[u8], pos: usize, into: &mut Vec<u8>) -> (r: Result<usize, Error>)
    ensures
        match null_end(from@, pos as int) {
            Some(q) => pos < q <= from@.len() && r == Ok::<usize, Error>(q as usize) && final(into)@ == old(into)@ + from@.subrange(
                pos as int,
                q,
            ),
            None => r == Err::<usize, Error>(Error::UnexpectedEof),
        },
        r matches Ok(q) ==> pos < q <= from@.len(),
{
    proof {
        lemma_null_end_bounds(from@, pos as int);
    }
    if pos > from.len() {
        return Err(Error::UnexpectedEof);
    }
    let mut p = pos;
    let ghost start = old(into)@;
    proof {
        assert(into@ =~= start + from@.subrange(pos as int, p as int));
    }
    while p < from.len()
        invariant
            pos <= p <= from@.len(),
            null_end(from@, p as int) == null_end(from@, pos as int),
            into@ == start + from@.subrange(pos as int, p as int),
            start == old(into)@,
        decreases from@.len() - p,
    {
        let byte = from[p];
        into.push(byte);
        p += 1;
        proof {
            assert(into@ =~= start + from@.subrange(pos as int, p as int));
        }
        if 0 == byte {
            return Ok(p);
        }

    }
    Err(Error::UnexpectedEof)
}

fn take_bytes(from: &[u8], pos: usize, n: usize, into: &mut Vec<u8>) -> (r: Result<usize, Error>)
    ensures
        pos + n <= from@.len() ==> r == Ok::<usize, Error>((pos + n) as usize) && final(into)@ == old(into)@
            + from@.subrange(pos as int, pos + n),
        pos + n > from@.len() ==> r == Err::<usize, Error>(Error::UnexpectedEof),
{
    if pos > from.len() || from.len() - pos < n {
        return Err(Error::UnexpectedEof);
    }
    let mut i: usize = 0;
    let ghost start = old(into)@;
    proof {
        assert(into@ =~= start + from@.subrange(pos as int, pos + i));
    }
    while i < n
        invariant
            pos + n <= from@.len(),
            from@.len() <= usize::MAX,
            i <= n,
            into@ == start + from@.subrange(pos as int, pos + i),
            start == old(into)@,
        decreases n - i,
    {
        into.push(from[pos + i]);
        i += 1;
        proof {
            assert(into@ =~= start + from@.subrange(pos as int, pos + i));
        }
    }
    Ok(pos + n)
}

/// The gzip header at the start of `from`, as it was stored; the deflate stream follows it.
#[verifier::rlimit(40)]
pub fn discard_header(from: &[u8]) -> (r: Result<Vec<u8>, Error>)
    ensures
        match spec_header_len(from@) {
            Ok(n) => r matches Ok(v) && v@ == from@.take(n),
            Err(e) => r == Err::<Vec<u8>, Error>(e),
        },
{
    let ghost b = from@;
    let mut whole_thing: Vec<u8> = Vec::new();
    let mut pos = take_bytes(from, 0, 10, &mut whole_thing)?;
    proof {
        assert(whole_thing@ =~= b.take(pos as int));
    }

    if !(0x1f == from[0] && 0x8b == from[1]) {
        return Err(Error::InvalidMagic);
    }
    if 0x08 != from[2] {
        return Err(Error::UnsupportedMethod);
    }

    let flags = from[3];
    if 0 != (flags & 0b1110_0000) {
        return Err(Error::ReservedFlags);
    }

    let ghost extra: Result<int, Error> = if !spec_has_bit(flags, 2) {
        Ok(10)
    } else if b.len() < 12 {
        Err(Error::UnexpectedEof)
    } else {
        let len = b[10] as int + 256 * b[11] as int;
        if 12 + len > b.len() {
            Err(Error::UnexpectedEof)
        } else {
            Ok(12 + len)
        }
    };
    if has_bit(flags, 2) {
        pos = take_bytes(from, pos, 2, &mut whole_thing)?;
        let extra_field_length = ((from[11] as usize) << 8) | (from[10] as usize);
        proof {
            let lo = from@[10];
            let hi = from@[11];
            assert(((hi as usize) << 8usize) | (lo as usize) == lo as usize + 256 * hi as usize) by (bit_vector);
            assert(whole_thing@ =~= b.take(pos as int));
        }
        pos = take_bytes(from, pos, extra_field_length, &mut whole_thing)?;
        proof {
            assert(whole_thing@ =~= b.take(pos as int));
        }
    }
    assert(extra == Ok::<int, Error>(pos as int));

    let ghost name = skip_field(b, extra, spec_has_bit(flags, 3));
    if has_bit(flags, 3) {
        let ghost before = whole_thing@;
        let ghost p0 = pos;
        pos = read_null_terminated(from, pos, &mut whole_thing)?;
        proof {
            assert(before == b.take(p0 as int));
            assert(whole_thing@ == before + b.subrange(p0 as int, pos as int));
            assert(whole_thing@ =~= b.take(pos as int));
        }
    }
    assert(name == Ok::<int, Error>(pos as int));

    let ghost comment = skip_field(b, name, spec_has_bit(flags, 4));
    if has_bit(flags, 4) {
        let ghost before = whole_thing@;
        let ghost p0 = pos;
        pos = read_null_terminated(from, pos, &mut whole_thing)?;
        proof {
            assert(before == b.take(p0 as int));
            assert(whole_thing@ == before + b.subrange(p0 as int, pos as int));
            assert(whole_thing@ =~= b.take(pos as int));
        }
    }
    assert(comment == Ok::<int, Error>(pos as int));

    if has_bit(flags, 1) {
        pos = take_bytes(from, pos, 2, &mut whole_thing)?;
        proof {
            assert(whole_thing@ =~= b.take(pos as int));
        }
    }
    Ok(whole_thing)
}

} // verus!
