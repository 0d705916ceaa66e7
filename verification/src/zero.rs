use std::io::Read;

use vstd::prelude::*;

use crate::errors::Error;
use crate::gzip::discard_header;
use crate::gzip::spec_header_len;

verus! {

/// A chunk is at least this long, unless the input ends first.
pub const RSYNC_MIN: usize = 8192;
/// A chunk ends where the sum of its last `RSYNC_MIN` bytes is a multiple of this.
pub const RSYNC_MOD: usize = 4096;
/// A chunk is at most this long.
pub const RSYNC_MAX: usize = 65536;

/// The sum of the bytes.
pub open spec fn byte_sum(s: Seq<u8>) -> nat
    decreases s.len(),
{
    if s.len() == 0 {
        0
    } else {
        byte_sum(s.drop_last()) + s.last() as nat
    }
}

proof fn lemma_byte_sum_concat(a: Seq<u8>, b: Seq<u8>)
    ensures
        byte_sum(a + b) == byte_sum(a) + byte_sum(b),
    decreases b.len(),
{
    if b.len() == 0 {
        assert(a + b =~= a);
    } else {
        lemma_byte_sum_concat(a, b.drop_last());
        assert((a + b).drop_last() =~= a + b.drop_last());
    }
}

proof fn lemma_byte_sum_bound(s: Seq<u8>)
    ensures
        byte_sum(s) <= 255 * s.len(),
    decreases s.len(),
{
    if s.len() > 0 {
        lemma_byte_sum_bound(s.drop_last());
    }
}

/// The sum of the `RSYNC_MIN` bytes from `k` on.
pub open spec fn window_sum(s: Seq<u8>, k: int) -> nat {
    byte_sum(s.subrange(k, k + RSYNC_MIN))
}

/// Moving the window on by one byte adds the byte that enters it and takes away the one
/// that leaves it.
proof fn lemma_window_roll(s: Seq<u8>, k: int)
    requires
        0 <= k,
        k + RSYNC_MIN < s.len(),
    ensures
        window_sum(s, k + 1) + s[k] == window_sum(s, k) + s[k + RSYNC_MIN],
{
    let n = RSYNC_MIN as int;
    let w = s.subrange(k, k + n);
    let w1 = s.subrange(k + 1, k + 1 + n);
    assert(w =~= seq![s[k]] + s.subrange(k + 1, k + n));
    assert(w1 =~= s.subrange(k + 1, k + n) + seq![s[k + n]]);
    lemma_byte_sum_concat(seq![s[k]], s.subrange(k + 1, k + n));
    lemma_byte_sum_concat(s.subrange(k + 1, k + n), seq![s[k + n]]);
    assert(seq![s[k]].drop_last() =~= Seq::<u8>::empty());
    assert(seq![s[k + n]].drop_last() =~= Seq::<u8>::empty());
}

/// How far past `RSYNC_MIN` a chunk of `s` runs, checking from `k` on: up to the first
/// window whose sum is a multiple of `RSYNC_MOD`, the end of `s`, or `RSYNC_MAX`.
pub open spec fn rsync_extra(s: Seq<u8>, k: int) -> int
    decreases RSYNC_MAX - RSYNC_MIN - k,
{
    if k >= RSYNC_MAX - RSYNC_MIN {
        (RSYNC_MAX - RSYNC_MIN) as int
    } else if window_sum(s, k) % (RSYNC_MOD as nat) == 0 {
        k
    } else if RSYNC_MIN + k >= s.len() {
        k
    } else {
        rsync_extra(s, k + 1)
    }
}

/// How long the next chunk of `s` is.
pub open spec fn rsync_len(s: Seq<u8>) -> int {
    if s.len() <= RSYNC_MIN {
        s.len() as int
    } else {
        RSYNC_MIN + rsync_extra(s, 0)
    }
}

/// The next chunk of the input, cut where rsync can find it again: empty only where the input
/// is.
pub fn take_rsync(from: &[u8]) -> (r: Vec<u8>)
    ensures
        r@ == from@.take(rsync_len(from@)),
        r@.len() == 0 <==> from@.len() == 0,
{
    let mut buf: Vec<u8> = Vec::new();
    let mut sum: usize = 0;
    let mut i: usize = 0;
    while i < RSYNC_MIN
        invariant
            i <= RSYNC_MIN,
            i <= from@.len(),
            buf@ == from@.take(i as int),
            sum == byte_sum(buf@),
            sum <= 255 * i,
        decreases RSYNC_MIN - i,
    {
        if i >= from.len() {
            proof {
                assert(from@.take(i as int) =~= from@);
            }
            return buf;
        }
        let byte = from[i];
        proof {
            assert(from@.take(i + 1).drop_last() =~= from@.take(i as int));
        }
        sum = sum + byte as usize;
        buf.push(byte);
        i += 1;
        proof {
            assert(buf@ =~= from@.take(i as int));
        }
    }
    if from.len() == RSYNC_MIN {
        assert(from@.take(RSYNC_MIN as int) =~= from@);
        return buf;
    }
    proof {
        assert(from@.subrange(0, RSYNC_MIN as int) =~= buf@);
    }
    let mut pos: usize = 0;
    while pos < RSYNC_MAX - RSYNC_MIN
        invariant
            from@.len() > RSYNC_MIN,
            pos <= RSYNC_MAX - RSYNC_MIN,
            RSYNC_MIN + pos <= from@.len(),
            buf@ == from@.take(RSYNC_MIN + pos),
            sum == window_sum(from@, pos as int),
            rsync_extra(from@, 0) == rsync_extra(from@, pos as int),
        ensures
            buf@ == from@.take(RSYNC_MIN + pos),
            rsync_extra(from@, 0) == pos,
        decreases RSYNC_MAX - RSYNC_MIN - pos,
    {
        if sum % RSYNC_MOD == 0 {
            break;
        }
        if RSYNC_MIN + pos >= from.len() {
            break;
        }
        let byte = from[RSYNC_MIN + pos];
        proof {
            lemma_window_roll(from@, pos as int);
            lemma_byte_sum_bound(from@.subrange(pos + 1, pos + 1 + RSYNC_MIN));
        }
        sum = sum + byte as usize;
        sum = sum - buf[pos] as usize;
        buf.push(byte);
        pos += 1;
        proof {
            assert(buf@ =~= from@.take(RSYNC_MIN + pos));
        }
    }
    buf
}

proof fn lemma_rsync_extra_bounds(s: Seq<u8>, k: int)
    requires
        0 <= k <= RSYNC_MAX - RSYNC_MIN,
        RSYNC_MIN + k <= s.len(),
    ensures
        k <= rsync_extra(s, k) <= s.len() - RSYNC_MIN,
        rsync_extra(s, k) <= RSYNC_MAX - RSYNC_MIN,
    decreases RSYNC_MAX - RSYNC_MIN - k,
{
    if k < RSYNC_MAX - RSYNC_MIN && window_sum(s, k) % (RSYNC_MOD as nat) != 0 && RSYNC_MIN + k < s.len() {
        lemma_rsync_extra_bounds(s, k + 1);
    }
}

/// A chunk of a non-empty input takes at least one byte, and no more than there are.
pub proof fn lemma_rsync_len_bounds(s: Seq<u8>)
    requires
        s.len() > 0,
    ensures
        1 <= rsync_len(s) <= s.len(),
        rsync_len(s) <= RSYNC_MAX,
{
    if s.len() > RSYNC_MIN {
        lemma_rsync_extra_bounds(s, 0);
    }
}

/// A 16-bit value, low byte first.
pub open spec fn le16(v: u16) -> Seq<u8> {
    seq![(v % 256) as u8, (v / 256) as u8]
}

/// A 32-bit value, low byte first.
pub open spec fn le32(v: u32) -> Seq<u8> {
    seq![(v % 256) as u8, ((v / 256) % 256) as u8, ((v / 65536) % 256) as u8, (v / 16777216) as u8]
}

/// The stored deflate blocks that hold `data`, one per chunk: the block-type byte, which marks
/// the last block, the chunk's length (kept to 16 bits) and its one's complement, then the
/// chunk.
pub open spec fn spec_zero_blocks(data: Seq<u8>) -> Seq<u8>
    decreases data.len(),
{
    if data.len() == 0 {
        Seq::empty()
    } else {
        let n = rsync_len(data);
        proof {
            lemma_rsync_len_bounds(data);
        }
        let rest = data.skip(n);
        let len = (n % 65536) as u16;
        seq![if rest.len() == 0 { 1u8 } else { 0u8 }] + le16(len) + le16(len ^ 0xffffu16) + data.take(n)
            + spec_zero_blocks(rest)
    }
}

/// The CRC-32 that gzip keeps of the data.
pub uninterp spec fn spec_crc32(data: Seq<u8>) -> u32;

/// What a raw deflate stream decompresses to, or `None` where it cannot be decompressed.
pub uninterp spec fn spec_inflated(stream: Seq<u8>) -> Option<Seq<u8>>;

/// `crc::crc32::checksum_ieee`: the IEEE CRC-32 of the bytes, a function of them alone.
#[verifier::external_body]
fn crc32(data: &[u8]) -> (r: u32)
    ensures
        r == spec_crc32(data@),
{
    crc::crc32::checksum_ieee(data)
}

/// `flate2::read::DeflateDecoder`, read to its end: what the deflate stream at the start of
/// `stream` decompresses to, a function of the bytes alone; its error becomes `None`.
#[verifier::external_body]
fn inflate(stream: &[u8]) -> (r: Option<Vec<u8>>)
    ensures
        match r {
            Some(v) => spec_inflated(stream@) == Some(v@),
            None => spec_inflated(stream@) is None,
        },
{
    let mut data = Vec::new();
    match flate2::read::DeflateDecoder::new(stream).read_to_end(&mut data) {
        Ok(_) => Some(data),
        Err(_) => None,
    }
}

fn push_u16(into: &mut Vec<u8>, v: u16)
    ensures
        final(into)@ == old(into)@ + le16(v),
{
    into.push((v % 256) as u8);
    into.push((v / 256) as u8);
    proof {
        assert(final(into)@ =~= old(into)@ + le16(v));
    }
}

fn push_u32(into: &mut Vec<u8>, v: u32)
    ensures
        final(into)@ == old(into)@ + le32(v),
{
    into.push((v % 256) as u8);
    into.push(((v / 256) % 256) as u8);
    into.push(((v / 65536) % 256) as u8);
    into.push((v / 16777216) as u8);
    proof {
        assert(final(into)@ =~= old(into)@ + le32(v));
    }
}

/// Stores non-empty data as uncompressed deflate blocks, cut where rsync can find them again.
pub fn zero_blocks(data: &[u8]) -> (r: Vec<u8>)
    requires
        data@.len() > 0,
    ensures
        r@ == spec_zero_blocks(data@),
{
    let mut out: Vec<u8> = Vec::new();
    let mut pos: usize = 0;
    proof {
        assert(data@.skip(0) =~= data@);
        assert(Seq::<u8>::empty() + spec_zero_blocks(data@) =~= spec_zero_blocks(data@));
    }
    while pos < data.len()
        invariant
            pos <= data@.len(),
            out@ + spec_zero_blocks(data@.skip(pos as int)) == spec_zero_blocks(data@),
        decreases data@.len() - pos,
    {
        let ghost d = data@.skip(pos as int);
        let (_, rest) = data.split_at(pos);
        assert(rest@ =~= d);
        let buf = take_rsync(rest);
        let n = buf.len();
        proof {
            lemma_rsync_len_bounds(d);
            assert(d.skip(n as int) =~= data@.skip(pos + n));
        }
        let ghost before = out@;
        pos += n;
        if pos < data.len() {
            out.push(0);
        } else {
            out.push(1);
        }
        let len = (n % 65536) as u16;
        push_u16(&mut out, len);
        push_u16(&mut out, len ^ 0xffff);
        out.extend_from_slice(buf.as_slice());
        proof {
            let head = seq![if d.skip(n as int).len() == 0 { 1u8 } else { 0u8 }] + le16(len) + le16(
                len ^ 0xffffu16,
            ) + d.take(n as int);
            assert(out@ =~= before + head);
            assert(spec_zero_blocks(d) == head + spec_zero_blocks(d.skip(n as int)));
            assert(before + spec_zero_blocks(d) =~= out@ + spec_zero_blocks(data@.skip(pos as int)));
        }
    }
    proof {
        assert(data@.skip(pos as int) =~= Seq::<u8>::empty());
        assert(out@ + Seq::<u8>::empty() =~= out@);
    }
    out
}

/// A gzip file that holds non-empty data as rsync-friendly stored blocks: the header, the
/// blocks, then the data's CRC-32 and its length modulo 2^32.
pub fn zero_stream(header: &[u8], data: &[u8]) -> (r: Vec<u8>)
    requires
        data@.len() > 0,
    ensures
        r@ == header@ + spec_zero_blocks(data@) + le32(spec_crc32(data@)) + le32(
            (data@.len() % 0x1_0000_0000) as u32,
        ),
{
    let mut out: Vec<u8> = Vec::new();
    out.extend_from_slice(header);
    let blocks = zero_blocks(data);
    out.extend_from_slice(blocks.as_slice());
    push_u32(&mut out, crc32(data));
    let data_len = ((data.len() as u64) % 0x1_0000_0000u64) as u32;
    push_u32(&mut out, data_len);
    proof {
        assert(out@ =~= header@ + spec_zero_blocks(data@) + le32(spec_crc32(data@)) + le32(
            (data@.len() % 0x1_0000_0000) as u32,
        ));
    }
    out
}

/// Re-stores a gzip file as rsync-friendly stored blocks behind its own header: an error in
/// the header, a stream that does not decompress, or one that decompresses to nothing is an
/// error.
pub fn zero(input: &[u8]) -> (r: Result<Vec<u8>, Error>)
    ensures
        match spec_header_len(input@) {
            Err(e) => r == Err::<Vec<u8>, Error>(e),
            Ok(n) => match spec_inflated(input@.skip(n)) {
                None => r == Err::<Vec<u8>, Error>(Error::InvalidDeflate),
                Some(data) => if data.len() == 0 {
                    r == Err::<Vec<u8>, Error>(Error::NothingToStore)
                } else {
                    r matches Ok(v) && v@ == input@.take(n) + spec_zero_blocks(data) + le32(spec_crc32(data))
                        + le32((data.len() % 0x1_0000_0000) as u32)
                },
            },
        },
{
    let header = discard_header(input)?;
    proof {
        crate::gzip::lemma_header_len_bounds(input@);
    }
    let (_, stream) = input.split_at(header.len());
    let data = match inflate(stream) {
        Some(d) => d,
        None => return Err(Error::InvalidDeflate),
    };
    if data.len() == 0 {
        return Err(Error::NothingToStore);
    }
    Ok(zero_stream(header.as_slice(), data.as_slice()))
}

} // verus!
