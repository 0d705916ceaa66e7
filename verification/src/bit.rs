use vstd::prelude::*;
use vstd::arithmetic::power2::pow2;
use vstd::arithmetic::power2::lemma_pow2_unfold;
use vstd::arithmetic::power2::lemma_pow2_strictly_increases;
use vstd::arithmetic::power2::lemma2_to64;
use vstd::bits::lemma_u16_shl_is_mul;

use crate::errors::Error;

verus! {

/// Bit `i` (0 is the least significant) of a byte.
pub open spec fn byte_bit(b: u8, i: u8) -> bool {
    (b >> i) & 1u8 == 1u8
}

/// The bits of a byte, least significant first.
pub open spec fn bits_of_byte(b: u8) -> Seq<bool> {
    Seq::new(8, |i: int| byte_bit(b, i as u8))
}

/// The bits of a byte sequence: each byte in turn, least significant bit first.
pub open spec fn bits_of_bytes(bytes: Seq<u8>) -> Seq<bool> {
    Seq::new((bytes.len() * 8) as nat, |i: int| byte_bit(bytes[i / 8], (i % 8) as u8))
}

/// The number whose binary digits, least significant first, are `bits`.
pub open spec fn bits_value(bits: Seq<bool>) -> nat
    decreases bits.len(),
{
    if bits.len() == 0 {
        0
    } else {
        bits_value(bits.drop_last()) + if bits.last() {
            pow2((bits.len() - 1) as nat)
        } else {
            0
        }
    }
}

/// The lowest `n` bits of `v`, least significant first.
pub open spec fn low_bits(v: u16, n: nat) -> Seq<bool> {
    Seq::new(n, |i: int| (v >> (i as u16)) & 1u16 == 1u16)
}

/// `n` zero bits.
pub open spec fn zeros(n: nat) -> Seq<bool> {
    Seq::new(n, |i: int| false)
}

pub proof fn lemma_or_bit(b: u8, k: u8, j: u8)
    requires
        k < 8,
        j < 8,
    ensures
        byte_bit(b | (1u8 << k), j) == (j == k || byte_bit(b, j)),
{
    assert(((b | (1u8 << k)) >> j) & 1u8 == 1u8 <==> (j == k || (b >> j) & 1u8 == 1u8))
        by (bit_vector)
        requires
            k < 8,
            j < 8,
    ;
}

pub proof fn lemma_zero_bits(j: u8)
    requires
        j < 8,
    ensures
        !byte_bit(0u8, j),
{
    assert((0u8 >> j) & 1u8 != 1u8) by (bit_vector);
}

/// Bytes are determined by their bits.
pub proof fn lemma_bits_of_bytes_injective(a: Seq<u8>, b: Seq<u8>)
    requires
        bits_of_bytes(a) == bits_of_bytes(b),
    ensures
        a == b,
{
    assert(bits_of_bytes(a).len() == a.len() * 8);
    assert(bits_of_bytes(b).len() == b.len() * 8);
    assert(a.len() == b.len());
    assert forall|i: int| 0 <= i < a.len() implies a[i] == b[i] by {
        assert forall|j: u8| j < 8 implies byte_bit(a[i], j) == byte_bit(b[i], j) by {
            let k = 8 * i + j;
            let n = a.len() as int;
            assert(k / 8 == i && k % 8 == j && k < n * 8) by (nonlinear_arith)
                requires
                    k == 8 * i + j,
                    0 <= j < 8,
                    0 <= i < n,
            ;
            assert(bits_of_bytes(a)[k] == byte_bit(a[i], j));
            assert(bits_of_bytes(b)[k] == byte_bit(b[i], j));
        }
        lemma_byte_from_bits(a[i], b[i]);
    }
    assert(a =~= b);
}

/// A byte is determined by its bits.
pub proof fn lemma_byte_from_bits(a: u8, b: u8)
    requires
        forall|i: u8| i < 8 ==> byte_bit(a, i) == byte_bit(b, i),
    ensures
        a == b,
{
    assert(byte_bit(a, 0) == byte_bit(b, 0));
    assert(byte_bit(a, 1) == byte_bit(b, 1));
    assert(byte_bit(a, 2) == byte_bit(b, 2));
    assert(byte_bit(a, 3) == byte_bit(b, 3));
    assert(byte_bit(a, 4) == byte_bit(b, 4));
    assert(byte_bit(a, 5) == byte_bit(b, 5));
    assert(byte_bit(a, 6) == byte_bit(b, 6));
    assert(byte_bit(a, 7) == byte_bit(b, 7));
    assert(a == b) by (bit_vector)
        requires
            ((a >> 0u8) & 1u8 == 1u8) == ((b >> 0u8) & 1u8 == 1u8),
            ((a >> 1u8) & 1u8 == 1u8) == ((b >> 1u8) & 1u8 == 1u8),
            ((a >> 2u8) & 1u8 == 1u8) == ((b >> 2u8) & 1u8 == 1u8),
            ((a >> 3u8) & 1u8 == 1u8) == ((b >> 3u8) & 1u8 == 1u8),
            ((a >> 4u8) & 1u8 == 1u8) == ((b >> 4u8) & 1u8 == 1u8),
            ((a >> 5u8) & 1u8 == 1u8) == ((b >> 5u8) & 1u8 == 1u8),
            ((a >> 6u8) & 1u8 == 1u8) == ((b >> 6u8) & 1u8 == 1u8),
            ((a >> 7u8) & 1u8 == 1u8) == ((b >> 7u8) & 1u8 == 1u8),
    ;
}

pub proof fn lemma_bits_of_bytes_push(bytes: Seq<u8>, b: u8)
    ensures
        bits_of_bytes(bytes.push(b)) == bits_of_bytes(bytes) + bits_of_byte(b),
{
    let l = bits_of_bytes(bytes.push(b));
    let r = bits_of_bytes(bytes) + bits_of_byte(b);
    assert(l.len() == r.len());
    assert forall|i: int| 0 <= i < l.len() implies l[i] == r[i] by {
        let n = bytes.len() as int;
        if i < n * 8 {
            assert(i / 8 < n) by (nonlinear_arith)
                requires
                    0 <= i < n * 8,
            ;
        } else {
            assert(i / 8 == n && i % 8 == i - n * 8) by (nonlinear_arith)
                requires
                    n * 8 <= i < n * 8 + 8,
            ;
        }
    }
    assert(l =~= r);
}

pub proof fn lemma_bits_of_bytes_add(a: Seq<u8>, b: Seq<u8>)
    ensures
        bits_of_bytes(a + b) == bits_of_bytes(a) + bits_of_bytes(b),
    decreases b.len(),
{
    if b.len() == 0 {
        assert(a + b =~= a);
        assert(bits_of_bytes(b) =~= Seq::<bool>::empty());
        assert(bits_of_bytes(a) + bits_of_bytes(b) =~= bits_of_bytes(a));
    } else {
        let bl = b.drop_last();
        lemma_bits_of_bytes_add(a, bl);
        assert(a + b =~= (a + bl).push(b.last()));
        assert(b =~= bl.push(b.last()));
        lemma_bits_of_bytes_push(a + bl, b.last());
        lemma_bits_of_bytes_push(bl, b.last());
        assert(bits_of_bytes(a + b) =~= bits_of_bytes(a) + bits_of_bytes(b));
    }
}

pub proof fn lemma_bits_of_bytes_skip(bytes: Seq<u8>, k: int)
    requires
        0 <= k <= bytes.len(),
    ensures
        bits_of_bytes(bytes).skip(k * 8) == bits_of_bytes(bytes.skip(k)),
{
    assert(bytes =~= bytes.take(k) + bytes.skip(k));
    lemma_bits_of_bytes_add(bytes.take(k), bytes.skip(k));
    assert(bits_of_bytes(bytes.take(k)).len() == k * 8);
    assert(bits_of_bytes(bytes).skip(k * 8) =~= bits_of_bytes(bytes.skip(k)));
}

pub proof fn lemma_one_shl(i: u16)
    requires
        i < 16,
    ensures
        (1u16 << i) as nat == pow2(i as nat),
        pow2(i as nat) <= 32768,
{
    lemma2_to64();
    if i < 15 {
        lemma_pow2_strictly_increases(i as nat, 15);
    }
    lemma_u16_shl_is_mul(1u16, i);
}

/// Appending one bit at the top of a number.
pub proof fn lemma_bits_value_push(s: Seq<bool>, b: bool)
    ensures
        bits_value(s.push(b)) == bits_value(s) + if b {
            pow2(s.len())
        } else {
            0
        },
{
    assert(s.push(b).drop_last() =~= s);
}

pub proof fn lemma_bits_value_bound(s: Seq<bool>)
    ensures
        bits_value(s) < pow2(s.len()),
    decreases s.len(),
{
    if s.len() == 0 {
        lemma2_to64();
    } else {
        lemma_bits_value_bound(s.drop_last());
        lemma_pow2_unfold(s.len());
    }
}

/// Bits of the same length with the same value are the same bits.
pub proof fn lemma_bits_value_injective(x: Seq<bool>, y: Seq<bool>)
    requires
        x.len() == y.len(),
        bits_value(x) == bits_value(y),
    ensures
        x == y,
    decreases x.len(),
{
    if x.len() > 0 {
        let n = (x.len() - 1) as nat;
        lemma_bits_value_bound(x.drop_last());
        lemma_bits_value_bound(y.drop_last());
        assert(x.last() == y.last());
        lemma_bits_value_injective(x.drop_last(), y.drop_last());
        assert(x =~= x.drop_last().push(x.last()));
        assert(y =~= y.drop_last().push(y.last()));
    } else {
        assert(x =~= y);
    }
}

/// Writing the value of some bits gives back those bits.
pub proof fn lemma_low_bits_of_value(x: Seq<bool>)
    requires
        x.len() <= 16,
    ensures
        bits_value(x) < 65536,
        low_bits(bits_value(x) as u16, x.len()) == x,
{
    lemma2_to64();
    lemma_bits_value_bound(x);
    if x.len() < 16 {
        lemma_pow2_strictly_increases(x.len(), 16);
    }
    let v = bits_value(x) as u16;
    lemma_bits_value_low_bits(v, x.len());
    vstd::arithmetic::div_mod::lemma_small_mod(v as nat, pow2(x.len()));
    lemma_bits_value_injective(low_bits(v, x.len()), x);
}

/// Reading back the low bits of a value gives back the value, cut to that many bits.
pub proof fn lemma_bits_value_low_bits(v: u16, n: nat)
    requires
        n <= 16,
    ensures
        bits_value(low_bits(v, n)) == v as nat % pow2(n),
    decreases n,
{
    if n == 0 {
        lemma2_to64();
        assert(low_bits(v, 0) =~= Seq::<bool>::empty());
    } else {
        let m = (n - 1) as nat;
        lemma_bits_value_low_bits(v, m);
        let bit = low_bits(v, n)[m as int];
        assert(low_bits(v, n) =~= low_bits(v, m).push(bit));
        lemma_bits_value_push(low_bits(v, m), bit);
        let m16 = m as u16;
        let q = v >> m16;
        assert((q & 1u16 == 1u16) == (q % 2u16 == 1u16)) by (bit_vector);
        vstd::bits::lemma_u16_shr_is_div(v, m16);
        lemma2_to64();
        lemma_pow2_unfold(n);
        vstd::arithmetic::div_mod::lemma_mod_breakdown(v as int, pow2(m) as int, 2);
        assert(bit == (q % 2u16 == 1u16));
        assert(pow2(n) == pow2(m) * 2);
        assert(v as int % (pow2(m) as int * 2) == pow2(m) as int * ((v as int / pow2(m) as int) % 2)
            + v as int % pow2(m) as int);
        if bit {
            assert((v as int / pow2(m) as int) % 2 == 1);
        } else {
            assert((v as int / pow2(m) as int) % 2 == 0);
        }
    }
}

const WORD_SIZE: usize = 8;

/// A growable sequence of bits, packed eight to a byte.
#[derive(Debug, PartialEq, Eq)]
pub struct BitVec {
    bytes: Vec<u8>,
    len: usize,
}

impl View for BitVec {
    type V = Seq<bool>;

    closed spec fn view(&self) -> Seq<bool> {
        bits_of_bytes(self.bytes@).take(self.len as int)
    }
}

impl BitVec {
    /// The bytes hold exactly as many bits as needed.
    pub closed spec fn wf(&self) -> bool {
        &&& self.bytes.len() * 8 >= self.len
        &&& self.bytes.len() * 8 < self.len + 8
    }

    /// Every stored bit past the end is clear.
    pub closed spec fn clean(&self) -> bool {
        forall|i: int|
            self.len <= i < self.bytes.len() * 8 ==> !#[trigger] bits_of_bytes(self.bytes@)[i]
    }

    /// The bytes the bits are packed into, including any bits past the end.
    pub closed spec fn raw_bytes(&self) -> Seq<u8> {
        self.bytes@
    }

    /// The stored bit just past the end, which `push` merges into the bit it adds.
    pub closed spec fn stale(&self) -> bool {
        self.len < self.bytes.len() * 8 && bits_of_bytes(self.bytes@)[self.len as int]
    }

    pub proof fn lemma_clean_not_stale(&self)
        requires
            self.clean(),
        ensures
            !self.stale(),
    {
    }

    pub fn new() -> (r: Self)
        ensures
            r.wf(),
            r.clean(),
            r@ == Seq::<bool>::empty(),
    {
        let r = BitVec { bytes: Vec::new(), len: 0 };
        assert(r@ =~= Seq::<bool>::empty());
        r
    }

    pub fn from_slice(bytes: &[u8]) -> (r: Self)
        requires
            bytes@.len() * 8 <= usize::MAX,
        ensures
            r.wf(),
            r.clean(),
            r@ == bits_of_bytes(bytes@),
    {
        let mut v: Vec<u8> = Vec::new();
        v.extend_from_slice(bytes);
        assert(v@ =~= bytes@);
        let r = BitVec { bytes: v, len: bytes.len() * WORD_SIZE };
        assert(r@ =~= bits_of_bytes(bytes@));
        r
    }

    pub fn push(&mut self, val: bool)
        requires
            old(self).wf(),
            old(self)@.len() < usize::MAX,
        ensures
            final(self).wf(),
            final(self)@ == old(self)@.push(val || old(self).stale()),
            old(self).clean() ==> final(self).clean(),
    {
        let word = self.len / WORD_SIZE;
        let bit = self.len % WORD_SIZE;
        let ghost old_bits = bits_of_bytes(self.bytes@);
        let ghost old_bytes = self.bytes@;

        self.len += 1;

        if word >= self.bytes.len() {
            self.bytes.push(0);
            proof {
                lemma_bits_of_bytes_push(old_bytes, 0u8);
                assert forall|j: u8| j < 8 implies !byte_bit(0u8, j) by {
                    lemma_zero_bits(j);
                }
            }
        }
        let ghost mid_bytes = self.bytes@;
        proof {
            assert(bits_of_bytes(mid_bytes).take(self.len - 1) =~= old_bits.take(self.len - 1));
            assert((self.len - 1) < mid_bytes.len() * 8);
            assert(bits_of_bytes(mid_bytes)[self.len - 1] == (self.len - 1 < old_bytes.len() * 8
                && old_bits[self.len - 1]));
        }

        if val {
            let b = self.bytes[word];
            self.bytes.set(word, b | (1u8 << (bit as u8)));
            proof {
                let nb = bits_of_bytes(self.bytes@);
                let ob = bits_of_bytes(mid_bytes);
                assert forall|i: int| 0 <= i < nb.len() implies nb[i] == (ob[i] || i == self.len - 1) by {
                    if i / 8 == word {
                        lemma_or_bit(b, bit as u8, (i % 8) as u8);
                    }
                }
            }
        }
        proof {
            assert(self@ =~= old(self)@.push(val || old(self).stale()));
        }
    }

    pub fn get(&self, pos: usize) -> (r: bool)
        requires
            self.wf(),
            pos < self@.len(),
        ensures
            r == self@[pos as int],
    {
        let word = pos / WORD_SIZE;
        let bit = pos % WORD_SIZE;
        let b = self.bytes[word];
        let m = 1u8 << (bit as u8);
        let r = b & m == m;
        proof {
            let k = bit as u8;
            assert((b & (1u8 << k) == (1u8 << k)) == ((b >> k) & 1u8 == 1u8)) by (bit_vector)
                requires
                    k < 8,
            ;
        }
        r
    }

    pub fn pop(&mut self) -> (r: Option<bool>)
        requires
            old(self).wf(),
        ensures
            final(self).wf(),
            old(self)@.len() == 0 ==> r is None && *final(self) == *old(self),
            old(self)@.len() > 0 ==> {
                &&& r == Some(old(self)@.last())
                &&& final(self)@ == old(self)@.drop_last()
                &&& (old(self).clean() && (!old(self)@.last() || final(self)@.len() % 8 == 0))
                    ==> final(self).clean()
            },
    {
        if 0 == self.len {
            return None;
        }
        let answer = self.get(self.len - 1);
        let ghost old_bytes = self.bytes@;

        self.len -= 1;

        if self.len % WORD_SIZE == 0 {
            self.bytes.pop();
            proof {
                assert(old_bytes =~= self.bytes@.push(old_bytes.last()));
                lemma_bits_of_bytes_push(self.bytes@, old_bytes.last());
            }
        }
        proof {
            assert(self@ =~= old(self)@.drop_last());
        }
        Some(answer)
    }

    #[allow(unused)]
    fn bytes(&self) -> (r: &Vec<u8>)
        ensures
            r@ == self.bytes@,
    {
        &self.bytes
    }

    pub fn len(&self) -> (r: usize)
        requires
            self.wf(),
        ensures
            r == self@.len(),
    {
        self.len
    }

    pub fn is_empty(&self) -> (r: bool)
        requires
            self.wf(),
        ensures
            r == (self@.len() == 0),
    {
        self.len == 0
    }

    /// Takes the last eight bits off as a byte; the last bit pushed is the top bit.
    pub fn pop_byte(&mut self) -> (r: Option<u8>)
        requires
            old(self).wf(),
        ensures
            final(self).wf(),
            old(self)@.len() < 8 ==> r is None && *final(self) == *old(self),
            old(self)@.len() >= 8 ==> {
                &&& r matches Some(b)
                &&& bits_of_byte(b) == old(self)@.subrange(old(self)@.len() - 8, old(self)@.len() as int)
                &&& final(self)@ == old(self)@.take(old(self)@.len() - 8)
                &&& (old(self).clean() && old(self)@.len() % 8 == 0) ==> final(self).clean()
            },
    {
        if self.len < 8 {
            return None;
        }

        let ghost orig = self@;
        let ghost n = orig.len();
        let mut ret = 0u8;
        proof {
            assert forall|j: u8| j < 8 implies !byte_bit(0u8, j) by {
                lemma_zero_bits(j);
            }
        }

        for pos in 0..8
            invariant
                self.wf(),
                self@ == orig.take(n - pos),
                n == orig.len(),
                n >= 8,
                forall|i: u8| #![trigger byte_bit(ret, i)] i < 8 ==> byte_bit(ret, i) == (i >= 8 - pos && orig[n - 8 + i]),
        {
            let ghost before = *self;
            let popped = self.pop();
            proof {
                assert(before@.len() == n - pos);
                assert(before@.last() == orig[n - pos - 1]);
                assert(self@ =~= orig.take(n - pos - 1));
            }
            let ghost r0 = ret;
            if popped.unwrap() {
                ret |= 1u8 << ((7 - pos) as u8);
                proof {
                    assert forall|i: u8| i < 8 implies byte_bit(ret, i) == (i >= 8 - (pos + 1)
                        && orig[n - 8 + i]) by {
                        lemma_or_bit(r0, (7 - pos) as u8, i);
                    }
                }
            }
        }
        proof {
            assert(bits_of_byte(ret) =~= orig.subrange(n - 8, n as int));
            assert(self.len % 8 == 0 ==> self.bytes.len() * 8 == self.len);
        }
        Some(ret)
    }

    pub fn iter(&self) -> (r: StackIterator<'_>)
        requires
            self.wf(),
        ensures
            r.wf(),
            r.remaining() == self@,
            r.source() == self@,
            r.position() == 0,
    {
        StackIterator { inner: self, pos: 0 }
    }
}

/// Walks the bits of a `BitVec`, first pushed first.
pub struct StackIterator<'a> {
    inner: &'a BitVec,
    pos: usize,
}

impl<'a> StackIterator<'a> {
    pub closed spec fn wf(&self) -> bool {
        self.inner.wf() && self.pos <= self.inner@.len()
    }

    /// The bits that have not been handed out yet.
    pub closed spec fn remaining(&self) -> Seq<bool> {
        self.inner@.skip(self.pos as int)
    }

    /// All the bits being walked.
    pub closed spec fn source(&self) -> Seq<bool> {
        self.inner@
    }

    /// How many bits have been handed out.
    pub closed spec fn position(&self) -> nat {
        self.pos as nat
    }

    pub fn next(&mut self) -> (r: Option<bool>)
        requires
            old(self).wf(),
        ensures
            final(self).wf(),
            final(self).source() == old(self).source(),
            old(self).remaining().len() == 0 ==> r is None && final(self).position() == old(self).position(),
            old(self).remaining().len() > 0 ==> final(self).position() == old(self).position() + 1,
            old(self).remaining().len() > 0 ==> r == Some(old(self).remaining()[0])
                && final(self).remaining() == old(self).remaining().drop_first(),
    {
        if self.pos >= self.inner.len() {
            return None;
        }
        let ret = self.inner.get(self.pos);
        self.pos += 1;
        proof {
            assert(self.remaining() =~= old(self).remaining().drop_first());
        }
        Some(ret)
    }
}


/// The bits a source has not handed out yet.
pub open spec fn remaining<B: BitSource + ?Sized>(src: &B) -> Seq<bool> {
    src.all_bits().skip(src.consumed() as int)
}

/// Something that hands out bits one at a time.
pub trait BitSource {
    /// Every bit the source holds, from the start, including those already handed out.
    spec fn all_bits(&self) -> Seq<bool>;

    /// How many bits have been handed out.
    spec fn consumed(&self) -> nat;

    /// Whether reading past the end is answered with `UnexpectedEof`, rather than being a fault.
    spec fn errors_at_end(&self) -> bool;

    /// A setting of the source that reading leaves alone.
    spec fn mark(&self) -> int;

    spec fn inv(&self) -> bool;

    proof fn lemma_inv(&self)
        requires
            self.inv(),
        ensures
            self.consumed() <= self.all_bits().len(),
    ;

    fn read_bit(&mut self) -> (r: Result<bool, Error>)
        requires
            old(self).inv(),
            old(self).errors_at_end() || old(self).consumed() < old(self).all_bits().len(),
        ensures
            final(self).inv(),
            final(self).all_bits() == old(self).all_bits(),
            final(self).errors_at_end() == old(self).errors_at_end(),
            final(self).mark() == old(self).mark(),
            match r {
                Ok(b) => {
                    &&& old(self).consumed() < old(self).all_bits().len()
                    &&& b == old(self).all_bits()[old(self).consumed() as int]
                    &&& final(self).consumed() == old(self).consumed() + 1
                },
                Err(e) => {
                    &&& e == Error::UnexpectedEof
                    &&& old(self).consumed() == old(self).all_bits().len()
                    &&& final(self).consumed() == old(self).consumed()
                },
            },
    ;

    /// Reads `bits` bits as a number, the first bit read being the least significant.
    fn read_part(&mut self, bits: u8) -> (r: Result<u16, Error>)
        requires
            old(self).inv(),
            bits <= 16,
            old(self).errors_at_end() || old(self).consumed() + bits <= old(self).all_bits().len(),
        ensures
            final(self).inv(),
            final(self).all_bits() == old(self).all_bits(),
            final(self).errors_at_end() == old(self).errors_at_end(),
            final(self).mark() == old(self).mark(),
            match r {
                Ok(v) => {
                    &&& old(self).consumed() + bits <= old(self).all_bits().len()
                    &&& v == bits_value(old(self).all_bits().subrange(old(self).consumed() as int, old(self).consumed() + bits))
                    &&& final(self).consumed() == old(self).consumed() + bits
                },
                Err(e) => {
                    &&& e == Error::UnexpectedEof
                    &&& old(self).consumed() + bits > old(self).all_bits().len()
                    &&& final(self).consumed() == old(self).all_bits().len()
                },
            },
    {
        let ghost rem0 = self.all_bits().skip(self.consumed() as int);
        let ghost c0 = self.consumed();
        proof {
            self.lemma_inv();
        }
        let mut res = 0u16;
        let mut i: u8 = 0;
        while i < bits
            invariant
                self.inv(),
                self.all_bits() == old(self).all_bits(),
                self.errors_at_end() == old(self).errors_at_end(),
                self.mark() == old(self).mark(),
                rem0 == old(self).all_bits().skip(old(self).consumed() as int),
                c0 == old(self).consumed(),
                c0 <= self.all_bits().len(),
                bits <= 16,
                i <= bits,
                self.errors_at_end() || c0 + bits <= self.all_bits().len(),
                self.consumed() == c0 + i,
                c0 + i <= self.all_bits().len(),
                res == bits_value(rem0.take(i as int)),
            decreases bits - i,
        {
            let b = self.read_bit();
            match b {
                Ok(b) => {
                    proof {
                        assert(rem0[i as int] == b);
                        assert(rem0.take(i + 1) =~= rem0.take(i as int).push(b));
                        lemma_bits_value_push(rem0.take(i as int), b);
                        lemma_bits_value_bound(rem0.take(i as int));
                        lemma_one_shl(i as u16);
                    }
                    if b {
                        let ghost r0 = res;
                        res |= 1u16 << (i as u16);
                        proof {
                            let iu = i as u16;
                            assert(r0 < (1u16 << iu) ==> r0 | (1u16 << iu) == r0 + (1u16 << iu))
                                by (bit_vector)
                                requires
                                    iu < 16,
                            ;
                        }
                    }
                },
                Err(e) => {
                    return Err(e);
                },
            }
            i = i + 1;
        }
        proof {
            assert(rem0.take(bits as int) =~= old(self).all_bits().subrange(c0 as int, c0 + bits));
        }
        Ok(res)
    }
}

/// Reads bits out of a byte stream, least significant bit of each byte first.
pub struct BitReader {
    inner: Vec<u8>,
    pos: usize,
    current: u8,
    remaining_bits: u8,
    track: Option<BitVec>,
    track_from: Ghost<nat>,
}

impl BitReader {
    pub closed spec fn wf(&self) -> bool {
        &&& self.pos <= self.inner.len()
        &&& self.inner.len() * 8 < usize::MAX
        &&& self.remaining_bits <= 7
        &&& self.remaining_bits > 0 ==> self.pos > 0 && self.current == self.inner[self.pos - 1]
        &&& self.track matches Some(t) ==> {
            &&& t.wf()
            &&& t.clean()
            &&& self.track_from@ <= self.bit_pos()
            &&& t@ == bits_of_bytes(self.inner@).subrange(self.track_from@ as int, self.bit_pos() as int)
        }
    }

    /// The whole input.
    pub closed spec fn input(&self) -> Seq<u8> {
        self.inner@
    }

    /// How many bits have been read.
    pub closed spec fn bit_pos(&self) -> nat {
        (self.pos * 8 - self.remaining_bits) as nat
    }

    /// The bits still to be read.
    pub open spec fn unread(&self) -> Seq<bool> {
        bits_of_bytes(self.input()).skip(self.bit_pos() as int)
    }

    /// Where tracking started.
    pub closed spec fn track_origin(&self) -> nat {
        self.track_from@
    }

    /// The bits read since tracking started, if it has.
    pub closed spec fn recorded(&self) -> Option<Seq<bool>> {
        match self.track {
            Some(t) => Some(t@),
            None => None,
        }
    }

    pub open spec fn aligned(&self) -> bool {
        self.bit_pos() % 8 == 0
    }

    pub proof fn lemma_unread_len(&self)
        requires
            self.wf(),
        ensures
            self.unread().len() == self.input().len() * 8 - self.bit_pos(),
            self.bit_pos() <= self.input().len() * 8,
            self.input().len() * 8 < usize::MAX,
            bits_of_bytes(self.input()).len() == self.input().len() * 8,
    {
    }

    pub fn new(inner: Vec<u8>) -> (r: Self)
        requires
            inner@.len() * 8 < usize::MAX,
        ensures
            r.wf(),
            r.input() == inner@,
            r.bit_pos() == 0,
            r.unread() == bits_of_bytes(inner@),
            r.recorded() is None,
    {
        let r = BitReader {
            inner,
            pos: 0,
            current: 0,
            remaining_bits: 0,
            track: None,
            track_from: Ghost(0),
        };
        assert(r.unread() =~= bits_of_bytes(inner@));
        r
    }

    fn position(&self) -> (r: u8)
        requires
            self.wf(),
        ensures
            r == self.bit_pos() % 8,
            r < 8,
    {
        (8 - self.remaining_bits) % 8
    }

    pub fn read_bit(&mut self) -> (r: Result<bool, Error>)
        requires
            old(self).wf(),
        ensures
            final(self).wf(),
            final(self).input() == old(self).input(),
            final(self).track_origin() == old(self).track_origin(),
            match r {
                Ok(b) => {
                    &&& old(self).unread().len() > 0
                    &&& b == old(self).unread()[0]
                    &&& final(self).bit_pos() == old(self).bit_pos() + 1
                    &&& final(self).recorded() == match old(self).recorded() {
                        Some(t) => Some(t.push(b)),
                        None => None::<Seq<bool>>,
                    }
                },
                Err(e) => {
                    &&& e == Error::UnexpectedEof
                    &&& old(self).unread().len() == 0
                    &&& *final(self) == *old(self)
                },
            },
    {
        if 0 == self.remaining_bits {
            if self.pos >= self.inner.len() {
                return Err(Error::UnexpectedEof);
            }
            self.current = self.inner[self.pos];
            self.pos += 1;
            self.remaining_bits = 8;
        }

        self.remaining_bits -= 1;

        let bit = (self.current >> (7 - self.remaining_bits)) & 1;
        let bit = 1 == bit;
        proof {
            let p = old(self).bit_pos() as int;
            assert(p == (self.pos - 1) * 8 + (7 - self.remaining_bits));
            assert(p / 8 == self.pos - 1 && p % 8 == 7 - self.remaining_bits) by (nonlinear_arith)
                requires
                    p == (self.pos - 1) * 8 + (7 - self.remaining_bits),
                    0 <= 7 - self.remaining_bits < 8,
            ;
            assert(bits_of_bytes(self.inner@)[p] == byte_bit(self.current, (7 - self.remaining_bits) as u8));
        }

        if self.track.is_some() {
            let mut t = self.track.take().unwrap();
            proof {
                assert(t@.len() < usize::MAX) by {
                    assert(t@.len() <= old(self).bit_pos());
                }
            }
            t.push(bit);
            self.track = Some(t);
            proof {
                let all = bits_of_bytes(self.inner@);
                assert(t@ =~= all.subrange(self.track_from@ as int, self.bit_pos() as int));
            }
        }

        Ok(bit)
    }

    /// Skips to the next byte boundary; the skipped bits must all be clear.
    pub fn align(&mut self) -> (r: Result<(), Error>)
        requires
            old(self).wf(),
            old(self).recorded() is None,
        ensures
            final(self).wf(),
            final(self).input() == old(self).input(),
            final(self).recorded() is None,
            ({
                let k = (8 - old(self).bit_pos() % 8) % 8;
                &&& k <= old(self).unread().len()
                &&& r is Ok <==> (forall|i: int| 0 <= i < k ==> !old(self).unread()[i])
                &&& r is Ok ==> final(self).bit_pos() == old(self).bit_pos() + k
                &&& r is Err ==> r == Err::<(), Error>(Error::NonZeroPadding)
            }),
    {
        let ghost k = (8 - old(self).bit_pos() % 8) % 8;
        let ghost u0 = old(self).unread();
        proof {
            assert(k == old(self).remaining_bits);
            old(self).lemma_unread_len();
        }
        while 0 != self.position()
            invariant
                self.wf(),
                self.input() == old(self).input(),
                self.recorded() is None,
                k == old(self).remaining_bits,
                k == (8 - old(self).bit_pos() % 8) % 8,
                k <= old(self).unread().len(),
                u0 == old(self).unread(),
                self.bit_pos() >= old(self).bit_pos(),
                self.bit_pos() <= old(self).bit_pos() + k,
                self.remaining_bits == old(self).bit_pos() + k - self.bit_pos(),
                self.pos == old(self).pos || k == 0,
                forall|i: int| 0 <= i < self.bit_pos() - old(self).bit_pos() ==> !u0[i],
            decreases self.remaining_bits,
        {
            let ghost before = self.bit_pos();
            let b = self.read_bit();
            match b {
                Ok(bit) => {
                    proof {
                        assert(bit == u0[before - old(self).bit_pos()]);
                    }
                    if bit {
                        proof {
                            assert(before - old(self).bit_pos() < k);
                            assert(old(self).unread()[before - old(self).bit_pos()]);
                        }
                        return Err(Error::NonZeroPadding);
                    }
                },
                Err(e) => {
                    return Err(e);
                },
            }
        }
        Ok(())
    }

    /// Reads `bits` bits as a number, the first bit read being the least significant.
    pub fn read_part(&mut self, bits: u8) -> (r: Result<u16, Error>)
        requires
            old(self).wf(),
            bits <= 16,
        ensures
            final(self).wf(),
            final(self).input() == old(self).input(),
            old(self).recorded() is None ==> final(self).recorded() is None,
            match r {
                Ok(v) => {
                    &&& old(self).unread().len() >= bits
                    &&& v == bits_value(old(self).unread().take(bits as int))
                    &&& final(self).bit_pos() == old(self).bit_pos() + bits
                },
                Err(e) => e == Error::UnexpectedEof && old(self).unread().len() < bits,
            },
    {
        let ghost rem0 = self.unread();
        let mut res = 0u16;
        let mut i: u8 = 0;
        while i < bits
            invariant
                self.wf(),
                self.input() == old(self).input(),
                old(self).recorded() is None ==> self.recorded() is None,
                rem0 == old(self).unread(),
                bits <= 16,
                i <= bits,
                rem0.len() >= i,
                self.bit_pos() == old(self).bit_pos() + i,
                res == bits_value(rem0.take(i as int)),
            decreases bits - i,
        {
            proof {
                self.lemma_unread_len();
            }
            let b = self.read_bit();
            match b {
                Ok(b) => {
                    proof {
                        assert(self.unread() =~= rem0.skip(i + 1)) by {
                            assert(old(self).unread() =~= bits_of_bytes(self.input()).skip(old(self).bit_pos() as int));
                        }
                        assert(b == rem0[i as int]) by {
                            assert(rem0[i as int] == bits_of_bytes(self.input())[old(self).bit_pos() + i]);
                        }
                        assert(rem0.take(i + 1) =~= rem0.take(i as int).push(b));
                        lemma_bits_value_push(rem0.take(i as int), b);
                        lemma_bits_value_bound(rem0.take(i as int));
                        lemma_one_shl(i as u16);
                    }
                    if b {
                        let ghost r0 = res;
                        res |= 1u16 << (i as u16);
                        proof {
                            let iu = i as u16;
                            assert(r0 < (1u16 << iu) ==> r0 | (1u16 << iu) == r0 + (1u16 << iu))
                                by (bit_vector)
                                requires
                                    iu < 16,
                            ;
                        }
                    }
                },
                Err(e) => {
                    proof {
                        self.lemma_unread_len();
                    }
                    return Err(e);
                },
            }
            i = i + 1;
        }
        Ok(res)
    }
}


impl BitReader {
    fn read_aligned_u16(&mut self) -> (r: Result<u16, Error>)
        requires
            old(self).wf(),
            old(self).aligned(),
            old(self).recorded() is None,
        ensures
            final(self).wf(),
            final(self).input() == old(self).input(),
            final(self).recorded() is None,
            ({
                let p = (old(self).bit_pos() / 8) as int;
                let n = old(self).input().len();
                match r {
                    Ok(v) => {
                        &&& p + 2 <= n
                        &&& v == le_u16(old(self).input()[p as int], old(self).input()[p + 1])
                        &&& final(self).bit_pos() == old(self).bit_pos() + 16
                    },
                    Err(e) => e == Error::UnexpectedEof && p + 2 > n && *final(self) == *old(self),
                }
            }),
    {
        if self.inner.len() - self.pos < 2 {
            return Err(Error::UnexpectedEof);
        }
        let b0 = self.inner[self.pos];
        let b1 = self.inner[self.pos + 1];
        self.pos += 2;
        Ok((u16::from(b1) << 8) | u16::from(b0))
    }

    /// Reads a stored block: a little-endian length, its one's complement, then that many bytes.
    pub fn read_length_prefixed(&mut self) -> (r: Result<Vec<u8>, Error>)
        requires
            old(self).wf(),
            old(self).aligned(),
            old(self).recorded() is None,
        ensures
            final(self).wf(),
            final(self).input() == old(self).input(),
            final(self).recorded() is None,
            ({
                let inp = old(self).input();
                let p = (old(self).bit_pos() / 8) as int;
                let n = inp.len() as int;
                let len = le_u16(inp[p], inp[p + 1]);
                let check = le_u16(inp[p + 2], inp[p + 3]);
                &&& r is Ok <==> (p + 4 <= n && len ^ 0xffffu16 == check && p + 4 + len <= n)
                &&& r matches Ok(buf) ==> {
                    &&& buf@ == inp.subrange(p + 4, p + 4 + len)
                    &&& final(self).bit_pos() == (p + 4 + len) * 8
                }
                &&& r == Err::<Vec<u8>, Error>(Error::LengthCheckFailed) <==> (p + 4 <= n && len ^ 0xffffu16 != check)
                &&& r == Err::<Vec<u8>, Error>(Error::UnexpectedEof) <==> (p + 4 > n || (len ^ 0xffffu16 == check
                    && p + 4 + len > n))
            }),
    {
        let len = self.read_aligned_u16()?;
        let ones_complement = self.read_aligned_u16()?;

        if (len ^ 0xFFFF) != ones_complement {
            return Err(Error::LengthCheckFailed);
        }

        let want = len as usize;
        if self.inner.len() - self.pos < want {
            return Err(Error::UnexpectedEof);
        }
        let mut buf: Vec<u8> = Vec::new();
        let start = self.pos;
        let mut i: usize = 0;
        while i < want
            invariant
                self.wf(),
                self.input() == old(self).input(),
                self.recorded() is None,
                self.remaining_bits == 0,
                start == self.pos,
                start + want <= self.inner.len(),
                i <= want,
                buf@ == self.inner@.subrange(start as int, start + i),
            decreases want - i,
        {
            buf.push(self.inner[start + i]);
            i += 1;
            proof {
                assert(buf@ =~= self.inner@.subrange(start as int, start + i));
            }
        }
        self.pos = start + want;
        Ok(buf)
    }

    pub fn tracking_start(&mut self)
        requires
            old(self).wf(),
            old(self).recorded() is None,
        ensures
            final(self).wf(),
            final(self).input() == old(self).input(),
            final(self).bit_pos() == old(self).bit_pos(),
            final(self).recorded() == Some(Seq::<bool>::empty()),
            final(self).track_origin() == old(self).bit_pos(),
    {
        self.track = Some(BitVec::new());
        self.track_from = Ghost(self.bit_pos());
        proof {
            assert(bits_of_bytes(self.inner@).subrange(self.track_from@ as int, self.bit_pos() as int)
                =~= Seq::<bool>::empty());
        }
    }

    /// Stops tracking, dropping what was recorded.
    pub fn tracking_abort(&mut self)
        requires
            old(self).wf(),
        ensures
            final(self).wf(),
            final(self).input() == old(self).input(),
            final(self).bit_pos() == old(self).bit_pos(),
            final(self).recorded() is None,
    {
        self.track = None;
    }

    pub fn tracking_finish(&mut self) -> (r: BitVec)
        requires
            old(self).wf(),
            old(self).recorded() is Some,
        ensures
            final(self).wf(),
            final(self).input() == old(self).input(),
            final(self).bit_pos() == old(self).bit_pos(),
            final(self).recorded() is None,
            r.wf(),
            r.clean(),
            Some(r@) == old(self).recorded(),
    {
        self.track.take().unwrap()
    }

    /// Hands back what has not been read yet.
    pub fn into_inner(self) -> (r: Vec<u8>)
        requires
            self.wf(),
            self.recorded() is None,
            self.aligned(),
        ensures
            r@ == self.input().skip((self.bit_pos() / 8) as int),
            bits_of_bytes(r@) == self.unread(),
    {
        let mut inner = self.inner;
        let r = inner.split_off(self.pos);
        proof {
            assert(r@ =~= self.input().skip((self.bit_pos() / 8) as int));
            lemma_bits_of_bytes_skip(self.inner@, self.pos as int);
        }
        r
    }
}

/// A 16-bit number stored low byte first.
pub open spec fn le_u16(b0: u8, b1: u8) -> u16 {
    ((b1 as u16) << 8u16) | (b0 as u16)
}

impl BitSource for BitReader {
    open spec fn all_bits(&self) -> Seq<bool> {
        bits_of_bytes(self.input())
    }

    open spec fn consumed(&self) -> nat {
        self.bit_pos()
    }

    open spec fn errors_at_end(&self) -> bool {
        true
    }

    open spec fn mark(&self) -> int {
        if self.recorded() is Some {
            self.track_origin() as int
        } else {
            -1
        }
    }

    open spec fn inv(&self) -> bool {
        self.wf()
    }

    proof fn lemma_inv(&self) {
    }

    fn read_bit(&mut self) -> (r: Result<bool, Error>) {
        BitReader::read_bit(self)
    }
}

impl<'a> BitSource for StackIterator<'a> {
    closed spec fn all_bits(&self) -> Seq<bool> {
        self.inner@
    }

    closed spec fn consumed(&self) -> nat {
        self.pos as nat
    }

    closed spec fn errors_at_end(&self) -> bool {
        false
    }

    closed spec fn mark(&self) -> int {
        0
    }

    closed spec fn inv(&self) -> bool {
        self.wf()
    }

    proof fn lemma_inv(&self) {
    }

    fn read_bit(&mut self) -> (r: Result<bool, Error>) {
        Ok(self.next().unwrap())
    }
}

/// Writes bits into a byte stream, least significant bit of each byte first.
pub struct BitWriter {
    inner: Vec<u8>,
    current: BitVec,
}

impl BitWriter {
    pub closed spec fn wf(&self) -> bool {
        self.current.wf() && self.current.clean() && self.current@.len() < 8
    }

    /// The bytes completed so far.
    pub closed spec fn output(&self) -> Seq<u8> {
        self.inner@
    }

    /// The bits of the byte being filled.
    pub closed spec fn pending(&self) -> Seq<bool> {
        self.current@
    }

    /// Everything written so far, as bits.
    pub open spec fn written(&self) -> Seq<bool> {
        bits_of_bytes(self.output()) + self.pending()
    }

    pub proof fn lemma_pending_len(&self)
        requires
            self.wf(),
        ensures
            self.pending().len() < 8,
            self.written().len() % 8 == self.pending().len(),
    {
        assert(bits_of_bytes(self.output()).len() == self.output().len() * 8);
    }

    pub fn new(inner: Vec<u8>) -> (r: Self)
        ensures
            r.wf(),
            r.output() == inner@,
            r.pending() == Seq::<bool>::empty(),
    {
        BitWriter { inner, current: BitVec::new() }
    }

    pub fn write_bit(&mut self, bit: bool) -> (r: Result<(), Error>)
        requires
            old(self).wf(),
        ensures
            final(self).wf(),
            r is Ok,
            final(self).written() == old(self).written().push(bit),
    {
        self.current.push(bit);
        if self.current.len() >= 8 {
            let ghost cur = self.current@;
            let b = self.current.pop_byte().unwrap();
            proof {
                lemma_bits_of_bytes_push(self.inner@, b);
                assert(cur.subrange(0, 8) =~= cur);
            }
            self.inner.push(b);
            proof {
                assert(self.written() =~= old(self).written().push(bit));
            }
        } else {
            proof {
                assert(self.written() =~= old(self).written().push(bit));
            }
        }
        Ok(())
    }

    /// Writes the lowest `bits` bits of `val`, least significant first.
    pub fn write_bits_val(&mut self, bits: u8, val: u16) -> (r: Result<(), Error>)
        requires
            old(self).wf(),
            bits <= 16,
        ensures
            final(self).wf(),
            r is Ok,
            final(self).written() == old(self).written() + low_bits(val, bits as nat),
    {
        let mut i: u8 = 0;
        while i < bits
            invariant
                self.wf(),
                i <= bits,
                bits <= 16,
                self.written() == old(self).written() + low_bits(val, i as nat),
            decreases bits - i,
        {
            let iu = i as u16;
            let bit = (val & (1u16 << iu)) != 0;
            proof {
                assert(((val & (1u16 << iu)) != 0u16) == ((val >> iu) & 1u16 == 1u16)) by (bit_vector)
                    requires
                        iu < 16,
                ;
                assert(low_bits(val, (i + 1) as nat) =~= low_bits(val, i as nat).push(bit));
            }
            self.write_bit(bit)?;
            i += 1;
        }
        Ok(())
    }

    /// Pads with clear bits to the next byte boundary.
    #[verifier::spinoff_prover]
    #[verifier::rlimit(30)]
    pub fn align(&mut self) -> (r: Result<(), Error>)
        requires
            old(self).wf(),
        ensures
            final(self).wf(),
            r is Ok,
            final(self).pending().len() == 0,
            final(self).written() == old(self).written() + zeros(((8 - old(self).pending().len()) % 8) as nat),
    {
        let ghost k = ((8 - old(self).pending().len()) % 8) as nat;
        let mut n: usize = 0;
        while !self.current.is_empty()
            invariant
                self.wf(),
                n <= 8,
                self.written() == old(self).written() + zeros(n as nat),
                old(self).pending().len() == 0 ==> n == 0,
                old(self).pending().len() > 0 ==> self.pending().len() == old(self).pending().len() + n
                    || (self.pending().len() == 0 && old(self).pending().len() + n == 8),
            decreases 8 - n,
        {
            proof {
                assert(zeros((n + 1) as nat) =~= zeros(n as nat).push(false));
            }
            self.write_bit(false)?;
            n += 1;
            proof {
                self.lemma_pending_len();
            }
        }
        proof {
            old(self).lemma_pending_len();
            assert(n as nat == k);
        }
        Ok(())
    }

    pub fn write_vec(&mut self, vec: &BitVec) -> (r: Result<(), Error>)
        requires
            old(self).wf(),
            vec.wf(),
        ensures
            final(self).wf(),
            r is Ok,
            final(self).written() == old(self).written() + vec@,
    {
        let n = vec.len();
        let mut i: usize = 0;
        while i < n
            invariant
                self.wf(),
                vec.wf(),
                n == vec@.len(),
                i <= n,
                self.written() == old(self).written() + vec@.take(i as int),
            decreases n - i,
        {
            let bit = vec.get(i);
            proof {
                assert(vec@.take(i + 1) =~= vec@.take(i as int).push(bit));
            }
            self.write_bit(bit)?;
            i += 1;
        }
        proof {
            assert(vec@.take(n as int) =~= vec@);
        }
        Ok(())
    }

    /// Aligns, then writes a stored block: its length and that length's one's complement,
    /// each low byte first, then the data.
    pub fn write_length_prefixed(&mut self, data: &[u8]) -> (r: Result<(), Error>)
        requires
            old(self).wf(),
        ensures
            final(self).wf(),
            final(self).pending().len() == 0,
            r is Ok <==> data@.len() <= u16::MAX,
            r is Err ==> r == Err::<(), Error>(Error::DataTooLong),
            ({
                let aligned = old(self).written() + zeros(((8 - old(self).pending().len()) % 8) as nat);
                &&& r is Ok ==> final(self).written() == aligned + bits_of_bytes(stored_header(data@) + data@)
                &&& r is Err ==> final(self).written() == aligned
            }),
    {
        self.align()?;
        if data.len() > u16::MAX as usize {
            return Err(Error::DataTooLong);
        }
        let ghost before = self.output();
        let len = data.len() as u16;
        self.write_aligned_u16(len)?;
        self.write_aligned_u16(((data.len() ^ 0xFFFF) as u16))?;
        proof {
            let l = data.len();
            assert((l ^ 0xffffusize) as u16 == (l as u16) ^ 0xffffu16) by (bit_vector)
                requires
                    l <= 0xffffusize,
            ;
        }
        self.inner.extend_from_slice(data);
        proof {
            let nlen = len ^ 0xffffu16;
            let hdr = seq![len as u8, (len >> 8u16) as u8, nlen as u8, (nlen >> 8u16) as u8];
            assert(self.output() =~= before + (hdr + data@));
            lemma_bits_of_bytes_add(before, hdr + data@);
        }
        Ok(())
    }

    /// Writes a 16-bit number as whole bytes, low byte first, ahead of any pending bits.
    pub fn write_aligned_u16(&mut self, val: u16) -> (r: Result<(), Error>)
        requires
            old(self).wf(),
        ensures
            final(self).wf(),
            r is Ok,
            final(self).output() == old(self).output() + seq![val as u8, (val >> 8u16) as u8],
            final(self).pending() == old(self).pending(),
    {
        self.inner.push(val as u8);
        self.inner.push((val >> 8) as u8);
        proof {
            assert(self.output() =~= old(self).output() + seq![val as u8, (val >> 8u16) as u8]);
        }
        Ok(())
    }

    /// Hands back the bytes written.
    pub fn into_inner(self) -> (r: Vec<u8>)
        requires
            self.wf(),
            self.pending().len() == 0,
        ensures
            r@ == self.output(),
            bits_of_bytes(r@) == self.written(),
    {
        proof {
            assert(self.written() =~= bits_of_bytes(self.output()));
        }
        self.inner
    }
}


/// Passes bits through from another source, keeping a copy of each.
pub struct BitCollector<'a, B: BitSource> {
    inner: &'a mut B,
    data: BitVec,
    start: Ghost<Seq<bool>>,
}

impl<'a, B: BitSource> BitCollector<'a, B> {
    pub closed spec fn wf(&self) -> bool {
        &&& self.inner.inv()
        &&& self.data.wf()
        &&& self.data.clean()
        &&& self.start@ == self.data@ + remaining(self.inner)
        &&& self.start@.len() < usize::MAX
    }

    /// What the inner source held when collecting started.
    pub closed spec fn start(&self) -> Seq<bool> {
        self.start@
    }

    /// The bits collected so far.
    pub closed spec fn collected(&self) -> Seq<bool> {
        self.data@
    }

    pub fn new(inner: &'a mut B) -> (r: Self)
        requires
            old(inner).inv(),
            old(inner).all_bits().len() < usize::MAX,
        ensures
            r.wf(),
            r.start() == remaining(old(inner)),
            r.collected() == Seq::<bool>::empty(),
    {
        proof {
            inner.lemma_inv();
        }
        let ghost start = remaining(inner);
        let r = BitCollector { inner, data: BitVec::new(), start: Ghost(start) };
        proof {
            assert(r.data@ + remaining(r.inner) =~= start);
        }
        r
    }

    pub fn into_data(self) -> (r: BitVec)
        requires
            self.wf(),
        ensures
            r.wf(),
            r.clean(),
            r@ == self.collected(),
    {
        self.data
    }
}

impl<'a, B: BitSource> BitSource for BitCollector<'a, B> {
    closed spec fn all_bits(&self) -> Seq<bool> {
        self.start@
    }

    closed spec fn consumed(&self) -> nat {
        self.data@.len()
    }

    closed spec fn errors_at_end(&self) -> bool {
        self.inner.errors_at_end()
    }

    closed spec fn mark(&self) -> int {
        0
    }

    closed spec fn inv(&self) -> bool {
        self.wf()
    }

    proof fn lemma_inv(&self) {
    }

    fn read_bit(&mut self) -> (r: Result<bool, Error>) {
        proof {
            self.inner.lemma_inv();
            assert(remaining(self.inner).len() == self.start@.len() - self.data@.len());
        }
        let bit = self.inner.read_bit()?;
        self.data.push(bit);
        proof {
            assert(self.start@ =~= self.data@ + remaining(self.inner));
        }
        Ok(bit)
    }
}


impl Clone for BitVec {
    fn clone(&self) -> (r: Self)
        ensures
            r@ == self@,
            r.wf() == self.wf(),
            r.clean() == self.clean(),
            r.raw_bytes() == self.raw_bytes(),
    {
        let bytes = self.bytes.clone();
        proof {
            assert(bytes@ =~= self.bytes@);
        }
        BitVec { bytes, len: self.len }
    }
}

impl BitVec {
    fn raw_byte(&self, w: usize) -> (r: u8)
        requires
            w < self.raw_bytes().len(),
        ensures
            r == self.raw_bytes()[w as int],
    {
        self.bytes[w]
    }

    fn raw_byte_count(&self) -> (r: usize)
        ensures
            r == self.raw_bytes().len(),
    {
        self.bytes.len()
    }
}

/// Packs the bits into bytes, least significant bit first, padding the last byte with
/// whatever is stored past the end, and closing with one more zero byte.
pub fn vec_to_bytes(vec: &BitVec) -> (r: Vec<u8>)
    requires
        vec.wf(),
    ensures
        r@ == vec.raw_bytes().push(0u8),
        r@.len() == (vec@.len() + 7) / 8 + 1,
        bits_of_bytes(r@).take(vec@.len() as int) == vec@,
        vec.clean() ==> bits_of_bytes(r@) == vec@ + zeros((r@.len() * 8 - vec@.len()) as nat),
{
    let n = vec.raw_byte_count();
    let mut ret: Vec<u8> = Vec::new();
    let mut w: usize = 0;
    while w < n
        invariant
            n == vec.raw_bytes().len(),
            w <= n,
            ret@ == vec.raw_bytes().take(w as int),
        decreases n - w,
    {
        let byte = vec.raw_byte(w);
        let mut val = 0u8;
        let mut i: u8 = 0;
        proof {
            assert forall|j: u8| j < 8 implies !byte_bit(0u8, j) by {
                lemma_zero_bits(j);
            }
        }
        while i < 8
            invariant
                i <= 8,
                forall|j: u8| #![trigger byte_bit(val, j)] j < 8 ==> byte_bit(val, j) == (j < i && byte_bit(byte, j)),
            decreases 8 - i,
        {
            let set = (byte >> i) & 1 == 1;
            if set {
                let ghost v0 = val;
                val |= 1u8 << i;
                proof {
                    assert forall|j: u8| j < 8 implies byte_bit(val, j) == (j < i + 1 && byte_bit(byte, j)) by {
                        lemma_or_bit(v0, i, j);
                    }
                }
            }
            i += 1;
        }
        proof {
            lemma_byte_from_bits(val, byte);
        }
        ret.push(val);
        w += 1;
        proof {
            assert(ret@ =~= vec.raw_bytes().take(w as int));
        }
    }
    ret.push(0);
    proof {
        assert(vec.raw_bytes().take(n as int) =~= vec.raw_bytes());
        lemma_bits_of_bytes_push(vec.raw_bytes(), 0u8);
        assert forall|j: u8| j < 8 implies !byte_bit(0u8, j) by {
            lemma_zero_bits(j);
        }
        assert(bits_of_bytes(ret@).take(vec@.len() as int) =~= vec@);
        if vec.clean() {
            assert(bits_of_bytes(ret@) =~= vec@ + zeros((ret@.len() * 8 - vec@.len()) as nat));
        }
    }
    ret
}


/// How a `BitReader` looks through the `BitSource` interface.
pub proof fn lemma_reader_source(r: &BitReader)
    requires
        r.wf(),
    ensures
        r.inv(),
        r.all_bits() == bits_of_bytes(r.input()),
        r.consumed() == r.bit_pos(),
        remaining(r) == r.unread(),
        r.errors_at_end(),
        r.mark() == if r.recorded() is Some { r.track_origin() as int } else { -1 },
        r.consumed() <= r.all_bits().len(),
        r.recorded() matches Some(t) ==> r.track_origin() <= r.bit_pos() && t == r.all_bits().subrange(
            r.track_origin() as int,
            r.bit_pos() as int,
        ),
{
}

/// How a `StackIterator` looks through the `BitSource` interface.
pub proof fn lemma_stack_source(it: &StackIterator)
    requires
        it.wf(),
    ensures
        it.inv(),
        it.all_bits() == it.source(),
        it.consumed() == it.position(),
        !it.errors_at_end(),
{
}

/// Bits written one at a time: a writer whose bits written so far are `bits` (as `new` over no
/// bytes, then `write_bit` of each in turn, leaves it) has handed on one byte for each eight
/// of them, bit `i` of byte `j` being bit `8 * j + i` (the first written is the least
/// significant), and holds back the last `bits.len() % 8`.
pub proof fn lemma_write_bits_bytes(bits: Seq<bool>, w: &BitWriter)
    requires
        w.wf(),
        w.written() == bits,
    ensures
        w.output().len() == bits.len() / 8,
        w.pending() == bits.skip(8 * (bits.len() / 8) as int),
        w.pending().len() == bits.len() % 8,
        forall|j: int|
            0 <= j < w.output().len() ==> bits_of_byte(#[trigger] w.output()[j]) == bits.subrange(8 * j, 8 * j + 8),
        forall|j: int, i: int|
            0 <= j < w.output().len() && 0 <= i < 8 ==> byte_bit(#[trigger] w.output()[j], i as u8) == #[trigger] bits[8
                * j + i],
{
    w.lemma_pending_len();
    let out = w.output();
    assert(w.pending() =~= bits.skip(8 * (bits.len() / 8) as int));
    assert forall|j: int, i: int| 0 <= j < out.len() && 0 <= i < 8 implies byte_bit(#[trigger] out[j], i as u8)
        == #[trigger] bits[8 * j + i] by {
        assert(bits[8 * j + i] == bits_of_bytes(out)[8 * j + i]);
        assert((8 * j + i) / 8 == j);
        assert((8 * j + i) % 8 == i);
    }
    assert forall|j: int| 0 <= j < out.len() implies bits_of_byte(#[trigger] out[j]) == bits.subrange(8 * j, 8 * j + 8) by {
        assert forall|i: int| 0 <= i < 8 implies bits_of_byte(out[j])[i] == bits.subrange(8 * j, 8 * j + 8)[i] by {
            assert(bits[8 * j + i] == bits_of_bytes(out)[8 * j + i]);
            assert((8 * j + i) / 8 == j);
            assert((8 * j + i) % 8 == i);
        }
        assert(bits_of_byte(out[j]) =~= bits.subrange(8 * j, 8 * j + 8));
    }
}

/// Bits written one at a time and filling whole bytes read back one at a time, in the same
/// order: a reader at the start of the writer's bytes holds exactly those bits, so its
/// `read_bit` gives `bits[0]`, `bits[1]`, ... in turn, and once they are all read, an error.
pub proof fn lemma_write_bits_read_back(bits: Seq<bool>, w: &BitWriter, r: &BitReader)
    requires
        bits.len() % 8 == 0,
        w.wf(),
        w.written() == bits,
        r.input() == w.output(),
        r.bit_pos() == 0,
    ensures
        w.pending().len() == 0,
        r.consumed() == 0,
        r.all_bits() == bits,
        r.all_bits().len() == bits.len(),
{
    w.lemma_pending_len();
    assert(w.written() =~= bits_of_bytes(w.output()));
}

/// A value written as its lowest `n` bits by `write_bits_val` into a fresh writer, then padded
/// by `align`, reads back with `read_part(n)` from the start of the bytes: the first `n` bits
/// are there, and they make the value's lowest `n` bits, bit `i` being bit `i` of the value.
pub proof fn lemma_write_value_read_back(n: u8, v: u16, w: &BitWriter, r: &BitReader)
    requires
        n <= 16,
        w.wf(),
        w.pending().len() == 0,
        w.written() == low_bits(v, n as nat) + zeros(((8 - n % 8) % 8) as nat),
        r.input() == w.output(),
        r.bit_pos() == 0,
    ensures
        r.consumed() + n <= r.all_bits().len(),
        bits_value(r.all_bits().subrange(0, n as int)) == v as nat % pow2(n as nat),
        forall|i: int| 0 <= i < n ==> #[trigger] r.all_bits()[i] == ((v >> (i as u16)) & 1u16 == 1u16),
{
    assert(w.written() =~= bits_of_bytes(w.output()));
    assert(r.all_bits().subrange(0, n as int) =~= low_bits(v, n as nat));
    lemma_bits_value_low_bits(v, n as nat);
}

/// The header `write_length_prefixed` writes for `data`: its length and that length's one's
/// complement, each low byte first.
pub open spec fn stored_header(data: Seq<u8>) -> Seq<u8> {
    let len = data.len() as u16;
    let nlen = len ^ 0xffffu16;
    seq![len as u8, (len >> 8u16) as u8, nlen as u8, (nlen >> 8u16) as u8]
}

/// What `write_length_prefixed` writes reads back with `read_length_prefixed` from the first
/// byte after its padding: the length read is the data's, its check matches, and the bytes
/// after them are the data, so the read gives the data back.
pub proof fn lemma_stored_read_back(data: Seq<u8>, before: Seq<bool>, w: &BitWriter, r: &BitReader)
    requires
        data.len() <= 0xffff,
        before.len() % 8 == 0,
        w.wf(),
        w.pending().len() == 0,
        w.written() == before + bits_of_bytes(stored_header(data) + data),
        r.input() == w.output(),
        r.bit_pos() == before.len(),
    ensures
        r.aligned(),
        ({
            let inp = r.input();
            let p = (r.bit_pos() / 8) as int;
            let len = le_u16(inp[p], inp[p + 1]);
            &&& p + 4 <= inp.len()
            &&& len == data.len()
            &&& le_u16(inp[p + 2], inp[p + 3]) == len ^ 0xffffu16
            &&& p + 4 + len <= inp.len()
            &&& inp.subrange(p + 4, p + 4 + len) == data
        }),
{
    let out = w.output();
    let p: int = (before.len() / 8) as int;
    let body = stored_header(data) + data;
    assert(bits_of_bytes(out) =~= w.written());
    assert(out.len() * 8 == before.len() + body.len() * 8);
    assert(out =~= out.take(p as int) + out.skip(p as int));
    lemma_bits_of_bytes_add(out.take(p as int), out.skip(p as int));
    assert(bits_of_bytes(out.take(p as int)).len() == before.len());
    assert(bits_of_bytes(out.skip(p as int)) =~= bits_of_bytes(out).skip(before.len() as int));
    assert(bits_of_bytes(out).skip(before.len() as int) =~= bits_of_bytes(body));
    lemma_bits_of_bytes_injective(out.skip(p as int), body);
    let len = data.len() as u16;
    let nlen = len ^ 0xffffu16;
    assert(out[p] == len as u8 && out[p + 1] == (len >> 8u16) as u8);
    assert(out[p + 2] == nlen as u8 && out[p + 3] == (nlen >> 8u16) as u8);
    assert(le_u16(len as u8, (len >> 8u16) as u8) == len && le_u16(nlen as u8, (nlen >> 8u16) as u8) == nlen)
        by (bit_vector);
    assert(out.subrange(p + 4, p + 4 + len) =~= data) by {
        assert forall|i: int| 0 <= i < data.len() implies out.subrange(p + 4, p + 4 + len)[i] == data[i] by {
            assert(out.skip(p as int)[4 + i] == body[4 + i]);
        }
    }
}

/// A value written as its lowest `n` bits and read back from the same place gives those bits
/// of the value, whatever comes before and after.
pub proof fn lemma_value_reads_back(before: Seq<bool>, v: u16, n: nat, after: Seq<bool>)
    requires
        n <= 16,
    ensures
        bits_value((before + low_bits(v, n) + after).subrange(before.len() as int, (before.len() + n) as int)) == v as nat
            % pow2(n),
{
    assert((before + low_bits(v, n) + after).subrange(before.len() as int, (before.len() + n) as int) =~= low_bits(v, n));
    lemma_bits_value_low_bits(v, n);
}

} // verus!
