use std::collections::HashMap;

use vstd::prelude::*;

use crate::usize_from;
use crate::u16_from;
use crate::Code;
use crate::Ref;
use crate::spec_run;

verus! {

/// Three bytes that start a possible back-reference.
#[derive(Copy, Clone, Debug, PartialEq, Eq, Hash)]
pub struct Key {
    b0: u8,
    b1: u8,
    b2: u8,
}

/// What `Key::sixteen_hash_16` computes: each byte shifted in five bits at a time, in a
/// 16-bit register, keeping the low fifteen bits.
pub open spec fn spec_sixteen_hash_16(b0: u8, b1: u8, b2: u8) -> u16 {
    (((((b0 as u16) << 5u16) ^ (b1 as u16)) << 5u16) ^ (b2 as u16)) & 0x7fffu16
}

impl Key {
    pub closed spec fn bytes(&self) -> (u8, u8, u8) {
        (self.b0, self.b1, self.b2)
    }

    /// The hash of three bytes that gzip keeps its chains under.
    pub fn sixteen_hash_16(&self) -> (r: u16)
        ensures
            r == spec_sixteen_hash_16(self.bytes().0, self.bytes().1, self.bytes().2),
            r < 0x8000,
    {
        let mut hash = 0u16;

        hash ^= self.b0 as u16;
        hash <<= 5;
        hash ^= self.b1 as u16;
        hash <<= 5;
        hash ^= self.b2 as u16;

        hash &= 0x7fff;
        let (b0, b1, b2) = (self.b0, self.b1, self.b2);
        proof {
            assert((0u16 ^ (b0 as u16)) == (b0 as u16)) by (bit_vector);
            assert(((((((b0 as u16) << 5u16) ^ (b1 as u16)) << 5u16) ^ (b2 as u16)) & 0x7fffu16)
                < 0x8000) by (bit_vector);
        }
        hash
    }

    pub fn as_array(&self) -> (r: [u8; 3])
        ensures
            r@ == seq![self.bytes().0, self.bytes().1, self.bytes().2],
    {
        let r = [self.b0, self.b1, self.b2];
        assert(r@ =~= seq![self.b0, self.b1, self.b2]);
        r
    }
}

impl From<(u8, u8, u8)> for Key {
    fn from(tuple: (u8, u8, u8)) -> (r: Self) {
        Key { b0: tuple.0, b1: tuple.1, b2: tuple.2 }
    }
}

impl vstd::std_specs::convert::FromSpecImpl<(u8, u8, u8)> for Key {
    open spec fn obeys_from_spec() -> bool {
        true
    }

    closed spec fn from_spec(v: (u8, u8, u8)) -> Self {
        Key { b0: v.0, b1: v.1, b2: v.2 }
    }
}

/// A key made from three bytes holds them.
pub proof fn lemma_key_from(v: (u8, u8, u8))
    ensures
        <Key as vstd::std_specs::convert::FromSpec<(u8, u8, u8)>>::from_spec(v).bytes() == v,
{
}

/// The key made of the first three bytes.
pub fn key_from_bytes(from: &[u8]) -> (r: Key)
    requires
        from@.len() >= 3,
    ensures
        r.bytes() == (from@[0], from@[1], from@[2]),
{
    Key { b0: from[0], b1: from[1], b2: from[2] }
}

/// A byte that prints as itself: a visible ASCII character.
pub fn normal_char(c: u8) -> (r: bool)
    ensures
        r == (0x21 <= c <= 0x7e),
{
    // '0'..='9', 'A'..='Z', 'a'..='z'
    let alphanumeric = (0x30 <= c && c <= 0x39) || (0x41 <= c && c <= 0x5a) || (0x61 <= c && c
        <= 0x7a);
    // '!'..='~'
    let graphic = 0x21 <= c && c <= 0x7e;
    // '!'..='/', ':'..='@', '['..='`', '{'..='~'
    let punctuation = (0x21 <= c && c <= 0x2f) || (0x3a <= c && c <= 0x40) || (0x5b <= c && c
        <= 0x60) || (0x7b <= c && c <= 0x7e);
    alphanumeric || graphic || punctuation
}

/// Each item is larger than the one before it.
pub open spec fn strictly_increasing(s: Seq<usize>) -> bool {
    forall|i: int, j: int| 0 <= i < j < s.len() ==> s[i] < s[j]
}

/// `<[usize]>::binary_search`. Its documentation says that on a sorted slice it returns
/// `Ok` with the index of an item equal to the one sought, or `Err` with the index at which
/// that item could be inserted keeping the order; with no two items equal, that index is
/// the number of items that are smaller.
#[verifier::external_body]
fn search_sorted(items: &[usize], x: &usize) -> (r: Result<usize, usize>)
    requires
        strictly_increasing(items@),
    ensures
        match r {
            Ok(i) => i < items@.len() && items@[i as int] == *x,
            Err(i) => i <= items@.len() && (forall|j: int| 0 <= j < i ==> items@[j] < *x) && (
            forall|j: int| i <= j < items@.len() ==> items@[j] > *x),
        },
{
    items.binary_search(x)
}

/// The items of a sorted slice that lie between `start` and `end`, both included.
pub fn sub_range_inclusive(start: usize, end: usize, range: &[usize]) -> (r: &[usize])
    requires
        strictly_increasing(range@),
    ensures
        strictly_increasing(r@),
        forall|x: usize| #[trigger] r@.contains(x) <==> (range@.contains(x) && start <= x <= end),
{
    let n = range.len();
    let end_idx = match search_sorted(range, &end) {
        Ok(e) => e + 1,
        Err(e) => e,
    };
    let (low, _) = range.split_at(end_idx);
    assert(strictly_increasing(low@));
    let start_idx = match search_sorted(low, &start) {
        Ok(e) => e,
        Err(e) => e,
    };
    let (_, r) = low.split_at(start_idx);
    proof {
        assert(forall|j: int| 0 <= j < end_idx ==> range@[j] <= end);
        assert(forall|j: int| end_idx <= j < range@.len() ==> range@[j] > end);
        assert(forall|j: int| 0 <= j < start_idx ==> low@[j] < start);
        assert(forall|j: int| start_idx <= j < low@.len() ==> low@[j] >= start);
        assert forall|x: usize| #[trigger] r@.contains(x) <==> (range@.contains(x) && start <= x
            <= end) by {
            if r@.contains(x) {
                let j = choose|j: int| 0 <= j < r@.len() && r@[j] == x;
                assert(range@[start_idx + j] == x);
            }
            if range@.contains(x) && start <= x <= end {
                let j = choose|j: int| 0 <= j < range@.len() && range@[j] == x;
                assert(j < end_idx);
                assert(low@[j] == x);
                assert(j >= start_idx);
                assert(r@[j - start_idx] == x);
            }
        }
    }
    r
}

/// Three bytes packed into one number: the key that the map of positions is kept under.
pub open spec fn key3(a: u8, b: u8, c: u8) -> u32 {
    ((a as u32) << 16u32) | ((b as u32) << 8u32) | (c as u32)
}

/// The key of the three bytes starting at `p`.
pub open spec fn key_at(s: Seq<u8>, p: int) -> u32 {
    key3(s[p], s[p + 1], s[p + 2])
}

pub proof fn lemma_key3_injective(a: u8, b: u8, c: u8, x: u8, y: u8, z: u8)
    ensures
        key3(a, b, c) == key3(x, y, z) ==> a == x && b == y && c == z,
{
    assert(((a as u32) << 16u32) | ((b as u32) << 8u32) | (c as u32) == ((x as u32) << 16u32) | ((
    y as u32) << 8u32) | (z as u32) ==> a == x && b == y && c == z) by (bit_vector);
}

fn key_of(a: u8, b: u8, c: u8) -> (r: u32)
    ensures
        r == key3(a, b, c),
{
    ((a as u32) << 16) | ((b as u32) << 8) | (c as u32)
}

/// `v` lists, in increasing order, every position below `upto` whose three bytes have key `k`.
pub open spec fn positions_of(s: Seq<u8>, upto: int, k: u32, v: Seq<usize>) -> bool {
    &&& strictly_increasing(v)
    &&& forall|i: int| 0 <= i < v.len() ==> #[trigger] v[i] < upto && key_at(s, v[i] as int) == k
    &&& forall|p: int| 0 <= p < upto && #[trigger] key_at(s, p) == k ==> v.contains(p as usize)
}

/// The map holds, under each key that occurs below `upto`, where it occurs.
pub open spec fn map_of_positions(s: Seq<u8>, upto: int, m: Map<u32, Vec<usize>>) -> bool {
    &&& forall|k: u32| #[trigger] m.contains_key(k) ==> positions_of(s, upto, k, m[k]@)
    &&& forall|p: int| 0 <= p < upto ==> m.contains_key(#[trigger] key_at(s, p))
}

/// How many three-byte windows `s` has.
pub open spec fn windows(s: Seq<u8>) -> int {
    if s.len() >= 2 { s.len() - 2 } else { 0 }
}

/// Every position of `data`, under the key of the three bytes that start there.
fn whole_map(data: &[u8]) -> (r: HashMap<u32, Vec<usize>>)
    ensures
        map_of_positions(data@, windows(data@), r@),
{
    broadcast use vstd::std_specs::hash::group_hash_axioms;

    let mut map: HashMap<u32, Vec<usize>> = HashMap::with_capacity(32 * 1024);
    let n = data.len();
    if n < 3 {
        return map;
    }
    let mut pos: usize = 0;
    while pos < n - 2
        invariant
            n == data@.len(),
            n >= 3,
            pos <= n - 2,
            map_of_positions(data@, pos as int, map@),
        decreases n - 2 - pos,
    {
        let k = key_of(data[pos], data[pos + 1], data[pos + 2]);
        assert(k == key_at(data@, pos as int));
        let ghost old_map = map@;
        let ghost mut w: Seq<usize> = Seq::empty();
        match map.remove(&k) {
            Some(mut v) => {
                proof {
                    w = v@;
                }
                v.push(pos);
                map.insert(k, v);
            },
            None => {
                let mut v: Vec<usize> = Vec::new();
                v.push(pos);
                map.insert(k, v);
            },
        }
        proof {
            assert(map@.contains_key(k));
            let v = map@[k]@;
            assert(v == w.push(pos));
            assert(positions_of(data@, pos as int, k, w)) by {
                if !old_map.contains_key(k) {
                    assert forall|p: int| 0 <= p < pos && #[trigger] key_at(data@, p)
                        == k implies w.contains(p as usize) by {
                        assert(old_map.contains_key(key_at(data@, p)));
                    }
                }
            }
            assert(positions_of(data@, pos + 1, k, v)) by {
                assert forall|i: int, j: int| 0 <= i < j < v.len() implies v[i] < v[j] by {
                    if j == v.len() - 1 {
                        assert(w[i] < pos);
                    } else {
                        assert(w[i] < w[j]);
                    }
                }
                assert forall|i: int| 0 <= i < v.len() implies #[trigger] v[i] < pos + 1 && key_at(
                    data@,
                    v[i] as int,
                ) == k by {
                    if i < v.len() - 1 {
                        assert(v[i] == w[i]);
                    }
                }
                assert forall|p: int| 0 <= p < pos + 1 && #[trigger] key_at(data@, p)
                    == k implies v.contains(p as usize) by {
                    if p == pos {
                        assert(v[v.len() - 1] == p);
                    } else {
                        assert(w.contains(p as usize));
                        let j = choose|j: int| 0 <= j < w.len() && w[j] == p as usize;
                        assert(v[j] == p as usize);
                    }
                }
            }
            assert forall|k2: u32| #[trigger] map@.contains_key(k2) implies positions_of(
                data@,
                pos + 1,
                k2,
                map@[k2]@,
            ) by {
                if k2 != k {
                    assert(old_map.contains_key(k2));
                    assert(map@[k2] == old_map[k2]);
                    let u = old_map[k2]@;
                    assert(positions_of(data@, pos as int, k2, u));
                    assert forall|p: int| 0 <= p < pos + 1 && #[trigger] key_at(data@, p)
                        == k2 implies u.contains(p as usize) by {
                        assert(p != pos);
                    }
                }
            }
            assert forall|p: int| 0 <= p < pos + 1 implies map@.contains_key(
                #[trigger] key_at(data@, p),
            ) by {
                if p < pos {
                    assert(old_map.contains_key(key_at(data@, p)));
                }
            }
        }
        pos += 1;
    }
    map
}

/// How far the bytes at `pos` keep matching those `dist` back, counting on from `c`: the
/// first place below `limit` where they differ, or `limit`.
pub open spec fn match_len(s: Seq<u8>, pos: int, dist: int, limit: int, c: int) -> int
    decreases limit - c,
{
    if c >= limit {
        limit
    } else if s[pos + c] != s[pos + c - dist] {
        c
    } else {
        match_len(s, pos, dist, limit, c + 1)
    }
}

pub proof fn lemma_match_len_skip(s: Seq<u8>, pos: int, dist: int, limit: int, a: int, b: int)
    requires
        a <= b <= limit,
        forall|c: int| a <= c < b ==> #[trigger] s[pos + c] == s[pos + c - dist],
    ensures
        match_len(s, pos, dist, limit, a) == match_len(s, pos, dist, limit, b),
    decreases b - a,
{
    if a < b {
        lemma_match_len_skip(s, pos, dist, limit, a + 1, b);
    }
}

/// The byte at `c` is the one at `c` modulo `d`.
pub open spec fn repeats(u: Seq<u8>, d: int, c: int) -> bool {
    u[c] == u[c % d]
}

/// The longest run a reference at `pos` can have: 258, or what is left of the input.
pub open spec fn run_limit(s: Seq<u8>, pos: int) -> int {
    if s.len() - pos < 258 {
        s.len() - pos
    } else {
        258
    }
}

/// The positions in `lo..hi` whose three bytes have key `k`, nearest to `hi` first.
pub open spec fn offsets_down(s: Seq<u8>, k: u32, hi: int, lo: int) -> Seq<int>
    decreases hi - lo,
{
    if hi <= lo {
        Seq::empty()
    } else if key_at(s, hi - 1) == k {
        seq![hi - 1] + offsets_down(s, k, hi - 1, lo)
    } else {
        offsets_down(s, k, hi - 1, lo)
    }
}

proof fn lemma_offsets_concat(s: Seq<u8>, k: u32, hi: int, mid: int, lo: int)
    requires
        lo <= mid <= hi,
    ensures
        offsets_down(s, k, hi, lo) == offsets_down(s, k, hi, mid) + offsets_down(s, k, mid, lo),
    decreases hi - mid,
{
    if hi == mid {
        assert(offsets_down(s, k, hi, mid) =~= Seq::<int>::empty());
        assert(offsets_down(s, k, hi, lo) =~= offsets_down(s, k, hi, mid) + offsets_down(
            s,
            k,
            mid,
            lo,
        ));
    } else {
        lemma_offsets_concat(s, k, hi - 1, mid, lo);
        if key_at(s, hi - 1) == k {
            assert(offsets_down(s, k, hi, lo) =~= offsets_down(s, k, hi, mid) + offsets_down(
                s,
                k,
                mid,
                lo,
            ));
        }
    }
}

proof fn lemma_offsets_none(s: Seq<u8>, k: u32, hi: int, lo: int)
    requires
        forall|p: int| lo <= p < hi ==> key_at(s, p) != k,
    ensures
        offsets_down(s, k, hi, lo) == Seq::<int>::empty(),
    decreases hi - lo,
{
    if hi > lo {
        lemma_offsets_none(s, k, hi - 1, lo);
    }
}

/// The first position that a reference at `pos` may reach back to.
pub open spec fn window_start(pos: int) -> int {
    if pos > 32768 {
        pos - 32768
    } else {
        0
    }
}

/// The reference at `pos` that copies from `off`, as long as the bytes keep matching.
pub open spec fn ref_from(s: Seq<u8>, pos: int, off: int) -> Ref {
    Ref {
        dist: (pos - off) as u16,
        run_minus_3: (match_len(s, pos, pos - off, run_limit(s, pos), 3) - 3) as u8,
    }
}

/// Every reference that could be made at `pos`: one for each earlier position in the window
/// that starts with the same three bytes, nearest first.
pub open spec fn candidates(s: Seq<u8>, pos: int) -> Seq<Ref> {
    offsets_down(s, key_at(s, pos), pos, window_start(pos)).map_values(
        |off: int| ref_from(s, pos, off),
    )
}

/// The bytes before and in the data, and where each three-byte key occurs in them.
pub struct AllRefs<'p, 'd> {
    preroll: &'p [u8],
    pub data: &'d [u8],
    map: HashMap<u32, Vec<usize>>,
}

/// A position in the data of an `AllRefs`.
pub struct AllRefsCursor<'a, 'p: 'a, 'd: 'a> {
    inner: &'a AllRefs<'p, 'd>,
    data_pos: usize,
}

impl<'p, 'd> AllRefs<'p, 'd> {
    /// The preroll followed by the data.
    pub closed spec fn bytes(&self) -> Seq<u8> {
        self.preroll@ + self.data@
    }

    pub closed spec fn data_bytes(&self) -> Seq<u8> {
        self.data@
    }

    pub closed spec fn preroll_len(&self) -> nat {
        self.preroll@.len()
    }

    pub closed spec fn wf(&self) -> bool {
        &&& map_of_positions(self.bytes(), windows(self.bytes()), self.map@)
        &&& self.bytes().len() <= usize::MAX
    }

    /// The bytes are the preroll's, then the data's.
    pub proof fn lemma_bytes_len(&self)
        ensures
            self.bytes().len() == self.preroll_len() + self.data_bytes().len(),
            forall|i: int|
                0 <= i < self.data_bytes().len() ==> #[trigger] self.bytes()[self.preroll_len() + i]
                    == self.data_bytes()[i],
    {
    }

    pub fn new(preroll: &'p [u8], data: &'d [u8]) -> (r: Self)
        ensures
            r.wf(),
            r.bytes() == preroll@ + data@,
            r.preroll_len() == preroll@.len(),
            r.data_bytes() == data@,
    {
        let mut whole: Vec<u8> = Vec::new();
        let mut i: usize = 0;
        while i < preroll.len()
            invariant
                i <= preroll@.len(),
                whole@ == preroll@.take(i as int),
            decreases preroll@.len() - i,
        {
            whole.push(preroll[i]);
            assert(whole@ =~= preroll@.take(i + 1));
            i += 1;
        }
        let mut j: usize = 0;
        while j < data.len()
            invariant
                j <= data@.len(),
                whole@ == preroll@ + data@.take(j as int),
            decreases data@.len() - j,
        {
            whole.push(data[j]);
            assert(whole@ =~= preroll@ + data@.take(j + 1));
            j += 1;
        }
        assert(whole@ =~= preroll@ + data@);
        let total = whole.len();
        let map = whole_map(whole.as_slice());
        AllRefs { preroll, data, map }
    }

    pub fn at(&self, pos: usize) -> (r: AllRefsCursor<'_, 'p, 'd>)
        ensures
            r.refs() == *self,
            r.data_pos() == pos,
    {
        AllRefsCursor { inner: self, data_pos: pos }
    }

    pub fn data_len(&self) -> (r: usize)
        ensures
            r == self.data_bytes().len(),
    {
        self.data.len()
    }

    /// The byte at `pos` of the preroll followed by the data.
    pub fn get(&self, pos: usize) -> (r: u8)
        requires
            pos < self.bytes().len(),
        ensures
            r == self.bytes()[pos as int],
    {
        if pos < self.preroll.len() {
            self.preroll[pos]
        } else {
            self.data[pos - self.preroll.len()]
        }
    }
}

impl<'a, 'p, 'd> AllRefsCursor<'a, 'p, 'd> {
    pub closed spec fn refs(&self) -> AllRefs<'p, 'd> {
        *self.inner
    }

    pub closed spec fn data_pos(&self) -> usize {
        self.data_pos
    }

    /// The three bytes at this position, if there are three left.
    pub fn key(&self) -> (r: Option<(u8, u8, u8)>)
        ensures
            r is Some <==> self.data_pos() + 2 < self.refs().data_bytes().len(),
            r matches Some(k) ==> k == (
                self.refs().data_bytes()[self.data_pos() as int],
                self.refs().data_bytes()[self.data_pos() + 1],
                self.refs().data_bytes()[self.data_pos() + 2],
            ),
    {
        let data = self.inner.data;
        if self.data_pos < data.len() && data.len() - self.data_pos > 2 {
            let p = self.data_pos;
            Some((data[p], data[p + 1], data[p + 2]))
        } else {
            None
        }
    }

    /// Every reference that could be made here, nearest first; `None` when fewer than three
    /// bytes are left.
    pub fn all_refs(&self) -> (r: Option<Vec<Ref>>)
        requires
            self.refs().wf(),
        ensures
            r is Some <==> self.data_pos() + 2 < self.refs().data_bytes().len(),
            r matches Some(v) ==> v@ == candidates(
                self.refs().bytes(),
                self.refs().preroll_len() + self.data_pos(),
            ),
    {
        broadcast use vstd::std_specs::hash::group_hash_axioms;

        let key = match self.key() {
            Some(key) => key,
            None => return None,
        };
        let ghost s = self.refs().bytes();
        let pos = self.inner.preroll.len() + self.data_pos;
        let k = key_of(key.0, key.1, key.2);
        assert(k == key_at(s, pos as int)) by {
            assert(s[pos as int] == self.refs().data_bytes()[self.data_pos() as int]);
            assert(s[pos + 1] == self.refs().data_bytes()[self.data_pos() + 1]);
            assert(s[pos + 2] == self.refs().data_bytes()[self.data_pos() + 2]);
        }
        if pos == 0 {
            assert(candidates(s, 0) =~= Seq::<Ref>::empty());
            return Some(Vec::new());
        }
        let start = if pos > 32 * 1024 {
            pos - 32 * 1024
        } else {
            0
        };
        let v: &[usize] = match self.inner.map.get(&k) {
            Some(all) => {
                assert(positions_of(s, windows(s), k, all@));
                sub_range_inclusive(start, pos - 1, all.as_slice())
            },
            None => {
                assert(self.inner.map@.contains_key(key_at(s, pos as int)));
                return Some(Vec::new());
            },
        };
        proof {
            let all = self.inner.map@[k]@;
            assert forall|p: int| start <= p < pos implies (key_at(s, p) == k <==> #[trigger] v@.contains(
                p as usize,
            )) by {
                if key_at(s, p) == k {
                    assert(all.contains(p as usize));
                }
                if v@.contains(p as usize) {
                    assert(all.contains(p as usize));
                    let j = choose|j: int| 0 <= j < all.len() && all[j] == p as usize;
                    assert(key_at(s, all[j] as int) == k);
                }
            }
            assert forall|j: int| 0 <= j < v@.len() implies start <= #[trigger] v@[j] < pos by {
                assert(v@.contains(v@[j]));
            }
        }
        let mut out: Vec<Ref> = Vec::new();
        let mut i: usize = v.len();
        while i > 0
            invariant
                i <= v@.len(),
                s == self.refs().bytes(),
                self.refs().wf(),
                pos == self.refs().preroll_len() + self.data_pos(),
                self.data_pos() + 2 < self.refs().data_bytes().len(),
                k == key_at(s, pos as int),
                0 < pos,
                start == window_start(pos as int),
                strictly_increasing(v@),
                forall|p: int| start <= p < pos ==> (key_at(s, p) == k <==> #[trigger] v@.contains(
                    p as usize,
                )),
                forall|j: int| 0 <= j < v@.len() ==> start <= #[trigger] v@[j] < pos,
                out@ == offsets_down(
                    s,
                    k,
                    pos as int,
                    if i == v@.len() { pos as int } else { v@[i as int] as int },
                ).map_values(|off: int| ref_from(s, pos as int, off)),
            decreases i,
        {
            let ghost cur_lo: int = if i == v@.len() { pos as int } else { v@[i as int] as int };
            i -= 1;
            let off = v[i];
            let dist = u16_from(pos - off);
            proof {
                lemma_key3_injective(s[off as int], s[off + 1], s[off + 2], s[pos as int], s[pos + 1], s[pos + 2]);
                assert(v@.contains(off));
                assert(key_at(s, off as int) == k);
                assert forall|j: int| 0 <= j < 3 implies #[trigger] s[pos + j] == s[pos + j - dist] by {
                    assert(pos + j - dist == off + j);
                    if j == 0 {
                    } else if j == 1 {
                    } else {
                    }
                }
            }
            let run = self.possible_run_length_at(dist);
            let r = Ref::new(dist, run);
            proof {
                assert forall|p: int| off + 1 <= p < cur_lo implies key_at(s, p) != k by {
                    if key_at(s, p) == k {
                        assert(v@.contains(p as usize));
                        let j = choose|j: int| 0 <= j < v@.len() && v@[j] == p as usize;
                        if j <= i {
                            assert(v@[j] <= v@[i as int]);
                        } else {
                            assert(v@[j] >= v@[i + 1]);
                        }
                    }
                }
                lemma_offsets_none(s, k, cur_lo, off + 1);
                lemma_offsets_concat(s, k, cur_lo, off + 1, off as int);
                lemma_offsets_concat(s, k, pos as int, cur_lo, off as int);
                assert(offsets_down(s, k, off + 1, off as int) =~= seq![off as int]) by {
                    reveal_with_fuel(offsets_down, 2);
                }
                let ghost f = |o: int| ref_from(s, pos as int, o);
                assert(r == ref_from(s, pos as int, off as int));
                assert(offsets_down(s, k, pos as int, off as int).map_values(f) =~= offsets_down(
                    s,
                    k,
                    pos as int,
                    cur_lo,
                ).map_values(f).push(r));
            }
            out.push(r);
        }
        proof {
            let cur_lo: int = if v@.len() == 0 { pos as int } else { v@[0] as int };
            assert forall|p: int| start <= p < cur_lo implies key_at(s, p) != k by {
                if key_at(s, p) == k {
                    assert(v@.contains(p as usize));
                    let j = choose|j: int| 0 <= j < v@.len() && v@[j] == p as usize;
                    assert(v@[j] >= v@[0]);
                }
            }
            lemma_offsets_none(s, k, cur_lo, start as int);
            lemma_offsets_concat(s, k, pos as int, cur_lo, start as int);
            assert(offsets_down(s, k, pos as int, start as int) =~= offsets_down(s, k, pos as int, cur_lo));
        }
        Some(out)
    }

    /// The literal at this position.
    pub fn current_literal(&self) -> (r: Code)
        requires
            self.data_pos() < self.refs().data_bytes().len(),
        ensures
            r == Code::Literal(self.refs().data_bytes()[self.data_pos() as int]),
    {
        Code::Literal(self.inner.data[self.data_pos])
    }

    /// The byte `dist` back from this position, in the data or before it.
    fn get_at_dist(&self, dist: u16) -> (r: u8)
        requires
            0 < dist <= self.refs().preroll_len() + self.data_pos(),
            self.data_pos() <= self.refs().data_bytes().len(),
        ensures
            r == self.refs().bytes()[self.refs().preroll_len() + self.data_pos() - dist],
    {
        let pos = self.data_pos;
        let dist = usize_from(dist);
        let preroll = self.inner.preroll;
        if dist <= pos {
            self.inner.data[pos - dist]
        } else {
            preroll[preroll.len() - (dist - pos)]
        }
    }

    /// How long a run starting `dist` back matches here, given that its first three
    /// bytes do.
    fn possible_run_length_at(&self, dist: u16) -> (r: u16)
        requires
            self.refs().wf(),
            0 < dist <= self.refs().preroll_len() + self.data_pos(),
            self.data_pos() + 2 < self.refs().data_bytes().len(),
            forall|j: int|
                0 <= j < 3 ==> #[trigger] self.refs().bytes()[self.refs().preroll_len()
                    + self.data_pos() + j] == self.refs().bytes()[self.refs().preroll_len()
                    + self.data_pos() + j - dist],
        ensures
            ({
                let s = self.refs().bytes();
                let pos = self.refs().preroll_len() + self.data_pos();
                r == match_len(s, pos, dist as int, run_limit(s, pos), 3)
            }),
            3 <= r <= 258,
    {
        let ghost s = self.refs().bytes();
        let ghost pos = self.refs().preroll_len() + self.data_pos();
        let ghost limit = run_limit(s, pos);
        let (_, upcoming_data) = self.inner.data.split_at(self.data_pos);
        let ulen: u16 = if upcoming_data.len() < 258 {
            upcoming_data.len() as u16
        } else {
            258
        };
        assert(ulen == limit);
        assert forall|c: int| 0 <= c < ulen implies #[trigger] upcoming_data@[c] == s[pos + c] by {
            assert(s[pos + c] == self.refs().data_bytes()[self.data_pos() + c]);
        }
        let first_end = if dist < ulen {
            dist
        } else {
            ulen
        };
        let mut cur: u16 = 3;
        while cur < first_end
            invariant
                3 <= cur,
                cur <= first_end || first_end <= 3,
                first_end <= ulen,
                first_end <= dist,
                ulen == limit,
                limit == run_limit(s, pos),
                ulen <= upcoming_data@.len(),
                0 < dist <= pos,
                self.data_pos() + 2 < self.refs().data_bytes().len(),
                self.data_pos() <= self.refs().data_bytes().len(),
                pos == self.refs().preroll_len() + self.data_pos(),
                s == self.refs().bytes(),
                forall|c: int| 0 <= c < ulen ==> #[trigger] upcoming_data@[c] == s[pos + c],
                match_len(s, pos, dist as int, limit, 3) == match_len(s, pos, dist as int, limit, cur as int),
            decreases first_end - cur,
        {
            let back = self.get_at_dist(dist - cur);
            if upcoming_data[cur as usize] != back {
                return cur;
            }
            proof {
                lemma_match_len_skip(s, pos, dist as int, limit, cur as int, cur + 1);
            }
            cur += 1;
        }
        assert forall|c: int| 0 <= c < dist && c < ulen implies #[trigger] repeats(
            upcoming_data@,
            dist as int,
            c,
        ) by {
            vstd::arithmetic::div_mod::lemma_small_mod(c as nat, dist as nat);
        }
        let mut cur: u16 = dist;
        while cur < ulen
            invariant
                0 < dist <= cur,
                ulen == limit,
                limit == run_limit(s, pos),
                ulen <= upcoming_data@.len(),
                ulen >= 3,
                pos == self.refs().preroll_len() + self.data_pos(),
                s == self.refs().bytes(),
                dist <= pos,
                forall|c: int| 0 <= c < ulen ==> #[trigger] upcoming_data@[c] == s[pos + c],
                forall|j: int| 0 <= j < 3 ==> #[trigger] s[pos + j] == s[pos + j - dist],
                forall|c: int| 0 <= c < cur && c < ulen ==> #[trigger] repeats(upcoming_data@, dist as int, c),
                (dist < ulen) ==> match_len(s, pos, dist as int, limit, 3) == match_len(s, pos, dist as int, limit, if cur < 3 { 3 } else { cur as int }),
                (dist >= ulen) ==> match_len(s, pos, dist as int, limit, 3) == limit,
            decreases ulen - cur,
        {
            proof {
                let d = dist as int;
                vstd::arithmetic::div_mod::lemma_mod_sub_multiples_vanish(cur as int, d);
                assert(repeats(upcoming_data@, d, cur - d));
                assert((cur - d) % d == (cur as int) % d);
            }
            if upcoming_data[(cur % dist) as usize] != upcoming_data[cur as usize] {
                proof {
                    assert(s[pos + cur] != s[pos + cur - dist]);
                    if cur < 3 {
                        assert(s[pos + cur] == s[pos + cur - dist]);
                    }
                    assert(match_len(s, pos, dist as int, limit, cur as int) == cur as int);
                }
                return cur;
            }
            proof {
                if cur >= 3 {
                    lemma_match_len_skip(s, pos, dist as int, limit, cur as int, cur + 1);
                }
            }
            cur += 1;
        }
        ulen
    }
}

pub proof fn lemma_match_len_range(s: Seq<u8>, pos: int, dist: int, limit: int, c: int)
    requires
        c <= limit,
    ensures
        c <= match_len(s, pos, dist, limit, c) <= limit,
    decreases limit - c,
{
    if c < limit && s[pos + c] == s[pos + c - dist] {
        lemma_match_len_range(s, pos, dist, limit, c + 1);
    }
}

pub proof fn lemma_offsets_range(s: Seq<u8>, k: u32, hi: int, lo: int)
    ensures
        offsets_down(s, k, hi, lo).len() <= if hi > lo { hi - lo } else { 0 },
        forall|i: int| 0 <= i < offsets_down(s, k, hi, lo).len() ==> lo <= #[trigger] offsets_down(
            s,
            k,
            hi,
            lo,
        )[i] < hi,
    decreases hi - lo,
{
    if hi > lo {
        lemma_offsets_range(s, k, hi - 1, lo);
        assert(offsets_down(s, k, hi - 1, lo).len() <= hi - 1 - lo || hi - 1 <= lo);
        let rest = offsets_down(s, k, hi - 1, lo);
        if key_at(s, hi - 1) == k {
            let all = offsets_down(s, k, hi, lo);
            assert(all == seq![hi - 1] + rest);
            assert forall|i: int| 0 <= i < all.len() implies lo <= #[trigger] all[i] < hi by {
                if i > 0 {
                    assert(all[i] == rest[i - 1]);
                }
            }
        }
    }
}

/// Every candidate at a position with three bytes left reaches back between 1 and 32768
/// bytes, and runs from 3 bytes to no further than the input goes.
pub proof fn lemma_candidates_bounds(s: Seq<u8>, pos: int)
    requires
        0 <= pos,
        pos + 2 < s.len(),
    ensures
        candidates(s, pos).len() <= 32768,
        forall|i: int|
            0 <= i < candidates(s, pos).len() ==> {
                let r = #[trigger] candidates(s, pos)[i];
                &&& 1 <= r.dist <= 32768
                &&& 3 <= spec_run(r) <= run_limit(s, pos)
            },
{
    let k = key_at(s, pos);
    let offs = offsets_down(s, k, pos, window_start(pos));
    lemma_offsets_range(s, k, pos, window_start(pos));
    assert forall|i: int| 0 <= i < candidates(s, pos).len() implies {
        let r = #[trigger] candidates(s, pos)[i];
        &&& 1 <= r.dist <= 32768
        &&& 3 <= spec_run(r) <= run_limit(s, pos)
    } by {
        let off = offs[i];
        assert(window_start(pos) <= off < pos);
        lemma_match_len_range(s, pos, pos - off, run_limit(s, pos), 3);
    }
}

} // verus!

