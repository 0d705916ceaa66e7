use vstd::prelude::*;

use crate::errors::Error;

verus! {

/// The last `n` items of `s`, or all of `s` if it is shorter.
pub open spec fn keep_last<T>(s: Seq<T>, n: nat) -> Seq<T> {
    if s.len() > n {
        s.skip(s.len() - n)
    } else {
        s
    }
}

/// The bytes a back-reference copies: each comes from `dist` bytes before it, in the window
/// followed by what has been copied so far.
pub open spec fn lz_copy(window: Seq<u8>, dist: nat, len: nat) -> Seq<u8>
    decreases len,
{
    if len == 0 {
        Seq::empty()
    } else {
        let prev = lz_copy(window, dist, (len - 1) as nat);
        prev.push((window + prev)[window.len() + len - 1 - dist])
    }
}

/// A fixed-size window onto the most recent bytes of a stream.
pub struct CircularBuffer {
    data: Vec<u8>,
    idx: usize,
    valid_cap: u16,
}

impl CircularBuffer {
    pub closed spec fn wf(&self) -> bool {
        &&& 0 < self.data.len() <= u16::MAX
        &&& self.idx < self.data.len()
        &&& self.valid_cap <= self.data.len()
    }

    /// How many bytes the buffer can hold.
    pub closed spec fn cap(&self) -> nat {
        self.data.len() as nat
    }

    /// The bytes held, oldest first.
    pub closed spec fn window(&self) -> Seq<u8> {
        Seq::new(
            self.valid_cap as nat,
            |i: int|
                self.data@[(self.idx as int - self.valid_cap as int + i + self.data.len() as int) % (
                self.data.len() as int)],
        )
    }

    pub fn new() -> (r: Self)
        ensures
            r.wf(),
            r.cap() == 32 * 1024,
            r.window() == Seq::<u8>::empty(),
    {
        Self::with_capacity(32 * 1024)
    }

    pub fn with_capacity(cap: u16) -> (r: Self)
        requires
            cap > 0,
        ensures
            r.wf(),
            r.cap() == cap,
            r.window() == Seq::<u8>::empty(),
    {
        let r = CircularBuffer { idx: 0, data: vec![0; cap as usize], valid_cap: 0 };
        assert(r.window() =~= Seq::<u8>::empty());
        r
    }

    pub fn push(&mut self, val: u8)
        requires
            old(self).wf(),
        ensures
            final(self).wf(),
            final(self).cap() == old(self).cap(),
            final(self).window() == keep_last(old(self).window().push(val), old(self).cap()),
    {
        let n = self.data.len();
        let ghost old_window = self.window();
        let ghost i0 = self.idx as int;
        let ghost v0 = self.valid_cap as int;
        self.data.set(self.idx, val);
        self.idx = (self.idx + 1) % n;

        if (self.valid_cap as usize) < n {
            self.valid_cap += 1;
        }
        proof {
            let nn = n as int;
            let i1 = self.idx as int;
            lemma_mod_range(i0 + 1, nn);
            assert(i1 == if i0 + 1 < nn { i0 + 1 } else { 0 });
            let target = keep_last(old_window.push(val), n as nat);
            assert forall|i: int| 0 <= i < self.window().len() implies self.window()[i] == target[i] by {
                let x1 = i1 - self.valid_cap as int + i + nn;
                lemma_mod_range(x1, nn);
                let j = x1 % nn;
                if v0 < nn {
                    let x0 = i0 - v0 + i + nn;
                    lemma_mod_range(x0, nn);
                    assert(j == x0 % nn);
                    if i < v0 {
                        lemma_mod_range(x0, nn);
                        assert(j != i0);
                        assert(old_window[i] == old(self).data@[x0 % nn]);
                    } else {
                        assert(j == i0);
                    }
                } else {
                    assert(self.valid_cap as int == nn);
                    let x0 = i0 - v0 + (i + 1) + nn;
                    lemma_mod_range(x0, nn);
                    assert(j == x0 % nn);
                    if i < nn - 1 {
                        assert(j != i0);
                        assert(old_window[i + 1] == old(self).data@[x0 % nn]);
                    } else {
                        assert(j == i0);
                    }
                }
            }
            assert(self.window() =~= target);
        }
    }

    pub fn extend(&mut self, val: &[u8])
        requires
            old(self).wf(),
        ensures
            final(self).wf(),
            final(self).cap() == old(self).cap(),
            final(self).window() == keep_last(old(self).window() + val@, old(self).cap()),
    {
        let mut i: usize = 0;
        while i < val.len()
            invariant
                self.wf(),
                self.cap() == old(self).cap(),
                i <= val@.len(),
                self.window() == keep_last(old(self).window() + val@.take(i as int), old(self).cap()),
            decreases val@.len() - i,
        {
            let ghost w = old(self).window() + val@.take(i as int);
            self.push(val[i]);
            proof {
                lemma_keep_last_push(w, val@[i as int], old(self).cap());
                assert(old(self).window() + val@.take(i + 1) =~= w.push(val@[i as int]));
            }
            i += 1;
        }
        proof {
            assert(val@.take(val@.len() as int) =~= val@);
        }
    }

    /// Copies `len` bytes starting `dist` bytes back, into both `into` and the buffer.
    pub fn copy(&mut self, dist: u16, len: u16, into: &mut Vec<u8>) -> (r: Result<(), Error>)
        requires
            old(self).wf(),
        ensures
            final(self).wf(),
            final(self).cap() == old(self).cap(),
            r is Ok <==> 0 < dist <= old(self).window().len(),
            r is Err ==> r == Err::<(), Error>(Error::DistanceOutOfRange) && *final(self) == *old(self)
                && final(into)@ == old(into)@,
            r is Ok ==> {
                let out = lz_copy(old(self).window(), dist as nat, len as nat);
                &&& final(into)@ == old(into)@ + out
                &&& final(self).window() == keep_last(old(self).window() + out, old(self).cap())
            },
    {
        if !(dist > 0 && dist <= self.valid_cap) {
            return Err(Error::DistanceOutOfRange);
        }
        let ghost w0 = self.window();
        let ghost cap = self.cap();
        let mut k: u16 = 0;
        while k < len
            invariant
                self.wf(),
                self.cap() == cap,
                cap == old(self).cap(),
                w0 == old(self).window(),
                0 < dist <= w0.len(),
                w0.len() <= cap,
                k <= len,
                into@ == old(into)@ + lz_copy(w0, dist as nat, k as nat),
                self.window() == keep_last(w0 + lz_copy(w0, dist as nat, k as nat), cap),
            decreases len - k,
        {
            let ghost out = lz_copy(w0, dist as nat, k as nat);
            proof {
                lemma_lz_copy_len(w0, dist as nat, k as nat);
                lemma_keep_last_len(w0 + out, cap);
            }
            let b = self.get_at_dist(dist);
            proof {
                let full = w0 + out;
                let win = self.window();
                assert(win == keep_last(full, cap));
                assert(b == full[w0.len() + k - dist]);
                assert(lz_copy(w0, dist as nat, (k + 1) as nat) == out.push((w0 + out)[w0.len() + k - dist]));
            }
            into.push(b);
            self.push(b);
            proof {
                lemma_keep_last_push(w0 + out, b, cap);
                assert(w0 + lz_copy(w0, dist as nat, (k + 1) as nat) =~= (w0 + out).push(b));
                assert(into@ =~= old(into)@ + lz_copy(w0, dist as nat, (k + 1) as nat));
            }
            k += 1;
        }
        Ok(())
    }

    /// The byte `dist` back from the end; the most recent byte is 1 back.
    pub fn get_at_dist(&self, dist: u16) -> (r: u8)
        requires
            self.wf(),
            0 < dist <= self.window().len(),
        ensures
            r == self.window()[self.window().len() - dist],
    {
        let n = self.data.len();
        let target = if self.idx >= dist as usize {
            self.idx - dist as usize
        } else {
            self.idx + n - dist as usize
        };
        proof {
            let nn = n as int;
            let i = self.valid_cap as int - dist as int;
            assert((self.idx as int - self.valid_cap as int + i + nn) % nn == target as int) by {
                assert(self.idx as int - self.valid_cap as int + i + nn == self.idx as int - dist as int + nn);
                if self.idx >= dist as usize {
                    assert((self.idx as int - dist as int + nn) % nn == self.idx as int - dist as int)
                        by (nonlinear_arith)
                        requires
                            0 <= (self.idx as int - dist as int) && (self.idx as int - dist as int) < nn,
                    ;
                } else {
                    assert((self.idx as int - dist as int + nn) % nn == self.idx as int - dist as int + nn)
                        by (nonlinear_arith)
                        requires
                            0 <= (self.idx as int - dist as int + nn) && (self.idx as int - dist as int + nn) < nn,
                    ;
                }
            }
        }
        self.data[target]
    }

    pub fn capacity(&self) -> (r: u16)
        requires
            self.wf(),
        ensures
            r == self.cap(),
    {
        self.data.len() as u16
    }

    pub fn len(&self) -> (r: u16)
        requires
            self.wf(),
        ensures
            r == self.window().len(),
    {
        self.valid_cap
    }

    /// The bytes held, oldest first.
    pub fn vec(&self) -> (r: Vec<u8>)
        requires
            self.wf(),
        ensures
            r@ == self.window(),
    {
        let mut ret: Vec<u8> = Vec::with_capacity(self.valid_cap as usize);
        let mut pos = self.valid_cap;
        while pos > 0
            invariant
                self.wf(),
                pos <= self.window().len(),
                ret@ == self.window().take(self.window().len() - pos),
            decreases pos,
        {
            let b = self.get_at_dist(pos);
            proof {
                assert(self.window().take(self.window().len() - pos + 1) =~= ret@.push(b));
            }
            ret.push(b);
            pos -= 1;
        }
        proof {
            assert(self.window().take(self.window().len() as int) =~= self.window());
        }
        ret
    }

    /// How far the upcoming bytes keep matching what starts `dist` bytes back, given that
    /// the first three already match; at most 258, and at most `upcoming_data.len()`.
    pub fn possible_run_length_at(&self, dist: u16, upcoming_data: &[u8]) -> (r: u16)
        requires
            self.wf(),
            dist > 0,
            (if dist as int <= upcoming_data@.len() && dist <= 258 { dist as int } else { upcoming_limit(upcoming_data@) }) > 3
                ==> dist - 3 <= self.window().len(),
        ensures
            r <= upcoming_limit(upcoming_data@),
            forall|p: int|
                0 <= p < r && run_checked(dist as int, p) ==> #[trigger] upcoming_data@[p] == run_source(
                    self.window(),
                    dist as int,
                    upcoming_data@,
                    p,
                ),
            r < upcoming_limit(upcoming_data@) ==> run_checked(dist as int, r as int) && upcoming_data@[r as int]
                != run_source(self.window(), dist as int, upcoming_data@, r as int),
    {
        let ulen: u16 = if upcoming_data.len() < 258 { upcoming_data.len() as u16 } else { 258 };
        let first_end = if dist < ulen { dist } else { ulen };
        let mut pos: u16 = 3;
        while pos < first_end
            invariant
                self.wf(),
                dist > 0,
                3 <= pos,
                first_end == if dist < ulen { dist } else { ulen },
                ulen as int == if upcoming_data@.len() < 258 { upcoming_data@.len() as int } else { 258 },
                first_end > 3 ==> dist - 3 <= self.window().len(),
                pos <= first_end || first_end <= 3,
                first_end <= ulen,
                forall|p: int| 3 <= p < pos && p < first_end ==> upcoming_data@[p] == self.window()[self.window().len() - dist + p],
            decreases first_end - pos,
        {
            if upcoming_data[pos as usize] != self.get_at_dist(dist - pos) {
                return pos;
            }
            pos += 1;
        }
        let mut pos: u16 = dist;
        while pos < ulen
            invariant
                self.wf(),
                dist > 0,
                dist <= pos,
                first_end == if dist < ulen { dist } else { ulen },
                ulen as int == if upcoming_data@.len() < 258 { upcoming_data@.len() as int } else { 258 },
                forall|p: int| 3 <= p < first_end ==> upcoming_data@[p] == self.window()[self.window().len() - dist + p],
                forall|p: int| dist <= p < pos ==> #[trigger] upcoming_data@[p] == upcoming_data@[p % dist as int],
            decreases ulen - pos,
        {
            if upcoming_data[(pos % dist) as usize] != upcoming_data[pos as usize] {
                return pos;
            }
            pos += 1;
        }
        ulen
    }
}

/// How many upcoming bytes a run can take: all of them, but at most 258.
pub open spec fn upcoming_limit(data: Seq<u8>) -> int {
    if data.len() < 258 {
        data.len() as int
    } else {
        258
    }
}

/// Whether byte `p` of a run `dist` back is compared: the first three are taken to match.
pub open spec fn run_checked(dist: int, p: int) -> bool {
    (3 <= p && p < dist) || dist <= p
}

/// The byte that byte `p` of a run `dist` back copies: from the window while the run is
/// within it, then from the run's own start.
pub open spec fn run_source(window: Seq<u8>, dist: int, data: Seq<u8>, p: int) -> u8 {
    if p < dist {
        window[window.len() - dist + p]
    } else {
        data[p % dist]
    }
}

pub proof fn lemma_mod_range(x: int, n: int)
    requires
        n > 0,
        0 <= x < 2 * n,
    ensures
        x % n == if x < n { x } else { x - n },
{
    if x < n {
        vstd::arithmetic::div_mod::lemma_small_mod(x as nat, n as nat);
    } else {
        vstd::arithmetic::div_mod::lemma_small_mod((x - n) as nat, n as nat);
        vstd::arithmetic::div_mod::lemma_mod_sub_multiples_vanish(x, n);
    }
}

pub proof fn lemma_keep_last_len<T>(s: Seq<T>, n: nat)
    ensures
        keep_last(s, n).len() == if s.len() > n { n } else { s.len() },
{
}

/// Keeping the last `n` after each push is keeping the last `n` at the end.
pub proof fn lemma_keep_last_push<T>(s: Seq<T>, x: T, n: nat)
    requires
        n > 0,
    ensures
        keep_last(keep_last(s, n).push(x), n) == keep_last(s.push(x), n),
{
    assert(keep_last(keep_last(s, n).push(x), n) =~= keep_last(s.push(x), n));
}

pub proof fn lemma_lz_copy_len(window: Seq<u8>, dist: nat, len: nat)
    ensures
        lz_copy(window, dist, len).len() == len,
    decreases len,
{
    if len > 0 {
        lemma_lz_copy_len(window, dist, (len - 1) as nat);
    }
}

} // verus!
