use vstd::prelude::*;

use crate::all_refs::spec_sixteen_hash_16;
use crate::all_refs::Key;
use crate::usize_from;

verus! {

/// The number of slots in each table: one per 15-bit hash, and one per position.
pub const HASH_SIZE: usize = 32768;

/// The hash of the three bytes at `p`.
pub open spec fn hash_at(data: Seq<u8>, p: int) -> u16 {
    spec_sixteen_hash_16(data[p], data[p + 1], data[p + 2])
}

/// The last position before `n` whose three bytes have hash `h`, or 0 when there is none.
pub open spec fn last_with_hash(data: Seq<u8>, h: u16, n: int) -> u16
    decreases n,
{
    if n <= 0 {
        0
    } else if hash_at(data, n - 1) == h {
        (n - 1) as u16
    } else {
        last_with_hash(data, h, n - 1)
    }
}

proof fn lemma_last_with_hash_bound(data: Seq<u8>, h: u16, n: int)
    requires
        n <= HASH_SIZE,
    ensures
        last_with_hash(data, h, n) < HASH_SIZE,
        last_with_hash(data, h, n) == 0 || last_with_hash(data, h, n) < n,
    decreases n,
{
    if n > 0 && hash_at(data, n - 1) != h {
        lemma_last_with_hash_bound(data, h, n - 1);
    }
}

/// How many three-byte windows `data` has.
pub open spec fn window_count(data: Seq<u8>) -> int {
    if data.len() >= 2 {
        data.len() - 2
    } else {
        0
    }
}

/// gzip's chains of positions, kept by hash: where each hash was last seen, and for each
/// position, where its hash was seen before it.
pub struct NicerTable {
    /// A lookup from the current `hash` to the last `pos` we saw that hash at.
    hash_to_pos: Vec<u16>,
    /// A lookup from a `pos`, to the last `pos` where something had the same hash.
    pos_to_pos: Vec<u16>,
}

/// Follows a chain of positions, most recent first; a position of 0 ends it.
pub struct Chain<'a> {
    next: Option<u16>,
    pos_to_pos: &'a [u16],
}

impl NicerTable {
    pub closed spec fn hash_to_pos(&self) -> Seq<u16> {
        self.hash_to_pos@
    }

    pub closed spec fn pos_to_pos(&self) -> Seq<u16> {
        self.pos_to_pos@
    }

    pub closed spec fn wf(&self) -> bool {
        &&& self.hash_to_pos@.len() == HASH_SIZE
        &&& self.pos_to_pos@.len() == HASH_SIZE
        &&& forall|i: int| 0 <= i < HASH_SIZE ==> #[trigger] self.hash_to_pos@[i] < HASH_SIZE
        &&& forall|i: int| 0 <= i < HASH_SIZE ==> #[trigger] self.pos_to_pos@[i] < HASH_SIZE
    }

    /// Builds the chains for every three-byte window of `data`.
    pub fn from_window(data: &[u8]) -> (r: NicerTable)
        requires
            data@.len() <= HASH_SIZE + 2,
        ensures
            r.wf(),
            forall|h: int|
                0 <= h < HASH_SIZE ==> #[trigger] r.hash_to_pos()[h] == last_with_hash(
                    data@,
                    h as u16,
                    window_count(data@),
                ),
            forall|p: int|
                0 <= p < HASH_SIZE ==> #[trigger] r.pos_to_pos()[p] == if p < window_count(data@) {
                    last_with_hash(data@, hash_at(data@, p), p)
                } else {
                    0
                },
    {
        let mut hash_to_pos: Vec<u16> = vec![0; HASH_SIZE];
        let mut pos_to_pos: Vec<u16> = vec![0; HASH_SIZE];
        let n: usize = if data.len() >= 2 {
            data.len() - 2
        } else {
            0
        };
        let mut pos: usize = 0;
        while pos < n
            invariant
                n == window_count(data@),
                n <= HASH_SIZE,
                pos <= n,
                hash_to_pos@.len() == HASH_SIZE,
                pos_to_pos@.len() == HASH_SIZE,
                forall|h: int|
                    0 <= h < HASH_SIZE ==> #[trigger] hash_to_pos@[h] == last_with_hash(
                        data@,
                        h as u16,
                        pos as int,
                    ),
                forall|p: int|
                    0 <= p < HASH_SIZE ==> #[trigger] pos_to_pos@[p] == if p < pos {
                        last_with_hash(data@, hash_at(data@, p), p)
                    } else {
                        0
                    },
            decreases n - pos,
        {
            let key = Key::from((data[pos], data[pos + 1], data[pos + 2]));
            proof {
                crate::all_refs::lemma_key_from((data[pos as int], data[pos + 1], data[pos + 2]));
            }
            let hash = key.sixteen_hash_16();
            let hash_idx = usize_from(hash);
            let prev_pos = hash_to_pos[hash_idx];
            proof {
                lemma_last_with_hash_bound(data@, hash, pos as int);
            }
            pos_to_pos.set(pos, prev_pos);
            hash_to_pos.set(hash_idx, pos as u16);
            proof {
                assert(hash == hash_at(data@, pos as int));
                assert forall|h: int| 0 <= h < HASH_SIZE implies #[trigger] hash_to_pos@[h]
                    == last_with_hash(data@, h as u16, pos + 1) by {
                    if h != hash_idx {
                        assert(h as u16 != hash);
                    }
                }
            }
            pos += 1;
        }
        proof {
            assert forall|i: int| 0 <= i < HASH_SIZE implies #[trigger] hash_to_pos@[i] < HASH_SIZE by {
                lemma_last_with_hash_bound(data@, i as u16, n as int);
            }
            assert forall|i: int| 0 <= i < HASH_SIZE implies #[trigger] pos_to_pos@[i] < HASH_SIZE by {
                if i < n {
                    lemma_last_with_hash_bound(data@, hash_at(data@, i), i);
                }
            }
        }
        NicerTable { hash_to_pos, pos_to_pos }
    }

    /// The chain of positions whose three bytes hash like `key`'s, most recent first.
    pub fn get(&self, key: Key) -> (r: Chain<'_>)
        requires
            self.wf(),
        ensures
            r.wf(),
            r.upcoming() == Some(
                self.hash_to_pos()[spec_sixteen_hash_16(key.bytes().0, key.bytes().1, key.bytes().2) as int],
            ),
            r.links() == self.pos_to_pos(),
    {
        let pos = self.hash_to_pos[usize_from(key.sixteen_hash_16())];
        Chain { next: Some(pos), pos_to_pos: self.pos_to_pos.as_slice() }
    }
}

impl<'a> Chain<'a> {
    pub closed spec fn upcoming(&self) -> Option<u16> {
        self.next
    }

    pub closed spec fn links(&self) -> Seq<u16> {
        self.pos_to_pos@
    }

    pub closed spec fn wf(&self) -> bool {
        &&& self.pos_to_pos@.len() == HASH_SIZE
        &&& forall|i: int| 0 <= i < HASH_SIZE ==> #[trigger] self.pos_to_pos@[i] < HASH_SIZE
        &&& self.next matches Some(p) ==> p < HASH_SIZE
    }

    /// The next position of the chain; the chain ends after a position whose link is 0.
    pub fn next(&mut self) -> (r: Option<u16>)
        requires
            old(self).wf(),
        ensures
            final(self).wf(),
            final(self).links() == old(self).links(),
            r == old(self).upcoming(),
            final(self).upcoming() == match r {
                Some(p) => if old(self).links()[p as int] == 0 {
                    None
                } else {
                    Some(old(self).links()[p as int])
                },
                None => None,
            },
    {
        let current = match self.next {
            Some(val) => val,
            None => return None,
        };
        let next = self.pos_to_pos[usize_from(current)];
        if next == 0 {
            self.next = None;
        } else {
            self.next = Some(next);
        }
        Some(current)
    }
}

/// The positions in `lo..hi` whose three bytes have hash `h`, nearest to `hi` first.
pub open spec fn positions_down(data: Seq<u8>, h: u16, hi: int, lo: int) -> Seq<u16>
    decreases hi - lo,
{
    if hi <= lo {
        Seq::empty()
    } else if hash_at(data, hi - 1) == h {
        seq![(hi - 1) as u16] + positions_down(data, h, hi - 1, lo)
    } else {
        positions_down(data, h, hi - 1, lo)
    }
}

/// What the chain for hash `h` holds: every window after the first with that hash, most recent
/// first; the first position stands alone when there is none.
pub open spec fn nicer_chain(data: Seq<u8>, h: u16) -> Seq<u16> {
    let found = positions_down(data, h, window_count(data), 1);
    if found.len() == 0 {
        seq![0u16]
    } else {
        found
    }
}

/// The positions a chain visits from `p`: `p`, then on along `links` while they are not 0.
pub open spec fn chain_walk(links: Seq<u16>, p: u16) -> Seq<u16>
    decreases p,
{
    if links[p as int] != 0 && links[p as int] < p {
        seq![p] + chain_walk(links, links[p as int])
    } else {
        seq![p]
    }
}

proof fn lemma_last_with_hash_down(data: Seq<u8>, h: u16, n: int)
    requires
        0 <= n <= HASH_SIZE,
    ensures
        positions_down(data, h, n, 1).len() == 0 ==> last_with_hash(data, h, n) == 0,
        positions_down(data, h, n, 1).len() > 0 ==> {
            &&& 1 <= last_with_hash(data, h, n) < n
            &&& hash_at(data, last_with_hash(data, h, n) as int) == h
            &&& positions_down(data, h, n, 1) == seq![last_with_hash(data, h, n)] + positions_down(
                data,
                h,
                last_with_hash(data, h, n) as int,
                1,
            )
        },
    decreases n,
{
    if n > 0 {
        lemma_last_with_hash_down(data, h, n - 1);
    }
}

proof fn lemma_positions_down_order(data: Seq<u8>, h: u16, hi: int, lo: int)
    requires
        0 <= lo,
        hi <= HASH_SIZE,
    ensures
        forall|i: int|
            0 <= i < positions_down(data, h, hi, lo).len() ==> lo <= #[trigger] positions_down(data, h, hi, lo)[i]
                < hi,
        forall|i: int, j: int|
            0 <= i < j < positions_down(data, h, hi, lo).len() ==> #[trigger] positions_down(data, h, hi, lo)[i]
                > #[trigger] positions_down(data, h, hi, lo)[j],
    decreases hi - lo,
{
    if hi > lo {
        lemma_positions_down_order(data, h, hi - 1, lo);
        let rest = positions_down(data, h, hi - 1, lo);
        if hash_at(data, hi - 1) == h {
            let all = positions_down(data, h, hi, lo);
            assert(all == seq![(hi - 1) as u16] + rest);
            assert forall|i: int| 0 <= i < all.len() implies lo <= #[trigger] all[i] < hi by {
                if i > 0 {
                    assert(all[i] == rest[i - 1]);
                }
            }
            assert forall|i: int, j: int| 0 <= i < j < all.len() implies #[trigger] all[i] > #[trigger] all[j] by {
                assert(all[j] == rest[j - 1]);
                if i > 0 {
                    assert(all[i] == rest[i - 1]);
                }
            }
        }
    }
}

proof fn lemma_walk_down(data: Seq<u8>, links: Seq<u16>, h: u16, n: int)
    requires
        data.len() <= HASH_SIZE + 2,
        links.len() == HASH_SIZE,
        forall|p: int|
            0 <= p < HASH_SIZE ==> #[trigger] links[p] == if p < window_count(data) {
                last_with_hash(data, hash_at(data, p), p)
            } else {
                0
            },
        0 <= n <= window_count(data),
        positions_down(data, h, n, 1).len() > 0,
    ensures
        chain_walk(links, last_with_hash(data, h, n)) == positions_down(data, h, n, 1),
    decreases n,
{
    lemma_last_with_hash_down(data, h, n);
    let p = last_with_hash(data, h, n);
    assert(links[p as int] == last_with_hash(data, h, p as int));
    lemma_last_with_hash_down(data, h, p as int);
    if positions_down(data, h, p as int, 1).len() > 0 {
        lemma_walk_down(data, links, h, p as int);
    } else {
        assert(chain_walk(links, p) =~= seq![p]);
        assert(positions_down(data, h, n, 1) =~= seq![p]);
    }
}

proof fn lemma_positions_down_members(data: Seq<u8>, h: u16, hi: int, lo: int)
    requires
        0 <= lo,
        hi <= HASH_SIZE,
    ensures
        forall|x: u16| #[trigger] positions_down(data, h, hi, lo).contains(x) <==> (lo <= x < hi && hash_at(data, x as int) == h),
    decreases hi - lo,
{
    if hi > lo {
        lemma_positions_down_members(data, h, hi - 1, lo);
        let rest = positions_down(data, h, hi - 1, lo);
        let all = positions_down(data, h, hi, lo);
        if hash_at(data, hi - 1) == h {
            assert(all == seq![(hi - 1) as u16] + rest);
            assert forall|x: u16| #[trigger] all.contains(x) <==> (lo <= x < hi && hash_at(data, x as int) == h) by {
                if rest.contains(x) {
                    let k = choose|k: int| 0 <= k < rest.len() && rest[k] == x;
                    assert(all[k + 1] == x);
                }
                if all.contains(x) && x != hi - 1 {
                    let k = choose|k: int| 0 <= k < all.len() && all[k] == x;
                    assert(k > 0);
                    assert(rest[k - 1] == x);
                }
                if x == hi - 1 {
                    assert(all[0] == x);
                }
            }
        }
    } else {
        assert forall|x: u16| #[trigger] positions_down(data, h, hi, lo).contains(x) <==> (lo <= x < hi && hash_at(
            data,
            x as int,
        ) == h) by {
            assert(positions_down(data, h, hi, lo).len() == 0);
        }
    }
}

/// The chains that `from_window` builds hold, for each hash, exactly the positions after the
/// first whose three bytes have that hash, from the most recent down, each smaller than the
/// one before; a chain with none of them is the single position 0. Every link leads to a
/// smaller position or is 0, so following a chain with `Chain::next`, from where `get` starts
/// it for a key with that hash, visits exactly this.
pub proof fn lemma_nicer_chains(data: Seq<u8>, t: NicerTable)
    requires
        data.len() <= HASH_SIZE + 2,
        t.wf(),
        forall|h: int|
            0 <= h < HASH_SIZE ==> #[trigger] t.hash_to_pos()[h] == last_with_hash(data, h as u16, window_count(data)),
        forall|p: int|
            0 <= p < HASH_SIZE ==> #[trigger] t.pos_to_pos()[p] == if p < window_count(data) {
                last_with_hash(data, hash_at(data, p), p)
            } else {
                0
            },
    ensures
        forall|p: int| 0 <= p < HASH_SIZE ==> #[trigger] t.pos_to_pos()[p] == 0 || t.pos_to_pos()[p] < p,
        forall|h: u16|
            h < HASH_SIZE ==> #[trigger] chain_walk(t.pos_to_pos(), t.hash_to_pos()[h as int]) == nicer_chain(data, h),
        forall|h: u16, i: int, j: int|
            0 <= i < j < nicer_chain(data, h).len() ==> #[trigger] nicer_chain(data, h)[i] > #[trigger] nicer_chain(
                data,
                h,
            )[j],
        forall|h: u16, x: u16|
            #[trigger] nicer_chain(data, h).contains(x) <==> if positions_down(data, h, window_count(data), 1).len() == 0 {
                x == 0
            } else {
                1 <= x < window_count(data) && hash_at(data, x as int) == h
            },
{
    let w = window_count(data);
    let links = t.pos_to_pos();
    assert(links.len() == HASH_SIZE);
    assert forall|p: int| 0 <= p < HASH_SIZE implies #[trigger] links[p] == 0 || links[p] < p by {
        if p < w {
            lemma_last_with_hash_bound(data, hash_at(data, p), p);
        }
    }
    assert forall|h: u16| h < HASH_SIZE implies #[trigger] chain_walk(links, t.hash_to_pos()[h as int]) == nicer_chain(
        data,
        h,
    ) by {
        assert(t.hash_to_pos()[h as int] == last_with_hash(data, h, w));
        lemma_last_with_hash_down(data, h, w);
        if positions_down(data, h, w, 1).len() > 0 {
            lemma_walk_down(data, links, h, w);
        } else {
            assert(links[0] == 0);
            assert(chain_walk(links, 0) =~= seq![0u16]);
        }
    }
    assert forall|h: u16, i: int, j: int| 0 <= i < j < nicer_chain(data, h).len() implies #[trigger] nicer_chain(
        data,
        h,
    )[i] > #[trigger] nicer_chain(data, h)[j] by {
        lemma_positions_down_order(data, h, w, 1);
    }
    assert forall|h: u16, x: u16| #[trigger] nicer_chain(data, h).contains(x) <==> if positions_down(
        data,
        h,
        w,
        1,
    ).len() == 0 {
        x == 0
    } else {
        1 <= x < w && hash_at(data, x as int) == h
    } by {
        lemma_positions_down_members(data, h, w, 1);
        if positions_down(data, h, w, 1).len() == 0 {
            assert(nicer_chain(data, h) =~= seq![0u16]);
            if x == 0 {
                assert(nicer_chain(data, h)[0] == x);
            }
        }
    }
}

} // verus!
