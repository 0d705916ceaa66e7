use vstd::prelude::*;

use crate::all_refs::spec_sixteen_hash_16;
use crate::all_refs::Key;
use crate::bad_table::hash_at;
use crate::bad_table::window_count;
use crate::bad_table::HASH_SIZE;
use crate::usize_from;

verus! {

/// The last position before `n` whose three bytes have hash `h`, or 0 when there is none.
pub open spec fn last_seen(s: Seq<u8>, h: u16, n: int) -> int
    decreases n,
{
    if n <= 0 {
        0
    } else if hash_at(s, n - 1) == h {
        n - 1
    } else {
        last_seen(s, h, n - 1)
    }
}

pub proof fn lemma_last_seen_bound(s: Seq<u8>, h: u16, n: int)
    ensures
        0 <= last_seen(s, h, n),
        last_seen(s, h, n) == 0 || last_seen(s, h, n) < n,
    decreases n,
{
    if n > 0 && hash_at(s, n - 1) != h {
        lemma_last_seen_bound(s, h, n - 1);
    }
}

/// Chains of positions of the preroll followed by the data, kept by hash: where each hash
/// was last seen, and for each position, where its hash was seen before it.
pub struct BackMap {
    /// A lookup from the current `hash` to the last `pos` we saw that hash at.
    hash_to_pos: Vec<usize>,
    /// A lookup from a `pos`, to the last `pos` where something had the same hash.
    pos_to_pos: Vec<usize>,
}

/// Follows a chain of positions, most recent first; a position of 0 ends it.
pub struct Chain<'a> {
    next: Option<usize>,
    pos_to_pos: &'a [usize],
}

/// The byte at `i` of the preroll followed by the data.
fn byte_of(preroll: &[u8], data: &[u8], i: usize) -> (r: u8)
    requires
        i < preroll@.len() + data@.len(),
    ensures
        r == (preroll@ + data@)[i as int],
{
    if i < preroll.len() {
        preroll[i]
    } else {
        data[i - preroll.len()]
    }
}

impl BackMap {
    pub closed spec fn hash_to_pos(&self) -> Seq<usize> {
        self.hash_to_pos@
    }

    pub closed spec fn pos_to_pos(&self) -> Seq<usize> {
        self.pos_to_pos@
    }

    pub closed spec fn wf(&self) -> bool {
        &&& self.hash_to_pos@.len() == HASH_SIZE
        &&& forall|i: int|
            0 <= i < HASH_SIZE ==> #[trigger] self.hash_to_pos@[i] == 0 || self.hash_to_pos@[i]
                < self.pos_to_pos@.len()
        &&& forall|i: int|
            0 <= i < self.pos_to_pos@.len() ==> #[trigger] self.pos_to_pos@[i] < self.pos_to_pos@.len()
    }

    /// Builds the chains for every three-byte window of the preroll followed by the data.
    pub fn from_window(preroll: &[u8], data: &[u8]) -> (r: BackMap)
        requires
            preroll@.len() + data@.len() <= usize::MAX,
        ensures
            r.wf(),
            r.pos_to_pos().len() == preroll@.len() + data@.len(),
            forall|h: int|
                0 <= h < HASH_SIZE ==> #[trigger] r.hash_to_pos()[h] == last_seen(
                    preroll@ + data@,
                    h as u16,
                    window_count(preroll@ + data@),
                ),
            forall|p: int|
                0 <= p < r.pos_to_pos().len() ==> #[trigger] r.pos_to_pos()[p] == if p < window_count(
                    preroll@ + data@,
                ) {
                    last_seen(preroll@ + data@, hash_at(preroll@ + data@, p), p)
                } else {
                    0
                },
    {
        let ghost s = preroll@ + data@;
        let total = preroll.len() + data.len();
        let mut hash_to_pos: Vec<usize> = vec![0; HASH_SIZE];
        let mut pos_to_pos: Vec<usize> = vec![0; total];
        let n: usize = if total >= 2 {
            total - 2
        } else {
            0
        };
        let mut pos: usize = 0;
        while pos < n
            invariant
                s == preroll@ + data@,
                total == s.len(),
                n == window_count(s),
                pos <= n,
                hash_to_pos@.len() == HASH_SIZE,
                pos_to_pos@.len() == total,
                forall|h: int|
                    0 <= h < HASH_SIZE ==> #[trigger] hash_to_pos@[h] == last_seen(s, h as u16, pos as int),
                forall|p: int|
                    0 <= p < total ==> #[trigger] pos_to_pos@[p] == if p < pos {
                        last_seen(s, hash_at(s, p), p)
                    } else {
                        0
                    },
            decreases n - pos,
        {
            let key = Key::from(
                (byte_of(preroll, data, pos), byte_of(preroll, data, pos + 1), byte_of(preroll, data, pos + 2)),
            );
            proof {
                crate::all_refs::lemma_key_from((s[pos as int], s[pos + 1], s[pos + 2]));
            }
            let hash = key.sixteen_hash_16();
            let hash_idx = usize_from(hash);
            let prev_pos = hash_to_pos[hash_idx];
            pos_to_pos.set(pos, prev_pos);
            hash_to_pos.set(hash_idx, pos);
            proof {
                assert(hash == hash_at(s, pos as int));
                assert forall|h: int| 0 <= h < HASH_SIZE implies #[trigger] hash_to_pos@[h] == last_seen(
                    s,
                    h as u16,
                    pos + 1,
                ) by {
                    if h != hash_idx {
                        assert(h as u16 != hash);
                    }
                }
            }
            pos += 1;
        }
        proof {
            assert forall|i: int| 0 <= i < HASH_SIZE implies #[trigger] hash_to_pos@[i] == 0 || hash_to_pos@[i]
                < pos_to_pos@.len() by {
                lemma_last_seen_bound(s, i as u16, n as int);
            }
            assert forall|i: int| 0 <= i < pos_to_pos@.len() implies #[trigger] pos_to_pos@[i]
                < pos_to_pos@.len() by {
                if i < n {
                    lemma_last_seen_bound(s, hash_at(s, i), i);
                }
            }
        }
        BackMap { hash_to_pos, pos_to_pos }
    }

    /// The chain of positions whose three bytes hash like `key`'s, most recent first.
    pub fn get(&self, key: Key) -> (r: Chain<'_>)
        requires
            self.wf(),
        ensures
            r.wf(),
            r.upcoming() == Some(
                self.hash_to_pos()[spec_sixteen_hash_16(key.bytes().0, key.bytes().1, key.bytes().2) as int],
            ),
            r.links() == self.pos_to_pos(),
    {
        let pos = self.hash_to_pos[usize_from(key.sixteen_hash_16())];
        Chain { next: Some(pos), pos_to_pos: self.pos_to_pos.as_slice() }
    }
}

impl<'a> Chain<'a> {
    pub closed spec fn upcoming(&self) -> Option<usize> {
        self.next
    }

    pub closed spec fn links(&self) -> Seq<usize> {
        self.pos_to_pos@
    }

    pub closed spec fn wf(&self) -> bool {
        forall|i: int| 0 <= i < self.pos_to_pos@.len() ==> #[trigger] self.pos_to_pos@[i] < self.pos_to_pos@.len()
    }

    /// The next position of the chain; the chain ends after a position whose link is 0.
    pub fn next(&mut self) -> (r: Option<usize>)
        requires
            old(self).wf(),
            old(self).upcoming() matches Some(p) ==> p < old(self).links().len(),
        ensures
            final(self).wf(),
            final(self).links() == old(self).links(),
            r == old(self).upcoming(),
            final(self).upcoming() matches Some(p) ==> p < final(self).links().len(),
            final(self).upcoming() == match r {
                Some(p) => if old(self).links()[p as int] == 0 {
                    None
                } else {
                    Some(old(self).links()[p as int])
                },
                None => None,
            },
    {
        let current = match self.next {
            Some(val) => val,
            None => return None,
        };
        let next = self.pos_to_pos[current];
        if next == 0 {
            self.next = None;
        } else {
            self.next = Some(next);
        }
        Some(current)
    }
}

} // verus!
