use vstd::prelude::*;

use crate::all_refs::match_len;
use crate::all_refs::ref_from;
use crate::all_refs::run_limit;
use crate::back_map::last_seen;
use crate::back_map::BackMap;
use crate::bad_table::hash_at;
use crate::bad_table::window_count;
use crate::bad_table::HASH_SIZE;
use crate::all_refs::lemma_match_len_skip;
use crate::all_refs::repeats;
use crate::all_refs::spec_sixteen_hash_16;
use crate::all_refs::Key;
use crate::back_map::lemma_last_seen_bound;
use crate::obscure::obscure;
use crate::obscure::obscured;
use crate::obscure::spans_fit;
use crate::decodes::lemma_match_len_matches;
use crate::decodes::matches_at;
use crate::all_refs::lemma_match_len_range;
use crate::spec_run;
use crate::Code;
use crate::Ref;
use crate::usize_from;

verus! {

/// The positions in `lo..hi` whose three bytes have hash `h`, nearest to `hi` first.
pub open spec fn hash_down(s: Seq<u8>, h: u16, hi: int, lo: int) -> Seq<usize>
    decreases hi - lo,
{
    if hi <= lo {
        Seq::empty()
    } else if hash_at(s, hi - 1) == h {
        seq![(hi - 1) as usize] + hash_down(s, h, hi - 1, lo)
    } else {
        hash_down(s, h, hi - 1, lo)
    }
}

/// The positions that gzip's chain for hash `h` visits, most recent first: every window
/// after the first with that hash; the first position stands alone when there is none.
pub open spec fn chain_positions(s: Seq<u8>, h: u16) -> Seq<usize> {
    let found = hash_down(s, h, window_count(s), 1);
    if found.len() == 0 {
        seq![0usize]
    } else {
        found
    }
}

/// The positions a chain visits from `p`, following `links` while they lead back.
pub open spec fn walk(links: Seq<usize>, p: nat) -> Seq<usize>
    decreases p,
{
    if 0 < links[p as int] < p {
        seq![p as usize] + walk(links, links[p as int] as nat)
    } else {
        seq![p as usize]
    }
}

/// The links of a chain that `BackMap::from_window` built over `s`.
pub open spec fn links_of(s: Seq<u8>, links: Seq<usize>) -> bool {
    &&& links.len() == s.len()
    &&& forall|p: int|
        0 <= p < s.len() ==> #[trigger] links[p] == if p < window_count(s) {
            last_seen(s, hash_at(s, p), p)
        } else {
            0
        }
}

proof fn lemma_last_seen_down(s: Seq<u8>, h: u16, n: int)
    requires
        0 <= n,
    ensures
        hash_down(s, h, n, 1).len() == 0 ==> last_seen(s, h, n) == 0,
        hash_down(s, h, n, 1).len() > 0 ==> {
            &&& 1 <= last_seen(s, h, n) < n
            &&& hash_at(s, last_seen(s, h, n)) == h
            &&& hash_down(s, h, n, 1) == seq![last_seen(s, h, n) as usize] + hash_down(
                s,
                h,
                last_seen(s, h, n),
                1,
            )
        },
    decreases n,
{
    if n > 0 {
        lemma_last_seen_down(s, h, n - 1);
    }
}

proof fn lemma_walk_chain(s: Seq<u8>, links: Seq<usize>, h: u16, n: int)
    requires
        links_of(s, links),
        0 <= n <= window_count(s),
        hash_down(s, h, n, 1).len() > 0,
    ensures
        walk(links, last_seen(s, h, n) as nat) == hash_down(s, h, n, 1),
    decreases n,
{
    lemma_last_seen_down(s, h, n);
    let p = last_seen(s, h, n);
    assert(links[p] == last_seen(s, h, p));
    lemma_last_seen_down(s, h, p);
    if hash_down(s, h, p, 1).len() > 0 {
        lemma_walk_chain(s, links, h, p);
    } else {
        assert(walk(links, p as nat) =~= seq![p as usize]);
        assert(hash_down(s, h, n, 1) =~= seq![p as usize]);
    }
}

/// Following the links from where hash `h` was last seen visits exactly the chain's
/// positions.
pub proof fn lemma_walk_is_chain(s: Seq<u8>, links: Seq<usize>, h: u16)
    requires
        links_of(s, links),
        s.len() > 0,
    ensures
        walk(links, last_seen(s, h, window_count(s)) as nat) == chain_positions(s, h),
{
    let w = window_count(s);
    lemma_last_seen_down(s, h, w);
    if hash_down(s, h, w, 1).len() > 0 {
        lemma_walk_chain(s, links, h, w);
    } else {
        assert(links[0] == 0);
        assert(walk(links, 0) =~= seq![0usize]);
    }
}


proof fn lemma_hash_bound(b0: u8, b1: u8, b2: u8)
    ensures
        spec_sixteen_hash_16(b0, b1, b2) < 0x8000,
{
    assert(((((((b0 as u16) << 5u16) ^ (b1 as u16)) << 5u16) ^ (b2 as u16)) & 0x7fffu16) < 0x8000)
        by (bit_vector);
}

proof fn lemma_filter_push(v: Seq<usize>, x: usize, f: spec_fn(usize) -> bool)
    ensures
        v.push(x).filter(f) == if f(x) {
            v.filter(f).push(x)
        } else {
            v.filter(f)
        },
{
    reveal(Seq::filter);
    assert(v.push(x).drop_last() =~= v);
}

/// Whether a reference at `pos` can copy from `off`: it is close enough, and its three
/// bytes are those at `pos`, not just ones with the same hash.
pub open spec fn keeps(s: Seq<u8>, pos: int, off: usize) -> bool {
    &&& pos - off <= 32768
    &&& s[off as int] == s[pos]
    &&& s[off + 1] == s[pos + 1]
    &&& s[off + 2] == s[pos + 2]
}

/// Whether a position comes before `pos`.
pub open spec fn below(pos: int) -> spec_fn(usize) -> bool {
    |off: usize| off < pos
}

/// Whether a reference at `pos` can copy from a position.
pub open spec fn kept(s: Seq<u8>, pos: int) -> spec_fn(usize) -> bool {
    |off: usize| keeps(s, pos, off)
}

/// The reference at `pos` that copies from a position.
pub open spec fn made(s: Seq<u8>, pos: int) -> spec_fn(usize) -> Ref {
    |off: usize| ref_from(s, pos, off as int)
}

/// The chain positions before `pos` that no span of `by` obscures.
pub open spec fn visible(s: Seq<u8>, pos: int, by: Seq<(usize, u16)>) -> Seq<usize> {
    chain_positions(s, hash_at(s, pos)).filter(below(pos)).filter(|x: usize| !obscured(by, x))
}

/// The references found at `pos`: of the first `limit` visible chain positions, those that
/// a reference can copy from, each as far as the bytes keep matching.
pub open spec fn spec_at(s: Seq<u8>, pos: int, by: Seq<(usize, u16)>, limit: int) -> Seq<Ref> {
    if pos == 0 {
        Seq::empty()
    } else {
        let v = visible(s, pos, by);
        let n = if limit < v.len() { limit } else { v.len() as int };
        v.take(n).filter(kept(s, pos)).map_values(made(s, pos))
    }
}

/// The references of the preroll and data, found the way gzip 1.6 finds them: through
/// chains of positions kept by hash, trying a limited number of positions.
pub struct AllRefs<'p, 'd> {
    pub preroll: &'p [u8],
    pub data: &'d [u8],
    map: BackMap,
    limit: u16,
}

impl<'p, 'd> AllRefs<'p, 'd> {
    /// The preroll followed by the data.
    pub closed spec fn bytes(&self) -> Seq<u8> {
        self.preroll@ + self.data@
    }

    /// How many chain positions are tried.
    pub closed spec fn tries(&self) -> u16 {
        self.limit
    }

    pub closed spec fn wf(&self) -> bool {
        &&& self.bytes().len() <= usize::MAX
        &&& self.map.wf()
        &&& links_of(self.bytes(), self.map.pos_to_pos())
        &&& forall|h: int|
            0 <= h < HASH_SIZE ==> #[trigger] self.map.hash_to_pos()[h] == last_seen(
                self.bytes(),
                h as u16,
                window_count(self.bytes()),
            )
    }

    pub fn with_sixteen(preroll: &'p [u8], data: &'d [u8], limit: u16) -> (r: Self)
        requires
            preroll@.len() + data@.len() <= usize::MAX,
        ensures
            r.wf(),
            r.bytes() == preroll@ + data@,
            r.tries() == limit,
    {
        let map = BackMap::from_window(preroll, data);
        AllRefs { preroll, data, limit, map }
    }

    /// The length of the preroll and the data together.
    pub fn data_len(&self) -> (r: usize)
        requires
            self.wf(),
        ensures
            r == self.bytes().len(),
    {
        self.preroll.len() + self.data.len()
    }

    /// The byte at `pos` of the preroll followed by the data.
    pub fn get(&self, pos: usize) -> (r: u8)
        requires
            pos < self.bytes().len(),
        ensures
            r == self.bytes()[pos as int],
    {
        if pos < self.preroll.len() {
            self.preroll[pos]
        } else {
            self.data[pos - self.preroll.len()]
        }
    }

    /// How long a run starting `dist` back matches at `pos`, given that its first three
    /// bytes do.
    fn possible_run_length_at(&self, pos: usize, dist: u16) -> (r: u16)
        requires
            self.wf(),
            0 < dist <= pos,
            pos + 2 < self.bytes().len(),
            forall|j: int| 0 <= j < 3 ==> #[trigger] self.bytes()[pos + j] == self.bytes()[pos + j - dist],
        ensures
            r == match_len(self.bytes(), pos as int, dist as int, run_limit(self.bytes(), pos as int), 3),
            3 <= r <= 258,
    {
        let ghost s = self.bytes();
        let ghost limit = run_limit(s, pos as int);
        let left = self.data_len() - pos;
        let ulen: u16 = if left < 258 {
            left as u16
        } else {
            258
        };
        let mut upcoming_data: Vec<u8> = Vec::new();
        let mut i: u16 = 0;
        while i < ulen
            invariant
                self.wf(),
                s == self.bytes(),
                i <= ulen,
                ulen == limit,
                limit == run_limit(s, pos as int),
                pos + 2 < s.len(),
                upcoming_data@.len() == i,
                forall|c: int| 0 <= c < i ==> #[trigger] upcoming_data@[c] == s[pos + c],
            decreases ulen - i,
        {
            upcoming_data.push(self.get(pos + usize_from(i)));
            i += 1;
        }
        let first_end = if dist < ulen {
            dist
        } else {
            ulen
        };
        let mut cur: u16 = 3;
        while cur < first_end
            invariant
                self.wf(),
                s == self.bytes(),
                3 <= cur,
                cur <= first_end || first_end <= 3,
                first_end <= ulen,
                first_end <= dist,
                ulen == limit,
                limit == run_limit(s, pos as int),
                upcoming_data@.len() == ulen,
                0 < dist <= pos,
                pos + 2 < s.len(),
                forall|c: int| 0 <= c < ulen ==> #[trigger] upcoming_data@[c] == s[pos + c],
                match_len(s, pos as int, dist as int, limit, 3) == match_len(s, pos as int, dist as int, limit, cur as int),
            decreases first_end - cur,
        {
            let back = self.get(pos - usize_from(dist - cur));
            if upcoming_data[usize_from(cur)] != back {
                return cur;
            }
            proof {
                lemma_match_len_skip(s, pos as int, dist as int, limit, cur as int, cur + 1);
            }
            cur += 1;
        }
        assert forall|c: int| 0 <= c < dist && c < ulen implies #[trigger] repeats(
            upcoming_data@,
            dist as int,
            c,
        ) by {
            vstd::arithmetic::div_mod::lemma_small_mod(c as nat, dist as nat);
        }
        let mut cur: u16 = dist;
        while cur < ulen
            invariant
                0 < dist <= cur,
                ulen == limit,
                limit == run_limit(s, pos as int),
                upcoming_data@.len() == ulen,
                ulen >= 3,
                s == self.bytes(),
                dist <= pos,
                forall|c: int| 0 <= c < ulen ==> #[trigger] upcoming_data@[c] == s[pos + c],
                forall|j: int| 0 <= j < 3 ==> #[trigger] s[pos + j] == s[pos + j - dist],
                forall|c: int| 0 <= c < cur && c < ulen ==> #[trigger] repeats(upcoming_data@, dist as int, c),
                (dist < ulen) ==> match_len(s, pos as int, dist as int, limit, 3) == match_len(
                    s,
                    pos as int,
                    dist as int,
                    limit,
                    if cur < 3 {
                        3
                    } else {
                        cur as int
                    },
                ),
                (dist >= ulen) ==> match_len(s, pos as int, dist as int, limit, 3) == limit,
            decreases ulen - cur,
        {
            proof {
                let d = dist as int;
                vstd::arithmetic::div_mod::lemma_mod_sub_multiples_vanish(cur as int, d);
                assert(repeats(upcoming_data@, d, cur - d));
                assert((cur - d) % d == (cur as int) % d);
            }
            if upcoming_data[usize_from(cur % dist)] != upcoming_data[usize_from(cur)] {
                proof {
                    assert(s[pos + cur] != s[pos + cur - dist]);
                    if cur < 3 {
                        assert(s[pos + cur] == s[pos + cur - dist]);
                    }
                    assert(match_len(s, pos as int, dist as int, limit, cur as int) == cur as int);
                }
                return cur;
            }
            proof {
                if cur >= 3 {
                    lemma_match_len_skip(s, pos as int, dist as int, limit, cur as int, cur + 1);
                }
            }
            cur += 1;
        }
        ulen
    }
}

impl<'p, 'd> AllRefs<'p, 'd> {
    /// The references at `pos`: `None` where fewer than three bytes are left, else those
    /// that `spec_at` describes, nearest first.
    pub fn at(&self, pos: usize, obscura: &[(usize, u16)]) -> (r: Option<Vec<Ref>>)
        requires
            self.wf(),
            spans_fit(obscura@),
        ensures
            match r {
                None => pos + 2 >= self.bytes().len(),
                Some(v) => pos + 2 < self.bytes().len() && v@ == spec_at(
                    self.bytes(),
                    pos as int,
                    obscura@,
                    self.tries() as int,
                ),
            },
    {
        let ghost s = self.bytes();
        let len = self.data_len();
        if len < 3 || pos > len - 3 {
            return None;
        }
        let k0 = self.get(pos);
        let k1 = self.get(pos + 1);
        let k2 = self.get(pos + 2);
        if pos == 0 {
            return Some(Vec::new());
        }
        let key = Key::from((k0, k1, k2));
        proof {
            crate::all_refs::lemma_key_from((k0, k1, k2));
        }
        let ghost h = hash_at(s, pos as int);
        let ghost links = self.map.pos_to_pos();
        let ghost full = chain_positions(s, h);
        let ghost lt = below(pos as int);
        let mut chain = self.map.get(key);
        proof {
            lemma_walk_is_chain(s, links, h);
            lemma_last_seen_bound(s, h, window_count(s));
            assert(key.bytes() == (k0, k1, k2));
            lemma_hash_bound(k0, k1, k2);
            assert(self.map.hash_to_pos()[h as int] == last_seen(s, h, window_count(s)));
            assert(chain.upcoming() == Some(last_seen(s, h, window_count(s)) as usize));
            assert forall|p: int| 0 <= p < links.len() implies #[trigger] links[p] == 0 || links[p] < p by {
                if p < window_count(s) {
                    lemma_last_seen_bound(s, hash_at(s, p), p);
                }
            }
            assert(Seq::<usize>::empty() + full =~= full);
            reveal(Seq::filter);
        }
        let ghost mut seen: Seq<usize> = Seq::empty();
        let mut before: Vec<usize> = Vec::new();
        loop
            invariant
                chain.wf(),
                chain.links() == links,
                links.len() == s.len(),
                forall|p: int| 0 <= p < links.len() ==> #[trigger] links[p] == 0 || links[p] < p,
                chain.upcoming() matches Some(p) ==> p < links.len() && seen + walk(links, p as nat) == full,
                chain.upcoming() is None ==> seen == full,
                lt == below(pos as int),
                before@ == seen.filter(lt),
                forall|j: int| 0 <= j < before@.len() ==> #[trigger] before@[j] < pos,
            ensures
                before@ == full.filter(lt),
                forall|j: int| 0 <= j < before@.len() ==> #[trigger] before@[j] < pos,
            decreases
                match chain.upcoming() {
                    Some(p) => p + 1,
                    None => 0,
                },
        {
            let ghost prev = chain.upcoming();
            match chain.next() {
                Some(off) => {
                    proof {
                        lemma_filter_push(seen, off, lt);
                        seen = seen.push(off);
                        let nxt = links[off as int];
                        if nxt != 0 {
                            assert(walk(links, off as nat) =~= seq![off] + walk(links, nxt as nat));
                            assert(seen + walk(links, nxt as nat) =~= (seen.drop_last() + walk(links, off as nat)));
                        } else {
                            assert(walk(links, off as nat) =~= seq![off]);
                            assert(seen =~= seen.drop_last() + walk(links, off as nat));
                        }
                    }
                    if off < pos {
                        before.push(off);
                    }
                },
                None => {
                    break;
                },
            }
        }
        let visible_offs = obscure(before.as_slice(), obscura);
        let ghost v = visible_offs@;
        let ghost keep = kept(s, pos as int);
        let ghost mk = made(s, pos as int);
        proof {
            assert forall|j: int| 0 <= j < v.len() implies #[trigger] v[j] < pos by {
                assert(v.contains(v[j]));
                before@.lemma_filter_contains_rev(|x: usize| !obscured(obscura@, x), v[j]);
            }
        }
        assert(v == visible(s, pos as int, obscura@));
        let n: usize = if usize_from(self.limit) < visible_offs.len() {
            usize_from(self.limit)
        } else {
            visible_offs.len()
        };
        let mut out: Vec<Ref> = Vec::new();
        let mut i: usize = 0;
        proof {
            reveal(Seq::filter);
            assert(v.take(0) =~= Seq::<usize>::empty());
            assert(v.take(0).filter(keep).map_values(mk) =~= Seq::<Ref>::empty());
        }
        while i < n
            invariant
                self.wf(),
                s == self.bytes(),
                0 < pos,
                pos + 2 < s.len(),
                k0 == s[pos as int],
                k1 == s[pos + 1],
                k2 == s[pos + 2],
                v == visible_offs@,
                keep == kept(s, pos as int),
                mk == made(s, pos as int),
                n <= v.len(),
                i <= n,
                forall|j: int| 0 <= j < v.len() ==> #[trigger] v[j] < pos,
                out@ == v.take(i as int).filter(keep).map_values(mk),
            decreases n - i,
        {
            let off = visible_offs[i];
            proof {
                lemma_filter_push(v.take(i as int), off, keep);
                assert(v.take(i + 1) =~= v.take(i as int).push(off));
            }
            if pos - off <= 32768 && self.get(off) == k0 && self.get(off + 1) == k1 && self.get(off + 2) == k2 {
                let dist = (pos - off) as u16;
                let run = self.possible_run_length_at(pos, dist);
                let found = Ref::new(dist, run);
                out.push(found);
                proof {
                    assert(dist as int == pos - off);
                    assert(run == match_len(s, pos as int, pos - off, run_limit(s, pos as int), 3));
                    assert(found.dist == mk(off).dist);
                    assert(found.run_minus_3 == mk(off).run_minus_3);
                    assert(found == mk(off));
                    assert(out@ =~= v.take(i + 1).filter(keep).map_values(mk));
                }
            } else {
                proof {
                    assert(out@ =~= v.take(i + 1).filter(keep).map_values(mk));
                }
            }
            i += 1;
        }
        Some(out)
    }
}

/// Every reference found at `pos` stands for the bytes there: it reaches back into what
/// came before, and each byte it copies is the one it lands on.
pub proof fn lemma_found_refs_match(s: Seq<u8>, pos: int, by: Seq<(usize, u16)>, limit: int)
    requires
        0 < pos,
        pos + 2 < s.len(),
        0 <= limit,
    ensures
        forall|i: int|
            0 <= i < spec_at(s, pos, by, limit).len() ==> matches_at(
                s,
                pos,
                Code::Reference(#[trigger] spec_at(s, pos, by, limit)[i]),
            ),
{
    let lt = below(pos);
    let chain = chain_positions(s, hash_at(s, pos));
    let before = chain.filter(lt);
    let v = visible(s, pos, by);
    let n = if limit < v.len() { limit } else { v.len() as int };
    let front = v.take(n);
    let kept_offs = front.filter(kept(s, pos));
    assert forall|i: int| 0 <= i < spec_at(s, pos, by, limit).len() implies matches_at(
        s,
        pos,
        Code::Reference(#[trigger] spec_at(s, pos, by, limit)[i]),
    ) by {
        let off = kept_offs[i];
        let r = spec_at(s, pos, by, limit)[i];
        assert(r == ref_from(s, pos, off as int));
        front.lemma_filter_pred(kept(s, pos), i);
        assert(keeps(s, pos, off));
        assert(kept_offs.contains(off));
        front.lemma_filter_contains_rev(kept(s, pos), off);
        let j = choose|j: int| 0 <= j < front.len() && front[j] == off;
        assert(v[j] == off);
        assert(v.contains(off));
        before.lemma_filter_contains_rev(|x: usize| !obscured(by, x), off);
        let k = choose|k: int| 0 <= k < before.len() && before[k] == off;
        chain.lemma_filter_pred(lt, k);
        assert(off < pos);
        let d = pos - off;
        assert(r.dist == d);
        lemma_match_len_matches(s, pos, d, run_limit(s, pos), 3);
        lemma_match_len_range(s, pos, d, run_limit(s, pos), 3);
        assert(spec_run(r) == match_len(s, pos, d, run_limit(s, pos), 3));
        assert forall|q: int| 0 <= q < spec_run(r) implies #[trigger] s[pos + q] == s[pos + q - r.dist] by {
            if q < 3 {
                assert(pos + q - d == off + q);
            }
        }
    }
}

} // verus!
