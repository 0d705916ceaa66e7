use vstd::prelude::*;

verus! {

/// Looks up to three items ahead of a sequence. Unlike a lazy peek, the three items are read
/// as soon as there is room for them.
pub struct ThreePeek<T: Copy> {
    inner: Vec<T>,
    next_index: usize,
    first: Option<T>,
    second: Option<T>,
    third: Option<T>,
}

/// The items a slot holds, in order, up to the first empty one.
pub open spec fn held<T>(first: Option<T>, second: Option<T>, third: Option<T>) -> Seq<T> {
    match first {
        None => Seq::empty(),
        Some(a) => match second {
            None => seq![a],
            Some(b) => match third {
                None => seq![a, b],
                Some(c) => seq![a, b, c],
            },
        },
    }
}

impl<T: Copy> ThreePeek<T> {
    pub closed spec fn wf(&self) -> bool {
        &&& self.next_index <= self.inner@.len()
        &&& (self.third is None ==> self.next_index == self.inner@.len())
        &&& (self.second is None ==> self.third is None)
        &&& (self.first is None ==> self.second is None)
    }

    /// The items not handed out yet, in order.
    pub closed spec fn view(&self) -> Seq<T> {
        held(self.first, self.second, self.third) + self.inner@.skip(self.next_index as int)
    }

    fn pull(&mut self) -> (r: Option<T>)
        requires
            old(self).next_index <= old(self).inner@.len(),
        ensures
            final(self).inner == old(self).inner,
            final(self).first == old(self).first,
            final(self).second == old(self).second,
            final(self).third == old(self).third,
            old(self).next_index < old(self).inner@.len() ==> r == Some(old(self).inner@[old(self).next_index as int])
                && final(self).next_index == old(self).next_index + 1,
            old(self).next_index == old(self).inner@.len() ==> r is None && final(self).next_index == old(
                self,
            ).next_index,
    {
        if self.next_index < self.inner.len() {
            let v = self.inner[self.next_index];
            self.next_index += 1;
            Some(v)
        } else {
            None
        }
    }

    pub fn new(inner: Vec<T>) -> (r: Self)
        ensures
            r.wf(),
            r.view() == inner@,
    {
        let mut r = ThreePeek { inner, next_index: 0, first: None, second: None, third: None };
        let first = r.pull();
        let second = r.pull();
        let third = r.pull();
        r.first = first;
        r.second = second;
        r.third = third;
        proof {
            assert(r.view() =~= r.inner@);
        }
        r
    }

    /// The next item, if there is one.
    pub fn next(&mut self) -> (r: Option<T>)
        requires
            old(self).wf(),
        ensures
            final(self).wf(),
            old(self).view().len() == 0 ==> r is None && final(self).view() == old(self).view(),
            old(self).view().len() > 0 ==> r == Some(old(self).view()[0]) && final(self).view() == old(
                self,
            ).view().drop_first(),
    {
        let pulled = self.pull();
        let ret = self.first;
        self.first = self.second;
        self.second = self.third;
        self.third = pulled;
        proof {
            assert(self.view() =~= if old(self).view().len() == 0 {
                old(self).view()
            } else {
                old(self).view().drop_first()
            });
        }
        ret
    }

    /// The next three items, if there are three; one of them is then handed out.
    pub fn next_three(&mut self) -> (r: Option<(T, T, T)>)
        requires
            old(self).wf(),
        ensures
            final(self).wf(),
            old(self).view().len() >= 3 ==> r == Some((old(self).view()[0], old(self).view()[1], old(self).view()[2]))
                && final(self).view() == old(self).view().drop_first(),
            old(self).view().len() < 3 ==> r is None && final(self).view() == old(self).view(),
    {
        if let Some(first) = self.first {
            if let Some(second) = self.second {
                if let Some(third) = self.third {
                    let _ = self.next();
                    return Some((first, second, third));
                }
            }
        }
        None
    }

    /// The next item, left in place.
    pub fn peek(&self) -> (r: Option<T>)
        requires
            self.wf(),
        ensures
            self.view().len() == 0 ==> r is None,
            self.view().len() > 0 ==> r == Some(self.view()[0]),
    {
        self.first
    }
}

/// The items that `k` calls of `next` hand out, from a peeker whose items are `v`: each call
/// hands out the first item left, while there is one.
pub open spec fn handed_out<T>(v: Seq<T>, k: nat) -> Seq<T>
    decreases k,
{
    if k == 0 || v.len() == 0 {
        Seq::empty()
    } else {
        seq![v[0]] + handed_out(v.drop_first(), (k - 1) as nat)
    }
}

/// The items left after `k` calls of `next`.
pub open spec fn left_after<T>(v: Seq<T>, k: nat) -> Seq<T>
    decreases k,
{
    if k == 0 || v.len() == 0 {
        v
    } else {
        left_after(v.drop_first(), (k - 1) as nat)
    }
}

/// Taking every item of a peeker made from a sequence, one call of `next` at a time, hands out
/// exactly that sequence, in order, and leaves nothing, so that the next call gives `None`.
pub proof fn lemma_next_hands_out_all<T>(v: Seq<T>)
    ensures
        handed_out(v, v.len()) == v,
        left_after(v, v.len()).len() == 0,
    decreases v.len(),
{
    if v.len() > 0 {
        lemma_next_hands_out_all(v.drop_first());
        assert(seq![v[0]] + v.drop_first() =~= v);
    }
}

} // verus!
