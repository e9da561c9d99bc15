//! A resizable ring buffer holding a bounded, chronological history.
use std::collections::VecDeque;
use vstd::prelude::*;

verus! {

/// The last `n` elements of `s`, or all of `s` when it is shorter.
pub open spec fn keep_newest<T>(s: Seq<T>, n: nat) -> Seq<T> {
    if s.len() <= n {
        s
    } else {
        s.subrange(s.len() - n, s.len() as int)
    }
}

/// What a ring of capacity `n` holding `s` holds after pushing each of `xs`
/// in turn.
pub open spec fn after_pushes<T>(s: Seq<T>, xs: Seq<T>, n: nat) -> Seq<T>
    decreases xs.len(),
{
    if xs.len() == 0 {
        s
    } else {
        keep_newest(after_pushes(s, xs.drop_last(), n).push(xs.last()), n)
    }
}

/// One more push: a ring of capacity `n` holding `after_pushes(s, xs, n)`
/// holds `after_pushes(s, xs.push(x), n)` once `x` is pushed (by `push`'s
/// contract), so `k` pushes into a fresh ring give `after_pushes` of the
/// `k` values.
pub proof fn lemma_push_step<T>(s: Seq<T>, xs: Seq<T>, x: T, n: nat)
    ensures
        after_pushes(s, xs.push(x), n) == keep_newest(after_pushes(s, xs, n).push(x), n),
{
    assert(xs.push(x).drop_last() =~= xs);
}

/// Pushing values one at a time into a ring of capacity `n` leaves the last
/// `n` values of everything held and pushed, oldest first; once more than
/// `n` values were pushed, that is exactly the last `n` pushed values.
pub proof fn lemma_pushes_keep_newest<T>(s: Seq<T>, xs: Seq<T>, n: nat)
    requires
        s.len() <= n,
    ensures
        after_pushes(s, xs, n) == keep_newest(s + xs, n),
        xs.len() >= n ==> after_pushes(s, xs, n) == xs.subrange(xs.len() - n, xs.len() as int),
    decreases xs.len(),
{
    if xs.len() == 0 {
        assert(s + xs =~= s);
    } else {
        lemma_pushes_keep_newest(s, xs.drop_last(), n);
        let prev = keep_newest(s + xs.drop_last(), n);
        assert(s + xs =~= (s + xs.drop_last()).push(xs.last()));
        assert(keep_newest(prev.push(xs.last()), n) =~= keep_newest(s + xs, n));
    }
    if xs.len() >= n {
        assert(keep_newest(s + xs, n) =~= xs.subrange(xs.len() - n, xs.len() as int));
    }
}

/// Resizing from capacity `c1` to `c2` and back, with no push between,
/// leaves the newest `min(c1, c2)` elements in their order.
pub proof fn lemma_resize_round_trip<T>(s: Seq<T>, c1: nat, c2: nat)
    requires
        s.len() <= c1,
    ensures
        keep_newest(keep_newest(s, c2), c1) == keep_newest(s, if c1 <= c2 { c1 } else { c2 }),
{
    let m = if c1 <= c2 { c1 } else { c2 };
    assert(keep_newest(keep_newest(s, c2), c1) =~= keep_newest(s, m));
}

/// A resizable ring buffer.
///
/// Its view is the held elements oldest first. Internally the newest element
/// sits at the front of the deque.
pub struct Ring<T> {
    elements: VecDeque<T>,
    max_len: usize,
}

impl<T> View for Ring<T> {
    type V = Seq<T>;

    closed spec fn view(&self) -> Seq<T> {
        let n = self.elements@.len();
        Seq::new(n, |i: int| self.elements@[n - 1 - i])
    }
}

impl<T: Copy> Ring<T> {
    /// The capacity: how many elements the ring keeps.
    pub open spec fn capacity(&self) -> nat {
        self.max_len_spec() as nat
    }

    /// The capacity, as a machine integer.
    pub closed spec fn max_len_spec(&self) -> usize {
        self.max_len
    }

    /// The ring never holds more than its capacity.
    pub open spec fn wf(&self) -> bool {
        self@.len() <= self.capacity()
    }

    pub fn new(max_len: usize) -> (r: Self)
        ensures
            r.wf(),
            r@ == Seq::<T>::empty(),
            r.capacity() == max_len,
            r.max_len_spec() == max_len,
    {
        let r = Ring { elements: VecDeque::with_capacity(max_len), max_len };
        assert(r@ =~= Seq::<T>::empty());
        r
    }

    pub fn max_len(&self) -> (r: usize)
        ensures
            r == self.capacity(),
            r == self.max_len_spec(),
    {
        self.max_len
    }

    /// How many elements the ring holds.
    pub fn len(&self) -> (r: usize)
        ensures
            r == self@.len(),
    {
        self.elements.len()
    }

    /// Changes the capacity. Shrinking drops the oldest elements; growing
    /// keeps every element.
    pub fn set_max_len(&mut self, new_max_len: usize)
        requires
            old(self).wf(),
        ensures
            final(self).wf(),
            final(self).capacity() == new_max_len,
            final(self)@ == keep_newest(old(self)@, new_max_len as nat),
    {
        let ghost before = self@;
        self.max_len = new_max_len;
        let len = self.elements.len();
        if new_max_len > len {
            self.elements.reserve(new_max_len - len);
        }
        if new_max_len < len {
            self.elements.truncate(new_max_len);
        }
        assert(self@ =~= keep_newest(before, new_max_len as nat));
    }

    /// The element pushed last, if any.
    pub fn latest(&self) -> (r: Option<&T>)
        ensures
            self@.len() == 0 ==> r is None,
            self@.len() > 0 ==> r == Some(&self@.last()),
    {
        if self.elements.len() == 0 {
            None
        } else {
            Some(&self.elements[0])
        }
    }

    /// Appends `elem` as the newest element, evicting the oldest ones when
    /// the ring is full. A ring of capacity zero keeps nothing.
    pub fn push(&mut self, elem: T)
        requires
            old(self).wf(),
        ensures
            final(self).wf(),
            final(self).capacity() == old(self).capacity(),
            final(self).max_len_spec() == old(self).max_len_spec(),
            final(self)@ == keep_newest(old(self)@.push(elem), old(self).capacity()),
    {
        let ghost before = self@;
        while self.elements.len() >= self.max_len && self.elements.len() > 0
            invariant
                self.elements@.len() <= self.max_len,
                self.max_len == old(self).max_len,
                self.elements@.len() <= before.len(),
                self.elements@.len() == before.len() || self.elements@.len() + 1 >= self.max_len,
                self@ =~= before.subrange(before.len() - self.elements@.len(), before.len() as int),
            decreases self.elements@.len(),
        {
            let ghost prev = self@;
            self.elements.pop_back();
            assert(self@ =~= prev.subrange(1, prev.len() as int));
        }
        let ghost kept = self@;
        if self.max_len > 0 {
            assert(kept.push(elem).len() <= self.max_len);
            assert(kept.push(elem) =~= keep_newest(before.push(elem), self.max_len as nat));
            self.elements.push_front(elem);
            assert(self@ =~= kept.push(elem));
        } else {
            assert(self@ =~= keep_newest(before.push(elem), 0));
        }
    }

    /// The held elements, oldest first.
    pub fn iter_chronological(&self) -> (r: Vec<T>)
        ensures
            r@ == self@,
            self.wf() ==> r@.len() <= self.capacity(),
    {
        let n = self.elements.len();
        let mut out: Vec<T> = Vec::with_capacity(n);
        let mut i: usize = 0;
        while i < n
            invariant
                n == self.elements@.len(),
                i <= n,
                out@ =~= self@.subrange(0, i as int),
            decreases n - i,
        {
            out.push(self.elements[n - 1 - i]);
            i = i + 1;
        }
        assert(out@ =~= self@);
        out
    }
}

} // verus!
