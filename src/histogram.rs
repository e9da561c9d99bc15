//! Histogram bucketing of floating-point samples.
//!
//! Samples and bucket boundaries arrive as IEEE-754 bit patterns (`to_bits`)
//! and are ordered by their total-order key: negative values below positive
//! ones, larger magnitudes further from zero.
use crate::counts::{counts_of, Counts};
use crate::ring::{after_pushes, keep_newest, lemma_pushes_keep_newest, Ring};
use vstd::prelude::*;

verus! {

/// The sign bit of a 64-bit float.
pub const SIGN_BIT: u64 = 0x8000_0000_0000_0000;

/// The total-order key of a float given by its bits: unsigned comparison of
/// keys orders the floats.
pub open spec fn order_key_spec(bits: u64) -> u64 {
    if bits & SIGN_BIT == 0 {
        bits | SIGN_BIT
    } else {
        !bits
    }
}

/// The total-order key of a float given by its bits.
pub fn order_key(bits: u64) -> (r: u64)
    ensures
        r == order_key_spec(bits),
{
    if bits & SIGN_BIT == 0 {
        bits | SIGN_BIT
    } else {
        !bits
    }
}

/// Keys strictly ascending.
pub open spec fn strictly_sorted(b: Seq<u64>) -> bool {
    forall|i: int, j: int| 0 <= i < j < b.len() ==> b[i] < b[j]
}

/// The bucket of a sample with key `key`: the number of boundaries below it,
/// which for sorted boundaries is the smallest `i` with `b[i] >= key`, or
/// `b.len()` (the last bucket) when there is none.
pub open spec fn bucket_of(b: Seq<u64>, key: u64) -> nat
    decreases b.len(),
{
    if b.len() == 0 {
        0
    } else {
        bucket_of(b.drop_last(), key) + if b.last() < key {
            1nat
        } else {
            0nat
        }
    }
}

/// How many of the samples (float bits) fall into bucket `i`.
pub open spec fn count_in(b: Seq<u64>, samples: Seq<u64>, i: int) -> nat
    decreases samples.len(),
{
    if samples.len() == 0 {
        0
    } else {
        count_in(b, samples.drop_last(), i) + if bucket_of(b, order_key_spec(samples.last())) == i {
            1nat
        } else {
            0nat
        }
    }
}

/// A count held in 32 bits: it stops at `u32::MAX`.
pub open spec fn saturated(n: int) -> u32 {
    if n >= u32::MAX {
        u32::MAX
    } else {
        n as u32
    }
}

/// The bucket counts after adding `samples` to `counts`.
pub open spec fn counts_after(b: Seq<u64>, counts: Seq<u32>, samples: Seq<u64>) -> Seq<u32> {
    Seq::new(counts.len(), |i: int| saturated(counts[i] + count_in(b, samples, i)))
}

/// For sorted boundaries, the bucket is where the boundaries stop being
/// below the key.
pub proof fn lemma_bucket_of_split(b: Seq<u64>, key: u64, r: int)
    requires
        0 <= r <= b.len(),
        forall|j: int| 0 <= j < r ==> b[j] < key,
        forall|j: int| r <= j < b.len() ==> b[j] >= key,
    ensures
        bucket_of(b, key) == r,
    decreases b.len(),
{
    if b.len() > 0 {
        let r2 = if r == b.len() {
            r - 1
        } else {
            r
        };
        lemma_bucket_of_split(b.drop_last(), key, r2);
    }
}

/// A bucket index is at most the number of boundaries.
pub proof fn lemma_bucket_of_bound(b: Seq<u64>, key: u64)
    ensures
        bucket_of(b, key) <= b.len(),
    decreases b.len(),
{
    if b.len() > 0 {
        lemma_bucket_of_bound(b.drop_last(), key);
    }
}

/// The bucket of the sample with key `key`, by binary search over sorted
/// boundaries.
pub fn bucket_index(bounds: &Vec<u64>, key: u64) -> (r: usize)
    requires
        strictly_sorted(bounds@),
    ensures
        r == bucket_of(bounds@, key),
        r <= bounds@.len(),
        forall|j: int| 0 <= j < r ==> bounds@[j] < key,
        r < bounds@.len() ==> bounds@[r as int] >= key,
{
    let mut lo: usize = 0;
    let mut hi: usize = bounds.len();
    while lo < hi
        invariant
            lo <= hi <= bounds@.len(),
            strictly_sorted(bounds@),
            forall|j: int| 0 <= j < lo ==> bounds@[j] < key,
            forall|j: int| hi <= j < bounds@.len() ==> bounds@[j] >= key,
        decreases hi - lo,
    {
        let mid = lo + (hi - lo) / 2;
        if bounds[mid] < key {
            lo = mid + 1;
        } else {
            hi = mid;
        }
    }
    proof {
        lemma_bucket_of_split(bounds@, key, lo as int);
    }
    lo
}

/// Adds one sample (float bits) to the bucket it falls into.
pub(crate) fn add_value_to_bucket(bounds: &Vec<u64>, value: u64, bucket_counts: &mut Counts)
    requires
        strictly_sorted(bounds@),
        counts_of(*old(bucket_counts)).len() == bounds@.len() + 1,
    ensures
        counts_of(*final(bucket_counts)) == counts_after(
            bounds@,
            counts_of(*old(bucket_counts)),
            seq![value],
        ),
{
    let i = bucket_index(bounds, order_key(value));
    let c = bucket_counts.get(i);
    let n = if c == u32::MAX {
        c
    } else {
        c + 1
    };
    bucket_counts.set(i, n);
    proof {
        let s = seq![value];
        assert(s.drop_last() =~= Seq::<u64>::empty());
        assert forall|j: int| count_in(bounds@, s, j) == if j == i as int {
            1nat
        } else {
            0nat
        } by {
            assert(count_in(bounds@, s.drop_last(), j) == 0);
        }
        assert(counts_of(*final(bucket_counts)) =~= counts_after(
            bounds@,
            counts_of(*old(bucket_counts)),
            s,
        ));
    }
}

/// Adds each sample (float bits) to the bucket it falls into.
pub(crate) fn ingest(bounds: &Vec<u64>, samples: &Vec<u64>, bucket_counts: &mut Counts)
    requires
        strictly_sorted(bounds@),
        counts_of(*old(bucket_counts)).len() == bounds@.len() + 1,
    ensures
        counts_of(*final(bucket_counts)) == counts_after(
            bounds@,
            counts_of(*old(bucket_counts)),
            samples@,
        ),
{
    let ghost start = counts_of(*bucket_counts);
    let mut k: usize = 0;
    while k < samples.len()
        invariant
            k <= samples@.len(),
            strictly_sorted(bounds@),
            start.len() == bounds@.len() + 1,
            counts_of(*bucket_counts) =~= counts_after(
                bounds@,
                start,
                samples@.subrange(0, k as int),
            ),
        decreases samples@.len() - k,
    {
        let ghost before = counts_of(*bucket_counts);
        add_value_to_bucket(bounds, samples[k], bucket_counts);
        proof {
            let p = samples@.subrange(0, k as int);
            let p1 = samples@.subrange(0, k + 1);
            assert(p1.drop_last() =~= p);
            let x = samples@[k as int];
            let sx = seq![x];
            assert(sx.drop_last() =~= Seq::<u64>::empty());
            assert forall|j: int| 0 <= j < start.len() implies counts_of(*bucket_counts)[j]
                == saturated(start[j] + count_in(bounds@, p1, j)) by {
                assert(count_in(bounds@, sx.drop_last(), j) == 0);
                assert(count_in(bounds@, p1, j) == count_in(bounds@, p, j) + count_in(bounds@, sx, j));
            }
            assert(counts_of(*bucket_counts) =~= counts_after(bounds@, start, p1));
        }
        k = k + 1;
    }
    assert(samples@.subrange(0, samples@.len() as int) =~= samples@);
}

/// The boundary keys that a list of boundaries (float bits) stands for:
/// every key of an input, and nothing else.
pub open spec fn keys_of(bits: Seq<u64>, x: u64) -> bool {
    exists|i: int| 0 <= i < bits.len() && order_key_spec(bits[i]) == x
}

/// No two of the boundaries (float bits) have the same key.
pub open spec fn distinct_keys(bits: Seq<u64>) -> bool {
    forall|i: int, j: int|
        0 <= i < j < bits.len() ==> order_key_spec(bits[i]) != order_key_spec(bits[j])
}

/// Boundary keys ascending, without duplicates, for the boundaries given as
/// float bits in any order.
pub fn sorted_bound_keys(bits: &Vec<u64>) -> (r: Vec<u64>)
    ensures
        strictly_sorted(r@),
        forall|x: u64| r@.contains(x) <==> keys_of(bits@, x),
        r@.len() <= bits@.len(),
        bits@.len() > 0 ==> r@.len() > 0,
        distinct_keys(bits@) ==> r@.len() == bits@.len(),
{
    let mut out: Vec<u64> = Vec::new();
    let mut k: usize = 0;
    while k < bits.len()
        invariant
            k <= bits@.len(),
            strictly_sorted(out@),
            out@.len() <= k,
            k > 0 ==> out@.len() > 0,
            distinct_keys(bits@) ==> out@.len() == k,
            forall|x: u64| out@.contains(x) <==> keys_of(bits@.subrange(0, k as int), x),
        decreases bits@.len() - k,
    {
        let key = order_key(bits[k]);
        let pos = bucket_index(&out, key);
        let ghost before = out@;
        if pos < out.len() && out[pos] == key {
            proof {
                if distinct_keys(bits@) {
                    assert(before.contains(key));
                    let pre = bits@.subrange(0, k as int);
                    let i = choose|i: int| 0 <= i < pre.len() && order_key_spec(pre[i]) == key;
                    assert(pre[i] == bits@[i]);
                }
            }
        } else {
            out.insert(pos, key);
            assert(out@ =~= before.insert(pos as int, key));
            assert forall|i: int, j: int| 0 <= i < j < out@.len() implies out@[i] < out@[j] by {
                if j < pos {
                } else if i < pos && j == pos {
                } else if i < pos {
                    assert(out@[j] == before[j - 1]);
                } else if i == pos {
                    assert(out@[j] == before[j - 1]);
                    assert(before[pos as int] > key || before[pos as int] == key);
                } else {
                    assert(out@[i] == before[i - 1]);
                    assert(out@[j] == before[j - 1]);
                }
            }
        }
        proof {
            let pre = bits@.subrange(0, k as int);
            let post = bits@.subrange(0, k + 1);
            assert forall|x: u64| out@.contains(x) <==> keys_of(post, x) by {
                if out@.contains(x) {
                    let idx = choose|idx: int| 0 <= idx < out@.len() && out@[idx] == x;
                    if x == key {
                        assert(post[k as int] == bits@[k as int]);
                    } else {
                        if out@.len() != before.len() {
                            if idx < pos {
                                assert(before[idx] == x);
                            } else {
                                assert(before[idx - 1] == x);
                            }
                        }
                        assert(before.contains(x));
                        let i = choose|i: int| 0 <= i < pre.len() && order_key_spec(pre[i]) == x;
                        assert(post[i] == pre[i]);
                    }
                }
                if keys_of(post, x) {
                    let i = choose|i: int| 0 <= i < post.len() && order_key_spec(post[i]) == x;
                    if i == k {
                        if out@.len() == before.len() {
                            assert(out@[pos as int] == x);
                        } else {
                            assert(out@[pos as int] == x);
                        }
                    } else {
                        assert(pre[i] == post[i]);
                        assert(before.contains(x));
                        let idx = choose|idx: int| 0 <= idx < before.len() && before[idx] == x;
                        if out@.len() != before.len() {
                            if idx < pos {
                                assert(out@[idx] == x);
                            } else {
                                assert(out@[idx + 1] == x);
                            }
                        } else {
                            assert(out@[idx] == x);
                        }
                    }
                }
            }
        }
        k = k + 1;
    }
    assert(bits@.subrange(0, bits@.len() as int) =~= bits@);
    out
}

/// `n` zero counts.
pub open spec fn zeros(n: nat) -> Seq<u32> {
    Seq::new(n, |i: int| 0u32)
}

/// Bucket counts of a histogram, either over every sample seen since the
/// last reset (cumulative) or over a sliding window of the newest samples.
pub struct HistogramData {
    bounds: Vec<u64>,
    bucket_counts: Counts,
    window_size: Option<usize>,
    ring: Option<Ring<u64>>,
}

impl HistogramData {
    /// The boundary keys, strictly ascending.
    pub closed spec fn bound_keys(&self) -> Seq<u64> {
        self.bounds@
    }

    /// The count of each bucket; there is one bucket more than boundaries.
    pub closed spec fn counts(&self) -> Seq<u32> {
        counts_of(self.bucket_counts)
    }

    /// The size of the sliding window, or `None` for cumulative counts.
    pub closed spec fn window(&self) -> Option<usize> {
        self.window_size
    }

    /// The samples (float bits) in the sliding window, oldest first.
    pub closed spec fn window_samples(&self) -> Seq<u64> {
        match self.ring {
            Some(r) => r@,
            None => Seq::empty(),
        }
    }

    /// The boundary keys ascend strictly, there is at least one, and there
    /// is one count per bucket; the window holds at most its size.
    pub open spec fn wf(&self) -> bool {
        &&& strictly_sorted(self.bound_keys())
        &&& self.bound_keys().len() >= 1
        &&& self.bound_keys().len() < usize::MAX
        &&& self.counts().len() == self.bound_keys().len() + 1
        &&& self.window() matches Some(w) ==> self.window_samples().len() <= w
        &&& self.window_ok()
    }

    /// The window, when there is one, has the configured size.
    pub closed spec fn window_ok(&self) -> bool {
        match self.ring {
            Some(r) => self.window_size == Some(r.max_len_spec()) && r.wf(),
            None => true,
        }
    }

    /// A histogram over the given boundaries (float bits, in any order), with
    /// all counts zero. `None` when no boundary is given.
    pub fn new(bounds: &Vec<u64>, window_size: Option<usize>) -> (r: Option<Self>)
        requires
            bounds@.len() < usize::MAX,
        ensures
            r is None <==> bounds@.len() == 0,
            r matches Some(h) ==> {
                &&& h.wf()
                &&& forall|x: u64| h.bound_keys().contains(x) <==> keys_of(bounds@, x)
                &&& distinct_keys(bounds@) ==> h.bound_keys().len() == bounds@.len()
                &&& h.counts() == zeros(h.bound_keys().len() + 1)
                &&& h.window() == window_size
                &&& h.window_samples() == Seq::<u64>::empty()
            },
    {
        if bounds.len() == 0 {
            return None;
        }
        let keys = sorted_bound_keys(bounds);
        let n = keys.len() + 1;
        let h = HistogramData {
            bounds: keys,
            bucket_counts: Counts::zeroed(n),
            window_size,
            ring: None,
        };
        assert(h.counts() =~= zeros(h.bound_keys().len() + 1));
        Some(h)
    }

    /// Replaces the boundaries and clears all counts. An empty list is
    /// refused, and the histogram stays as it was.
    pub fn reconfigure(&mut self, bounds: &Vec<u64>) -> (r: bool)
        requires
            old(self).wf(),
            bounds@.len() < usize::MAX,
        ensures
            final(self).wf(),
            r == (bounds@.len() > 0),
            !r ==> *final(self) == *old(self),
            r ==> forall|x: u64| final(self).bound_keys().contains(x) <==> keys_of(bounds@, x),
            r && distinct_keys(bounds@) ==> final(self).bound_keys().len() == bounds@.len(),
            r ==> final(self).counts() == zeros(final(self).bound_keys().len() + 1),
            final(self).window() == old(self).window(),
            final(self).window_samples() == old(self).window_samples(),
    {
        if bounds.len() == 0 {
            return false;
        }
        let keys = sorted_bound_keys(bounds);
        let n = keys.len() + 1;
        self.bounds = keys;
        self.bucket_counts = Counts::zeroed(n);
        assert(self.counts() =~= zeros(self.bound_keys().len() + 1));
        true
    }

    /// Switches between cumulative counts (`None`) and a sliding window of
    /// the given size. Either way the window starts empty; switching to
    /// cumulative counts also clears the counts.
    pub fn set_window_size(&mut self, window_size: Option<usize>)
        requires
            old(self).wf(),
        ensures
            final(self).wf(),
            final(self).window() == window_size,
            final(self).window_samples() == Seq::<u64>::empty(),
            final(self).bound_keys() == old(self).bound_keys(),
            window_size is None ==> final(self).counts() == zeros(old(self).bound_keys().len() + 1),
            window_size is Some ==> final(self).counts() == old(self).counts(),
    {
        match window_size {
            None => {
                self.window_size = None;
                self.ring = None;
                self.bucket_counts = Counts::zeroed(self.bounds.len() + 1);
                assert(self.counts() =~= zeros(self.bound_keys().len() + 1));
            },
            Some(w) => {
                self.window_size = Some(w);
                self.ring = Some(Ring::new(w));
            },
        }
    }

    /// Takes in a block of freshly drained samples (float bits, oldest
    /// first).
    ///
    /// Cumulative: every sample is added to the running counts. Windowed:
    /// the newest samples, at most as many as the window holds, are pushed
    /// into the window oldest first, so the window holds the newest samples
    /// seen; the counts are then recomputed from the whole window.
    pub fn update(&mut self, block: &Vec<u64>)
        requires
            old(self).wf(),
        ensures
            final(self).wf(),
            final(self).bound_keys() == old(self).bound_keys(),
            final(self).window() == old(self).window(),
            old(self).window() is None ==> final(self).counts() == counts_after(
                old(self).bound_keys(),
                old(self).counts(),
                block@,
            ),
            old(self).window() matches Some(w) ==> {
                &&& final(self).window_samples() == keep_newest(
                    old(self).window_samples() + block@,
                    w as nat,
                )
                &&& final(self).counts() == counts_after(
                    old(self).bound_keys(),
                    zeros(old(self).bound_keys().len() + 1),
                    final(self).window_samples(),
                )
            },
    {
        match self.window_size {
            None => {
                ingest(&self.bounds, block, &mut self.bucket_counts);
            },
            Some(w) => {
                self.bucket_counts = Counts::zeroed(self.bounds.len() + 1);
                let mut ring = match self.ring.take() {
                    Some(r) => r,
                    None => Ring::new(w),
                };
                let ghost ring0 = ring@;
                assert(ring0 == old(self).window_samples());
                let cap = ring.max_len();
                let n = block.len();
                let first = if n > cap {
                    n - cap
                } else {
                    0
                };
                let mut k: usize = first;
                assert(block@.subrange(first as int, first as int) =~= Seq::<u64>::empty());
                while k < n
                    invariant
                        ring.wf(),
                        ring.max_len_spec() == w,
                        cap == w,
                        n == block@.len(),
                        first <= k <= n,
                        ring0.len() <= w,
                        ring@ == after_pushes(ring0, block@.subrange(first as int, k as int), w as nat),
                    decreases n - k,
                {
                    ring.push(block[k]);
                    proof {
                        let s1 = block@.subrange(first as int, k + 1);
                        assert(s1.drop_last() =~= block@.subrange(first as int, k as int));
                        assert(s1.last() == block@[k as int]);
                    }
                    k = k + 1;
                }
                proof {
                    let suffix = block@.subrange(first as int, n as int);
                    lemma_pushes_keep_newest(ring0, suffix, w as nat);
                    if n > cap {
                        assert(keep_newest(ring0 + suffix, w as nat) =~= suffix);
                        assert(keep_newest(ring0 + block@, w as nat) =~= suffix);
                    } else {
                        assert(suffix =~= block@);
                    }
                }
                let contents = ring.iter_chronological();
                ingest(&self.bounds, &contents, &mut self.bucket_counts);
                self.ring = Some(ring);
            },
        }
    }

    /// The count of each bucket.
    pub fn bucket_counts(&self) -> (r: Vec<u32>)
        ensures
            r@ == self.counts(),
    {
        let n = self.bucket_counts.len();
        let mut out: Vec<u32> = Vec::with_capacity(n);
        let mut i: usize = 0;
        while i < n
            invariant
                n == self.counts().len(),
                i <= n,
                out@ =~= self.counts().subrange(0, i as int),
            decreases n - i,
        {
            out.push(self.bucket_counts.get(i));
            i = i + 1;
        }
        assert(out@ =~= self.counts());
        out
    }

    /// The boundary keys, strictly ascending.
    pub fn bounds(&self) -> (r: &Vec<u64>)
        ensures
            r@ == self.bound_keys(),
    {
        &self.bounds
    }

    /// The size of the sliding window, or `None` for cumulative counts.
    pub fn window_size(&self) -> (r: Option<usize>)
        ensures
            r == self.window(),
    {
        self.window_size
    }

    /// The samples (float bits) in the sliding window, oldest first.
    pub fn windowed_samples(&self) -> (r: Vec<u64>)
        requires
            self.wf(),
        ensures
            r@ == self.window_samples(),
    {
        match &self.ring {
            Some(r) => r.iter_chronological(),
            None => Vec::new(),
        }
    }
}

/// The sum of all counts.
pub open spec fn total(c: Seq<u32>) -> int
    decreases c.len(),
{
    if c.len() == 0 {
        0
    } else {
        total(c.drop_last()) + c.last()
    }
}

/// How many of the samples (float bits) fall into a bucket below `m`.
pub open spec fn count_below(b: Seq<u64>, samples: Seq<u64>, m: nat) -> nat
    decreases samples.len(),
{
    if samples.len() == 0 {
        0
    } else {
        count_below(b, samples.drop_last(), m) + if bucket_of(b, order_key_spec(samples.last()))
            < m {
            1nat
        } else {
            0nat
        }
    }
}

/// For sorted boundaries, the boundaries below a bucket are below the key
/// and the ones from it on are not.
pub proof fn lemma_bucket_of_sorted(b: Seq<u64>, key: u64)
    requires
        strictly_sorted(b),
    ensures
        bucket_of(b, key) <= b.len(),
        forall|j: int| 0 <= j < bucket_of(b, key) ==> b[j] < key,
        forall|j: int| bucket_of(b, key) <= j < b.len() ==> b[j] >= key,
    decreases b.len(),
{
    if b.len() > 0 {
        let p = b.drop_last();
        assert(strictly_sorted(p)) by {
            assert forall|i: int, j: int| 0 <= i < j < p.len() implies p[i] < p[j] by {
                assert(p[i] == b[i] && p[j] == b[j]);
            }
        }
        lemma_bucket_of_sorted(p, key);
        let r = bucket_of(p, key) as int;
        if b.last() < key {
            if r < p.len() {
                assert(p[r] == b[r]);
                assert(b[r] < b[b.len() - 1]);
            }
            assert forall|j: int| 0 <= j < bucket_of(b, key) implies b[j] < key by {
                if j < p.len() {
                    assert(p[j] == b[j]);
                }
            }
        } else {
            assert forall|j: int| 0 <= j < bucket_of(b, key) implies b[j] < key by {
                assert(p[j] == b[j]);
            }
            assert forall|j: int| bucket_of(b, key) <= j < b.len() implies b[j] >= key by {
                if j < p.len() {
                    assert(p[j] == b[j]);
                }
            }
        }
    }
}

proof fn lemma_count_in_bound(b: Seq<u64>, s: Seq<u64>, i: int)
    ensures
        count_in(b, s, i) <= s.len(),
    decreases s.len(),
{
    if s.len() > 0 {
        lemma_count_in_bound(b, s.drop_last(), i);
    }
}

proof fn lemma_count_below_step(b: Seq<u64>, s: Seq<u64>, m: nat)
    ensures
        count_below(b, s, m + 1) == count_below(b, s, m) + count_in(b, s, m as int),
    decreases s.len(),
{
    if s.len() > 0 {
        lemma_count_below_step(b, s.drop_last(), m);
    }
}

proof fn lemma_total_counts(b: Seq<u64>, s: Seq<u64>, m: nat)
    requires
        s.len() <= u32::MAX,
    ensures
        total(Seq::new(m, |i: int| count_in(b, s, i) as u32)) == count_below(b, s, m),
    decreases m,
{
    lemma_count_below_zero(b, s);
    if m > 0 {
        let prev = (m - 1) as nat;
        lemma_total_counts(b, s, prev);
        assert(Seq::new(m, |i: int| count_in(b, s, i) as u32).drop_last() =~= Seq::new(
            prev,
            |i: int| count_in(b, s, i) as u32,
        ));
        lemma_count_below_step(b, s, prev);
        lemma_count_in_bound(b, s, prev as int);
    }
}

proof fn lemma_count_below_zero(b: Seq<u64>, s: Seq<u64>)
    ensures
        count_below(b, s, 0) == 0,
    decreases s.len(),
{
    if s.len() > 0 {
        lemma_count_below_zero(b, s.drop_last());
    }
}

proof fn lemma_count_below_all(b: Seq<u64>, s: Seq<u64>)
    ensures
        count_below(b, s, b.len() + 1) == s.len(),
    decreases s.len(),
{
    if s.len() > 0 {
        lemma_count_below_all(b, s.drop_last());
        lemma_bucket_of_bound(b, order_key_spec(s.last()));
    }
}

/// A single sample raises exactly one bucket by one: the first whose
/// boundary is at or above the sample, or the last bucket when every
/// boundary is below it.
pub proof fn lemma_single_sample_one_bucket(b: Seq<u64>, counts: Seq<u32>, v: u64)
    requires
        strictly_sorted(b),
        counts.len() == b.len() + 1,
        forall|i: int| 0 <= i < counts.len() ==> counts[i] < u32::MAX,
    ensures
        ({
            let key = order_key_spec(v);
            let i = bucket_of(b, key) as int;
            let after = counts_after(b, counts, seq![v]);
            &&& 0 <= i <= b.len()
            &&& forall|j: int| 0 <= j < i ==> b[j] < key
            &&& i < b.len() ==> b[i] >= key
            &&& after[i] == counts[i] + 1
            &&& forall|j: int| 0 <= j < counts.len() && j != i ==> after[j] == counts[j]
        }),
{
    let key = order_key_spec(v);
    lemma_bucket_of_sorted(b, key);
    let s = seq![v];
    assert(s.drop_last() =~= Seq::<u64>::empty());
    assert forall|j: int| count_in(b, s, j) == if j == bucket_of(b, key) as int {
        1nat
    } else {
        0nat
    } by {
        assert(count_in(b, s.drop_last(), j) == 0);
    }
}

/// In cumulative mode counts only grow: adding samples never lowers a
/// bucket's count.
pub proof fn lemma_cumulative_counts_grow(b: Seq<u64>, counts: Seq<u32>, samples: Seq<u64>)
    ensures
        forall|i: int|
            0 <= i < counts.len() ==> #[trigger] counts_after(b, counts, samples)[i] >= counts[i],
{
}

/// In windowed mode, taking `w + 1` samples into a fresh window of size `w`
/// keeps every sample but the oldest (`block[0]`); each bucket counts the
/// kept samples that fall into it, and the counts add up to exactly `w`.
pub proof fn lemma_window_total(b: Seq<u64>, block: Seq<u64>, w: nat)
    requires
        strictly_sorted(b),
        w >= 1,
        w <= u32::MAX,
        block.len() == w + 1,
    ensures
        ({
            let window = keep_newest(Seq::<u64>::empty() + block, w);
            let counts = counts_after(b, zeros(b.len() + 1), window);
            &&& window == block.subrange(1, block.len() as int)
            &&& forall|i: int|
                0 <= i < counts.len() ==> #[trigger] counts[i] == count_in(b, window, i)
            &&& total(counts) == w
        }),
{
    let window = block.subrange(1, block.len() as int);
    assert(Seq::<u64>::empty() + block =~= block);
    assert(keep_newest(Seq::<u64>::empty() + block, w) =~= window);
    let c = counts_after(b, zeros(b.len() + 1), window);
    assert forall|i: int| 0 <= i < c.len() implies c[i] == count_in(b, window, i) as u32 && #[trigger] c[i]
        == count_in(b, window, i) by {
        lemma_count_in_bound(b, window, i);
    }
    assert(c =~= Seq::new(b.len() + 1, |i: int| count_in(b, window, i) as u32));
    lemma_total_counts(b, window, b.len() + 1);
    lemma_count_below_all(b, window);
}

} // verus!
