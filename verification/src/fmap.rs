//! A small association list from feedback encodings to buckets of
//! words, kept sorted by key: the partition of a candidate set by the
//! feedback each candidate would give against a probe word.

use vstd::prelude::*;

use crate::feedback::fb_encode;
use crate::play::grade;
use crate::word::Word;

verus! {

/// The feedback key of candidate `c` against probe `p`: the compact
/// encoding of the feedback the game would give for `p` if `c` were the
/// secret.
pub open spec fn enc_of(c: Word, p: Word) -> u64 {
    fb_encode(grade(c, p)) as u64
}

/// The number of keys in `m` below `key`: the insertion point keeping
/// the bucket list sorted.
pub open spec fn lb_keys(m: Seq<(u64, Seq<Word>)>, key: u64) -> int
    decreases m.len(),
{
    if m.len() == 0 {
        0
    } else if m[0].0 >= key {
        0
    } else {
        1 + lb_keys(m.drop_first(), key)
    }
}

/// Keys strictly ascending.
pub open spec fn fmap_wf(m: Seq<(u64, Seq<Word>)>) -> bool {
    forall|a: int, b: int| 0 <= a < b < m.len() ==> (#[trigger] m[a].0) < (#[trigger] m[b].0)
}

/// One word filed under its key: the bucket grows, or a fresh singleton
/// bucket is created at the key's sorted position.
pub open spec fn fmap_insert(m: Seq<(u64, Seq<Word>)>, key: u64, w: Word) -> Seq<
    (u64, Seq<Word>),
> {
    let j = lb_keys(m, key);
    if j < m.len() && m[j].0 == key {
        m.update(j, (key, m[j].1.push(w)))
    } else {
        m.insert(j, (key, seq![w]))
    }
}

/// The partition of the first `k` candidates by their feedback key
/// against `probe`.
pub open spec fn groups_upto(cands: Seq<Word>, probe: Word, k: int) -> Seq<(u64, Seq<Word>)>
    decreases k,
{
    if k <= 0 {
        Seq::empty()
    } else {
        fmap_insert(groups_upto(cands, probe, k - 1), enc_of(cands[k - 1], probe), cands[k - 1])
    }
}

/// The partition of a candidate set by feedback against `probe`: each
/// bucket holds the candidates that would answer `probe` identically.
pub open spec fn groups(cands: Seq<Word>, probe: Word) -> Seq<(u64, Seq<Word>)> {
    groups_upto(cands, probe, cands.len() as int)
}

/// The largest bucket size among the first `k` buckets.
pub open spec fn max_bucket_upto(m: Seq<(u64, Seq<Word>)>, k: int) -> int
    decreases k,
{
    if k <= 0 {
        0
    } else if m[k - 1].1.len() > max_bucket_upto(m, k - 1) {
        m[k - 1].1.len() as int
    } else {
        max_bucket_upto(m, k - 1)
    }
}

/// The worst-case bucket size of a partition.
pub open spec fn max_bucket(m: Seq<(u64, Seq<Word>)>) -> int {
    max_bucket_upto(m, m.len() as int)
}

/// The potency cost of the first `k` buckets: the sum of the fourth
/// powers of their sizes, a convex penalty on large ambiguous buckets.
pub open spec fn potency_upto(m: Seq<(u64, Seq<Word>)>, k: int) -> int
    decreases k,
{
    if k <= 0 {
        0
    } else {
        potency_upto(m, k - 1) + m[k - 1].1.len() * m[k - 1].1.len() * m[k - 1].1.len() * m[k
            - 1].1.len()
    }
}

/// The potency cost of a partition.
pub open spec fn potency(m: Seq<(u64, Seq<Word>)>) -> int {
    potency_upto(m, m.len() as int)
}

/// The number of words in the first `k` buckets.
pub open spec fn total_upto(m: Seq<(u64, Seq<Word>)>, k: int) -> int
    decreases k,
{
    if k <= 0 {
        0
    } else {
        total_upto(m, k - 1) + m[k - 1].1.len()
    }
}

/// The number of words filed in a partition.
pub open spec fn total(m: Seq<(u64, Seq<Word>)>) -> int {
    total_upto(m, m.len() as int)
}

/// Bounds and the defining properties of the key insertion point.
proof fn lemma_lb_keys_props(m: Seq<(u64, Seq<Word>)>, key: u64)
    ensures
        0 <= lb_keys(m, key) <= m.len(),
        forall|j: int| 0 <= j < lb_keys(m, key) ==> (#[trigger] m[j].0) < key,
        lb_keys(m, key) < m.len() ==> m[lb_keys(m, key)].0 >= key,
    decreases m.len(),
{
    if m.len() > 0 && m[0].0 < key {
        lemma_lb_keys_props(m.drop_first(), key);
        let lb = lb_keys(m, key);
        assert forall|j: int| 0 <= j < lb implies (#[trigger] m[j].0) < key by {
            if j > 0 {
                assert(m.drop_first()[j - 1] == m[j]);
            }
        }
        if lb < m.len() {
            assert(m.drop_first()[lb - 1] == m[lb]);
        }
    }
}

/// Any index with the defining properties is the key insertion point.
proof fn lemma_lb_keys_is(m: Seq<(u64, Seq<Word>)>, key: u64, r: int)
    requires
        0 <= r <= m.len(),
        forall|j: int| 0 <= j < r ==> (#[trigger] m[j].0) < key,
        r < m.len() ==> m[r].0 >= key,
    ensures
        lb_keys(m, key) == r,
    decreases m.len(),
{
    if m.len() == 0 {
    } else if m[0].0 >= key {
        assert(r == 0);
    } else {
        assert(r >= 1);
        let t = m.drop_first();
        assert forall|j: int| 0 <= j < r - 1 implies (#[trigger] t[j].0) < key by {
            assert(t[j] == m[j + 1]);
        }
        if r - 1 < t.len() {
            assert(t[r - 1] == m[r]);
        }
        lemma_lb_keys_is(t, key, r - 1);
    }
}

/// Filing one word keeps the bucket list sorted, grows the filed count
/// by one, and grows no bucket beyond the filed count.
proof fn lemma_fmap_insert_wf(m: Seq<(u64, Seq<Word>)>, key: u64, w: Word)
    requires
        fmap_wf(m),
    ensures
        fmap_wf(fmap_insert(m, key, w)),
    decreases 0int,
{
    lemma_lb_keys_props(m, key);
    let j = lb_keys(m, key);
    let r = fmap_insert(m, key, w);
    if j < m.len() && m[j].0 == key {
        assert forall|a: int, b: int| 0 <= a < b < r.len() implies (#[trigger] r[a].0) < (
        #[trigger] r[b].0) by {
            assert(r[a].0 == m[a].0 && r[b].0 == m[b].0);
        }
    } else {
        assert forall|a: int, b: int| 0 <= a < b < r.len() implies (#[trigger] r[a].0) < (
        #[trigger] r[b].0) by {
            if b < j {
                assert(r[a] == m[a] && r[b] == m[b]);
            } else if a > j {
                assert(r[a] == m[a - 1] && r[b] == m[b - 1]);
            } else if a == j {
                assert(r[a].0 == key && r[b] == m[b - 1]);
                assert(m[j].0 != key);
            } else if b == j {
                assert(r[a] == m[a] && r[b].0 == key);
            } else {
                assert(r[a] == m[a] && r[b] == m[b - 1]);
                if j < m.len() {
                    assert(m[j].0 != key);
                    assert(m[b - 1].0 >= m[j].0);
                }
            }
        }
    }
}

/// A partition of `k` candidates is well formed, has at most `k`
/// buckets, none larger than `k`, and files exactly `k` words.
pub proof fn lemma_groups_upto_bounds(cands: Seq<Word>, probe: Word, k: int)
    requires
        0 <= k <= cands.len(),
    ensures
        fmap_wf(groups_upto(cands, probe, k)),
        groups_upto(cands, probe, k).len() <= k,
        forall|b: int|
            0 <= b < groups_upto(cands, probe, k).len() ==> (#[trigger] groups_upto(
                cands,
                probe,
                k,
            )[b].1).len() <= k,
        total_upto(groups_upto(cands, probe, k), groups_upto(cands, probe, k).len() as int) == k,
    decreases k,
{
    if k > 0 {
        lemma_groups_upto_bounds(cands, probe, k - 1);
        let m = groups_upto(cands, probe, k - 1);
        let key = enc_of(cands[k - 1], probe);
        let w = cands[k - 1];
        lemma_fmap_insert_wf(m, key, w);
        lemma_lb_keys_props(m, key);
        let j = lb_keys(m, key);
        let r = fmap_insert(m, key, w);
        assert forall|b: int| 0 <= b < r.len() implies (#[trigger] r[b].1).len() <= k by {
            if j < m.len() && m[j].0 == key {
                if b == j {
                } else {
                    assert(r[b] == m[b]);
                }
            } else {
                if b < j {
                    assert(r[b] == m[b]);
                } else if b > j {
                    assert(r[b] == m[b - 1]);
                }
            }
        }
        if j < m.len() && m[j].0 == key {
            lemma_total_update(m, j, w, r.len() as int);
        } else {
            lemma_total_insert(m, j, key, w, r.len() as int);
        }
    }
}

/// Growing one bucket by one word grows the filed count by one.
proof fn lemma_total_update(m: Seq<(u64, Seq<Word>)>, j: int, w: Word, k: int)
    requires
        0 <= j < m.len(),
        0 <= k <= m.len(),
    ensures
        total_upto(m.update(j, (m[j].0, m[j].1.push(w))), k) == total_upto(m, k) + if j < k {
            1int
        } else {
            0int
        },
    decreases k,
{
    if k > 0 {
        lemma_total_update(m, j, w, k - 1);
        let r = m.update(j, (m[j].0, m[j].1.push(w)));
        if k - 1 == j {
        } else {
            assert(r[k - 1] == m[k - 1]);
        }
    }
}

/// A fresh singleton bucket grows the filed count by one.
proof fn lemma_total_insert(m: Seq<(u64, Seq<Word>)>, j: int, key: u64, w: Word, k: int)
    requires
        0 <= j <= m.len(),
        0 <= k <= m.len() + 1,
    ensures
        total_upto(m.insert(j, (key, seq![w])), k) == total_upto(
            m,
            if k <= j {
                k
            } else {
                k - 1
            },
        ) + if j < k {
            1int
        } else {
            0int
        },
    decreases k,
{
    if k > 0 {
        lemma_total_insert(m, j, key, w, k - 1);
        let r = m.insert(j, (key, seq![w]));
        if k - 1 < j {
            assert(r[k - 1] == m[k - 1]);
        } else if k - 1 == j {
        } else {
            assert(r[k - 1] == m[k - 2]);
        }
    }
}

/// The partition of a candidate set, as an executable sorted
/// association list.
pub struct FeedbackMap {
    data: Vec<(u64, Vec<Word>)>,
}

impl View for FeedbackMap {
    type V = Seq<(u64, Seq<Word>)>;

    closed spec fn view(&self) -> Seq<(u64, Seq<Word>)> {
        self.data@.map_values(|e: (u64, Vec<Word>)| (e.0, e.1@))
    }
}

impl FeedbackMap {
    /// An empty partition; the capacity only pre-sizes the allocation.
    pub fn with_capacity(capacity: usize) -> (r: FeedbackMap)
        ensures
            r@ =~= Seq::<(u64, Seq<Word>)>::empty(),
            fmap_wf(r@),
    {
        FeedbackMap { data: Vec::with_capacity(capacity) }
    }

    /// The number of buckets.
    pub fn len(&self) -> (r: usize)
        ensures
            r == self@.len(),
    {
        self.data.len()
    }

    /// Files one word under its feedback key.
    pub fn push_word(&mut self, key: u64, w: Word)
        requires
            fmap_wf(old(self)@),
        ensures
            fmap_wf(final(self)@),
            final(self)@ == fmap_insert(old(self)@, key, w),
    {
        let n = self.data.len();
        let mut j: usize = 0;
        while j < n && self.data[j].0 < key
            invariant
                n == self.data@.len(),
                j <= n,
                forall|x: int| 0 <= x < j ==> (#[trigger] self@[x].0) < key,
            decreases n - j,
        {
            proof {
                assert(self@[j as int].0 == self.data@[j as int].0);
            }
            j += 1;
        }
        proof {
            assert(j < n ==> self@[j as int].0 == self.data@[j as int].0);
            lemma_lb_keys_is(self@, key, j as int);
        }
        let ghost before = self@;
        if j < n && self.data[j].0 == key {
            let (k0, mut b) = self.data.remove(j);
            b.push(w);
            self.data.insert(j, (k0, b));
            proof {
                assert(self@ =~= before.update(j as int, (key, before[j as int].1.push(w))));
                assert(self@ == fmap_insert(before, key, w));
            }
        } else {
            let mut b: Vec<Word> = Vec::new();
            b.push(w);
            self.data.insert(j, (key, b));
            proof {
                assert(b@ =~= seq![w]);
                assert(self@ =~= before.insert(j as int, (key, seq![w])));
                assert(self@ == fmap_insert(before, key, w));
            }
        }
        proof {
            lemma_fmap_insert_wf(before, key, w);
        }
    }

    /// The size of the largest bucket.
    pub fn max_bucket_len(&self) -> (r: usize)
        requires
            forall|b: int| 0 <= b < self@.len() ==> (#[trigger] self@[b].1).len() <= 32,
        ensures
            r == max_bucket(self@),
    {
        let n = self.data.len();
        let mut r: usize = 0;
        let mut k: usize = 0;
        while k < n
            invariant
                n == self.data@.len(),
                k <= n,
                forall|b: int| 0 <= b < n ==> (#[trigger] self@[b].1).len() <= 32,
                r == max_bucket_upto(self@, k as int),
            decreases n - k,
        {
            proof {
                assert(self@[k as int].1 == self.data@[k as int].1@);
            }
            let bl = self.data[k].1.len();
            if bl > r {
                r = bl;
            }
            k += 1;
        }
        r
    }

    /// The potency cost: the sum over buckets of the fourth power of
    /// the bucket size.
    pub fn potency_sum(&self) -> (r: usize)
        requires
            self@.len() <= 32,
            forall|b: int| 0 <= b < self@.len() ==> (#[trigger] self@[b].1).len() <= 32,
        ensures
            r == potency(self@),
            r <= 0x2000000,
    {
        let n = self.data.len();
        let mut r: usize = 0;
        let mut k: usize = 0;
        while k < n
            invariant
                n == self.data@.len(),
                n <= 32,
                k <= n,
                forall|b: int| 0 <= b < n ==> (#[trigger] self@[b].1).len() <= 32,
                r == potency_upto(self@, k as int),
                r <= k * 0x100000,
            decreases n - k,
        {
            proof {
                assert(self@[k as int].1 == self.data@[k as int].1@);
            }
            let bl = self.data[k].1.len();
            proof {
                assert(bl * bl <= 1024 && bl * bl * bl <= 32768 && bl * bl * bl * bl <= 0x100000)
                    by (nonlinear_arith)
                    requires
                        bl <= 32,
                ;
            }
            r = r + bl * bl * bl * bl;
            k += 1;
        }
        r
    }

    /// The number of words filed.
    pub fn total_len(&self) -> (r: usize)
        requires
            self@.len() <= 32,
            forall|b: int| 0 <= b < self@.len() ==> (#[trigger] self@[b].1).len() <= 32,
        ensures
            r == total(self@),
    {
        let n = self.data.len();
        let mut r: usize = 0;
        let mut k: usize = 0;
        while k < n
            invariant
                n == self.data@.len(),
                n <= 32,
                k <= n,
                forall|b: int| 0 <= b < n ==> (#[trigger] self@[b].1).len() <= 32,
                r == total_upto(self@, k as int),
                r <= k * 32,
            decreases n - k,
        {
            proof {
                assert(self@[k as int].1 == self.data@[k as int].1@);
            }
            let bl = self.data[k].1.len();
            r = r + bl;
            k += 1;
        }
        r
    }

    /// The buckets, keyed and in ascending key order.
    pub fn entries(&self) -> (r: &Vec<(u64, Vec<Word>)>)
        ensures
            r@.len() == self@.len(),
            forall|k: int|
                0 <= k < self@.len() ==> (#[trigger] r@[k]).0 == self@[k].0 && r@[k].1@
                    == self@[k].1,
    {
        &self.data
    }
}

} // verus!
