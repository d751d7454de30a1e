//! Aggregation over samples: total weights, per-function self and
//! cumulative counts, and reverse trace search.
//!
//! A sample's weight is its entry in the weight column, or 1 when the
//! column is absent. All aggregation is specified as folds over the
//! sample table in order; the executable code accumulates with explicit
//! overflow checks, so a total that does not fit in `usize` is reported
//! rather than wrapped.

use vstd::prelude::*;

use crate::profile::Profile;
use crate::profile::ProfileError;
use crate::profile::SampleTable;
use crate::profile::Thread;
use crate::tables::Id;
use crate::tables::StringIdx;

verus! {

/// The value of `k` in a count map, counting an absent key as 0.
pub open spec fn spec_get(m: Map<StringIdx, nat>, k: StringIdx) -> nat {
    if m.dom().contains(k) {
        m[k]
    } else {
        0
    }
}

/// Adds `w` to the count of `k`.
pub open spec fn bump_spec(m: Map<StringIdx, nat>, k: StringIdx, w: nat) -> Map<StringIdx, nat> {
    m.insert(k, spec_get(m, k) + w)
}

/// The mapping described by an association list, later entries winning.
pub open spec fn assoc_map(s: Seq<(StringIdx, usize)>) -> Map<StringIdx, nat>
    decreases s.len(),
{
    if s.len() == 0 {
        Map::empty()
    } else {
        assoc_map(s.drop_last()).insert(s.last().0, s.last().1 as nat)
    }
}

/// No two entries of the association list share a key.
pub open spec fn distinct_keys(s: Seq<(StringIdx, usize)>) -> bool {
    forall|a: int, b: int|
        0 <= a < b < s.len() ==> (#[trigger] s[a]).0 != (#[trigger] s[b]).0
}

/// With distinct keys, an association list means exactly its entries:
/// the domain is the set of listed keys and each listed pair is mapped.
proof fn lemma_assoc_map_props(s: Seq<(StringIdx, usize)>)
    requires
        distinct_keys(s),
    ensures
        forall|k: StringIdx|
            #[trigger] assoc_map(s).dom().contains(k) ==> exists|i: int|
                0 <= i < s.len() && (#[trigger] s[i]).0 == k,
        forall|i: int|
            0 <= i < s.len() ==> assoc_map(s).dom().contains((#[trigger] s[i]).0) && assoc_map(s)[s[i].0] == s[i].1 as nat,
    decreases s.len(),
{
    if s.len() > 0 {
        let butlast = s.drop_last();
        lemma_assoc_map_props(butlast);
        assert forall|i: int|
            0 <= i < s.len() implies assoc_map(s).dom().contains((#[trigger] s[i]).0) && assoc_map(s)[s[i].0] == s[i].1 as nat by {
            if i < s.len() - 1 {
                assert(butlast[i] == s[i]);
                assert(s[i].0 != s[s.len() - 1].0);
            }
        }
        assert forall|k: StringIdx| #[trigger] assoc_map(s).dom().contains(k) implies exists|i: int|
            0 <= i < s.len() && (#[trigger] s[i]).0 == k by {
            if k != s.last().0 {
                assert(assoc_map(butlast).dom().contains(k));
                let i = choose|i: int| 0 <= i < butlast.len() && (#[trigger] butlast[i]).0 == k;
                assert(s[i].0 == k);
            } else {
                assert(s[s.len() - 1].0 == k);
            }
        }
    }
}

/// Updating the value of one listed key updates the mapping at that key.
proof fn lemma_assoc_map_update(s: Seq<(StringIdx, usize)>, j: int, v: usize)
    requires
        distinct_keys(s),
        0 <= j < s.len(),
    ensures
        assoc_map(s.update(j, (s[j].0, v))) == assoc_map(s).insert(s[j].0, v as nat),
    decreases s.len(),
{
    let s2 = s.update(j, (s[j].0, v));
    if j == s.len() - 1 {
        assert(s2.drop_last() =~= s.drop_last());
        assert(assoc_map(s2) == assoc_map(s.drop_last()).insert(s[j].0, v as nat));
        assert(assoc_map(s.drop_last()).insert(s[j].0, s[j].1 as nat).insert(s[j].0, v as nat)
            =~= assoc_map(s.drop_last()).insert(s[j].0, v as nat));
    } else {
        let butlast = s.drop_last();
        assert(s2.drop_last() =~= butlast.update(j, (s[j].0, v)));
        assert(butlast[j] == s[j]);
        lemma_assoc_map_update(butlast, j, v);
        assert(s2.last() == s.last());
        assert(assoc_map(s2) == assoc_map(butlast).insert(s[j].0, v as nat).insert(
            s.last().0,
            s.last().1 as nat,
        ));
        // The two inserted keys differ, so the inserts commute.
        assert(s[j].0 != s.last().0);
        assert(assoc_map(butlast).insert(s[j].0, v as nat).insert(s.last().0, s.last().1 as nat)
            =~= assoc_map(butlast).insert(s.last().0, s.last().1 as nat).insert(s[j].0, v as nat));
    }
}

/// A finite mapping from function names (string-table indices) to
/// accumulated sample weights, held as an association vector with
/// distinct keys.
pub struct CountMap {
    entries: Vec<(StringIdx, usize)>,
}

impl CountMap {
    /// The mapping held.
    pub closed spec fn view(self) -> Map<StringIdx, nat> {
        assoc_map(self.entries@)
    }

    /// The keys are distinct, so every entry means what the mapping says.
    pub closed spec fn wf(self) -> bool {
        distinct_keys(self.entries@)
    }

    /// The empty count map.
    pub fn new() -> (r: CountMap)
        ensures
            r.wf(),
            r@ == Map::<StringIdx, nat>::empty(),
    {
        CountMap { entries: Vec::new() }
    }

    /// Adds `w` to the count of `k`.
    pub fn bump(&mut self, k: StringIdx, w: usize)
        requires
            old(self).wf(),
            spec_get(old(self)@, k) + w <= usize::MAX,
        ensures
            final(self).wf(),
            final(self)@ == bump_spec(old(self)@, k, w as nat),
    {
        proof {
            lemma_assoc_map_props(self.entries@);
        }
        let n = self.entries.len();
        let mut i: usize = 0;
        while i < n
            invariant
                *self == *old(self),
                self.wf(),
                spec_get(self@, k) + w <= usize::MAX,
                n == self.entries@.len(),
                i <= n,
                forall|j: int| 0 <= j < i ==> (#[trigger] self.entries@[j]).0 != k,
                forall|j: int|
                    0 <= j < n ==> self@.dom().contains((#[trigger] self.entries@[j]).0) && self@[self.entries@[j].0] == self.entries@[j].1 as nat,
                forall|kk: StringIdx|
                    #[trigger] self@.dom().contains(kk) ==> exists|j: int|
                        0 <= j < n && (#[trigger] self.entries@[j]).0 == kk,
            decreases n - i,
        {
            let (ek, ev) = self.entries[i];
            if ek.idx == k.idx {
                proof {
                    assert(ek == k);
                    assert(ev == spec_get(self@, k));
                    lemma_assoc_map_update(self.entries@, i as int, (ev + w) as usize);
                }
                self.entries.set(i, (k, ev + w));
                proof {
                    assert(self.entries@ =~= old(self).entries@.update(i as int, (k, (ev + w) as usize)));
                    assert(forall|a: int, b: int|
                        0 <= a < b < self.entries@.len() ==> (#[trigger] self.entries@[a]).0 != (
                        #[trigger] self.entries@[b]).0);
                }
                return ;
            }
            i += 1;
        }
        // No entry holds `k` yet.
        proof {
            if self@.dom().contains(k) {
                let j = choose|j: int|
                    0 <= j < self.entries@.len() && (#[trigger] self.entries@[j]).0 == k;
                assert(false);
            }
        }
        let ghost before = self.entries@;
        self.entries.push((k, w));
        proof {
            assert(self.entries@.drop_last() =~= before);
            assert(self@ == assoc_map(before).insert(k, w as nat));
        }
    }

    /// The accumulated count of `k`, or `None` when `k` was never
    /// counted.
    pub fn get(&self, k: StringIdx) -> (r: Option<usize>)
        requires
            self.wf(),
        ensures
            match r {
                Some(v) => self@.dom().contains(k) && v as nat == self@[k],
                None => !self@.dom().contains(k),
            },
    {
        proof {
            lemma_assoc_map_props(self.entries@);
        }
        let n = self.entries.len();
        let mut i: usize = 0;
        while i < n
            invariant
                self.wf(),
                n == self.entries@.len(),
                i <= n,
                forall|j: int| 0 <= j < i ==> (#[trigger] self.entries@[j]).0 != k,
                forall|j: int|
                    0 <= j < n ==> self@.dom().contains((#[trigger] self.entries@[j]).0) && self@[self.entries@[j].0] == self.entries@[j].1 as nat,
                forall|kk: StringIdx|
                    #[trigger] self@.dom().contains(kk) ==> exists|j: int|
                        0 <= j < n && (#[trigger] self.entries@[j]).0 == kk,
            decreases n - i,
        {
            let (ek, ev) = self.entries[i];
            if ek.idx == k.idx {
                proof {
                    assert(ek == k);
                }
                return Some(ev);
            }
            i += 1;
        }
        proof {
            if self@.dom().contains(k) {
                let j = choose|j: int|
                    0 <= j < self.entries@.len() && (#[trigger] self.entries@[j]).0 == k;
                assert(false);
            }
        }
        None
    }

    /// The entries, one per counted key, each mapped as the count map
    /// says.
    pub fn entries(&self) -> (r: &Vec<(StringIdx, usize)>)
        requires
            self.wf(),
        ensures
            forall|i: int|
                0 <= i < r@.len() ==> self@.dom().contains((#[trigger] r@[i]).0) && self@[r@[i].0]
                    == r@[i].1 as nat,
            forall|k: StringIdx|
                #[trigger] self@.dom().contains(k) ==> exists|i: int|
                    0 <= i < r@.len() && (#[trigger] r@[i]).0 == k,
            forall|a: int, b: int|
                0 <= a < b < r@.len() ==> (#[trigger] r@[a]).0 != (#[trigger] r@[b]).0,
    {
        proof {
            lemma_assoc_map_props(self.entries@);
        }
        &self.entries
    }
}

/// The sum of a weight column.
pub open spec fn sum_weights(s: Seq<usize>) -> nat
    decreases s.len(),
{
    if s.len() == 0 {
        0
    } else {
        sum_weights(s.drop_last()) + s.last() as nat
    }
}

/// The sum of a prefix never exceeds the sum of the whole column.
pub proof fn lemma_sum_prefix(s: Seq<usize>, j: int)
    requires
        0 <= j <= s.len(),
    ensures
        sum_weights(s.take(j)) <= sum_weights(s),
    decreases s.len() - j,
{
    if j == s.len() {
        assert(s.take(j) =~= s);
    } else {
        assert(s.take(j + 1).drop_last() =~= s.take(j));
        lemma_sum_prefix(s, j + 1);
    }
}

impl SampleTable {
    /// The total weight of the table: the sum of the weight column, or
    /// the sample count when the column is absent (implicit weight 1).
    pub open spec fn total_weight_spec(self) -> nat {
        match self.weight {
            Some(w) => sum_weights(w@),
            None => self.stack@.len(),
        }
    }

    /// Computes the total weight; `None` exactly when the total does not
    /// fit in `usize`.
    pub fn total_weight(&self) -> (r: Option<usize>)
        ensures
            match r {
                Some(v) => v == self.total_weight_spec(),
                None => self.total_weight_spec() > usize::MAX,
            },
    {
        match &self.weight {
            Some(w) => {
                proof {
                    assert(self.weight matches Some(ww) && ww == *w);
                    assert(self.total_weight_spec() == sum_weights(w@));
                }
                let n = w.len();
                let mut acc: usize = 0;
                let mut i: usize = 0;
                while i < n
                    invariant
                        n == w@.len(),
                        i <= n,
                        acc == sum_weights(w@.take(i as int)),
                        self.total_weight_spec() == sum_weights(w@),
                    decreases n - i,
                {
                    let x = *w.index(Id::new(i));
                    proof {
                        assert(w@.take(i + 1).drop_last() =~= w@.take(i as int));
                    }
                    if acc > usize::MAX - x {
                        proof {
                            assert(w@.take(i + 1).last() == x);
                            assert(sum_weights(w@.take(i + 1)) == acc + x);
                            lemma_sum_prefix(w@, i + 1);
                        }
                        return None;
                    }
                    acc = acc + x;
                    i += 1;
                }
                proof {
                    assert(w@.take(n as int) =~= w@);
                }
                Some(acc)
            },
            None => Some(self.stack.len()),
        }
    }
}

impl Thread {
    /// The weight of sample `s`: its entry in the weight column, or 1
    /// when the column is absent.
    pub open spec fn sample_weight(self, s: int) -> nat {
        match self.samples.weight {
            Some(w) => w@[s] as nat,
            None => 1,
        }
    }
}

/// The sum of the weights of the first `n` samples.
pub open spec fn total_first(t: Thread, n: int) -> nat
    decreases n,
{
    if n <= 0 {
        0
    } else {
        total_first(t, n - 1) + t.sample_weight(n - 1)
    }
}

/// Self counts after the first `n` samples: each sample adds its weight
/// to the leaf (innermost) function of its path, when the path is not
/// empty.
pub open spec fn self_counts(t: Thread, n: int) -> Map<StringIdx, nat>
    decreases n,
{
    if n <= 0 {
        Map::empty()
    } else {
        let m = self_counts(t, n - 1);
        let p = t.sample_path(n - 1);
        if p.len() == 0 {
            m
        } else {
            bump_spec(m, p.last(), t.sample_weight(n - 1))
        }
    }
}

/// Adds `w` once to every key of `ks`.
pub open spec fn bump_all_spec(m: Map<StringIdx, nat>, ks: Set<StringIdx>, w: nat) -> Map<
    StringIdx,
    nat,
> {
    Map::new(
        |k: StringIdx| m.dom().contains(k) || ks.contains(k),
        |k: StringIdx|
            spec_get(m, k) + if ks.contains(k) {
                w
            } else {
                0
            },
    )
}

/// Cumulative counts after the first `n` samples: each sample adds its
/// weight once to every distinct function of its path, so recursion
/// within one sample does not inflate a count.
pub open spec fn cum_counts(t: Thread, n: int) -> Map<StringIdx, nat>
    decreases n,
{
    if n <= 0 {
        Map::empty()
    } else {
        bump_all_spec(cum_counts(t, n - 1), t.sample_path(n - 1).to_set(), t.sample_weight(n - 1))
    }
}

/// No self count exceeds the weight of the samples counted so far.
proof fn lemma_self_counts_bound(t: Thread, n: int)
    ensures
        forall|k: StringIdx| spec_get(self_counts(t, n), k) <= total_first(t, n),
    decreases n,
{
    if n > 0 {
        lemma_self_counts_bound(t, n - 1);
        assert forall|k: StringIdx| spec_get(self_counts(t, n), k) <= total_first(t, n) by {
            assert(spec_get(self_counts(t, n - 1), k) <= total_first(t, n - 1));
        }
    }
}

/// No cumulative count exceeds the weight of the samples counted so far:
/// each sample adds its weight at most once per key.
proof fn lemma_cum_counts_bound(t: Thread, n: int)
    ensures
        forall|k: StringIdx| spec_get(cum_counts(t, n), k) <= total_first(t, n),
    decreases n,
{
    if n > 0 {
        lemma_cum_counts_bound(t, n - 1);
        assert forall|k: StringIdx| spec_get(cum_counts(t, n), k) <= total_first(t, n) by {
            assert(spec_get(cum_counts(t, n - 1), k) <= total_first(t, n - 1));
        }
    }
}

/// With a weight column, the weight of the first `n` samples is the sum
/// of the column's first `n` entries.
proof fn lemma_total_first_is_sum(t: Thread, n: int)
    requires
        t.samples.weight is Some,
        0 <= n <= t.samples.weight.unwrap()@.len(),
    ensures
        total_first(t, n) == sum_weights(t.samples.weight.unwrap()@.take(n)),
    decreases n,
{
    let w = t.samples.weight.unwrap()@;
    if n > 0 {
        lemma_total_first_is_sum(t, n - 1);
        assert(w.take(n).drop_last() =~= w.take(n - 1));
    }
}

/// Without a weight column, the weight of the first `n` samples is `n`.
proof fn lemma_total_first_is_count(t: Thread, n: int)
    requires
        t.samples.weight is None,
        0 <= n,
    ensures
        total_first(t, n) == n,
    decreases n,
{
    if n > 0 {
        lemma_total_first_is_count(t, n - 1);
    }
}

/// The weight of a prefix of the samples never exceeds the thread's
/// total weight.
pub proof fn lemma_total_first_fits(t: Thread, n: int)
    requires
        t.wf(),
        0 <= n <= t.samples.stack@.len(),
    ensures
        total_first(t, n) <= t.samples.total_weight_spec(),
{
    match t.samples.weight {
        Some(w) => {
            lemma_total_first_is_sum(t, n);
            lemma_sum_prefix(w@, n);
        },
        None => {
            lemma_total_first_is_count(t, n);
        },
    }
}

/// Bumping one fresh key folds into a bump-all.
proof fn lemma_bump_all_insert(m: Map<StringIdx, nat>, ks: Set<StringIdx>, k: StringIdx, w: nat)
    requires
        !ks.contains(k),
    ensures
        bump_all_spec(m, ks.insert(k), w) == bump_spec(bump_all_spec(m, ks, w), k, w),
{
    assert(bump_all_spec(m, ks.insert(k), w) =~= bump_spec(bump_all_spec(m, ks, w), k, w));
}

/// Taking one more element inserts it into the prefix's element set.
proof fn lemma_take_to_set_step(s: Seq<StringIdx>, j: int)
    requires
        0 <= j < s.len(),
    ensures
        s.take(j + 1).to_set() == s.take(j).to_set().insert(s[j]),
{
    let a = s.take(j + 1);
    let b = s.take(j);
    assert forall|x: StringIdx| a.to_set().contains(x) implies b.to_set().insert(
        s[j],
    ).contains(x) by {
        let i = choose|i: int| 0 <= i < a.len() && a[i] == x;
        if i < j {
            assert(b[i] == x);
            assert(b.contains(x));
        } else {
            assert(a[j] == s[j]);
        }
    }
    assert forall|x: StringIdx| b.to_set().insert(s[j]).contains(x) implies a.to_set().contains(
        x,
    ) by {
        if b.to_set().contains(x) {
            let i = choose|i: int| 0 <= i < b.len() && b[i] == x;
            assert(a[i] == x);
            assert(a.contains(x));
        } else {
            assert(a[j] == x);
            assert(a.contains(x));
        }
    }
    assert(a.to_set() =~= b.to_set().insert(s[j]));
}

impl Thread {
    /// Per-function sample counts: for every sample, its weight goes to
    /// the self count of the leaf function of its path, and once to the
    /// cumulative count of every distinct function anywhere in its path.
    /// Fails with `CorruptProfile` exactly when the thread's tables are
    /// malformed. The total weight must fit in `usize`, which a caller
    /// checks with `total_samples`; every individual count is then within
    /// bounds.
    pub fn sample_count(&self) -> (r: Result<(CountMap, CountMap), ProfileError>)
        requires
            self.samples.total_weight_spec() <= usize::MAX,
        ensures
            r is Ok <==> self.wf(),
            r matches Ok(pair) ==> pair.0.wf() && pair.0@ == self_counts(
                *self,
                self.samples.stack@.len() as int,
            ) && pair.1.wf() && pair.1@ == cum_counts(*self, self.samples.stack@.len() as int),
            r matches Err(e) ==> e == ProfileError::CorruptProfile,
    {
        if !self.check() {
            return Err(ProfileError::CorruptProfile);
        }
        let mut own = CountMap::new();
        let mut cum = CountMap::new();
        let n = self.samples.stack.len();
        let mut s: usize = 0;
        while s < n
            invariant
                self.wf(),
                self.samples.total_weight_spec() <= usize::MAX,
                n == self.samples.stack@.len(),
                s <= n,
                own.wf(),
                own@ == self_counts(*self, s as int),
                cum.wf(),
                cum@ == cum_counts(*self, s as int),
            decreases n - s,
        {
            let w: usize = match &self.samples.weight {
                Some(wv) => *wv.index(Id::new(s)),
                None => 1,
            };
            proof {
                assert(w as nat == self.sample_weight(s as int));
            }
            let path: Vec<StringIdx> = match *self.samples.stack.index(Id::new(s)) {
                Some(k) => self.resolve_path(k),
                None => Vec::new(),
            };
            proof {
                assert(path@ == self.sample_path(s as int));
                lemma_self_counts_bound(*self, s as int);
                lemma_cum_counts_bound(*self, s as int);
                lemma_total_first_fits(*self, s + 1 as int);
            }
            // Self count: the leaf (innermost) function only.
            if path.len() > 0 {
                let leaf = path[path.len() - 1];
                proof {
                    assert(leaf == self.sample_path(s as int).last());
                }
                own.bump(leaf, w);
            }
            // Cumulative count: every distinct function of the path,
            // each at most once for this sample.
            let len = path.len();
            let mut j: usize = 0;
            while j < len
                invariant
                    self.wf(),
                    self.samples.total_weight_spec() <= usize::MAX,
                    n == self.samples.stack@.len(),
                    s < n,
                    len == path@.len(),
                    j <= len,
                    path@ == self.sample_path(s as int),
                    w as nat == self.sample_weight(s as int),
                    cum.wf(),
                    cum@ == bump_all_spec(
                        cum_counts(*self, s as int),
                        path@.take(j as int).to_set(),
                        w as nat,
                    ),
                decreases len - j,
            {
                let x = path[j];
                // Count only the first occurrence within this path.
                let mut seen = false;
                let mut m: usize = 0;
                while m < j
                    invariant
                        j <= len == path@.len(),
                        m <= j,
                        seen == path@.take(j as int).to_set().contains(path@[j as int]) || !seen
                            && (forall|q: int| 0 <= q < m ==> path@[q] != path@[j as int]),
                        seen ==> path@.take(j as int).to_set().contains(path@[j as int]),
                        x == path@[j as int],
                    decreases j - m,
                {
                    if path[m].idx == x.idx {
                        proof {
                            assert(path@[m as int] == path@[j as int]);
                            assert(path@.take(j as int)[m as int] == path@[j as int]);
                            assert(path@.take(j as int).contains(path@[j as int]));
                        }
                        seen = true;
                    }
                    m += 1;
                }
                proof {
                    lemma_take_to_set_step(path@, j as int);
                    if !seen {
                        if path@.take(j as int).to_set().contains(path@[j as int]) {
                            let q = choose|q: int|
                                0 <= q < j && path@.take(j as int)[q] == path@[j as int];
                            assert(path@[q] == path@[j as int]);
                            assert(false);
                        }
                    }
                }
                if !seen {
                    proof {
                        lemma_cum_counts_bound(*self, s as int);
                        lemma_total_first_fits(*self, s + 1 as int);
                        assert(spec_get(cum@, x) == spec_get(cum_counts(*self, s as int), x));
                        lemma_bump_all_insert(
                            cum_counts(*self, s as int),
                            path@.take(j as int).to_set(),
                            x,
                            w as nat,
                        );
                    }
                    cum.bump(x, w);
                } else {
                    proof {
                        assert(path@.take(j as int).to_set().insert(path@[j as int]) =~= path@.take(
                            j as int,
                        ).to_set());
                    }
                }
                j += 1;
            }
            proof {
                assert(path@.take(len as int) =~= path@);
            }
            s += 1;
        }
        Ok((own, cum))
    }
}

impl Thread {
    /// The total weight of this thread's samples; `None` exactly when it
    /// does not fit in `usize`.
    pub fn total_samples(&self) -> (r: Option<usize>)
        ensures
            match r {
                Some(v) => v == self.samples.total_weight_spec(),
                None => self.samples.total_weight_spec() > usize::MAX,
            },
    {
        self.samples.total_weight()
    }
}

impl Profile {
    /// One total weight per thread; `None` exactly when some thread's
    /// total does not fit in `usize`.
    pub fn total_samples(&self) -> (r: Option<Vec<usize>>)
        ensures
            match r {
                Some(v) => v@.len() == self.threads@.len() && forall|t: int|
                    0 <= t < self.threads@.len() ==> (#[trigger] v@[t])
                        == self.threads@[t].samples.total_weight_spec(),
                None => exists|t: int|
                    0 <= t < self.threads@.len()
                        && (#[trigger] self.threads@[t]).samples.total_weight_spec() > usize::MAX,
            },
    {
        let n = self.threads.len();
        let mut out: Vec<usize> = Vec::new();
        let mut t: usize = 0;
        while t < n
            invariant
                n == self.threads@.len(),
                t <= n,
                out@.len() == t,
                forall|j: int|
                    0 <= j < t ==> (#[trigger] out@[j])
                        == self.threads@[j].samples.total_weight_spec(),
            decreases n - t,
        {
            match self.threads[t].total_samples() {
                Some(v) => {
                    out.push(v);
                },
                None => {
                    return None;
                },
            }
            t += 1;
        }
        Some(out)
    }
}

} // verus!
