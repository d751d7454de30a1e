//! Reverse trace search: for a target function, the total sample weight
//! of every distinct call path that contains it, across all threads.
//!
//! Distinct path orderings are distinct groups; a sample therefore falls
//! into exactly one group, the one keyed by its own path.

use vstd::prelude::*;

use crate::profile::Profile;
use crate::profile::ProfileError;
use crate::profile::Thread;
use crate::stats::total_first;
use crate::tables::Id;
use crate::tables::StringIdx;

verus! {

/// The value of path `k` in a trace map, counting an absent path as 0.
pub open spec fn trace_get(m: Map<Seq<StringIdx>, nat>, k: Seq<StringIdx>) -> nat {
    if m.dom().contains(k) {
        m[k]
    } else {
        0
    }
}

/// Adds `w` to the group of path `k`.
pub open spec fn trace_bump_spec(
    m: Map<Seq<StringIdx>, nat>,
    k: Seq<StringIdx>,
    w: nat,
) -> Map<Seq<StringIdx>, nat> {
    m.insert(k, trace_get(m, k) + w)
}

/// The mapping described by an association list of paths, later entries
/// winning.
pub open spec fn trace_assoc_map(s: Seq<(Vec<StringIdx>, usize)>) -> Map<Seq<StringIdx>, nat>
    decreases s.len(),
{
    if s.len() == 0 {
        Map::empty()
    } else {
        trace_assoc_map(s.drop_last()).insert(s.last().0@, s.last().1 as nat)
    }
}

/// No two entries of the association list hold the same path.
pub open spec fn trace_distinct_keys(s: Seq<(Vec<StringIdx>, usize)>) -> bool {
    forall|a: int, b: int|
        0 <= a < b < s.len() ==> (#[trigger] s[a]).0@ != (#[trigger] s[b]).0@
}

/// With distinct paths, an association list means exactly its entries.
proof fn lemma_trace_assoc_map_props(s: Seq<(Vec<StringIdx>, usize)>)
    requires
        trace_distinct_keys(s),
    ensures
        forall|k: Seq<StringIdx>|
            #[trigger] trace_assoc_map(s).dom().contains(k) ==> exists|i: int|
                0 <= i < s.len() && (#[trigger] s[i]).0@ == k,
        forall|i: int|
            0 <= i < s.len() ==> trace_assoc_map(s).dom().contains((#[trigger] s[i]).0@)
                && trace_assoc_map(s)[s[i].0@] == s[i].1 as nat,
    decreases s.len(),
{
    if s.len() > 0 {
        let butlast = s.drop_last();
        lemma_trace_assoc_map_props(butlast);
        assert forall|i: int|
            0 <= i < s.len() implies trace_assoc_map(s).dom().contains((#[trigger] s[i]).0@)
            && trace_assoc_map(s)[s[i].0@] == s[i].1 as nat by {
            if i < s.len() - 1 {
                assert(butlast[i] == s[i]);
                assert(s[i].0@ != s[s.len() - 1].0@);
            }
        }
        assert forall|k: Seq<StringIdx>| #[trigger] trace_assoc_map(s).dom().contains(k) implies
            exists|i: int| 0 <= i < s.len() && (#[trigger] s[i]).0@ == k by {
            if k != s.last().0@ {
                assert(trace_assoc_map(butlast).dom().contains(k));
                let i = choose|i: int| 0 <= i < butlast.len() && (#[trigger] butlast[i]).0@ == k;
                assert(s[i].0@ == k);
            } else {
                assert(s[s.len() - 1].0@ == k);
            }
        }
    }
}

/// Updating the value of one listed path updates the mapping there.
proof fn lemma_trace_assoc_map_update(s: Seq<(Vec<StringIdx>, usize)>, j: int, p: Vec<StringIdx>, v: usize)
    requires
        trace_distinct_keys(s),
        0 <= j < s.len(),
        p@ == s[j].0@,
    ensures
        trace_assoc_map(s.update(j, (p, v))) == trace_assoc_map(s).insert(s[j].0@, v as nat),
    decreases s.len(),
{
    let s2 = s.update(j, (p, v));
    if j == s.len() - 1 {
        assert(s2.drop_last() =~= s.drop_last());
        assert(trace_assoc_map(s2) == trace_assoc_map(s.drop_last()).insert(p@, v as nat));
        assert(trace_assoc_map(s.drop_last()).insert(s[j].0@, s[j].1 as nat).insert(
            s[j].0@,
            v as nat,
        ) =~= trace_assoc_map(s.drop_last()).insert(s[j].0@, v as nat));
    } else {
        let butlast = s.drop_last();
        assert(s2.drop_last() =~= butlast.update(j, (p, v)));
        assert(butlast[j] == s[j]);
        lemma_trace_assoc_map_update(butlast, j, p, v);
        assert(s2.last() == s.last());
        assert(trace_assoc_map(s2) == trace_assoc_map(butlast).insert(s[j].0@, v as nat).insert(
            s.last().0@,
            s.last().1 as nat,
        ));
        assert(s[j].0@ != s.last().0@);
        assert(trace_assoc_map(butlast).insert(s[j].0@, v as nat).insert(
            s.last().0@,
            s.last().1 as nat,
        ) =~= trace_assoc_map(butlast).insert(s.last().0@, s.last().1 as nat).insert(
            s[j].0@,
            v as nat,
        ));
    }
}

/// Whether two call paths are the same sequence of names.
fn keys_equal(a: &Vec<StringIdx>, b: &Vec<StringIdx>) -> (r: bool)
    ensures
        r <==> a@ == b@,
{
    if a.len() != b.len() {
        return false;
    }
    let n = a.len();
    let mut i: usize = 0;
    while i < n
        invariant
            n == a@.len() == b@.len(),
            i <= n,
            forall|j: int| 0 <= j < i ==> a@[j] == b@[j],
        decreases n - i,
    {
        if a[i].idx != b[i].idx {
            proof {
                assert(a@[i as int] != b@[i as int]);
            }
            return false;
        }
        proof {
            assert(a@[i as int] == b@[i as int]);
        }
        i += 1;
    }
    proof {
        assert(a@ =~= b@);
    }
    true
}

/// A finite mapping from call paths to accumulated sample weights, held
/// as an association vector with distinct paths.
pub struct TraceMap {
    entries: Vec<(Vec<StringIdx>, usize)>,
}

impl TraceMap {
    /// The mapping held.
    pub closed spec fn view(self) -> Map<Seq<StringIdx>, nat> {
        trace_assoc_map(self.entries@)
    }

    /// The paths are distinct, so every entry means what the mapping
    /// says.
    pub closed spec fn wf(self) -> bool {
        trace_distinct_keys(self.entries@)
    }

    /// The empty trace map.
    pub fn new() -> (r: TraceMap)
        ensures
            r.wf(),
            r@ == Map::<Seq<StringIdx>, nat>::empty(),
    {
        TraceMap { entries: Vec::new() }
    }

    /// Adds `w` to the group of path `k`.
    pub fn bump(&mut self, k: Vec<StringIdx>, w: usize)
        requires
            old(self).wf(),
            trace_get(old(self)@, k@) + w <= usize::MAX,
        ensures
            final(self).wf(),
            final(self)@ == trace_bump_spec(old(self)@, k@, w as nat),
    {
        proof {
            lemma_trace_assoc_map_props(self.entries@);
        }
        let n = self.entries.len();
        let mut i: usize = 0;
        while i < n
            invariant
                *self == *old(self),
                self.wf(),
                trace_get(self@, k@) + w <= usize::MAX,
                n == self.entries@.len(),
                i <= n,
                forall|j: int| 0 <= j < i ==> (#[trigger] self.entries@[j]).0@ != k@,
                forall|j: int|
                    0 <= j < n ==> self@.dom().contains((#[trigger] self.entries@[j]).0@)
                        && self@[self.entries@[j].0@] == self.entries@[j].1 as nat,
                forall|kk: Seq<StringIdx>|
                    #[trigger] self@.dom().contains(kk) ==> exists|j: int|
                        0 <= j < n && (#[trigger] self.entries@[j]).0@ == kk,
            decreases n - i,
        {
            let hit = keys_equal(&self.entries[i].0, &k);
            if hit {
                let ev = self.entries[i].1;
                proof {
                    assert(ev == trace_get(self@, k@));
                    lemma_trace_assoc_map_update(self.entries@, i as int, k, (ev + w) as usize);
                }
                let ghost before = self.entries@;
                self.entries.set(i, (k, ev + w));
                proof {
                    assert(self.entries@ =~= before.update(i as int, self.entries@[i as int]));
                    assert(forall|a: int, b: int|
                        0 <= a < b < self.entries@.len() ==> (#[trigger] self.entries@[a]).0@ != (
                        #[trigger] self.entries@[b]).0@);
                }
                return ;
            }
            i += 1;
        }
        // No group holds this path yet.
        proof {
            if self@.dom().contains(k@) {
                let j = choose|j: int|
                    0 <= j < self.entries@.len() && (#[trigger] self.entries@[j]).0@ == k@;
                assert(false);
            }
        }
        let ghost before = self.entries@;
        self.entries.push((k, w));
        proof {
            assert(self.entries@.drop_last() =~= before);
            assert(self@ == trace_assoc_map(before).insert(self.entries@.last().0@, w as nat));
        }
    }

    /// The accumulated weight of the group of path `k`, or `None` when
    /// no sample with that path was counted.
    pub fn get(&self, k: &Vec<StringIdx>) -> (r: Option<usize>)
        requires
            self.wf(),
        ensures
            match r {
                Some(v) => self@.dom().contains(k@) && v as nat == self@[k@],
                None => !self@.dom().contains(k@),
            },
    {
        proof {
            lemma_trace_assoc_map_props(self.entries@);
        }
        let n = self.entries.len();
        let mut i: usize = 0;
        while i < n
            invariant
                self.wf(),
                n == self.entries@.len(),
                i <= n,
                forall|j: int| 0 <= j < i ==> (#[trigger] self.entries@[j]).0@ != k@,
                forall|j: int|
                    0 <= j < n ==> self@.dom().contains((#[trigger] self.entries@[j]).0@)
                        && self@[self.entries@[j].0@] == self.entries@[j].1 as nat,
                forall|kk: Seq<StringIdx>|
                    #[trigger] self@.dom().contains(kk) ==> exists|j: int|
                        0 <= j < n && (#[trigger] self.entries@[j]).0@ == kk,
            decreases n - i,
        {
            if keys_equal(&self.entries[i].0, k) {
                return Some(self.entries[i].1);
            }
            i += 1;
        }
        proof {
            if self@.dom().contains(k@) {
                let j = choose|j: int|
                    0 <= j < self.entries@.len() && (#[trigger] self.entries@[j]).0@ == k@;
                assert(false);
            }
        }
        None
    }

    /// The groups, one per counted path, each mapped as the trace map
    /// says.
    pub fn entries(&self) -> (r: &Vec<(Vec<StringIdx>, usize)>)
        requires
            self.wf(),
        ensures
            forall|i: int|
                0 <= i < r@.len() ==> self@.dom().contains((#[trigger] r@[i]).0@)
                    && self@[r@[i].0@] == r@[i].1 as nat,
            forall|k: Seq<StringIdx>|
                #[trigger] self@.dom().contains(k) ==> exists|i: int|
                    0 <= i < r@.len() && (#[trigger] r@[i]).0@ == k,
            forall|a: int, b: int|
                0 <= a < b < r@.len() ==> (#[trigger] r@[a]).0@ != (#[trigger] r@[b]).0@,
    {
        proof {
            lemma_trace_assoc_map_props(self.entries@);
        }
        &self.entries
    }
}

/// Weight accumulated into path groups by the first `n` samples of one
/// thread, on top of the groups `m0` accumulated before.
pub open spec fn thread_traces(
    t: Thread,
    target: StringIdx,
    m0: Map<Seq<StringIdx>, nat>,
    n: int,
) -> Map<Seq<StringIdx>, nat>
    decreases n,
{
    if n <= 0 {
        m0
    } else {
        let m = thread_traces(t, target, m0, n - 1);
        let p = t.sample_path(n - 1);
        if p.contains(target) {
            trace_bump_spec(m, p, t.sample_weight(n - 1))
        } else {
            m
        }
    }
}

/// Weight accumulated into path groups by the first `k` threads.
pub open spec fn profile_traces(p: Profile, target: StringIdx, k: int) -> Map<Seq<StringIdx>, nat>
    decreases k,
{
    if k <= 0 {
        Map::empty()
    } else {
        thread_traces(
            p.threads@[k - 1],
            target,
            profile_traces(p, target, k - 1),
            p.threads@[k - 1].samples.stack@.len() as int,
        )
    }
}

/// The total weight of the first `k` threads.
pub open spec fn profile_total_weight(p: Profile, k: int) -> nat
    decreases k,
{
    if k <= 0 {
        0
    } else {
        profile_total_weight(p, k - 1) + p.threads@[k - 1].samples.total_weight_spec()
    }
}

/// No group accumulated from one thread exceeds what was there before
/// plus the weight of the samples folded in.
proof fn lemma_thread_traces_bound(
    t: Thread,
    target: StringIdx,
    m0: Map<Seq<StringIdx>, nat>,
    n: int,
    bound: nat,
)
    requires
        forall|q: Seq<StringIdx>| trace_get(m0, q) <= bound,
    ensures
        forall|q: Seq<StringIdx>|
            trace_get(thread_traces(t, target, m0, n), q) <= bound + total_first(t, n),
    decreases n,
{
    if n > 0 {
        lemma_thread_traces_bound(t, target, m0, n - 1, bound);
        assert forall|q: Seq<StringIdx>|
            trace_get(thread_traces(t, target, m0, n), q) <= bound + total_first(t, n) by {
            assert(trace_get(thread_traces(t, target, m0, n - 1), q) <= bound + total_first(
                t,
                n - 1,
            ));
        }
    }
}

/// No group exceeds the total weight of the threads folded in.
proof fn lemma_profile_traces_bound(p: Profile, target: StringIdx, k: int)
    requires
        p.wf(),
        0 <= k <= p.threads@.len(),
    ensures
        forall|q: Seq<StringIdx>|
            trace_get(profile_traces(p, target, k), q) <= profile_total_weight(p, k),
    decreases k,
{
    if k > 0 {
        lemma_profile_traces_bound(p, target, k - 1);
        let t = p.threads@[k - 1];
        let n = t.samples.stack@.len() as int;
        crate::stats::lemma_total_first_fits(t, n);
        lemma_thread_traces_bound(
            t,
            target,
            profile_traces(p, target, k - 1),
            n,
            profile_total_weight(p, k - 1),
        );
    }
}

impl Profile {
    /// For every sample in every thread whose call path contains
    /// `target`, adds the sample's weight to the group keyed by that
    /// exact path. Fails with `CorruptProfile` exactly when some
    /// thread's tables are malformed. The profile's total weight must
    /// fit in `usize`, which a caller checks with `total_samples`.
    pub fn reverse_search(&self, target: StringIdx) -> (r: Result<TraceMap, ProfileError>)
        requires
            profile_total_weight(*self, self.threads@.len() as int) <= usize::MAX,
        ensures
            r is Ok <==> self.wf(),
            r matches Ok(m) ==> m.wf() && m@ == profile_traces(
                *self,
                target,
                self.threads@.len() as int,
            ),
            r matches Err(e) ==> e == ProfileError::CorruptProfile,
    {
        if !self.check() {
            return Err(ProfileError::CorruptProfile);
        }
        let mut out = TraceMap::new();
        let n_threads = self.threads.len();
        let mut ti: usize = 0;
        while ti < n_threads
            invariant
                self.wf(),
                profile_total_weight(*self, self.threads@.len() as int) <= usize::MAX,
                n_threads == self.threads@.len(),
                ti <= n_threads,
                out.wf(),
                out@ == profile_traces(*self, target, ti as int),
            decreases n_threads - ti,
        {
            let t = &self.threads[ti];
            let n = t.samples.stack.len();
            let mut s: usize = 0;
            while s < n
                invariant
                    self.wf(),
                    profile_total_weight(*self, self.threads@.len() as int) <= usize::MAX,
                    n_threads == self.threads@.len(),
                    ti < n_threads,
                    *t == self.threads@[ti as int],
                    t.wf(),
                    n == t.samples.stack@.len(),
                    s <= n,
                    out.wf(),
                    out@ == thread_traces(
                        *t,
                        target,
                        profile_traces(*self, target, ti as int),
                        s as int,
                    ),
                decreases n - s,
            {
                let w: usize = match &t.samples.weight {
                    Some(wv) => *wv.index(Id::new(s)),
                    None => 1,
                };
                proof {
                    assert(w as nat == t.sample_weight(s as int));
                }
                let path: Vec<StringIdx> = match *t.samples.stack.index(Id::new(s)) {
                    Some(k) => t.resolve_path(k),
                    None => Vec::new(),
                };
                proof {
                    assert(path@ == t.sample_path(s as int));
                }
                // Does the path contain the target?
                let mut found = false;
                let len = path.len();
                let mut j: usize = 0;
                while j < len
                    invariant
                        len == path@.len(),
                        j <= len,
                        found ==> path@.contains(target),
                        !found ==> forall|q: int| 0 <= q < j ==> path@[q] != target,
                    decreases len - j,
                {
                    if path[j].idx == target.idx {
                        proof {
                            assert(path@[j as int] == target);
                        }
                        found = true;
                    }
                    j += 1;
                }
                proof {
                    if !found && path@.contains(target) {
                        let q = choose|q: int| 0 <= q < path@.len() && path@[q] == target;
                        assert(false);
                    }
                }
                if found {
                    proof {
                        lemma_profile_traces_bound(*self, target, ti as int);
                        lemma_thread_traces_bound(
                            *t,
                            target,
                            profile_traces(*self, target, ti as int),
                            s as int,
                            profile_total_weight(*self, ti as int),
                        );
                        crate::stats::lemma_total_first_fits(*t, s + 1 as int);
                        lemma_profile_total_weight_monotone(*self, ti + 1 as int);
                    }
                    out.bump(path, w);
                }
                s += 1;
            }
            ti += 1;
        }
        Ok(out)
    }
}

/// The total weight of a prefix of the threads never exceeds the total
/// weight of all of them.
proof fn lemma_profile_total_weight_monotone(p: Profile, k: int)
    requires
        0 <= k <= p.threads@.len(),
    ensures
        profile_total_weight(p, k) <= profile_total_weight(p, p.threads@.len() as int),
    decreases p.threads@.len() - k,
{
    if k < p.threads@.len() {
        lemma_profile_total_weight_monotone(p, k + 1);
    }
}

} // verus!
