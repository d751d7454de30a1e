//! Laws of the exclusion engine and of reverse search, proved from the
//! contracts of the operations in this crate.

use vstd::prelude::*;

use crate::exclude::down_links;
use crate::exclude::excluded_frames;
use crate::exclude::excluded_funcs;
use crate::exclude::excluded_profile_with;
use crate::exclude::excluded_stacks;
use crate::exclude::excluded_thread_with;
use crate::exclude::lemma_live_parent_downward;
use crate::exclude::lemma_live_parent_not_excluded;
use crate::exclude::live_parent;
use crate::profile::Profile;
use crate::profile::Thread;
use crate::tables::StackIdx;
use crate::tables::StringIdx;
use crate::traces::profile_traces;
use crate::traces::thread_traces;
use crate::traces::trace_get;

verus! {

/// The excluded stack-node set depends only on the string, function and
/// frame data, which exclusion leaves unchanged: recomputing it on the
/// excluded thread gives the same set.
proof fn lemma_excluded_stacks_stable(t1: Thread, t0: Thread, xs: Set<int>)
    requires
        excluded_thread_with(t1, t0, xs),
    ensures
        excluded_stacks(t1, xs) == excluded_stacks(t0, xs),
{
    assert(excluded_funcs(t1, xs) =~= excluded_funcs(t0, xs));
    assert(excluded_frames(t1, xs) =~= excluded_frames(t0, xs));
    assert(excluded_stacks(t1, xs) =~= excluded_stacks(t0, xs));
}

/// No dangling parents: after exclusion, no stack node's parent link
/// points at an excluded stack node.
pub proof fn lemma_no_dangling_parents(t1: Thread, t0: Thread, xs: Set<int>)
    requires
        excluded_thread_with(t1, t0, xs),
    ensures
        forall|i: int|
            0 <= i < t1.stack_table.prefix@.len() ==> ((#[trigger] t1.stack_table.prefix@[i])
                matches Some(p) ==> !excluded_stacks(t1, xs).contains(p.idx as int)),
{
    lemma_excluded_stacks_stable(t1, t0, xs);
    let ex = excluded_stacks(t0, xs);
    let pre0 = t0.stack_table.prefix@;
    assert forall|i: int| 0 <= i < t1.stack_table.prefix@.len() implies ((
    #[trigger] t1.stack_table.prefix@[i]) matches Some(p) ==> !excluded_stacks(t1, xs).contains(
        p.idx as int,
    )) by {
        lemma_live_parent_not_excluded(pre0, ex, i);
    }
}

/// Weight conservation: exclusion changes neither the weight column nor
/// the sample count, so the total weight of a thread is unchanged.
pub proof fn lemma_exclude_preserves_total_weight(t1: Thread, t0: Thread, xs: Set<int>)
    requires
        excluded_thread_with(t1, t0, xs),
    ensures
        t1.samples.total_weight_spec() == t0.samples.total_weight_spec(),
{
}

/// Weight conservation for a whole profile: every thread's total weight
/// is unchanged by exclusion.
pub proof fn lemma_exclude_preserves_totals(p1: Profile, p0: Profile, xs: Set<int>)
    requires
        excluded_profile_with(p1, p0, xs),
    ensures
        forall|t: int|
            0 <= t < p0.threads@.len() ==> (#[trigger] p1.threads@[t]).samples.total_weight_spec()
                == p0.threads@[t].samples.total_weight_spec(),
{
    assert forall|t: int|
        0 <= t < p0.threads@.len() implies (#[trigger] p1.threads@[t]).samples.total_weight_spec()
        == p0.threads@[t].samples.total_weight_spec() by {
        lemma_exclude_preserves_total_weight(p1.threads@[t], p0.threads@[t], xs);
    }
}

/// Idempotence, one thread: excluding the same string set twice yields
/// the same tables as excluding it once.
pub proof fn lemma_exclude_thread_idempotent(t2: Thread, t1: Thread, t0: Thread, xs: Set<int>)
    requires
        t0.wf(),
        excluded_thread_with(t1, t0, xs),
        excluded_thread_with(t2, t1, xs),
    ensures
        t2.stack_table.prefix@ == t1.stack_table.prefix@,
        t2.samples.stack@ == t1.samples.stack@,
        t2.stack_table.frame == t1.stack_table.frame,
        t2.stack_table.length == t1.stack_table.length,
        t2.samples.weight == t1.samples.weight,
        t2.func_table == t1.func_table,
        t2.frame_table == t1.frame_table,
        t2.name == t1.name,
{
    lemma_excluded_stacks_stable(t1, t0, xs);
    let ex = excluded_stacks(t0, xs);
    let pre0 = t0.stack_table.prefix@;
    let pre1 = t1.stack_table.prefix@;
    // Every parent link of `t1` is already a first non-excluded
    // ancestor, so the second squash leaves it alone.
    assert forall|i: int| 0 <= i < pre1.len() implies #[trigger] live_parent(pre1, ex, i)
        == pre1[i] by {
        lemma_live_parent_not_excluded(pre0, ex, i);
    }
    assert(t2.stack_table.prefix@ =~= t1.stack_table.prefix@);
    // Every sample of `t1` is absent or points at a non-excluded node,
    // so the second reattribution leaves it alone.
    assert forall|s: int| 0 <= s < t1.samples.stack@.len() implies #[trigger] t2.samples.stack@[s]
        == t1.samples.stack@[s] by {
        match t0.samples.stack@[s] {
            Some(k) => {
                if ex.contains(k.idx as int) {
                    lemma_live_parent_not_excluded(pre0, ex, k.idx as int);
                }
            },
            None => {},
        }
    }
    assert(t2.samples.stack@ =~= t1.samples.stack@);
}

/// Idempotence, whole profile: excluding the same string set twice
/// yields the same tables as excluding it once.
pub proof fn lemma_exclude_idempotent(p2: Profile, p1: Profile, p0: Profile, xs: Set<int>)
    requires
        p0.wf(),
        excluded_profile_with(p1, p0, xs),
        excluded_profile_with(p2, p1, xs),
    ensures
        forall|t: int|
            0 <= t < p1.threads@.len() ==> {
                let a = #[trigger] p2.threads@[t];
                let b = p1.threads@[t];
                a.stack_table.prefix@ == b.stack_table.prefix@ && a.samples.stack@
                    == b.samples.stack@ && a.stack_table.frame == b.stack_table.frame
                    && a.stack_table.length == b.stack_table.length && a.samples.weight
                    == b.samples.weight && a.func_table == b.func_table && a.frame_table
                    == b.frame_table && a.name == b.name
            },
        p2.shared == p1.shared,
        p2.threads@.len() == p1.threads@.len(),
{
    assert forall|t: int|
        0 <= t < p1.threads@.len() implies {
        let a = #[trigger] p2.threads@[t];
        let b = p1.threads@[t];
        a.stack_table.prefix@ == b.stack_table.prefix@ && a.samples.stack@ == b.samples.stack@
            && a.stack_table.frame == b.stack_table.frame && a.stack_table.length
            == b.stack_table.length && a.samples.weight == b.samples.weight && a.func_table
            == b.func_table && a.frame_table == b.frame_table && a.name == b.name
    } by {
        lemma_exclude_thread_idempotent(p2.threads@[t], p1.threads@[t], p0.threads@[t], xs);
    }
}

/// A first non-excluded ancestor has a strictly shorter call path than
/// the node it was found from.
proof fn lemma_live_parent_path_shorter(t0: Thread, ex: Set<int>, j: int)
    requires
        t0.wf(),
        0 <= j < t0.stack_table.prefix@.len(),
    ensures
        live_parent(t0.stack_table.prefix@, ex, j) matches Some(p) ==> t0.spec_path(
            p.idx as int,
        ).len() < t0.spec_path(j).len(),
    decreases j,
{
    let pre0 = t0.stack_table.prefix@;
    match pre0[j] {
        Some(q) => {
            assert(q.idx < j);
            if ex.contains(q.idx as int) {
                lemma_live_parent_path_shorter(t0, ex, q.idx as int);
            }
        },
        None => {},
    }
}

/// After a squash, every node's call path is at most as long as before.
proof fn lemma_spec_path_len(t1: Thread, t0: Thread, xs: Set<int>, j: int)
    requires
        t0.wf(),
        excluded_thread_with(t1, t0, xs),
        0 <= j < t1.stack_table.prefix@.len(),
    ensures
        t1.spec_path(j).len() <= t0.spec_path(j).len(),
    decreases j,
{
    let ex = excluded_stacks(t0, xs);
    let pre0 = t0.stack_table.prefix@;
    lemma_live_parent_downward(pre0, ex, j);
    match t1.stack_table.prefix@[j] {
        Some(p) => {
            lemma_spec_path_len(t1, t0, xs, p.idx as int);
            lemma_live_parent_path_shorter(t0, ex, j);
            assert(t1.spec_path(j) == t1.spec_path(p.idx as int).push(t1.stack_name(j)));
        },
        None => {
            assert(t1.spec_path(j).len() == 1);
            assert(t0.spec_path(j).len() >= 1);
        },
    }
}

/// Path monotonicity: exclusion only ever shortens a sample's call
/// path, or leaves its length unchanged; it never lengthens one.
pub proof fn lemma_path_monotonic(t1: Thread, t0: Thread, xs: Set<int>)
    requires
        t0.wf(),
        excluded_thread_with(t1, t0, xs),
    ensures
        forall|s: int|
            0 <= s < t0.samples.stack@.len() ==> (#[trigger] t1.sample_path(s)).len()
                <= t0.sample_path(s).len(),
{
    let ex = excluded_stacks(t0, xs);
    let pre0 = t0.stack_table.prefix@;
    assert forall|s: int| 0 <= s < t0.samples.stack@.len() implies (#[trigger] t1.sample_path(
        s,
    )).len() <= t0.sample_path(s).len() by {
        match t0.samples.stack@[s] {
            Some(k) => {
                if ex.contains(k.idx as int) {
                    lemma_live_parent_downward(pre0, ex, k.idx as int);
                    match live_parent(pre0, ex, k.idx as int) {
                        Some(p) => {
                            lemma_spec_path_len(t1, t0, xs, p.idx as int);
                            lemma_live_parent_path_shorter(t0, ex, k.idx as int);
                        },
                        None => {},
                    }
                } else {
                    lemma_spec_path_len(t1, t0, xs, k.idx as int);
                }
            },
            None => {},
        }
    }
}

/// The total weight of the samples of one thread, among its first `n`,
/// whose call path is exactly `q`.
pub open spec fn thread_path_weight(t: Thread, q: Seq<StringIdx>, n: int) -> nat
    decreases n,
{
    if n <= 0 {
        0
    } else {
        thread_path_weight(t, q, n - 1) + if t.sample_path(n - 1) == q {
            t.sample_weight(n - 1)
        } else {
            0
        }
    }
}

/// The total weight of the samples of the first `k` threads whose call
/// path is exactly `q`.
pub open spec fn profile_path_weight(p: Profile, q: Seq<StringIdx>, k: int) -> nat
    decreases k,
{
    if k <= 0 {
        0
    } else {
        profile_path_weight(p, q, k - 1) + thread_path_weight(
            p.threads@[k - 1],
            q,
            p.threads@[k - 1].samples.stack@.len() as int,
        )
    }
}

/// Some sample among the first `n` of thread `t` has call path `q`.
pub open spec fn thread_has_path(t: Thread, q: Seq<StringIdx>, n: int) -> bool {
    exists|s: int| 0 <= s < n && (#[trigger] t.sample_path(s)) == q
}

/// Some sample of the first `k` threads has call path `q`.
pub open spec fn some_sample_has_path(p: Profile, q: Seq<StringIdx>, k: int) -> bool {
    exists|ti: int, s: int|
        0 <= ti < k && 0 <= s < p.threads@[ti].samples.stack@.len() && (
        #[trigger] p.threads@[ti].sample_path(s)) == q
}

/// Folding one thread's samples into the trace groups: a group's weight
/// grows by exactly the weight of this thread's samples with that path
/// (for a path that contains the target), and a group exists exactly for
/// the paths that contain the target and occur.
proof fn lemma_thread_traces_value(
    t: Thread,
    target: StringIdx,
    m0: Map<Seq<StringIdx>, nat>,
    n: int,
    q: Seq<StringIdx>,
)
    requires
        0 <= n,
    ensures
        q.contains(target) ==> trace_get(thread_traces(t, target, m0, n), q) == trace_get(m0, q)
            + thread_path_weight(t, q, n),
        !q.contains(target) ==> trace_get(thread_traces(t, target, m0, n), q) == trace_get(m0, q),
        thread_traces(t, target, m0, n).dom().contains(q) <==> (m0.dom().contains(q) || (q.contains(
            target,
        ) && thread_has_path(t, q, n))),
    decreases n,
{
    if n > 0 {
        lemma_thread_traces_value(t, target, m0, n - 1, q);
        let p = t.sample_path(n - 1);
        if p.contains(target) && p == q {
            assert(thread_has_path(t, q, n));
        }
        // A path seen among the first n - 1 samples is still seen among
        // the first n.
        if thread_has_path(t, q, n - 1) {
            let s = choose|s: int| 0 <= s < n - 1 && (#[trigger] t.sample_path(s)) == q;
            assert(t.sample_path(s) == q);
            assert(thread_has_path(t, q, n));
        }
        if thread_has_path(t, q, n) && !(p == q) {
            let s = choose|s: int| 0 <= s < n && (#[trigger] t.sample_path(s)) == q;
            assert(0 <= s < n - 1);
            assert(thread_has_path(t, q, n - 1));
        }
    }
}

/// Reverse-search soundness and completeness, against the groups that
/// `Profile::reverse_search` returns: a group exists for a path exactly
/// when the path contains the target and some sample has that exact
/// path, and the group's weight is the total weight of exactly those
/// samples. A sample is counted in exactly one group — the one keyed by
/// its own path.
pub proof fn lemma_reverse_search_groups(p: Profile, target: StringIdx, q: Seq<StringIdx>, k: int)
    requires
        0 <= k <= p.threads@.len(),
    ensures
        profile_traces(p, target, k).dom().contains(q) <==> (q.contains(target)
            && some_sample_has_path(p, q, k)),
        q.contains(target) ==> trace_get(profile_traces(p, target, k), q) == profile_path_weight(
            p,
            q,
            k,
        ),
        !q.contains(target) ==> trace_get(profile_traces(p, target, k), q) == 0,
    decreases k,
{
    if k > 0 {
        lemma_reverse_search_groups(p, target, q, k - 1);
        let t = p.threads@[k - 1];
        let n = t.samples.stack@.len() as int;
        lemma_thread_traces_value(t, target, profile_traces(p, target, k - 1), n, q);
        // Stitch the two existence forms together.
        if thread_has_path(t, q, n) {
            let s = choose|s: int| 0 <= s < n && (#[trigger] t.sample_path(s)) == q;
            assert(p.threads@[k - 1].sample_path(s) == q);
            assert(some_sample_has_path(p, q, k));
        }
        if some_sample_has_path(p, q, k - 1) {
            let (ti, s) = choose|ti: int, s: int|
                0 <= ti < k - 1 && 0 <= s < p.threads@[ti].samples.stack@.len() && (
                #[trigger] p.threads@[ti].sample_path(s)) == q;
            assert(p.threads@[ti].sample_path(s) == q);
            assert(some_sample_has_path(p, q, k));
        }
        if some_sample_has_path(p, q, k) && !(q.contains(target) && thread_has_path(t, q, n))
            && q.contains(target) {
            let (ti, s) = choose|ti: int, s: int|
                0 <= ti < k && 0 <= s < p.threads@[ti].samples.stack@.len() && (
                #[trigger] p.threads@[ti].sample_path(s)) == q;
            if ti == k - 1 {
                assert(thread_has_path(t, q, n));
            } else {
                assert(some_sample_has_path(p, q, k - 1));
            }
        }
    }
}

} // verus!
