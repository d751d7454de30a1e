//! The function-exclusion engine.
//!
//! `Profile::exclude_function(pattern)` removes all call-path evidence of
//! the functions whose name matches `pattern`, without shrinking any table
//! or renumbering any index. Three index sets are derived (excluded
//! functions, frames, stack nodes), then the forest is squashed — every
//! node's parent link is rewritten to its first non-excluded ancestor —
//! and finally samples that point at an excluded node are reattributed to
//! that node's squashed parent.

use vstd::prelude::*;

use crate::matcher;
use crate::matcher::pattern_ok;
use crate::matcher::regex_match;
use crate::profile::Profile;
use crate::profile::ProfileError;
use crate::profile::Thread;
use crate::tables::Id;
use crate::tables::StackIdx;

verus! {

/// The set of positions whose mark is set in a mark column.
pub open spec fn bits_set(bits: Seq<bool>) -> Set<int> {
    Set::new(|i: int| 0 <= i < bits.len() && bits[i])
}

/// The string-table positions whose string matches the pattern.
pub open spec fn excluded_strings(strings: Seq<String>, pat: Seq<char>) -> Set<int> {
    Set::new(|i: int| 0 <= i < strings.len() && regex_match(pat, strings[i]@))
}

/// The function-table positions whose name lies in the excluded string
/// set `xs`.
pub open spec fn excluded_funcs(t: Thread, xs: Set<int>) -> Set<int> {
    Set::new(
        |i: int|
            0 <= i < t.func_table.name@.len() && xs.contains(t.func_table.name@[i].idx as int),
    )
}

/// The frame-table positions whose function is excluded.
pub open spec fn excluded_frames(t: Thread, xs: Set<int>) -> Set<int> {
    Set::new(
        |i: int|
            0 <= i < t.frame_table.func@.len() && excluded_funcs(t, xs).contains(
                t.frame_table.func@[i].idx as int,
            ),
    )
}

/// The stack-table positions whose frame is excluded.
pub open spec fn excluded_stacks(t: Thread, xs: Set<int>) -> Set<int> {
    Set::new(
        |i: int|
            0 <= i < t.stack_table.frame@.len() && excluded_frames(t, xs).contains(
                t.stack_table.frame@[i].idx as int,
            ),
    )
}

/// Parent links all point strictly downwards (the well-founded part of
/// `StackTable::wf`).
pub open spec fn down_links(pre: Seq<Option<StackIdx>>) -> bool {
    forall|i: int| 0 <= i < pre.len() ==> ((#[trigger] pre[i]) matches Some(p) ==> p.idx < i)
}

/// The first non-excluded strict ancestor of node `j` under the parent
/// links `pre`, or `None` when the whole ancestor chain is excluded.
/// A parent link that does not point strictly downwards is treated as
/// absent, which matches `down_links` ruling such links out.
pub open spec fn live_parent(pre: Seq<Option<StackIdx>>, ex: Set<int>, j: int) -> Option<StackIdx>
    decreases j,
{
    if 0 <= j < pre.len() {
        match pre[j] {
            Some(p) => {
                if !ex.contains(p.idx as int) {
                    Some(p)
                } else if p.idx < j {
                    live_parent(pre, ex, p.idx as int)
                } else {
                    None
                }
            },
            None => None,
        }
    } else {
        None
    }
}

/// A first non-excluded ancestor is never excluded.
pub proof fn lemma_live_parent_not_excluded(pre: Seq<Option<StackIdx>>, ex: Set<int>, j: int)
    ensures
        live_parent(pre, ex, j) matches Some(p) ==> !ex.contains(p.idx as int),
    decreases j,
{
    if 0 <= j < pre.len() {
        match pre[j] {
            Some(p) => {
                if ex.contains(p.idx as int) && p.idx < j {
                    lemma_live_parent_not_excluded(pre, ex, p.idx as int);
                }
            },
            None => {},
        }
    }
}

/// Under downward links, a first non-excluded ancestor of `j` lies
/// strictly below `j`.
pub proof fn lemma_live_parent_downward(pre: Seq<Option<StackIdx>>, ex: Set<int>, j: int)
    requires
        down_links(pre),
    ensures
        live_parent(pre, ex, j) matches Some(p) ==> p.idx < j && p.idx < pre.len(),
    decreases j,
{
    if 0 <= j < pre.len() {
        match pre[j] {
            Some(p) => {
                if ex.contains(p.idx as int) && p.idx < j {
                    lemma_live_parent_downward(pre, ex, p.idx as int);
                }
            },
            None => {},
        }
    }
}

/// One squash step — rewriting the parent of a node `i` whose parent `p`
/// is excluded to `p`'s own parent — changes no node's first non-excluded
/// ancestor.
proof fn lemma_squash_step_point(
    pre: Seq<Option<StackIdx>>,
    ex: Set<int>,
    i: int,
    p: StackIdx,
    j: int,
)
    requires
        down_links(pre),
        0 <= i < pre.len(),
        pre[i] == Some(p),
        ex.contains(p.idx as int),
    ensures
        live_parent(pre.update(i, pre[p.idx as int]), ex, j) == live_parent(pre, ex, j),
    decreases j,
{
    let pre2 = pre.update(i, pre[p.idx as int]);
    if 0 <= j < pre.len() {
        if j == i {
            // pre2[i] is p's old parent; p.idx < i by down_links.
            match pre[p.idx as int] {
                Some(q) => {
                    if ex.contains(q.idx as int) {
                        // q.idx < p.idx < i, so both walks continue at q.
                        lemma_squash_step_point(pre, ex, i, p, q.idx as int);
                    }
                },
                None => {},
            }
        } else {
            match pre[j] {
                Some(q) => {
                    if ex.contains(q.idx as int) && q.idx < j {
                        lemma_squash_step_point(pre, ex, i, p, q.idx as int);
                    }
                },
                None => {},
            }
        }
    }
}

/// One squash step preserves every node's first non-excluded ancestor and
/// keeps the links downward.
proof fn lemma_squash_step(pre: Seq<Option<StackIdx>>, ex: Set<int>, i: int, p: StackIdx)
    requires
        down_links(pre),
        0 <= i < pre.len(),
        pre[i] == Some(p),
        ex.contains(p.idx as int),
    ensures
        down_links(pre.update(i, pre[p.idx as int])),
        forall|j: int|
            live_parent(pre.update(i, pre[p.idx as int]), ex, j) == live_parent(pre, ex, j),
{
    let pre2 = pre.update(i, pre[p.idx as int]);
    assert forall|j: int| live_parent(pre2, ex, j) == live_parent(pre, ex, j) by {
        lemma_squash_step_point(pre, ex, i, p, j);
    }
    assert forall|j: int| 0 <= j < pre2.len() implies ((#[trigger] pre2[j]) matches Some(q)
        ==> q.idx < j) by {
        if j == i {
            assert(pre[p.idx as int] matches Some(q) ==> q.idx < p.idx);
        }
    }
}

/// The relation between a thread before (`t0`) and after (`t1`) excluding
/// the string set `xs`: the function, frame and weight data and all table
/// lengths are unchanged; every stack node's parent becomes its first
/// non-excluded ancestor; every sample that pointed at an excluded node
/// is reattributed to that node's first non-excluded ancestor (absent
/// when the whole chain was excluded).
pub open spec fn excluded_thread_with(t1: Thread, t0: Thread, xs: Set<int>) -> bool {
    let ex = excluded_stacks(t0, xs);
    let pre0 = t0.stack_table.prefix@;
    &&& t1.func_table == t0.func_table
    &&& t1.frame_table == t0.frame_table
    &&& t1.name == t0.name
    &&& t1.stack_table.frame == t0.stack_table.frame
    &&& t1.stack_table.length == t0.stack_table.length
    &&& t1.stack_table.prefix@.len() == pre0.len()
    &&& forall|i: int|
        0 <= i < pre0.len() ==> (#[trigger] t1.stack_table.prefix@[i]) == live_parent(pre0, ex, i)
    &&& t1.samples.weight == t0.samples.weight
    &&& t1.samples.stack@.len() == t0.samples.stack@.len()
    &&& forall|s: int|
        0 <= s < t0.samples.stack@.len() ==> (#[trigger] t1.samples.stack@[s]) == (
        match t0.samples.stack@[s] {
            Some(k) => if ex.contains(k.idx as int) {
                live_parent(pre0, ex, k.idx as int)
            } else {
                Some(k)
            },
            None => None::<StackIdx>,
        })
}

/// The measure of one node's squash walk: how far down its current
/// parent link points.
pub open spec fn parent_measure(pre: Seq<Option<StackIdx>>, i: int) -> int {
    match pre[i] {
        Some(p) => p.idx + 1,
        None => 0,
    }
}

impl Thread {
    /// Marks the excluded stack nodes of this thread, for the string set
    /// described by `sbits`: a function is excluded when its name index
    /// is marked, a frame when its function is, a stack node when its
    /// frame is.
    pub(crate) fn stack_marks(&self, sbits: &Vec<bool>) -> (r: Vec<bool>)
        requires
            self.wf(),
        ensures
            r@.len() == self.stack_table.prefix@.len(),
            forall|j: int|
                0 <= j < r@.len() ==> (#[trigger] r@[j]) == excluded_stacks(
                    *self,
                    bits_set(sbits@),
                ).contains(j),
    {
        let ghost t0 = *self;
        let ghost xs = bits_set(sbits@);

        // Excluded functions: name matches the pattern.
        let n_funcs = self.func_table.name.len();
        let mut fbits: Vec<bool> = Vec::new();
        let mut i: usize = 0;
        while i < n_funcs
            invariant
                *self == t0,
                t0.wf(),
                xs == bits_set(sbits@),
                n_funcs == t0.func_table.name@.len(),
                i <= n_funcs,
                fbits@.len() == i,
                forall|j: int|
                    0 <= j < i ==> (#[trigger] fbits@[j]) == excluded_funcs(t0, xs).contains(j),
            decreases n_funcs - i,
        {
            let name = *self.func_table.name.index(Id::new(i));
            let b = name.idx < sbits.len() && sbits[name.idx];
            fbits.push(b);
            i += 1;
        }

        // Excluded frames: the frame's function is excluded.
        let n_frames = self.frame_table.func.len();
        let mut frbits: Vec<bool> = Vec::new();
        let mut i: usize = 0;
        while i < n_frames
            invariant
                *self == t0,
                t0.wf(),
                xs == bits_set(sbits@),
                n_funcs == t0.func_table.name@.len(),
                n_frames == t0.frame_table.func@.len(),
                fbits@.len() == n_funcs,
                forall|j: int|
                    0 <= j < n_funcs ==> (#[trigger] fbits@[j]) == excluded_funcs(t0, xs).contains(
                        j,
                    ),
                i <= n_frames,
                frbits@.len() == i,
                forall|j: int|
                    0 <= j < i ==> (#[trigger] frbits@[j]) == excluded_frames(t0, xs).contains(j),
            decreases n_frames - i,
        {
            let func = *self.frame_table.func.index(Id::new(i));
            let b = fbits[func.idx];
            frbits.push(b);
            i += 1;
        }

        // Excluded stack nodes: the node's frame is excluded.
        let n_stacks = self.stack_table.prefix.len();
        let mut stbits: Vec<bool> = Vec::new();
        let mut i: usize = 0;
        while i < n_stacks
            invariant
                *self == t0,
                t0.wf(),
                xs == bits_set(sbits@),
                n_frames == t0.frame_table.func@.len(),
                n_stacks == t0.stack_table.prefix@.len() == t0.stack_table.frame@.len(),
                frbits@.len() == n_frames,
                forall|j: int|
                    0 <= j < n_frames ==> (#[trigger] frbits@[j]) == excluded_frames(
                        t0,
                        xs,
                    ).contains(j),
                i <= n_stacks,
                stbits@.len() == i,
                forall|j: int|
                    0 <= j < i ==> (#[trigger] stbits@[j]) == excluded_stacks(t0, xs).contains(j),
            decreases n_stacks - i,
        {
            let frame = *self.stack_table.frame.index(Id::new(i));
            let b = frbits[frame.idx];
            stbits.push(b);
            i += 1;
        }
        stbits
    }

    /// Excludes from this thread the functions whose name index is marked
    /// in `sbits`: derives the excluded function, frame and stack-node
    /// sets, squashes excluded parents out of the forest, and
    /// reattributes samples that pointed at an excluded node. No table
    /// changes length; no index is renumbered.
    pub(crate) fn exclude_function(&mut self, sbits: &Vec<bool>)
        requires
            old(self).wf(),
        ensures
            final(self).wf(),
            excluded_thread_with(*final(self), *old(self), bits_set(sbits@)),
    {
        let ghost t0 = *self;
        let ghost xs = bits_set(sbits@);
        let stbits = self.stack_marks(sbits);
        let n_stacks = self.stack_table.prefix.len();

        let ghost pre0 = t0.stack_table.prefix@;
        let ghost ex = excluded_stacks(t0, xs);

        // Forest squash: rewrite each node's parent link one hop at a
        // time until it is non-excluded or absent. Earlier rewrites
        // shorten later walks, but never change any node's first
        // non-excluded ancestor.
        let mut i: usize = 0;
        while i < n_stacks
            invariant
                self.func_table == t0.func_table,
                self.frame_table == t0.frame_table,
                self.name == t0.name,
                self.samples == t0.samples,
                self.stack_table.frame == t0.stack_table.frame,
                self.stack_table.length == t0.stack_table.length,
                self.stack_table.prefix@.len() == pre0.len(),
                t0.wf(),
                ex == excluded_stacks(t0, xs),
                pre0 == t0.stack_table.prefix@,
                n_stacks == pre0.len(),
                stbits@.len() == n_stacks,
                forall|j: int| 0 <= j < n_stacks ==> (#[trigger] stbits@[j]) == ex.contains(j),
                i <= n_stacks,
                down_links(self.stack_table.prefix@),
                forall|j: int|
                    live_parent(#[trigger] self.stack_table.prefix@, ex, j) == live_parent(
                        pre0,
                        ex,
                        j,
                    ),
                forall|j: int|
                    0 <= j < i ==> (#[trigger] self.stack_table.prefix@[j]) == live_parent(
                        pre0,
                        ex,
                        j,
                    ),
            decreases n_stacks - i,
        {
            loop
                invariant_except_break
                    self.func_table == t0.func_table,
                    self.frame_table == t0.frame_table,
                    self.name == t0.name,
                    self.samples == t0.samples,
                    self.stack_table.frame == t0.stack_table.frame,
                    self.stack_table.length == t0.stack_table.length,
                    self.stack_table.prefix@.len() == pre0.len(),
                    t0.wf(),
                    ex == excluded_stacks(t0, xs),
                    pre0 == t0.stack_table.prefix@,
                    n_stacks == pre0.len(),
                    stbits@.len() == n_stacks,
                    forall|j: int| 0 <= j < n_stacks ==> (#[trigger] stbits@[j]) == ex.contains(j),
                    i < n_stacks,
                    down_links(self.stack_table.prefix@),
                    forall|j: int|
                        live_parent(#[trigger] self.stack_table.prefix@, ex, j) == live_parent(
                            pre0,
                            ex,
                            j,
                        ),
                    forall|j: int|
                        0 <= j < i ==> (#[trigger] self.stack_table.prefix@[j]) == live_parent(
                            pre0,
                            ex,
                            j,
                        ),
                ensures
                    self.func_table == t0.func_table,
                    self.frame_table == t0.frame_table,
                    self.name == t0.name,
                    self.samples == t0.samples,
                    self.stack_table.frame == t0.stack_table.frame,
                    self.stack_table.length == t0.stack_table.length,
                    self.stack_table.prefix@.len() == pre0.len(),
                    down_links(self.stack_table.prefix@),
                    forall|j: int|
                        live_parent(#[trigger] self.stack_table.prefix@, ex, j) == live_parent(
                            pre0,
                            ex,
                            j,
                        ),
                    forall|j: int|
                        0 <= j < i ==> (#[trigger] self.stack_table.prefix@[j]) == live_parent(
                            pre0,
                            ex,
                            j,
                        ),
                    self.stack_table.prefix@[i as int] == live_parent(pre0, ex, i as int),
                decreases parent_measure(self.stack_table.prefix@, i as int),
            {
                let cur = *self.stack_table.prefix.index(Id::new(i));
                match cur {
                    Some(p) => {
                        if stbits[p.idx] {
                            // p is excluded: hop over it.
                            let gp = *self.stack_table.prefix.index(Id::new(p.idx));
                            proof {
                                lemma_squash_step(self.stack_table.prefix@, ex, i as int, p);
                            }
                            self.stack_table.prefix.set(Id::new(i), gp);
                        } else {
                            // The parent is live: this node is squashed.
                            proof {
                                assert(live_parent(self.stack_table.prefix@, ex, i as int)
                                    == Some(p));
                            }
                            break;
                        }
                    },
                    None => {
                        proof {
                            assert(live_parent(self.stack_table.prefix@, ex, i as int) is None);
                        }
                        break;
                    },
                }
            }
            i += 1;
        }

        // Sample reattribution: a sample pointing at an excluded node
        // moves to that node's (already squashed) parent; when the whole
        // chain up to the root was excluded, the stack reference becomes
        // absent.
        let n_samples = self.samples.stack.len();
        let mut s: usize = 0;
        while s < n_samples
            invariant
                self.func_table == t0.func_table,
                self.frame_table == t0.frame_table,
                self.name == t0.name,
                self.stack_table.frame == t0.stack_table.frame,
                self.stack_table.length == t0.stack_table.length,
                self.stack_table.prefix@.len() == pre0.len(),
                t0.wf(),
                ex == excluded_stacks(t0, xs),
                pre0 == t0.stack_table.prefix@,
                n_stacks == pre0.len(),
                stbits@.len() == n_stacks,
                forall|j: int| 0 <= j < n_stacks ==> (#[trigger] stbits@[j]) == ex.contains(j),
                forall|j: int|
                    0 <= j < n_stacks ==> (#[trigger] self.stack_table.prefix@[j]) == live_parent(
                        pre0,
                        ex,
                        j,
                    ),
                self.samples.weight == t0.samples.weight,
                n_samples == t0.samples.stack@.len(),
                self.samples.stack@.len() == n_samples,
                s <= n_samples,
                forall|j: int|
                    s <= j < n_samples ==> (#[trigger] self.samples.stack@[j])
                        == t0.samples.stack@[j],
                forall|j: int|
                    0 <= j < s ==> (#[trigger] self.samples.stack@[j]) == (
                    match t0.samples.stack@[j] {
                        Some(k) => if ex.contains(k.idx as int) {
                            live_parent(pre0, ex, k.idx as int)
                        } else {
                            Some(k)
                        },
                        None => None::<StackIdx>,
                    }),
            decreases n_samples - s,
        {
            let v = *self.samples.stack.index(Id::new(s));
            match v {
                Some(k) => {
                    if stbits[k.idx] {
                        let np = *self.stack_table.prefix.index(Id::new(k.idx));
                        self.samples.stack.set(Id::new(s), np);
                    }
                },
                None => {},
            }
            s += 1;
        }

        // The rewritten thread is well-formed: parent links still point
        // strictly downwards, and reattributed samples point below the
        // node they left.
        proof {
            assert forall|j: int| 0 <= j < self.stack_table.prefix@.len() implies ((
            #[trigger] self.stack_table.prefix@[j]) matches Some(p) ==> p.idx < j) by {
                lemma_live_parent_downward(pre0, ex, j);
            }
            assert forall|j: int| 0 <= j < self.samples.stack@.len() implies ((
            #[trigger] self.samples.stack@[j]) matches Some(k) ==> k.idx
                < self.stack_table.prefix@.len()) by {
                match t0.samples.stack@[j] {
                    Some(k) => {
                        lemma_live_parent_downward(pre0, ex, k.idx as int);
                    },
                    None => {},
                }
            }
        }
    }
}

/// The relation between a profile before and after excluding the string
/// set `xs`: the shared data is unchanged and every thread is excluded.
pub open spec fn excluded_profile_with(p1: Profile, p0: Profile, xs: Set<int>) -> bool {
    &&& p1.shared == p0.shared
    &&& p1.threads@.len() == p0.threads@.len()
    &&& forall|t: int|
        0 <= t < p0.threads@.len() ==> excluded_thread_with(
            #[trigger] p1.threads@[t],
            p0.threads@[t],
            xs,
        )
}

impl Profile {
    /// Removes all call-path evidence of the functions whose name matches
    /// the regular expression `pattern`, in every thread. Fails with
    /// `InvalidPattern` exactly when the pattern does not compile, and
    /// with `CorruptProfile` exactly when the pattern is fine but some
    /// thread's tables are malformed; on failure nothing is changed. On
    /// success every thread stands in `excluded_thread_with` relation to
    /// its old value, for the string set matched by the pattern.
    pub fn exclude_function(&mut self, pattern: &str) -> (r: Result<(), ProfileError>)
        ensures
            r is Ok <==> (pattern_ok(pattern@) && old(self).wf()),
            r is Err ==> *final(self) == *old(self),
            r == Err::<(), ProfileError>(ProfileError::InvalidPattern) <==> !pattern_ok(pattern@),
            r matches Err(e) ==> (e == ProfileError::InvalidPattern || e
                == ProfileError::CorruptProfile),
            r is Ok ==> final(self).wf() && excluded_profile_with(
                *final(self),
                *old(self),
                excluded_strings(old(self).shared.string_array@, pattern@),
            ),
    {
        // An invalid pattern is surfaced before any table is touched.
        let m = match matcher::compile(pattern) {
            Ok(m) => m,
            Err(_) => {
                return Err(ProfileError::InvalidPattern);
            },
        };
        if !self.check() {
            return Err(ProfileError::CorruptProfile);
        }
        let ghost p0 = *self;
        let ghost pat = pattern@;

        // Excluded strings: positions in the shared string table whose
        // string matches the pattern.
        let n_strings = self.shared.string_array.len();
        let mut sbits: Vec<bool> = Vec::new();
        let mut i: usize = 0;
        while i < n_strings
            invariant
                *self == p0,
                p0.wf(),
                m.pattern() == pat,
                n_strings == p0.shared.string_array@.len(),
                i <= n_strings,
                sbits@.len() == i,
                forall|j: int|
                    0 <= j < i ==> (#[trigger] sbits@[j]) == regex_match(
                        pat,
                        p0.shared.string_array@[j]@,
                    ),
            decreases n_strings - i,
        {
            let s = self.shared.string_array.index(Id::new(i));
            let b = matcher::is_match(&m, s.as_str());
            sbits.push(b);
            i += 1;
        }
        proof {
            assert(bits_set(sbits@) =~= excluded_strings(p0.shared.string_array@, pat));
        }
        let ghost xs = excluded_strings(p0.shared.string_array@, pat);

        // Exclude in every thread.
        let n_threads = self.threads.len();
        let mut t: usize = 0;
        while t < n_threads
            invariant
                p0.wf(),
                xs == excluded_strings(p0.shared.string_array@, pat),
                bits_set(sbits@) == xs,
                self.shared == p0.shared,
                n_threads == p0.threads@.len(),
                self.threads@.len() == n_threads,
                t <= n_threads,
                forall|j: int|
                    t <= j < n_threads ==> (#[trigger] self.threads@[j]) == p0.threads@[j],
                forall|j: int|
                    0 <= j < t ==> excluded_thread_with(
                        #[trigger] self.threads@[j],
                        p0.threads@[j],
                        xs,
                    ) && self.threads@[j].wf(),
            decreases n_threads - t,
        {
            let ghost before = self.threads@;
            let mut th = self.threads.remove(t);
            th.exclude_function(&sbits);
            self.threads.insert(t, th);
            proof {
                assert(self.threads@ =~= before.update(t as int, self.threads@[t as int]));
            }
            t += 1;
        }
        Ok(())
    }
}

} // verus!
