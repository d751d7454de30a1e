//! Frame flattening: rebuilding a thread's stack table without the
//! stack nodes whose function name matches a pattern.
//!
//! Unlike exclusion (which keeps every index stable), flattening removes
//! the matching nodes and renumbers the rest: a kept node's new position
//! is the count of kept nodes below its old position. A kept node's new
//! parent is its nearest kept ancestor, and a sample moves to the
//! nearest kept node at or above the one it pointed at (absent when the
//! whole chain matches).

use vstd::prelude::*;

use crate::exclude::bits_set;
use crate::exclude::excluded_stacks;
use crate::exclude::excluded_strings;
use crate::matcher;
use crate::matcher::pattern_ok;
use crate::profile::Profile;
use crate::profile::ProfileError;
use crate::profile::StackTable;
use crate::profile::Thread;
use crate::tables::FrameIdx;
use crate::tables::Id;
use crate::tables::StackIdx;
use crate::tables::TypedVec;

verus! {

/// A branded position, as a plain optional number.
pub open spec fn opt_idx(o: Option<StackIdx>) -> Option<int> {
    match o {
        Some(p) => Some(p.idx as int),
        None => None,
    }
}

/// A raw position, as a plain optional number.
pub open spec fn opt_val(o: Option<usize>) -> Option<int> {
    match o {
        Some(v) => Some(v as int),
        None => None,
    }
}

/// The number of kept (unmatched) stack nodes below position `i`: the
/// new position of the node at `i`, when that node is kept.
pub open spec fn kept_count(ex: Set<int>, i: int) -> int
    decreases i,
{
    if i <= 0 {
        0
    } else {
        kept_count(ex, i - 1) + if ex.contains(i - 1) {
            0int
        } else {
            1int
        }
    }
}

/// The nearest kept node at or above `j` along the parent links, or
/// `None` when the whole chain up from `j` matches.
pub open spec fn first_kept(pre: Seq<Option<StackIdx>>, ex: Set<int>, j: int) -> Option<int>
    decreases j,
{
    if 0 <= j < pre.len() {
        if !ex.contains(j) {
            Some(j)
        } else {
            match pre[j] {
                Some(p) => {
                    if p.idx < j {
                        first_kept(pre, ex, p.idx as int)
                    } else {
                        None
                    }
                },
                None => None,
            }
        }
    } else {
        None
    }
}

/// A nearest kept node is kept, in bounds, and at or below where the
/// search started.
proof fn lemma_first_kept_kept(pre: Seq<Option<StackIdx>>, ex: Set<int>, j: int)
    ensures
        first_kept(pre, ex, j) matches Some(a) ==> 0 <= a < pre.len() && !ex.contains(a) && a <= j,
    decreases j,
{
    if 0 <= j < pre.len() && ex.contains(j) {
        match pre[j] {
            Some(p) => {
                if p.idx < j {
                    lemma_first_kept_kept(pre, ex, p.idx as int);
                }
            },
            None => {},
        }
    }
}

/// Kept counts grow with the position, strictly across a kept node.
proof fn lemma_kept_count_mono(ex: Set<int>, a: int, b: int)
    requires
        0 <= a <= b,
    ensures
        kept_count(ex, a) <= kept_count(ex, b),
        !ex.contains(a) && a < b ==> kept_count(ex, a) < kept_count(ex, b),
    decreases b,
{
    if a < b {
        lemma_kept_count_mono(ex, a, b - 1);
    }
}

/// Every new position below the kept count is the new position of some
/// kept old position.
proof fn lemma_kept_count_surjective(ex: Set<int>, n: int, ni: int)
    requires
        0 <= n,
        0 <= ni < kept_count(ex, n),
    ensures
        exists|j: int| 0 <= j < n && !ex.contains(j) && #[trigger] kept_count(ex, j) == ni,
    decreases n,
{
    if n > 0 {
        if !ex.contains(n - 1) && kept_count(ex, n - 1) == ni {
            assert(0 <= n - 1 < n && !ex.contains(n - 1) && kept_count(ex, n - 1) == ni);
        } else {
            lemma_kept_count_surjective(ex, n - 1, ni);
            let j = choose|j: int|
                0 <= j < n - 1 && !ex.contains(j) && #[trigger] kept_count(ex, j) == ni;
            assert(0 <= j < n && !ex.contains(j) && kept_count(ex, j) == ni);
        }
    }
}

/// The relation between a thread before (`t0`) and after (`t1`)
/// flattening the string set `xs`: function, frame and weight data are
/// unchanged; the stack table holds exactly the kept nodes, in their old
/// order, each with its old frame and with its nearest kept ancestor as
/// parent; every sample moves to the nearest kept node at or above the
/// one it pointed at.
pub open spec fn flattened_thread_with(t1: Thread, t0: Thread, xs: Set<int>) -> bool {
    let ex = excluded_stacks(t0, xs);
    let pre0 = t0.stack_table.prefix@;
    let n0 = pre0.len() as int;
    &&& t1.func_table == t0.func_table
    &&& t1.frame_table == t0.frame_table
    &&& t1.name == t0.name
    &&& t1.samples.weight == t0.samples.weight
    &&& t1.stack_table.length == kept_count(ex, n0)
    &&& t1.stack_table.prefix@.len() == kept_count(ex, n0)
    &&& t1.stack_table.frame@.len() == kept_count(ex, n0)
    &&& forall|i: int|
        0 <= i < n0 && !ex.contains(i) ==> t1.stack_table.frame@[#[trigger] kept_count(ex, i)]
            == t0.stack_table.frame@[i]
    &&& forall|i: int|
        0 <= i < n0 && !ex.contains(i) ==> opt_idx(
            t1.stack_table.prefix@[#[trigger] kept_count(ex, i)],
        ) == (match pre0[i] {
            Some(p) => match first_kept(pre0, ex, p.idx as int) {
                Some(a) => Some(kept_count(ex, a)),
                None => None,
            },
            None => None::<int>,
        })
    &&& t1.samples.stack@.len() == t0.samples.stack@.len()
    &&& forall|s: int|
        0 <= s < t0.samples.stack@.len() ==> opt_idx(#[trigger] t1.samples.stack@[s]) == (
        match t0.samples.stack@[s] {
            Some(k) => match first_kept(pre0, ex, k.idx as int) {
                Some(a) => Some(kept_count(ex, a)),
                None => None,
            },
            None => None::<int>,
        })
}

/// The relation between a profile before and after flattening the
/// string set `xs`: the shared data is unchanged and every thread is
/// flattened.
pub open spec fn flattened_profile_with(p1: Profile, p0: Profile, xs: Set<int>) -> bool {
    &&& p1.shared == p0.shared
    &&& p1.threads@.len() == p0.threads@.len()
    &&& forall|t: int|
        0 <= t < p0.threads@.len() ==> flattened_thread_with(
            #[trigger] p1.threads@[t],
            p0.threads@[t],
            xs,
        )
}

impl Thread {
    /// Walks the parent links from `j` to the nearest node whose mark is
    /// clear in `marks`.
    fn first_kept_node(&self, marks: &Vec<bool>, j: usize) -> (r: Option<usize>)
        requires
            self.stack_table.wf(),
            marks@.len() == self.stack_table.prefix@.len(),
            j < self.stack_table.prefix@.len(),
        ensures
            opt_val(r) == first_kept(self.stack_table.prefix@, bits_set(marks@), j as int),
    {
        let ghost pre = self.stack_table.prefix@;
        let ghost bs = bits_set(marks@);
        let mut cur: usize = j;
        loop
            invariant
                self.stack_table.wf(),
                pre == self.stack_table.prefix@,
                bs == bits_set(marks@),
                marks@.len() == pre.len(),
                cur < pre.len(),
                first_kept(pre, bs, j as int) == first_kept(pre, bs, cur as int),
            decreases cur,
        {
            if !marks[cur] {
                return Some(cur);
            }
            match *self.stack_table.prefix.index(Id::new(cur)) {
                Some(p) => {
                    cur = p.idx;
                },
                None => {
                    return None;
                },
            }
        }
    }

    /// Flattens out of this thread the stack nodes of the functions
    /// whose name index is marked in `sbits`, rebuilding the stack table
    /// from the kept nodes and renumbering samples accordingly.
    pub(crate) fn flatten_frames(&mut self, sbits: &Vec<bool>)
        requires
            old(self).wf(),
        ensures
            final(self).wf(),
            flattened_thread_with(*final(self), *old(self), bits_set(sbits@)),
    {
        let ghost t0 = *self;
        let ghost xs = bits_set(sbits@);
        let stbits = self.stack_marks(sbits);
        let ghost pre0 = t0.stack_table.prefix@;
        let ghost ex = excluded_stacks(t0, xs);
        proof {
            assert(bits_set(stbits@) =~= ex);
        }
        let n = self.stack_table.prefix.len();

        // First pass: copy the kept nodes' frames and record each old
        // position's new position.
        let mut old_to_new: Vec<Option<usize>> = Vec::new();
        let mut new_frames: Vec<FrameIdx> = Vec::new();
        let mut i: usize = 0;
        while i < n
            invariant
                *self == t0,
                t0.wf(),
                ex == excluded_stacks(t0, xs),
                pre0 == t0.stack_table.prefix@,
                n == pre0.len(),
                stbits@.len() == n,
                forall|j: int| 0 <= j < n ==> (#[trigger] stbits@[j]) == ex.contains(j),
                bits_set(stbits@) == ex,
                i <= n,
                old_to_new@.len() == i,
                new_frames@.len() == kept_count(ex, i as int),
                forall|j: int|
                    0 <= j < i ==> opt_val(#[trigger] old_to_new@[j]) == (if ex.contains(j) {
                        None
                    } else {
                        Some(kept_count(ex, j))
                    }),
                forall|j: int|
                    0 <= j < i && !ex.contains(j) ==> new_frames@[#[trigger] kept_count(ex, j)]
                        == t0.stack_table.frame@[j],
            decreases n - i,
        {
            proof {
                assert forall|j: int| 0 <= j <= i implies 0 <= #[trigger] kept_count(ex, j)
                    <= kept_count(ex, i as int) by {
                    lemma_kept_count_mono(ex, 0, j);
                    lemma_kept_count_mono(ex, j, i as int);
                }
                assert forall|j: int| 0 <= j < i && !ex.contains(j) implies #[trigger] kept_count(
                    ex,
                    j,
                ) < kept_count(ex, i as int) by {
                    lemma_kept_count_mono(ex, j, i as int);
                }
            }
            if stbits[i] {
                old_to_new.push(None);
            } else {
                old_to_new.push(Some(new_frames.len()));
                new_frames.push(*self.stack_table.frame.index(Id::new(i)));
            }
            i += 1;
        }

        // Second pass: the kept nodes' new parents, skipping matched
        // ancestors.
        let mut new_prefix: Vec<Option<StackIdx>> = Vec::new();
        let mut i: usize = 0;
        while i < n
            invariant
                *self == t0,
                t0.wf(),
                ex == excluded_stacks(t0, xs),
                pre0 == t0.stack_table.prefix@,
                n == pre0.len(),
                stbits@.len() == n,
                forall|j: int| 0 <= j < n ==> (#[trigger] stbits@[j]) == ex.contains(j),
                bits_set(stbits@) == ex,
                old_to_new@.len() == n,
                forall|j: int|
                    0 <= j < n ==> opt_val(#[trigger] old_to_new@[j]) == (if ex.contains(j) {
                        None
                    } else {
                        Some(kept_count(ex, j))
                    }),
                i <= n,
                new_prefix@.len() == kept_count(ex, i as int),
                forall|j: int|
                    0 <= j < i && !ex.contains(j) ==> opt_idx(
                        new_prefix@[#[trigger] kept_count(ex, j)],
                    ) == (match pre0[j] {
                        Some(p) => match first_kept(pre0, ex, p.idx as int) {
                            Some(a) => Some(kept_count(ex, a)),
                            None => None,
                        },
                        None => None::<int>,
                    }),
            decreases n - i,
        {
            proof {
                assert forall|j: int| 0 <= j <= i implies 0 <= #[trigger] kept_count(ex, j)
                    <= kept_count(ex, i as int) by {
                    lemma_kept_count_mono(ex, 0, j);
                    lemma_kept_count_mono(ex, j, i as int);
                }
                assert forall|j: int| 0 <= j < i && !ex.contains(j) implies #[trigger] kept_count(
                    ex,
                    j,
                ) < kept_count(ex, i as int) by {
                    lemma_kept_count_mono(ex, j, i as int);
                }
            }
            if !stbits[i] {
                let np: Option<StackIdx> = match *self.stack_table.prefix.index(Id::new(i)) {
                    Some(p) => {
                        match self.first_kept_node(&stbits, p.idx) {
                            Some(a) => {
                                proof {
                                    lemma_first_kept_kept(pre0, ex, p.idx as int);
                                }
                                match old_to_new[a] {
                                    Some(v) => Some(Id::new(v)),
                                    None => {
                                        proof {
                                            assert(false);
                                        }
                                        None
                                    },
                                }
                            },
                            None => None,
                        }
                    },
                    None => None,
                };
                new_prefix.push(np);
            }
            i += 1;
        }

        // Samples move to the nearest kept node at or above the one they
        // pointed at.
        let n_samples = self.samples.stack.len();
        let mut s: usize = 0;
        while s < n_samples
            invariant
                self.func_table == t0.func_table,
                self.frame_table == t0.frame_table,
                self.name == t0.name,
                self.stack_table == t0.stack_table,
                self.samples.weight == t0.samples.weight,
                t0.wf(),
                ex == excluded_stacks(t0, xs),
                pre0 == t0.stack_table.prefix@,
                n == pre0.len(),
                stbits@.len() == n,
                forall|j: int| 0 <= j < n ==> (#[trigger] stbits@[j]) == ex.contains(j),
                bits_set(stbits@) == ex,
                old_to_new@.len() == n,
                forall|j: int|
                    0 <= j < n ==> opt_val(#[trigger] old_to_new@[j]) == (if ex.contains(j) {
                        None
                    } else {
                        Some(kept_count(ex, j))
                    }),
                n_samples == t0.samples.stack@.len(),
                self.samples.stack@.len() == n_samples,
                s <= n_samples,
                forall|j: int|
                    s <= j < n_samples ==> (#[trigger] self.samples.stack@[j])
                        == t0.samples.stack@[j],
                forall|j: int|
                    0 <= j < s ==> opt_idx(#[trigger] self.samples.stack@[j]) == (
                    match t0.samples.stack@[j] {
                        Some(k) => match first_kept(pre0, ex, k.idx as int) {
                            Some(a) => Some(kept_count(ex, a)),
                            None => None,
                        },
                        None => None::<int>,
                    }),
            decreases n_samples - s,
        {
            let v = *self.samples.stack.index(Id::new(s));
            match v {
                Some(k) => {
                    let nv: Option<StackIdx> = match self.first_kept_node(&stbits, k.idx) {
                        Some(a) => {
                            proof {
                                lemma_first_kept_kept(pre0, ex, k.idx as int);
                            }
                            match old_to_new[a] {
                                Some(v) => Some(Id::new(v)),
                                None => {
                                    proof {
                                        assert(false);
                                    }
                                    None
                                },
                            }
                        },
                        None => None,
                    };
                    self.samples.stack.set(Id::new(s), nv);
                },
                None => {},
            }
            s += 1;
        }

        // Install the rebuilt stack table.
        let new_len = new_frames.len();
        self.stack_table = StackTable::new(
            TypedVec::from_vec(new_prefix),
            TypedVec::from_vec(new_frames),
            new_len,
        );

        // The rebuilt thread is well-formed: a kept node's new parent
        // sits strictly below it (its nearest kept ancestor is an older
        // node), frames come from the old table, and samples point into
        // the rebuilt table.
        proof {
            lemma_kept_count_mono(ex, 0, n as int);
            assert forall|ni: int|
                0 <= ni < self.stack_table.prefix@.len() implies ((
            #[trigger] self.stack_table.prefix@[ni]) matches Some(p) ==> p.idx < ni) by {
                if self.stack_table.prefix@[ni] is Some {
                    lemma_kept_count_surjective(ex, n as int, ni);
                    let j = choose|j: int|
                        0 <= j < n && !ex.contains(j) && #[trigger] kept_count(ex, j) == ni;
                    assert(opt_idx(self.stack_table.prefix@[ni]) == (match pre0[j] {
                        Some(p) => match first_kept(pre0, ex, p.idx as int) {
                            Some(a) => Some(kept_count(ex, a)),
                            None => None,
                        },
                        None => None::<int>,
                    }));
                    match pre0[j] {
                        Some(p) => {
                            lemma_first_kept_kept(pre0, ex, p.idx as int);
                            match first_kept(pre0, ex, p.idx as int) {
                                Some(a) => {
                                    lemma_kept_count_mono(ex, a, j);
                                },
                                None => {},
                            }
                        },
                        None => {},
                    }
                }
            }
            assert forall|ni: int|
                0 <= ni < self.stack_table.frame@.len() implies (
            #[trigger] self.stack_table.frame@[ni]).idx < self.frame_table.func@.len() by {
                lemma_kept_count_surjective(ex, n as int, ni);
                let j = choose|j: int|
                    0 <= j < n && !ex.contains(j) && #[trigger] kept_count(ex, j) == ni;
                assert(self.stack_table.frame@[ni] == t0.stack_table.frame@[j]);
            }
            assert forall|s2: int|
                0 <= s2 < self.samples.stack@.len() implies ((#[trigger] self.samples.stack@[s2])
                matches Some(k) ==> k.idx < self.stack_table.prefix@.len()) by {
                match t0.samples.stack@[s2] {
                    Some(k0) => {
                        lemma_first_kept_kept(pre0, ex, k0.idx as int);
                        match first_kept(pre0, ex, k0.idx as int) {
                            Some(a) => {
                                lemma_kept_count_mono(ex, a + 1, n as int);
                            },
                            None => {},
                        }
                    },
                    None => {},
                }
            }
        }
    }
}

impl Profile {
    /// Flattens out of every thread the stack nodes of the functions
    /// whose name matches the regular expression `pattern`, rebuilding
    /// each thread's stack table without them. Fails with
    /// `InvalidPattern` exactly when the pattern does not compile, and
    /// with `CorruptProfile` exactly when the pattern is fine but some
    /// thread's tables are malformed; on failure nothing is changed.
    pub fn flatten_frames(&mut self, pattern: &str) -> (r: Result<(), ProfileError>)
        ensures
            r is Ok <==> (pattern_ok(pattern@) && old(self).wf()),
            r is Err ==> *final(self) == *old(self),
            r == Err::<(), ProfileError>(ProfileError::InvalidPattern) <==> !pattern_ok(pattern@),
            r matches Err(e) ==> (e == ProfileError::InvalidPattern || e
                == ProfileError::CorruptProfile),
            r is Ok ==> final(self).wf() && flattened_profile_with(
                *final(self),
                *old(self),
                excluded_strings(old(self).shared.string_array@, pattern@),
            ),
    {
        let m = match matcher::compile(pattern) {
            Ok(m) => m,
            Err(_) => {
                return Err(ProfileError::InvalidPattern);
            },
        };
        if !self.check() {
            return Err(ProfileError::CorruptProfile);
        }
        let ghost p0 = *self;
        let ghost pat = pattern@;

        let n_strings = self.shared.string_array.len();
        let mut sbits: Vec<bool> = Vec::new();
        let mut i: usize = 0;
        while i < n_strings
            invariant
                *self == p0,
                p0.wf(),
                m.pattern() == pat,
                n_strings == p0.shared.string_array@.len(),
                i <= n_strings,
                sbits@.len() == i,
                forall|j: int|
                    0 <= j < i ==> (#[trigger] sbits@[j]) == crate::matcher::regex_match(
                        pat,
                        p0.shared.string_array@[j]@,
                    ),
            decreases n_strings - i,
        {
            let s = self.shared.string_array.index(Id::new(i));
            let b = matcher::is_match(&m, s.as_str());
            sbits.push(b);
            i += 1;
        }
        proof {
            assert(bits_set(sbits@) =~= excluded_strings(p0.shared.string_array@, pat));
        }
        let ghost xs = excluded_strings(p0.shared.string_array@, pat);

        let n_threads = self.threads.len();
        let mut t: usize = 0;
        while t < n_threads
            invariant
                p0.wf(),
                xs == excluded_strings(p0.shared.string_array@, pat),
                bits_set(sbits@) == xs,
                self.shared == p0.shared,
                n_threads == p0.threads@.len(),
                self.threads@.len() == n_threads,
                t <= n_threads,
                forall|j: int|
                    t <= j < n_threads ==> (#[trigger] self.threads@[j]) == p0.threads@[j],
                forall|j: int|
                    0 <= j < t ==> flattened_thread_with(
                        #[trigger] self.threads@[j],
                        p0.threads@[j],
                        xs,
                    ) && self.threads@[j].wf(),
            decreases n_threads - t,
        {
            let ghost before = self.threads@;
            let mut th = self.threads.remove(t);
            th.flatten_frames(&sbits);
            self.threads.insert(t, th);
            proof {
                assert(self.threads@ =~= before.update(t as int, self.threads@[t as int]));
            }
            t += 1;
        }
        Ok(())
    }
}

} // verus!
