//! Call-path resolution: from a stack node to the root-first sequence of
//! the function names on its call path.
//!
//! The specification walks the parent links recursively; downward parent
//! links (see `StackTable::wf`) make that walk well-founded. The
//! executable walk is an explicit loop over the index-addressed table, not
//! a recursion, so that pathological stack depths cannot exhaust the call
//! stack.

use vstd::prelude::*;

use crate::profile::ProfileError;
use crate::profile::Thread;
use crate::tables::FuncIdx;
use crate::tables::Id;
use crate::tables::StackIdx;
use crate::tables::StringIdx;

verus! {

impl Thread {
    /// The name (as a string-table index) of the function occurring at
    /// stack node `j`. Meaningful under `wf` and `0 <= j < stack len`.
    pub open spec fn stack_name(self, j: int) -> StringIdx {
        self.func_table.name@[self.frame_table.func@[self.stack_table.frame@[j].idx as int].idx as int]
    }

    /// The root-first call path of stack node `j`: the names along the
    /// parent chain from the forest root down to `j`. A parent link that
    /// does not point strictly downwards is treated as absent, which
    /// matches `wf` ruling such links out.
    pub open spec fn spec_path(self, j: int) -> Seq<StringIdx>
        decreases j,
    {
        if 0 <= j < self.stack_table.prefix@.len() {
            match self.stack_table.prefix@[j] {
                Some(p) => {
                    if p.idx < j {
                        self.spec_path(p.idx as int).push(self.stack_name(j))
                    } else {
                        seq![self.stack_name(j)]
                    }
                },
                None => seq![self.stack_name(j)],
            }
        } else {
            Seq::empty()
        }
    }

    /// The call path of sample `s`: empty when the sample has no stack.
    pub open spec fn sample_path(self, s: int) -> Seq<StringIdx> {
        match self.samples.stack@[s] {
            Some(k) => self.spec_path(k.idx as int),
            None => Seq::empty(),
        }
    }

    /// Resolves the call path of an in-bounds stack node of a well-formed
    /// thread, walking the parent links iteratively.
    pub(crate) fn resolve_path(&self, k: StackIdx) -> (r: Vec<StringIdx>)
        requires
            self.wf(),
            k.idx < self.stack_table.prefix@.len(),
        ensures
            r@ == self.spec_path(k.idx as int),
    {
        // Collect names leaf-first while climbing to the root.
        let mut rev: Vec<StringIdx> = Vec::new();
        let mut cur: usize = k.idx;
        loop
            invariant_except_break
                self.wf(),
                cur < self.stack_table.prefix@.len(),
                self.spec_path(k.idx as int) =~= self.spec_path(cur as int) + rev@.reverse(),
            ensures
                self.spec_path(k.idx as int) =~= rev@.reverse(),
            decreases cur,
        {
            let ghost old_rev = rev@;
            let frame = *self.stack_table.frame.index(Id::new(cur));
            let func = *self.frame_table.func.index(Id::new(frame.idx));
            let name = *self.func_table.name.index(Id::new(func.idx));
            rev.push(name);
            proof {
                assert(name == self.stack_name(cur as int));
                assert(rev@.reverse() =~= seq![name] + old_rev.reverse());
            }
            match *self.stack_table.prefix.index(Id::new(cur)) {
                Some(p) => {
                    proof {
                        assert(self.spec_path(cur as int) =~= self.spec_path(p.idx as int).push(
                            name,
                        ));
                        assert(self.spec_path(cur as int) + old_rev.reverse() =~= self.spec_path(
                            p.idx as int,
                        ) + rev@.reverse());
                    }
                    cur = p.idx;
                },
                None => {
                    proof {
                        assert(self.spec_path(cur as int) =~= seq![name]);
                    }
                    break;
                },
            }
        }
        // Reverse into root-first order.
        let n = rev.len();
        let mut out: Vec<StringIdx> = Vec::new();
        let mut i: usize = 0;
        while i < n
            invariant
                n == rev@.len(),
                i <= n,
                out@ =~= rev@.reverse().take(i as int),
            decreases n - i,
        {
            out.push(rev[n - 1 - i]);
            proof {
                assert(out@ =~= rev@.reverse().take(i + 1 as int));
            }
            i += 1;
        }
        proof {
            assert(out@ =~= rev@.reverse());
        }
        out
    }

    /// The function occurring at stack node `j`, as a thread-local
    /// function-table index. Meaningful under `wf` and in bounds.
    pub open spec fn stack_func(self, j: int) -> FuncIdx {
        self.frame_table.func@[self.stack_table.frame@[j].idx as int]
    }

    /// The root-first call path of stack node `j` as function-table
    /// indices (thread-local), the companion of `spec_path`.
    pub open spec fn spec_func_path(self, j: int) -> Seq<FuncIdx>
        decreases j,
    {
        if 0 <= j < self.stack_table.prefix@.len() {
            match self.stack_table.prefix@[j] {
                Some(p) => {
                    if p.idx < j {
                        self.spec_func_path(p.idx as int).push(self.stack_func(j))
                    } else {
                        seq![self.stack_func(j)]
                    }
                },
                None => seq![self.stack_func(j)],
            }
        } else {
            Seq::empty()
        }
    }

    /// The call path of stack node `id`, root-first, as function-table
    /// indices (thread-local). Fails with `CorruptProfile` exactly when
    /// the thread's tables are malformed or `id` is out of bounds.
    pub fn func_path(&self, id: StackIdx) -> (r: Result<Vec<FuncIdx>, ProfileError>)
        ensures
            match r {
                Ok(p) => self.wf() && id.idx < self.stack_table.prefix@.len() && p@
                    == self.spec_func_path(id.idx as int),
                Err(e) => e == ProfileError::CorruptProfile && !(self.wf() && id.idx
                    < self.stack_table.prefix@.len()),
            },
    {
        if !self.check() {
            return Err(ProfileError::CorruptProfile);
        }
        if id.idx >= self.stack_table.prefix.len() {
            return Err(ProfileError::CorruptProfile);
        }
        // Collect functions leaf-first while climbing to the root.
        let mut rev: Vec<FuncIdx> = Vec::new();
        let mut cur: usize = id.idx;
        loop
            invariant_except_break
                self.wf(),
                cur < self.stack_table.prefix@.len(),
                self.spec_func_path(id.idx as int) =~= self.spec_func_path(cur as int)
                    + rev@.reverse(),
            ensures
                self.spec_func_path(id.idx as int) =~= rev@.reverse(),
            decreases cur,
        {
            let ghost old_rev = rev@;
            let frame = *self.stack_table.frame.index(Id::new(cur));
            let func = *self.frame_table.func.index(Id::new(frame.idx));
            rev.push(func);
            proof {
                assert(func == self.stack_func(cur as int));
                assert(rev@.reverse() =~= seq![func] + old_rev.reverse());
            }
            match *self.stack_table.prefix.index(Id::new(cur)) {
                Some(p) => {
                    proof {
                        assert(self.spec_func_path(cur as int) =~= self.spec_func_path(
                            p.idx as int,
                        ).push(func));
                        assert(self.spec_func_path(cur as int) + old_rev.reverse()
                            =~= self.spec_func_path(p.idx as int) + rev@.reverse());
                    }
                    cur = p.idx;
                },
                None => {
                    proof {
                        assert(self.spec_func_path(cur as int) =~= seq![func]);
                    }
                    break;
                },
            }
        }
        // Reverse into root-first order.
        let n = rev.len();
        let mut out: Vec<FuncIdx> = Vec::new();
        let mut i: usize = 0;
        while i < n
            invariant
                n == rev@.len(),
                i <= n,
                out@ =~= rev@.reverse().take(i as int),
            decreases n - i,
        {
            out.push(rev[n - 1 - i]);
            proof {
                assert(out@ =~= rev@.reverse().take(i + 1 as int));
            }
            i += 1;
        }
        proof {
            assert(out@ =~= rev@.reverse());
        }
        Ok(out)
    }

    /// The call path of stack node `id`, root-first, as string-table
    /// indices (stable across threads). Fails with `CorruptProfile`
    /// exactly when the thread's tables are malformed or `id` is out of
    /// bounds; on a well-formed thread the result is owed and is the
    /// specified path.
    pub fn path(&self, id: StackIdx) -> (r: Result<Vec<StringIdx>, ProfileError>)
        ensures
            match r {
                Ok(p) => self.wf() && id.idx < self.stack_table.prefix@.len() && p@
                    == self.spec_path(id.idx as int),
                Err(e) => e == ProfileError::CorruptProfile && !(self.wf() && id.idx
                    < self.stack_table.prefix@.len()),
            },
    {
        if !self.check() {
            return Err(ProfileError::CorruptProfile);
        }
        if id.idx >= self.stack_table.prefix.len() {
            return Err(ProfileError::CorruptProfile);
        }
        Ok(self.resolve_path(id))
    }
}

} // verus!
