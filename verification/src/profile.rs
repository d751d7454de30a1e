//! The profile data model: parallel tables linked by branded indices.
//!
//! A `Profile` owns one shared string table and a list of `Thread`s; each
//! thread owns its own function, frame, stack and sample tables. Stack
//! nodes form a parent-pointer forest through their optional `prefix`
//! reference. Well-formedness (`wf`) says that every stored index is in
//! bounds for its table and that parent links point strictly downwards in
//! the table, which rules out cycles; a profile that breaks it is corrupt.

use vstd::prelude::*;

use crate::tables::FrameIdx;
use crate::tables::Id;
use crate::tables::FrameVec;
use crate::tables::FuncIdx;
use crate::tables::FuncVec;
use crate::tables::SampleVec;
use crate::tables::StackIdx;
use crate::tables::StackVec;
use crate::tables::StringIdx;
use crate::tables::StringVec;

verus! {

/// The ways an operation on a profile can fail.
#[derive(Clone, Copy, Debug, PartialEq, Eq, Structural)]
pub enum ProfileError {
    /// The supplied name pattern is not a valid regular expression.
    InvalidPattern,
    /// A table index is out of bounds, or a parent link does not point
    /// strictly downwards (the forest may have a cycle).
    CorruptProfile,
    /// The input does not conform to the required shape. Never produced
    /// here: reserved for the collaborator that reads external input.
    ParseError,
}

/// The samples of one thread: an optional stack node per sample, and an
/// optional weight column (absent means every sample weighs 1).
#[verifier::ext_equal]
pub struct SampleTable {
    pub stack: SampleVec<Option<StackIdx>>,
    pub weight: Option<SampleVec<usize>>,
}

/// The call-stack forest of one thread: per node a frame and an optional
/// parent (`prefix`).
#[verifier::ext_equal]
pub struct StackTable {
    pub prefix: StackVec<Option<StackIdx>>,
    pub frame: StackVec<FrameIdx>,
    pub length: usize,
}

/// The frames of one thread: each an occurrence of a function.
#[verifier::ext_equal]
pub struct FrameTable {
    pub func: FrameVec<FuncIdx>,
}

/// The functions of one thread: each holds the index of its name in the
/// profile-shared string table.
#[verifier::ext_equal]
pub struct FuncTable {
    pub name: FuncVec<StringIdx>,
}

/// The data shared by all threads of a profile: the string table.
#[verifier::ext_equal]
pub struct ProfileSharedData {
    pub string_array: StringVec<String>,
}

/// One thread's tables, plus its name.
#[verifier::ext_equal]
pub struct Thread {
    pub samples: SampleTable,
    pub stack_table: StackTable,
    pub frame_table: FrameTable,
    pub func_table: FuncTable,
    pub name: String,
}

/// A whole profile: the shared string table and the threads.
#[verifier::ext_equal]
pub struct Profile {
    pub threads: Vec<Thread>,
    pub shared: ProfileSharedData,
}

impl StackTable {
    /// The stack table is well-formed when its columns agree with its
    /// recorded length and every parent link points strictly downwards.
    /// Downward links make the parent relation well-founded: following
    /// `prefix` from any node terminates, so the forest has no cycles.
    pub open spec fn wf(self) -> bool {
        &&& self.prefix@.len() == self.length
        &&& self.frame@.len() == self.length
        &&& forall|i: int|
            0 <= i < self.prefix@.len() ==> ((#[trigger] self.prefix@[i]) matches Some(p)
                ==> p.idx < i)
    }

    /// Decides well-formedness of the stack table.
    pub fn check(&self) -> (r: bool)
        ensures
            r == self.wf(),
    {
        if self.prefix.len() != self.length || self.frame.len() != self.length {
            return false;
        }
        let n = self.length;
        let mut i: usize = 0;
        while i < n
            invariant
                n == self.length == self.prefix@.len() == self.frame@.len(),
                i <= n,
                forall|j: int|
                    0 <= j < i ==> ((#[trigger] self.prefix@[j]) matches Some(p) ==> p.idx < j),
            decreases n - i,
        {
            match *self.prefix.index(Id::new(i)) {
                Some(p) => {
                    if p.idx >= i {
                        return false;
                    }
                },
                None => {},
            }
            i += 1;
        }
        true
    }
}

impl Thread {
    /// A thread is well-formed when its stack table is, every frame index
    /// stored in a stack node is in bounds of the frame table, every
    /// function index stored in a frame is in bounds of the function
    /// table, every sample's stack reference is in bounds, and the weight
    /// column (if present) has one entry per sample.
    pub open spec fn wf(self) -> bool {
        &&& self.stack_table.wf()
        &&& forall|i: int|
            0 <= i < self.stack_table.frame@.len() ==> (#[trigger] self.stack_table.frame@[i]).idx
                < self.frame_table.func@.len()
        &&& forall|i: int|
            0 <= i < self.frame_table.func@.len() ==> (#[trigger] self.frame_table.func@[i]).idx
                < self.func_table.name@.len()
        &&& forall|s: int|
            0 <= s < self.samples.stack@.len() ==> ((#[trigger] self.samples.stack@[s]) matches Some(
                k,
            ) ==> k.idx < self.stack_table.prefix@.len())
        &&& (self.samples.weight matches Some(w) ==> w@.len() == self.samples.stack@.len())
    }

    /// Decides well-formedness of the thread.
    pub fn check(&self) -> (r: bool)
        ensures
            r == self.wf(),
    {
        if !self.stack_table.check() {
            return false;
        }
        let n_frames = self.frame_table.func.len();
        let n_funcs = self.func_table.name.len();
        let n_stacks = self.stack_table.prefix.len();

        let mut i: usize = 0;
        let n = self.stack_table.frame.len();
        while i < n
            invariant
                n == self.stack_table.frame@.len(),
                n_frames == self.frame_table.func@.len(),
                i <= n,
                forall|j: int|
                    0 <= j < i ==> (#[trigger] self.stack_table.frame@[j]).idx < n_frames,
            decreases n - i,
        {
            if self.stack_table.frame.index(Id::new(i)).idx >= n_frames {
                return false;
            }
            i += 1;
        }

        let mut i: usize = 0;
        while i < n_frames
            invariant
                n_frames == self.frame_table.func@.len(),
                n_funcs == self.func_table.name@.len(),
                i <= n_frames,
                forall|j: int| 0 <= j < i ==> (#[trigger] self.frame_table.func@[j]).idx < n_funcs,
            decreases n_frames - i,
        {
            if self.frame_table.func.index(Id::new(i)).idx >= n_funcs {
                return false;
            }
            i += 1;
        }

        let mut s: usize = 0;
        let n_samples = self.samples.stack.len();
        while s < n_samples
            invariant
                n_samples == self.samples.stack@.len(),
                n_stacks == self.stack_table.prefix@.len(),
                s <= n_samples,
                forall|j: int|
                    0 <= j < s ==> ((#[trigger] self.samples.stack@[j]) matches Some(k) ==> k.idx
                        < n_stacks),
            decreases n_samples - s,
        {
            match *self.samples.stack.index(Id::new(s)) {
                Some(k) => {
                    if k.idx >= n_stacks {
                        return false;
                    }
                },
                None => {},
            }
            s += 1;
        }

        match &self.samples.weight {
            Some(w) => w.len() == n_samples,
            None => true,
        }
    }
}

impl Profile {
    /// A profile is well-formed when every thread is.
    pub open spec fn wf(self) -> bool {
        forall|t: int| 0 <= t < self.threads@.len() ==> (#[trigger] self.threads@[t]).wf()
    }

    /// Decides well-formedness of the whole profile.
    pub fn check(&self) -> (r: bool)
        ensures
            r == self.wf(),
    {
        let n = self.threads.len();
        let mut t: usize = 0;
        while t < n
            invariant
                n == self.threads@.len(),
                t <= n,
                forall|j: int| 0 <= j < t ==> (#[trigger] self.threads@[j]).wf(),
            decreases n - t,
        {
            if !self.threads[t].check() {
                return false;
            }
            t += 1;
        }
        true
    }
}

impl SampleTable {
    /// Builds a sample table from its columns.
    pub fn new(stack: SampleVec<Option<StackIdx>>, weight: Option<SampleVec<usize>>) -> (r:
        SampleTable)
        ensures
            r.stack == stack,
            r.weight == weight,
    {
        SampleTable { stack, weight }
    }
}

impl StackTable {
    /// Builds a stack table from its columns and recorded length.
    pub fn new(prefix: StackVec<Option<StackIdx>>, frame: StackVec<FrameIdx>, length: usize) -> (r:
        StackTable)
        ensures
            r.prefix == prefix,
            r.frame == frame,
            r.length == length,
    {
        StackTable { prefix, frame, length }
    }
}

impl FrameTable {
    /// Builds a frame table from its function column.
    pub fn new(func: FrameVec<FuncIdx>) -> (r: FrameTable)
        ensures
            r.func == func,
    {
        FrameTable { func }
    }
}

impl FuncTable {
    /// Builds a function table from its name column.
    pub fn new(name: FuncVec<StringIdx>) -> (r: FuncTable)
        ensures
            r.name == name,
    {
        FuncTable { name }
    }
}

impl ProfileSharedData {
    /// Builds the shared data from the string table.
    pub fn new(string_array: StringVec<String>) -> (r: ProfileSharedData)
        ensures
            r.string_array == string_array,
    {
        ProfileSharedData { string_array }
    }
}

impl Thread {
    /// Builds a thread from its tables and name.
    pub fn new(
        samples: SampleTable,
        stack_table: StackTable,
        frame_table: FrameTable,
        func_table: FuncTable,
        name: String,
    ) -> (r: Thread)
        ensures
            r.samples == samples,
            r.stack_table == stack_table,
            r.frame_table == frame_table,
            r.func_table == func_table,
            r.name == name,
    {
        Thread { samples, stack_table, frame_table, func_table, name }
    }
}

impl Profile {
    /// Builds a profile from its threads and shared data.
    pub fn new(threads: Vec<Thread>, shared: ProfileSharedData) -> (r: Profile)
        ensures
            r.threads == threads,
            r.shared == shared,
    {
        Profile { threads, shared }
    }
}

} // verus!
