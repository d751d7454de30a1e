use samply_kit::FrameTable;
use samply_kit::FuncTable;
use samply_kit::Id;
use samply_kit::Profile;
use samply_kit::ProfileError;
use samply_kit::ProfileSharedData;
use samply_kit::SampleTable;
use samply_kit::StackIdx;
use samply_kit::StackTable;
use samply_kit::StringVec;
use samply_kit::Thread;
use samply_kit::TypedVec;

fn strings(names: &[&str]) -> StringVec<String> {
    TypedVec::from_vec(names.iter().map(|s| s.to_string()).collect())
}

fn thread_of(
    prefix: Vec<Option<usize>>,
    frame: Vec<usize>,
    frame_func: Vec<usize>,
    func_name: Vec<usize>,
    sample_stack: Vec<Option<usize>>,
    weight: Vec<usize>,
    has_weight: bool,
) -> Thread {
    let length = prefix.len();
    let prefix = TypedVec::from_vec(prefix.into_iter().map(|p| p.map(Id::new)).collect());
    let frame = TypedVec::from_vec(frame.into_iter().map(Id::new).collect());
    let stack_table = StackTable::new(prefix, frame, length);
    let frame_table = FrameTable::new(TypedVec::from_vec(
        frame_func.into_iter().map(Id::new).collect(),
    ));
    let func_table = FuncTable::new(TypedVec::from_vec(
        func_name.into_iter().map(Id::new).collect(),
    ));
    let samples = SampleTable::new(
        TypedVec::from_vec(sample_stack.into_iter().map(|p| p.map(Id::new)).collect()),
        if has_weight {
            Some(TypedVec::from_vec(weight))
        } else {
            None
        },
    );
    Thread::new(
        samples,
        stack_table,
        frame_table,
        func_table,
        "thread".to_string(),
    )
}

/// The four-function scenario: main -> foo_try -> bar -> baz, with one
/// sample at the leaf and one at foo_try.
fn scenario_profile() -> Profile {
    let t = thread_of(
        vec![None, Some(0), Some(1), Some(2)],
        vec![0, 1, 2, 3],
        vec![0, 1, 2, 3],
        vec![0, 1, 2, 3],
        vec![Some(3), Some(1)],
        vec![],
        false,
    );
    Profile::new(
        vec![t],
        ProfileSharedData::new(strings(&["main", "foo_try", "bar", "baz"])),
    )
}

fn path_indices(t: &Thread, stack: usize) -> Vec<usize> {
    t.path(Id::new(stack))
        .expect("path should resolve")
        .into_iter()
        .map(|s| s.idx)
        .collect()
}

#[test]
fn scenario_exclude_try() {
    let mut p = scenario_profile();
    assert_eq!(p.total_samples(), Some(vec![2]));

    p.exclude_function("try").expect("pattern is valid");

    // func 1 -> frame 1 -> stack 1 excluded; stack 2's prefix squashed
    // from 1 to 0; sample 1 reattributed from excluded stack 1 to stack 0.
    let t = &p.threads[0];
    assert_eq!(path_indices(t, 3), vec![0, 2, 3]);
    assert_eq!(path_indices(t, 0), vec![0]);
    assert_eq!(t.stack_table.prefix.inner[2], Some(Id::new(0)));
    assert_eq!(t.samples.stack.inner[1], Some(Id::new(0)));
    assert_eq!(t.samples.stack.inner[0], Some(Id::new(3)));
    // Weight conservation: totals unchanged.
    assert_eq!(p.total_samples(), Some(vec![2]));
    // No table changed length.
    assert_eq!(t.stack_table.prefix.inner.len(), 4);
    assert_eq!(t.stack_table.frame.inner.len(), 4);
}

#[test]
fn exclude_is_idempotent() {
    let mut once = scenario_profile();
    once.exclude_function("try").unwrap();
    let mut twice = scenario_profile();
    twice.exclude_function("try").unwrap();
    twice.exclude_function("try").unwrap();

    let a = &once.threads[0];
    let b = &twice.threads[0];
    assert_eq!(a.stack_table.prefix.inner, b.stack_table.prefix.inner);
    assert_eq!(a.stack_table.frame.inner, b.stack_table.frame.inner);
    assert_eq!(a.samples.stack.inner, b.samples.stack.inner);
}

#[test]
fn exclude_whole_chain_leaves_sample_without_stack() {
    // Both functions on the path match, so the sample loses its stack.
    let t = thread_of(
        vec![None, Some(0)],
        vec![0, 1],
        vec![0, 1],
        vec![0, 1],
        vec![Some(1)],
        vec![],
        false,
    );
    let mut p = Profile::new(
        vec![t],
        ProfileSharedData::new(strings(&["alpha_x", "beta_x"])),
    );
    p.exclude_function("_x").unwrap();
    assert_eq!(p.threads[0].samples.stack.inner[0], None);
    // The sample still counts toward the total weight.
    assert_eq!(p.total_samples(), Some(vec![1]));
}

#[test]
fn exclude_invalid_pattern_changes_nothing() {
    let mut p = scenario_profile();
    let before = p.threads[0].stack_table.prefix.inner.clone();
    let r = p.exclude_function("(");
    assert_eq!(r, Err(ProfileError::InvalidPattern));
    assert_eq!(p.threads[0].stack_table.prefix.inner, before);
}

#[test]
fn exclude_matching_nothing_changes_nothing() {
    let mut p = scenario_profile();
    let before = p.threads[0].stack_table.prefix.inner.clone();
    let samples_before = p.threads[0].samples.stack.inner.clone();
    p.exclude_function("no_such_name").unwrap();
    assert_eq!(p.threads[0].stack_table.prefix.inner, before);
    assert_eq!(p.threads[0].samples.stack.inner, samples_before);
}

#[test]
fn exclude_corrupt_profile() {
    // A parent link that does not point strictly downwards.
    let t = thread_of(
        vec![Some(0)],
        vec![0],
        vec![0],
        vec![0],
        vec![Some(0)],
        vec![],
        false,
    );
    let mut p = Profile::new(vec![t], ProfileSharedData::new(strings(&["main"])));
    let r = p.exclude_function("main");
    assert_eq!(r, Err(ProfileError::CorruptProfile));
}

#[test]
fn path_on_corrupt_thread_fails() {
    let t = thread_of(
        vec![None, Some(1)],
        vec![0, 0],
        vec![0],
        vec![0],
        vec![],
        vec![],
        false,
    );
    assert_eq!(
        t.path(Id::new(1)),
        Err::<Vec<_>, _>(ProfileError::CorruptProfile)
    );
}

#[test]
fn path_out_of_bounds_fails() {
    let p = scenario_profile();
    let r = p.threads[0].path(Id::new(9));
    assert_eq!(r, Err::<Vec<_>, _>(ProfileError::CorruptProfile));
}

#[test]
fn path_monotonic_under_exclusion() {
    let mut p = scenario_profile();
    let before: Vec<usize> = (0..2)
        .map(|s| match p.threads[0].samples.stack.inner[s] {
            Some(k) => path_indices(&p.threads[0], k.idx).len(),
            None => 0,
        })
        .collect();
    p.exclude_function("ba").unwrap();
    let after: Vec<usize> = (0..2)
        .map(|s| match p.threads[0].samples.stack.inner[s] {
            Some(k) => path_indices(&p.threads[0], k.idx).len(),
            None => 0,
        })
        .collect();
    for s in 0..2 {
        assert!(after[s] <= before[s]);
    }
    // "ba" matches bar and baz: the leaf sample's path shrinks to
    // [main, foo_try].
    assert_eq!(after[0], 2);
}

#[test]
fn no_dangling_parents_after_exclusion() {
    let mut p = scenario_profile();
    p.exclude_function("try").unwrap();
    // Stack node 1 is the only excluded node; nothing may point at it.
    for pr in &p.threads[0].stack_table.prefix.inner {
        assert_ne!(*pr, Some(Id::new(1)));
    }
}

#[test]
fn total_weight_uses_weight_column() {
    let t = thread_of(
        vec![None],
        vec![0],
        vec![0],
        vec![0],
        vec![Some(0), Some(0)],
        vec![2, 3],
        true,
    );
    assert_eq!(t.total_samples(), Some(5));
}

#[test]
fn total_weight_defaults_to_sample_count() {
    let t = thread_of(
        vec![None],
        vec![0],
        vec![0],
        vec![0],
        vec![Some(0), None, Some(0)],
        vec![],
        false,
    );
    assert_eq!(t.total_samples(), Some(3));
}

#[test]
fn total_weight_overflow_is_reported() {
    let t = thread_of(
        vec![None],
        vec![0],
        vec![0],
        vec![0],
        vec![Some(0), Some(0)],
        vec![usize::MAX, 1],
        true,
    );
    assert_eq!(t.total_samples(), None);
    let p = Profile::new(vec![t], ProfileSharedData::new(strings(&["main"])));
    assert_eq!(p.total_samples(), None);
}

#[test]
fn empty_profile_works() {
    let mut p = Profile::new(vec![], ProfileSharedData::new(strings(&[])));
    assert_eq!(p.total_samples(), Some(vec![]));
    p.exclude_function(".*").unwrap();
    assert_eq!(p.threads.len(), 0);
}

#[test]
fn func_path_is_the_thread_local_variant() {
    // Two frames of the same function: the function path shows the
    // thread-local function index for each occurrence.
    let t = thread_of(
        vec![None, Some(0)],
        vec![0, 1],
        vec![0, 0],
        vec![0],
        vec![Some(1)],
        vec![],
        false,
    );
    let funcs: Vec<usize> = t
        .func_path(Id::new(1))
        .expect("path should resolve")
        .into_iter()
        .map(|f| f.idx)
        .collect();
    assert_eq!(funcs, vec![0, 0]);
    assert_eq!(
        t.func_path(Id::new(2)),
        Err(samply_kit::ProfileError::CorruptProfile)
    );
}

#[test]
fn id_new_brands_the_position() {
    let a: StackIdx = Id::new(7);
    assert_eq!(a.idx, 7);
    assert_eq!(a, Id::new(7));
    assert_ne!(a, Id::new(8));
}

#[test]
fn typed_vec_lookup() {
    let v: TypedVec<samply_kit::IndexStringTable, u32> = TypedVec::from_vec(vec![10, 20, 30]);
    assert_eq!(v.len(), 3);
    assert_eq!(v.get(Id::new(1)), Some(&20));
    assert_eq!(v.get(Id::new(3)), None);
    assert_eq!(*v.index(Id::new(2)), 30);
    let mut v = v;
    v.set(Id::new(0), 11);
    assert_eq!(v.get(Id::new(0)), Some(&11));
}
