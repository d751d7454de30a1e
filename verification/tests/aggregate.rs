use samply_kit::FrameTable;
use samply_kit::FuncTable;
use samply_kit::Id;
use samply_kit::Profile;
use samply_kit::ProfileError;
use samply_kit::ProfileSharedData;
use samply_kit::SampleTable;
use samply_kit::StackTable;
use samply_kit::StringIdx;
use samply_kit::Thread;
use samply_kit::TypedVec;

fn build_thread(
    prefix: Vec<Option<usize>>,
    frame: Vec<usize>,
    frame_func: Vec<usize>,
    func_name: Vec<usize>,
    sample_stack: Vec<Option<usize>>,
    weight: Option<Vec<usize>>,
) -> Thread {
    let length = prefix.len();
    let stack_table = StackTable::new(
        TypedVec::from_vec(prefix.into_iter().map(|p| p.map(Id::new)).collect()),
        TypedVec::from_vec(frame.into_iter().map(Id::new).collect()),
        length,
    );
    let frame_table = FrameTable::new(TypedVec::from_vec(
        frame_func.into_iter().map(Id::new).collect(),
    ));
    let func_table = FuncTable::new(TypedVec::from_vec(
        func_name.into_iter().map(Id::new).collect(),
    ));
    let samples = SampleTable::new(
        TypedVec::from_vec(sample_stack.into_iter().map(|p| p.map(Id::new)).collect()),
        weight.map(TypedVec::from_vec),
    );
    Thread::new(
        samples,
        stack_table,
        frame_table,
        func_table,
        "worker".to_string(),
    )
}

fn shared(names: &[&str]) -> ProfileSharedData {
    ProfileSharedData::new(TypedVec::from_vec(
        names.iter().map(|s| s.to_string()).collect(),
    ))
}

#[test]
fn sample_count_self_and_cumulative() {
    // main -> work -> leaf, samples at leaf (weight 2) and work (weight 5).
    let t = build_thread(
        vec![None, Some(0), Some(1)],
        vec![0, 1, 2],
        vec![0, 1, 2],
        vec![0, 1, 2],
        vec![Some(2), Some(1)],
        Some(vec![2, 5]),
    );
    let (own, cum) = t.sample_count().expect("well-formed thread");
    assert_eq!(own.get(Id::new(2)), Some(2));
    assert_eq!(own.get(Id::new(1)), Some(5));
    assert_eq!(own.get(Id::new(0)), None);
    assert_eq!(cum.get(Id::new(0)), Some(7));
    assert_eq!(cum.get(Id::new(1)), Some(7));
    assert_eq!(cum.get(Id::new(2)), Some(2));
    // One entry per counted function.
    assert_eq!(own.entries().len(), 2);
    assert_eq!(cum.entries().len(), 3);
}

#[test]
fn sample_count_deduplicates_recursion() {
    // main -> rec -> rec (two frames of the same function): the
    // cumulative count of the recursive function is the sample's weight
    // once, not twice.
    let t = build_thread(
        vec![None, Some(0), Some(1)],
        vec![0, 1, 2],
        vec![0, 1, 1],
        vec![0, 1],
        vec![Some(2)],
        None,
    );
    let (own, cum) = t.sample_count().expect("well-formed thread");
    assert_eq!(own.get(Id::new(1)), Some(1));
    assert_eq!(cum.get(Id::new(1)), Some(1));
    assert_eq!(cum.get(Id::new(0)), Some(1));
}

#[test]
fn sample_count_skips_stackless_samples() {
    let t = build_thread(
        vec![None],
        vec![0],
        vec![0],
        vec![0],
        vec![None, Some(0)],
        None,
    );
    let (own, cum) = t.sample_count().expect("well-formed thread");
    assert_eq!(own.get(Id::new(0)), Some(1));
    assert_eq!(cum.get(Id::new(0)), Some(1));
}

#[test]
fn sample_count_corrupt_thread_fails() {
    let t = build_thread(
        vec![None],
        vec![5],
        vec![0],
        vec![0],
        vec![Some(0)],
        None,
    );
    assert!(matches!(t.sample_count(), Err(ProfileError::CorruptProfile)));
}

#[test]
fn reverse_search_groups_by_exact_path() {
    // Thread 1: main -> a -> b (sample, weight 1) and main -> b (sample,
    // weight 1). Thread 2: main -> a -> b again (weight 3).
    // Searching b: two distinct paths; [main, a, b] accumulates across
    // threads.
    let t1 = build_thread(
        vec![None, Some(0), Some(1), Some(0)],
        vec![0, 1, 2, 2],
        vec![0, 1, 2],
        vec![0, 1, 2],
        vec![Some(2), Some(3)],
        None,
    );
    let t2 = build_thread(
        vec![None, Some(0), Some(1)],
        vec![0, 1, 2],
        vec![0, 1, 2],
        vec![0, 1, 2],
        vec![Some(2)],
        Some(vec![3]),
    );
    let p = Profile::new(vec![t1, t2], shared(&["main", "a", "b"]));
    let target: StringIdx = Id::new(2);
    let traces = p.reverse_search(target).expect("well-formed profile");

    let long: Vec<StringIdx> = vec![Id::new(0), Id::new(1), Id::new(2)];
    let short: Vec<StringIdx> = vec![Id::new(0), Id::new(2)];
    assert_eq!(traces.get(&long), Some(4));
    assert_eq!(traces.get(&short), Some(1));
    // A path without the target has no group.
    let absent: Vec<StringIdx> = vec![Id::new(0)];
    assert_eq!(traces.get(&absent), None);
    assert_eq!(traces.entries().len(), 2);
}

#[test]
fn reverse_search_misses_when_target_absent() {
    let t = build_thread(
        vec![None],
        vec![0],
        vec![0],
        vec![0],
        vec![Some(0)],
        None,
    );
    let p = Profile::new(vec![t], shared(&["main"]));
    let traces = p.reverse_search(Id::new(5)).expect("well-formed profile");
    assert_eq!(traces.entries().len(), 0);
}

#[test]
fn reverse_search_corrupt_profile_fails() {
    let t = build_thread(
        vec![Some(0)],
        vec![0],
        vec![0],
        vec![0],
        vec![Some(0)],
        None,
    );
    let p = Profile::new(vec![t], shared(&["main"]));
    assert!(matches!(
        p.reverse_search(Id::new(0)),
        Err(ProfileError::CorruptProfile)
    ));
}

#[test]
fn weight_conservation_across_exclusion() {
    let t = build_thread(
        vec![None, Some(0), Some(1)],
        vec![0, 1, 2],
        vec![0, 1, 2],
        vec![0, 1, 2],
        vec![Some(2), Some(1), None],
        Some(vec![4, 2, 9]),
    );
    let mut p = Profile::new(vec![t], shared(&["keep", "drop_me", "keep2"]));
    let before = p.total_samples();
    p.exclude_function("drop").unwrap();
    assert_eq!(before, p.total_samples());
    assert_eq!(before, Some(vec![15]));
}

#[test]
fn parse_error_is_a_distinct_variant() {
    // Reserved for the collaborator that reads external input; the
    // library itself never produces it.
    assert_ne!(ProfileError::ParseError, ProfileError::InvalidPattern);
    assert_ne!(ProfileError::ParseError, ProfileError::CorruptProfile);
}
