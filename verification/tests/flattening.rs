use samply_kit::FrameTable;
use samply_kit::FuncTable;
use samply_kit::Id;
use samply_kit::Profile;
use samply_kit::ProfileError;
use samply_kit::ProfileSharedData;
use samply_kit::SampleTable;
use samply_kit::StackTable;
use samply_kit::Thread;
use samply_kit::TypedVec;

fn make_thread(
    prefix: Vec<Option<usize>>,
    frame: Vec<usize>,
    frame_func: Vec<usize>,
    func_name: Vec<usize>,
    sample_stack: Vec<Option<usize>>,
) -> Thread {
    let length = prefix.len();
    let stack_table = StackTable::new(
        TypedVec::from_vec(prefix.into_iter().map(|p| p.map(Id::new)).collect()),
        TypedVec::from_vec(frame.into_iter().map(Id::new).collect()),
        length,
    );
    let frame_table = FrameTable::new(TypedVec::from_vec(
        frame_func.into_iter().map(Id::new).collect(),
    ));
    let func_table = FuncTable::new(TypedVec::from_vec(
        func_name.into_iter().map(Id::new).collect(),
    ));
    let samples = SampleTable::new(
        TypedVec::from_vec(sample_stack.into_iter().map(|p| p.map(Id::new)).collect()),
        None,
    );
    Thread::new(samples, stack_table, frame_table, func_table, "t".to_string())
}

fn make_shared(names: &[&str]) -> ProfileSharedData {
    ProfileSharedData::new(TypedVec::from_vec(
        names.iter().map(|s| s.to_string()).collect(),
    ))
}

#[test]
fn flatten_removes_matching_nodes_and_renumbers() {
    // main -> pool_run -> work; flattening "pool" removes the middle
    // node: the two kept nodes are renumbered 0 and 1, work's parent
    // skips to main, and the sample that sat on pool_run moves to main.
    let t = make_thread(
        vec![None, Some(0), Some(1)],
        vec![0, 1, 2],
        vec![0, 1, 2],
        vec![0, 1, 2],
        vec![Some(2), Some(1)],
    );
    let mut p = Profile::new(vec![t], make_shared(&["main", "pool_run", "work"]));
    p.flatten_frames("pool").unwrap();

    let t = &p.threads[0];
    assert_eq!(t.stack_table.length, 2);
    assert_eq!(t.stack_table.prefix.inner, vec![None, Some(Id::new(0))]);
    assert_eq!(t.stack_table.frame.inner, vec![Id::new(0), Id::new(2)]);
    assert_eq!(
        t.samples.stack.inner,
        vec![Some(Id::new(1)), Some(Id::new(0))]
    );
    // The resolved path of the kept leaf no longer shows pool_run.
    let path: Vec<usize> = t
        .path(Id::new(1))
        .unwrap()
        .into_iter()
        .map(|s| s.idx)
        .collect();
    assert_eq!(path, vec![0, 2]);
}

#[test]
fn flatten_whole_chain_drops_sample_stack() {
    let t = make_thread(
        vec![None, Some(0)],
        vec![0, 1],
        vec![0, 1],
        vec![0, 1],
        vec![Some(1)],
    );
    let mut p = Profile::new(vec![t], make_shared(&["job_a", "job_b"]));
    p.flatten_frames("job").unwrap();
    let t = &p.threads[0];
    assert_eq!(t.stack_table.length, 0);
    assert_eq!(t.samples.stack.inner, vec![None]);
}

#[test]
fn flatten_matching_nothing_keeps_every_node() {
    let t = make_thread(
        vec![None, Some(0)],
        vec![0, 1],
        vec![0, 1],
        vec![0, 1],
        vec![Some(1)],
    );
    let mut p = Profile::new(vec![t], make_shared(&["one", "two"]));
    p.flatten_frames("zzz").unwrap();
    let t = &p.threads[0];
    assert_eq!(t.stack_table.length, 2);
    assert_eq!(t.stack_table.prefix.inner, vec![None, Some(Id::new(0))]);
    assert_eq!(t.samples.stack.inner, vec![Some(Id::new(1))]);
}

#[test]
fn flatten_invalid_pattern_changes_nothing() {
    let t = make_thread(vec![None], vec![0], vec![0], vec![0], vec![Some(0)]);
    let mut p = Profile::new(vec![t], make_shared(&["main"]));
    let before = p.threads[0].stack_table.prefix.inner.clone();
    assert_eq!(p.flatten_frames("["), Err(ProfileError::InvalidPattern));
    assert_eq!(p.threads[0].stack_table.prefix.inner, before);
}
