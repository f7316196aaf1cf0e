use acervo::fsops::{deepest_first, plan_moves, split_ready, MoveReq, Problem};

fn req(src: &str, dst: &str, size: u64, dst_exists: bool, same: bool) -> MoveReq {
    let name = src.rsplit('/').next().unwrap();
    MoveReq {
        src: src.to_string(),
        dst: dst.to_string(),
        size,
        name_len: name.len(),
        src_parts: src.split('/').map(|s| s.to_string()).collect(),
        dst_exists,
        dst_same_file: same,
    }
}

#[test]
fn largest_file_wins_the_shared_target() {
    let moves = vec![req("/r/small.mkv", "/r/out.mkv", 1, false, false), req("/r/big.mkv", "/r/out.mkv", 10, false, false)];
    let plan = plan_moves(&moves);
    assert_eq!(plan.ranked, vec![vec![1, 0]]);
    assert_eq!(plan.queue, vec![(1, false)]);
    assert_eq!(plan.skipped, 1);
    assert!(matches!(plan.problems[..], [Problem::Duplicate { keep: 1, skip: 0 }]));
}

#[test]
fn an_occupied_target_is_refused() {
    let plan = plan_moves(&vec![req("/r/a.mkv", "/r/b.mkv", 1, true, false)]);
    assert!(plan.queue.is_empty());
    assert_eq!(plan.skipped, 1);
    assert!(matches!(plan.problems[..], [Problem::TargetExists { index: 0 }]));
}

#[test]
fn a_target_that_moves_away_is_waited_for() {
    let moves = vec![req("/r/a.mkv", "/r/b.mkv", 1, true, false), req("/r/b.mkv", "/r/c.mkv", 1, false, false)];
    let plan = plan_moves(&moves);
    assert_eq!(plan.queue, vec![(0, false), (1, false)]);
    assert_eq!(plan.skipped, 0);
    // First round: b is still there, so only b -> c may go.
    let (ready, blocked) = split_ready(&vec![(0, false, true), (1, false, false)]);
    assert_eq!(ready, vec![(1, false)]);
    assert_eq!(blocked, vec![(0, false)]);
    // Second round: b has moved away.
    let (ready, blocked) = split_ready(&vec![(0, false, false)]);
    assert_eq!(ready, vec![(0, false)]);
    assert!(blocked.is_empty());
}

#[test]
fn a_case_only_rename_moves_in_place() {
    let plan = plan_moves(&vec![req("/r/show (2019)", "/r/Show (2019)", 0, true, true)]);
    assert_eq!(plan.queue, vec![(0, true)]);
    assert_eq!(plan.skipped, 0);
    let (ready, blocked) = split_ready(&vec![(0, true, true)]);
    assert_eq!(ready, vec![(0, true)]);
    assert!(blocked.is_empty());
}

#[test]
fn a_move_onto_itself_is_dropped() {
    let plan = plan_moves(&vec![req("/r/a.mkv", "/r/a.mkv", 5, true, true)]);
    assert!(plan.ranked.is_empty());
    assert!(plan.queue.is_empty());
    assert_eq!(plan.skipped, 0);
}

#[test]
fn ties_go_to_the_longer_name_then_the_smaller_path() {
    let moves = vec![
        req("/r/b/x.mkv", "/r/out.mkv", 7, false, false),
        req("/r/a/x.mkv", "/r/out.mkv", 7, false, false),
        req("/r/a/xy.mkv", "/r/out.mkv", 7, false, false),
        req("/r/a/x.mkv", "/r/out.mkv", 7, false, false),
    ];
    let plan = plan_moves(&moves);
    assert_eq!(plan.ranked, vec![vec![2, 1, 3, 0]]);
    assert_eq!(plan.queue, vec![(2, false)]);
    assert_eq!(plan.skipped, 3);
}

#[test]
fn destinations_keep_first_seen_order() {
    let moves = vec![
        req("/r/1.mkv", "/r/B.mkv", 1, false, false),
        req("/r/2.mkv", "/r/A.mkv", 1, false, false),
        req("/r/3.mkv", "/r/B.mkv", 2, false, false),
    ];
    let plan = plan_moves(&moves);
    assert_eq!(plan.ranked, vec![vec![2, 0], vec![1]]);
    assert_eq!(plan.queue, vec![(2, false), (1, false)]);
    assert!(matches!(plan.problems[..], [Problem::Duplicate { keep: 2, skip: 0 }]));
}

#[test]
fn duplicates_are_reported_before_occupied_targets() {
    let moves = vec![
        req("/r/1.mkv", "/r/taken.mkv", 1, true, false),
        req("/r/2.mkv", "/r/X.mkv", 1, false, false),
        req("/r/3.mkv", "/r/X.mkv", 3, false, false),
    ];
    let plan = plan_moves(&moves);
    assert!(matches!(
        plan.problems[..],
        [Problem::Duplicate { keep: 2, skip: 1 }, Problem::TargetExists { index: 0 }]
    ));
    assert_eq!(plan.queue, vec![(2, false)]);
    assert_eq!(plan.skipped, 2);
}

#[test]
fn empty_directories_are_swept_deepest_first() {
    assert_eq!(deepest_first(&vec![1, 3, 2, 3]), vec![1, 3, 2, 0]);
    assert_eq!(deepest_first(&vec![]), Vec::<usize>::new());
    assert_eq!(deepest_first(&vec![2, 2, 2]), vec![0, 1, 2]);
}

#[test]
fn every_moving_request_is_queued_or_refused() {
    let moves = vec![
        req("/r/1.mkv", "/r/A.mkv", 3, false, false),
        req("/r/2.mkv", "/r/A.mkv", 1, false, false),
        req("/r/3.mkv", "/r/3.mkv", 1, true, true),
        req("/r/4.mkv", "/r/taken.mkv", 1, true, false),
        req("/r/5.mkv", "/r/B.mkv", 1, false, false),
    ];
    let plan = plan_moves(&moves);
    assert_eq!(plan.queue.len() + plan.problems.len(), 4);
}

#[test]
fn a_cycle_of_occupied_targets_is_never_performed() {
    let moves = vec![
        req("/r/a.mkv", "/r/b.mkv", 1, true, false),
        req("/r/b.mkv", "/r/c.mkv", 1, true, false),
        req("/r/c.mkv", "/r/a.mkv", 1, true, false),
    ];
    let plan = plan_moves(&moves);
    assert_eq!(plan.queue, vec![(0, false), (1, false), (2, false)]);
    assert_eq!(plan.skipped, 0);
    // Every target is still occupied: nothing may go, all are blocked.
    let (ready, blocked) = split_ready(&vec![(0, false, true), (1, false, true), (2, false, true)]);
    assert!(ready.is_empty());
    assert_eq!(blocked, vec![(0, false), (1, false), (2, false)]);
}
