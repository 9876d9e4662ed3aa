use clips::{persistence_count, run_limit_argument, CLIPSError, CommandQueue, ConflictResolutionStrategy, Request, Step};

#[test]
fn commands_are_taken_in_submission_order() {
    let mut q: CommandQueue<&str> = CommandQueue::new();
    assert_eq!(q.submit(Request::Command("load")).unwrap(), 0);
    assert_eq!(q.submit(Request::Command("run")).unwrap(), 1);
    assert_eq!(q.submit(Request::Command("save")).unwrap(), 2);
    let mut order = Vec::new();
    loop {
        match q.take() {
            Step::Execute { ticket, command } => order.push((ticket, command)),
            Step::Idle => break,
            Step::Stop { .. } => panic!("no close was sent"),
        }
    }
    assert_eq!(order, vec![(0, "load"), (1, "run"), (2, "save")]);
}

#[test]
fn close_fails_what_is_queued_behind_it() {
    let mut q: CommandQueue<u32> = CommandQueue::new();
    q.submit(Request::Command(1)).unwrap();
    q.submit(Request::Close).unwrap();
    q.submit(Request::Command(2)).unwrap();
    q.submit(Request::Command(3)).unwrap();
    assert!(matches!(q.take(), Step::Execute { ticket: 0, command: 1 }));
    match q.take() {
        Step::Stop { ticket, failed } => {
            assert_eq!(ticket, 1);
            assert_eq!(failed, vec![2, 3]);
        }
        _ => panic!("the close request stops the worker"),
    }
    assert!(matches!(q.take(), Step::Idle));
    assert!(matches!(q.submit(Request::Command(4)), Err(CLIPSError::ThreadExited)));
}

#[test]
fn persistence_counts() {
    assert_eq!(persistence_count(-1, CLIPSError::UnableToSaveFacts), Err(CLIPSError::UnableToSaveFacts));
    assert_eq!(persistence_count(3, CLIPSError::UnableToLoadFacts), Ok(3));
}

#[test]
fn run_limits_and_strategies() {
    assert_eq!(run_limit_argument(None), -1);
    assert_eq!(run_limit_argument(Some(10)), 10);
    assert_eq!(ConflictResolutionStrategy::Depth.code(), 0);
    assert_eq!(ConflictResolutionStrategy::Random.code(), 6);
}

