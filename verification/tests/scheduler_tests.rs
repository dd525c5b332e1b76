use block_executor::scheduler::{Scheduler, SchedulerError};

#[test]
fn incarnations_start_finish_and_commit_in_order() {
    let mut s = Scheduler::new(3);
    assert_eq!(s.num_txns(), 3);
    assert!(!s.is_halted());
    // the first incarnation of each transaction starts once
    assert_eq!(s.try_start(0), Some(0));
    assert_eq!(s.try_start(0), None);
    // nothing commits before the frontier transaction is executed
    assert_eq!(s.try_commit(), None);
    assert_eq!(s.finish_execution(0), Ok(()));
    assert_eq!(s.try_commit(), Some(0));
    // committing again waits for the next transaction
    assert_eq!(s.try_commit(), None);
    assert_eq!(s.try_start(1), Some(0));
    assert_eq!(s.finish_execution(1), Ok(()));
    assert_eq!(s.try_commit(), Some(1));
}

#[test]
fn abort_schedules_the_next_incarnation() {
    let mut s = Scheduler::new(2);
    assert_eq!(s.try_start(0), Some(0));
    // the incarnation hits a dependency and aborts
    assert_eq!(s.abort(0), Ok(1));
    // re-execution runs incarnation 1
    assert_eq!(s.try_start(0), Some(1));
    assert_eq!(s.finish_execution(0), Ok(()));
    // an executed transaction can still be invalidated before it commits
    assert_eq!(s.abort(0), Ok(2));
    assert_eq!(s.try_start(0), Some(2));
}

#[test]
fn invalid_transitions_are_loud() {
    let mut s = Scheduler::new(2);
    assert_eq!(s.finish_execution(0), Err(SchedulerError::InvalidTransition));
    assert_eq!(s.abort(0), Err(SchedulerError::InvalidTransition));
    assert_eq!(s.try_start(0), Some(0));
    // a running transaction cannot start again
    assert_eq!(s.try_start(0), None);
}

#[test]
fn skip_rest_discards_the_tail() {
    let mut s = Scheduler::new(3);
    assert_eq!(s.try_start(0), Some(0));
    assert_eq!(s.finish_execution(0), Ok(()));
    assert_eq!(s.try_commit(), Some(0));
    s.skip_rest(1);
    // discarded transactions neither start nor commit
    assert_eq!(s.try_start(1), None);
    assert_eq!(s.try_start(2), None);
    assert_eq!(s.try_commit(), None);
}

#[test]
fn halting_blocks_new_work() {
    let mut s = Scheduler::new(2);
    s.halt();
    assert!(s.is_halted());
    assert_eq!(s.try_start(0), None);
}
