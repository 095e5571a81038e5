use os::semaphore::{DownOutcome, Semaphore};

#[test]
fn new_semaphore_has_free_units_and_no_waiters() {
    let sem = Semaphore::new(3);
    assert_eq!(sem.get_count(), 3);
    assert!(sem.get_owners().is_empty());
    assert!(sem.get_wait_tid_list().is_empty());
}

#[test]
fn down_takes_a_free_unit() {
    let mut sem = Semaphore::new(2);
    assert_eq!(sem.down(7), DownOutcome::Acquired);
    assert_eq!(sem.down(8), DownOutcome::Acquired);
    assert_eq!(sem.get_count(), 0);
    assert_eq!(sem.get_owners(), vec![7, 8]);
    assert!(sem.get_wait_tid_list().is_empty());
}

#[test]
fn down_blocks_when_no_unit_is_free() {
    let mut sem = Semaphore::new(1);
    assert_eq!(sem.down(1), DownOutcome::Acquired);
    assert_eq!(sem.down(2), DownOutcome::Blocked);
    assert_eq!(sem.down(3), DownOutcome::Blocked);
    assert_eq!(sem.get_count(), -2);
    assert_eq!(sem.get_owners(), vec![1]);
    assert_eq!(sem.get_wait_tid_list(), vec![2, 3]);
}

#[test]
fn up_wakes_the_earliest_waiter_and_hands_it_the_unit() {
    let mut sem = Semaphore::new(1);
    sem.down(1);
    sem.down(2);
    sem.down(3);
    assert_eq!(sem.up(1), Some(2));
    assert_eq!(sem.get_count(), -1);
    assert_eq!(sem.get_owners(), vec![2]);
    assert_eq!(sem.get_wait_tid_list(), vec![3]);
    assert_eq!(sem.up(2), Some(3));
    assert_eq!(sem.get_count(), 0);
    assert_eq!(sem.get_owners(), vec![3]);
    assert!(sem.get_wait_tid_list().is_empty());
    assert_eq!(sem.up(3), None);
    assert_eq!(sem.get_count(), 1);
    assert!(sem.get_owners().is_empty());
}

#[test]
fn waiters_are_woken_first_in_first_out() {
    let mut sem = Semaphore::new(0);
    for tid in [10, 20, 30, 40] {
        assert_eq!(sem.down(tid), DownOutcome::Blocked);
    }
    let woken: Vec<Option<usize>> = [1, 1, 1, 1].iter().map(|t| sem.up(*t)).collect();
    assert_eq!(woken, vec![Some(10), Some(20), Some(30), Some(40)]);
    assert_eq!(sem.get_count(), 0);
}

#[test]
fn up_drops_only_the_first_unit_of_the_caller() {
    let mut sem = Semaphore::new(3);
    sem.down(1);
    sem.down(2);
    sem.down(1);
    assert_eq!(sem.get_owners(), vec![1, 2, 1]);
    assert_eq!(sem.up(1), None);
    assert_eq!(sem.get_owners(), vec![2, 1]);
    assert_eq!(sem.get_count(), 1);
}

#[test]
fn up_by_a_task_that_holds_nothing_only_adds_a_unit() {
    let mut sem = Semaphore::new(0);
    assert_eq!(sem.up(5), None);
    assert_eq!(sem.get_count(), 1);
    assert!(sem.get_owners().is_empty());
    assert_eq!(sem.down(6), DownOutcome::Acquired);
    assert_eq!(sem.get_owners(), vec![6]);
}

#[test]
fn down_then_up_restores_the_semaphore() {
    let mut sem = Semaphore::new(2);
    sem.down(4);
    let count = sem.get_count();
    let waiting = sem.get_wait_tid_list();
    let mut owners = sem.get_owners();
    assert_eq!(sem.down(9), DownOutcome::Acquired);
    assert_eq!(sem.up(9), None);
    assert_eq!(sem.get_count(), count);
    assert_eq!(sem.get_wait_tid_list(), waiting);
    let mut after = sem.get_owners();
    owners.sort();
    after.sort();
    assert_eq!(after, owners);
}

#[test]
fn units_are_conserved_when_owners_release() {
    let mut sem = Semaphore::new(2);
    let units = |s: &Semaphore| s.get_owners().len() as isize + s.get_count().max(0);
    sem.down(1);
    assert_eq!(units(&sem), 2);
    sem.down(2);
    sem.down(3);
    sem.down(4);
    assert_eq!(units(&sem), 2);
    assert_eq!(sem.get_wait_tid_list().len() as isize, -sem.get_count());
    sem.up(1);
    assert_eq!(units(&sem), 2);
    sem.up(2);
    sem.up(3);
    assert_eq!(units(&sem), 2);
    sem.up(4);
    assert_eq!(units(&sem), 2);
    assert_eq!(sem.get_count(), 2);
    assert!(sem.get_wait_tid_list().is_empty());
}
