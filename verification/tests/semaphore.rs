//! Semaphores.
use rcore::sync::semaphore::{Down, Semaphore, DEADLOCK};

#[test]
fn resources_are_taken_and_given_back() {
    let mut s = Semaphore::new(2);
    assert_eq!(s.down(1), Down::Done(0));
    assert_eq!(s.down(2), Down::Done(0));
    assert_eq!(s.inner.count, 0);
    assert_eq!(s.up(), None);
    assert_eq!(s.inner.count, 1);
    assert_eq!(s.down(3), Down::Done(0));
}

#[test]
fn waiting_tasks_are_woken_in_order() {
    let mut s = Semaphore::new(1);
    assert_eq!(s.down(1), Down::Done(0));
    assert_eq!(s.down(2), Down::Block);
    assert_eq!(s.down(3), Down::Block);
    assert_eq!(s.inner.count, -2);
    assert_eq!(s.inner.wait_queue.len(), 2);
    assert_eq!(s.up(), Some(2));
    assert_eq!(s.up(), Some(3));
    assert_eq!(s.up(), None);
    assert_eq!(s.inner.count, 1);
}

#[test]
fn no_resources_block_at_once() {
    let mut s = Semaphore::new(0);
    assert_eq!(s.down(7), Down::Block);
    assert_eq!(s.up(), Some(7));
    assert_eq!(s.inner.count, 0);
    assert!(s.inner.wait_queue.is_empty());
}

#[test]
fn woken_task_goes_on() {
    let mut s = Semaphore::new(0);
    assert_eq!(s.down(7), Down::Block);
    assert_eq!(s.up(), Some(7));
    assert_eq!(s.down_resumed(false, true), 0);
    assert_eq!(s.down_resumed(true, false), 0);
    assert_eq!(s.inner.count, 0);
}

#[test]
fn deadlocked_task_gives_up_its_place() {
    let mut s = Semaphore::new(0);
    assert_eq!(s.down(7), Down::Block);
    assert_eq!(s.inner.wait_queue.pop_front(), Some(7));
    assert_eq!(s.down_resumed(true, true), -0xdead);
    assert_eq!(DEADLOCK, -57005);
    assert_eq!(s.inner.count, 0);
    assert!(s.inner.wait_queue.is_empty());
}

#[test]
fn very_large_number_of_resources_wraps() {
    let s = Semaphore::new(usize::MAX);
    assert_eq!(s.inner.count, -1);
}
