use sixtyfps_corelib::{lower_bound, ActiveTimer, Timer, TimerList, TimerMode};

fn run_pass(list: &mut TimerList, now: u64) -> Vec<usize> {
    let mut fired = Vec::new();
    if list.take_due_timers(now) {
        while let Some(id) = list.next_due(now) {
            fired.push(id);
            list.after_fire(id, now);
        }
    }
    fired
}

#[test]
fn single_shot_fires_once() {
    let mut list = TimerList::new();
    let mut t = Timer::new();
    t.start_at(&mut list, TimerMode::SingleShot, 100, 1000);
    assert!(t.running(&list));
    assert_eq!(run_pass(&mut list, 1099), Vec::<usize>::new());
    let fired = run_pass(&mut list, 1100);
    assert_eq!(fired.len(), 1);
    assert!(!t.running(&list));
    assert_eq!(run_pass(&mut list, 5000), Vec::<usize>::new());
    assert_eq!(list.next_timeout(), None);
}

#[test]
fn repeated_fires_each_period() {
    let mut list = TimerList::new();
    let mut t = Timer::new();
    t.start_at(&mut list, TimerMode::Repeated, 50, 0);
    for k in 1..=3u64 {
        assert_eq!(run_pass(&mut list, 50 * k).len(), 1);
        assert!(t.running(&list));
        assert_eq!(list.next_timeout(), Some(50 * (k + 1)));
    }
}

#[test]
fn equal_deadlines_fire_in_arming_order() {
    let mut list = TimerList::new();
    let mut a = Timer::new();
    let mut b = Timer::new();
    let mut c = Timer::new();
    c.start_at(&mut list, TimerMode::SingleShot, 10, 0);
    a.start_at(&mut list, TimerMode::SingleShot, 10, 0);
    b.start_at(&mut list, TimerMode::SingleShot, 10, 0);
    let first = run_pass(&mut list, 10);
    assert_eq!(first.len(), 3);
    c.restart_at(&mut list, 20);
    a.restart_at(&mut list, 20);
    b.restart_at(&mut list, 20);
    // the latest arming decides, not the order of registration
    a.restart_at(&mut list, 20);
    let second = run_pass(&mut list, 30);
    assert_eq!(second, vec![first[0], first[2], first[1]]);
    let mut d = Timer::new();
    d.start_at(&mut list, TimerMode::SingleShot, 5, 40);
    let mut e = Timer::new();
    e.start_at(&mut list, TimerMode::SingleShot, 5, 40);
    let third = run_pass(&mut list, 45);
    assert_eq!(third.len(), 2);
    assert!(third[0] != third[1]);
    assert!(!d.running(&list) && !e.running(&list));
}

#[test]
fn next_timeout_is_the_minimum() {
    let mut list = TimerList::new();
    assert_eq!(list.next_timeout(), None);
    let mut a = Timer::new();
    let mut b = Timer::new();
    let mut c = Timer::new();
    a.start_at(&mut list, TimerMode::SingleShot, 300, 0);
    b.start_at(&mut list, TimerMode::SingleShot, 100, 0);
    c.start_at(&mut list, TimerMode::SingleShot, 200, 0);
    assert_eq!(list.next_timeout(), Some(100));
    assert_eq!(run_pass(&mut list, 100).len(), 1);
    assert!(!b.running(&list));
    assert_eq!(list.next_timeout(), Some(200));
    c.stop(&mut list);
    assert_eq!(list.next_timeout(), Some(300));
    a.stop(&mut list);
    assert_eq!(list.next_timeout(), None);
}

#[test]
fn stopped_during_pass_does_not_fire() {
    let mut list = TimerList::new();
    let mut a = Timer::new();
    let mut b = Timer::new();
    a.start_at(&mut list, TimerMode::SingleShot, 10, 0);
    b.start_at(&mut list, TimerMode::SingleShot, 10, 0);
    assert!(list.take_due_timers(20));
    let first = list.next_due(20).unwrap();
    // the callback of the first timer stops the second
    b.stop(&mut list);
    list.after_fire(first, 20);
    assert_eq!(list.next_due(20), None);
    assert!(!a.running(&list));
    assert!(!b.running(&list));
}

#[test]
fn restart_from_own_callback_arms_once() {
    let mut list = TimerList::new();
    let mut t = Timer::new();
    t.start_at(&mut list, TimerMode::Repeated, 10, 0);
    assert!(list.take_due_timers(10));
    let id = list.next_due(10).unwrap();
    t.restart_at(&mut list, 12);
    list.after_fire(id, 10);
    assert_eq!(list.next_due(10), None);
    assert_eq!(list.next_timeout(), Some(22));
}

#[test]
fn entries_not_yet_due_are_armed_again() {
    let mut list = TimerList::new();
    let mut a = Timer::new();
    let mut b = Timer::new();
    a.start_at(&mut list, TimerMode::SingleShot, 10, 0);
    b.start_at(&mut list, TimerMode::SingleShot, 50, 0);
    assert_eq!(run_pass(&mut list, 20).len(), 1);
    assert!(b.running(&list));
    assert_eq!(list.next_timeout(), Some(50));
}

#[test]
fn no_pass_when_nothing_due() {
    let mut list = TimerList::new();
    assert!(!list.take_due_timers(0));
    let mut a = Timer::new();
    a.start_at(&mut list, TimerMode::SingleShot, 10, 0);
    assert!(!list.take_due_timers(9));
    assert_eq!(list.next_due(9), None);
    assert!(a.running(&list));
}

#[test]
fn stop_and_restart_of_unstarted_handle_do_nothing() {
    let mut list = TimerList::new();
    let mut t = Timer::new();
    t.stop(&mut list);
    t.restart_at(&mut list, 5);
    assert!(!t.running(&list));
    assert_eq!(list.next_timeout(), None);
}

#[test]
fn restart_after_firing_rearms() {
    let mut list = TimerList::new();
    let mut t = Timer::new();
    t.start_at(&mut list, TimerMode::SingleShot, 10, 0);
    assert_eq!(run_pass(&mut list, 10).len(), 1);
    t.restart_at(&mut list, 15);
    assert!(t.running(&list));
    assert_eq!(list.next_timeout(), Some(25));
}

#[test]
fn restarted_timer_keeps_its_slot() {
    let mut list = TimerList::new();
    let mut t = Timer::new();
    t.start_at(&mut list, TimerMode::SingleShot, 10, 0);
    let first = run_pass(&mut list, 10);
    t.start_at(&mut list, TimerMode::SingleShot, 10, 20);
    let second = run_pass(&mut list, 30);
    assert_eq!(first, second);
}

#[test]
fn released_timer_stops() {
    let mut list = TimerList::new();
    let mut t = Timer::new();
    t.start_at(&mut list, TimerMode::Repeated, 10, 0);
    t.release(&mut list);
    assert_eq!(list.next_timeout(), None);
    assert_eq!(run_pass(&mut list, 100), Vec::<usize>::new());
}

#[test]
fn deadline_saturates() {
    let mut list = TimerList::new();
    let mut t = Timer::new();
    t.start_at(&mut list, TimerMode::SingleShot, u64::MAX, 10);
    assert_eq!(list.next_timeout(), Some(u64::MAX));
}

#[test]
fn clock_driven_start() {
    let mut list = TimerList::new();
    let mut t = Timer::new();
    t.start(&mut list, TimerMode::SingleShot, 1_000_000);
    assert!(t.running(&list));
    assert!(list.next_timeout().unwrap() >= 1_000_000);
    assert!(!list.take_due_timers(list.now()));
    t.restart(&mut list);
    assert!(t.running(&list));
}

#[test]
fn lower_bound_places_after_equal_deadlines() {
    let v: Vec<ActiveTimer> = [1u64, 3, 3, 5]
        .iter()
        .enumerate()
        .map(|(id, &timeout)| ActiveTimer { id, timeout })
        .collect();
    assert_eq!(lower_bound(&v, 0), 0);
    assert_eq!(lower_bound(&v, 1), 1);
    assert_eq!(lower_bound(&v, 3), 3);
    assert_eq!(lower_bound(&v, 4), 3);
    assert_eq!(lower_bound(&v, 9), 4);
    assert_eq!(lower_bound(&Vec::new(), 9), 0);
}
