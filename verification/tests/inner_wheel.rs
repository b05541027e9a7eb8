use lib::time_wheel::{Executor, InnerWheel, WheelTask, WHEEL_SLOTS_NUMBER};
use std::cell::RefCell;
use std::rc::Rc;

#[test]
fn test_inner_wheel() {
    let num = 0;
    let task = WheelTask::new(move || num);
    let out = task.execute();
    println!("{out}");

    let mut wheel: InnerWheel = InnerWheel::new();

    wheel.insert_task(0, Box::new(WheelTask::new(|| {
        println!("Hello Timing Wheel!");
        0
    })));

    wheel.insert_task(0, Box::new(WheelTask::new(|| {
        println!("Hello Timing Wheel Again!");
        0
    })));

    wheel.insert_task(1, Box::new(WheelTask::new(|| {
        println!("Hello Timing Wheel In Position 1!");
        0
    })));

    wheel.insert_task(2, Box::new(WheelTask::new(|| {
        println!("Hello Timing Wheel In Position 2!");
        0
    })));

    wheel.execute();

    println!("# Execute next slot.");
    wheel.execute();
}

fn recorder(log: &Rc<RefCell<Vec<usize>>>, tag: usize) -> Box<dyn Executor> {
    let log = Rc::clone(log);
    WheelTask::new_as_executor(move || {
        log.borrow_mut().push(tag);
        tag
    })
}

#[test]
fn task_execute_returns_the_closure_value() {
    let task = WheelTask::new(|| 42);
    assert_eq!(task.execute(), 42);
    let boxed: Box<dyn Executor> = WheelTask::new_as_executor(|| 7);
    assert_eq!(boxed.execute(), 7);
}

#[test]
fn execute_runs_the_cursor_slot_in_insertion_order() {
    let log = Rc::new(RefCell::new(Vec::new()));
    let mut wheel: InnerWheel = InnerWheel::new();
    wheel.insert_task(0, recorder(&log, 1));
    wheel.insert_task(0, recorder(&log, 2));
    wheel.insert_task(1, recorder(&log, 3));
    wheel.insert_task(2, recorder(&log, 4));

    assert!(!wheel.execute());
    assert_eq!(*log.borrow(), vec![1, 2]);
    assert!(!wheel.execute());
    assert_eq!(*log.borrow(), vec![1, 2, 3]);
    assert!(!wheel.execute());
    assert_eq!(*log.borrow(), vec![1, 2, 3, 4]);
}

#[test]
fn a_full_turn_wraps_exactly_once_and_empties_slots() {
    let log = Rc::new(RefCell::new(Vec::new()));
    let mut wheel: InnerWheel = InnerWheel::new();
    wheel.insert_task(255, recorder(&log, 255));
    wheel.insert_task(0, recorder(&log, 0));
    let mut wraps = 0;
    for _ in 0..WHEEL_SLOTS_NUMBER {
        if wheel.execute() {
            wraps += 1;
        }
    }
    assert_eq!(wraps, 1);
    assert_eq!(*log.borrow(), vec![0, 255]);
    // The second turn finds every slot empty.
    for _ in 0..WHEEL_SLOTS_NUMBER {
        wheel.execute();
    }
    assert_eq!(log.borrow().len(), 2);
}

#[test]
fn insert_outside_the_wheel_is_ignored() {
    let log = Rc::new(RefCell::new(Vec::new()));
    let mut wheel: InnerWheel = InnerWheel::new();
    wheel.insert_task(WHEEL_SLOTS_NUMBER, recorder(&log, 9));
    wheel.insert_task(usize::MAX, recorder(&log, 9));
    for _ in 0..WHEEL_SLOTS_NUMBER {
        wheel.execute();
    }
    assert!(log.borrow().is_empty());
}

#[test]
fn a_task_inserted_behind_the_cursor_waits_for_the_next_turn() {
    let log = Rc::new(RefCell::new(Vec::new()));
    let mut wheel: InnerWheel = InnerWheel::new();
    wheel.execute();
    wheel.execute();
    wheel.insert_task(1, recorder(&log, 1));
    for _ in 0..WHEEL_SLOTS_NUMBER - 1 {
        wheel.execute();
    }
    assert!(log.borrow().is_empty());
    wheel.execute();
    assert_eq!(*log.borrow(), vec![1]);
}

#[test]
fn inserts_between_ticks_keep_the_wraps_and_join_their_slot() {
    let log = Rc::new(RefCell::new(Vec::new()));
    let mut wheel: InnerWheel = InnerWheel::new();
    wheel.insert_task(5, recorder(&log, 1));
    for k in 1..=2 * WHEEL_SLOTS_NUMBER {
        if k == 3 {
            wheel.insert_task(5, recorder(&log, 2));
        }
        assert_eq!(wheel.execute(), k % WHEEL_SLOTS_NUMBER == 0);
        if k == 5 {
            assert!(log.borrow().is_empty());
        }
        if k == 6 {
            assert_eq!(*log.borrow(), vec![1, 2]);
        }
    }
    assert_eq!(*log.borrow(), vec![1, 2]);
}
