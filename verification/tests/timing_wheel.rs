use lib::tw_impl::tw::{
    ExecutableWheel, TimingWheel, WheelValue, WheelValueTrait, ELEMENT_COUNT_FOR_EACH_WHEEL,
    TASK_FAILED, TASK_SUCCESSED,
};
use lib::tw_impl::TimingWheelController;
use std::cell::Cell;
use std::rc::Rc;

fn counter_task(hits: &Rc<Cell<u32>>, gap: usize) -> WheelValue<Box<dyn Fn() -> u32>> {
    let hits = Rc::clone(hits);
    WheelValue::new_debug(
        gap,
        false,
        Box::new(move || {
            hits.set(hits.get() + 1);
            TASK_SUCCESSED
        }),
    )
}

#[test]
fn wheel_value_reports_its_fields() {
    let v = WheelValue::new(7, true, || TASK_FAILED);
    assert_eq!(v.gap_time(), 7);
    assert!(v.loop_on());
    assert_eq!(v.__start_time, 0);
    assert_eq!(v.execute(), TASK_FAILED);

    let d = WheelValue::new_debug(3, false, || 5);
    assert_eq!(d.__gap_time, 3);
    assert!(!d.__loop_on);
    assert_eq!(d.execute(), 5);
}

#[test]
fn single_wheel_append_ids_and_bounds() {
    let hits = Rc::new(Cell::new(0));
    let mut w = TimingWheel::new_with_layer(1);
    assert_eq!(w.append_task(5, counter_task(&hits, 0)), 6);
    assert_eq!(w.append_task(0, counter_task(&hits, 0)), 1);
    assert_eq!(w.append_task(255, counter_task(&hits, 0)), 256);
    assert_eq!(w.append_task(256, counter_task(&hits, 0)), 0);
}

#[test]
fn single_wheel_tick_returns_the_new_slot_and_runs_due_tasks() {
    let hits = Rc::new(Cell::new(0));
    let mut w = TimingWheel::new_with_layer(1);
    w.append_task(2, counter_task(&hits, 0));
    assert_eq!(w.execute(), 1);
    assert_eq!(w.execute(), 2);
    assert_eq!(hits.get(), 0);
    assert_eq!(w.execute(), 3);
    assert_eq!(hits.get(), 1);
    // The slot was cleared: a full turn later nothing runs again.
    for _ in 0..ELEMENT_COUNT_FOR_EACH_WHEEL {
        w.execute();
    }
    assert_eq!(hits.get(), 1);
}

#[test]
fn single_wheel_wraps_to_zero_after_256_ticks() {
    let mut w = TimingWheel::<fn() -> u32>::new_with_layer(1);
    let mut last = 0;
    for _ in 0..ELEMENT_COUNT_FOR_EACH_WHEEL {
        last = w.execute();
    }
    assert_eq!(last, 0);
}

#[test]
fn append_replaces_the_task_in_a_slot() {
    let first = Rc::new(Cell::new(0));
    let second = Rc::new(Cell::new(0));
    let mut w = TimingWheel::new_with_layer(1);
    w.append_task(0, counter_task(&first, 0));
    w.append_task(0, counter_task(&second, 0));
    w.execute();
    assert_eq!(first.get(), 0);
    assert_eq!(second.get(), 1);
}

#[test]
fn remove_task_clears_the_slot_that_the_id_names() {
    let hits = Rc::new(Cell::new(0));
    let mut w = TimingWheel::new_with_layer(1);
    let id = w.append_task(5, counter_task(&hits, 0));
    assert_eq!(id, 6);
    // The identifier is the slot plus one, and remove_task clears slot `id`:
    // removing with the reported identifier leaves the task in place.
    w.remove_task(id);
    for _ in 0..6 {
        w.execute();
    }
    assert_eq!(hits.get(), 1);

    let mut w = TimingWheel::new_with_layer(1);
    w.append_task(5, counter_task(&hits, 0));
    w.remove_task(5);
    w.remove_task(1000);
    for _ in 0..ELEMENT_COUNT_FOR_EACH_WHEEL {
        w.execute();
    }
    assert_eq!(hits.get(), 1);
}

#[test]
fn two_layer_wheel_places_by_position_and_reports_the_path_number() {
    let hits = Rc::new(Cell::new(0));
    let mut w = TimingWheel::new_with_layer(2);
    // 300 = 1 * 256 + 44: sub-wheel 1, slot 44; id = 1 + 256 * (44 + 1).
    assert_eq!(w.append_task(300, counter_task(&hits, 0)), 11521);
    // 256 * 256 is past the last sub-wheel.
    assert_eq!(w.append_task(65536, counter_task(&hits, 0)), 0);
    for _ in 0..300 {
        assert_eq!(w.execute(), 1);
    }
    assert_eq!(hits.get(), 0);
    w.execute();
    assert_eq!(hits.get(), 1);
}

#[test]
fn two_layer_wheel_remove_uses_low_byte_then_inner_id() {
    let hits = Rc::new(Cell::new(0));
    let mut w = TimingWheel::new_with_layer(2);
    w.append_task(300, counter_task(&hits, 0));
    // Sub-wheel 1, slot 44 is named by 1 + 256 * 44.
    w.remove_task(1 + 256 * 44);
    for _ in 0..400 {
        w.execute();
    }
    assert_eq!(hits.get(), 0);
}

#[test]
fn two_layer_wheel_reports_zero_when_it_wraps() {
    let mut w = TimingWheel::<fn() -> u32>::new_with_layer(2);
    let mut zeros = 0;
    for _ in 0..(256 * 256) {
        if w.execute() == 0 {
            zeros += 1;
        }
    }
    assert_eq!(zeros, 1);
}

#[test]
fn controller_schedules_by_delay_from_the_current_tick() {
    let hits = Rc::new(Cell::new(0));
    let mut c = TimingWheelController::new_with_layer(2);
    // Tick 0, delay 10: position 10, sub-wheel 0 slot 10, id = 0 + 256 * 11.
    assert_eq!(c.append(counter_task(&hits, 10)), 2816);
    for _ in 0..3 {
        c.execute();
    }
    // Tick 3, delay 10: position 13.
    assert_eq!(c.append(counter_task(&hits, 10)), 256 * 14);
    for _ in 3..10 {
        c.execute();
    }
    assert_eq!(hits.get(), 0);
    c.execute();
    assert_eq!(hits.get(), 1);
    for _ in 11..13 {
        c.execute();
    }
    assert_eq!(hits.get(), 1);
    c.execute();
    assert_eq!(hits.get(), 2);
}

#[test]
fn controller_wraps_delays_at_its_limit() {
    let hits = Rc::new(Cell::new(0));
    let mut c = TimingWheelController::new_with_layer(1);
    // Layer 1: limit 256, so delay 260 from tick 0 is position 4.
    assert_eq!(c.append(counter_task(&hits, 260)), 5);
    for _ in 0..4 {
        c.execute();
    }
    assert_eq!(hits.get(), 0);
    c.execute();
    assert_eq!(hits.get(), 1);
}

#[test]
fn distinct_positions_hold_distinct_tasks() {
    let a = Rc::new(Cell::new(0));
    let b = Rc::new(Cell::new(0));
    let mut w = TimingWheel::new_with_layer(2);
    w.append_task(3, counter_task(&a, 0));
    w.append_task(259, counter_task(&b, 0));
    for _ in 0..4 {
        w.execute();
    }
    assert_eq!((a.get(), b.get()), (1, 0));
    for _ in 4..260 {
        w.execute();
    }
    assert_eq!((a.get(), b.get()), (1, 1));
}

#[test]
fn controller_delay_beyond_one_ring_runs_on_its_tick() {
    // Layer 2 covers 256 * 256 ticks: delay 600 runs during tick 601.
    let hits = Rc::new(Cell::new(0));
    let mut c = TimingWheelController::new_with_layer(2);
    // 600 = 2 * 256 + 88: sub-wheel 2, slot 88; id = 2 + 256 * 89.
    assert_eq!(c.append(counter_task(&hits, 600)), 2 + 256 * 89);
    for _ in 0..600 {
        c.execute();
    }
    assert_eq!(hits.get(), 0);
    c.execute();
    assert_eq!(hits.get(), 1);
    for _ in 0..1000 {
        c.execute();
    }
    assert_eq!(hits.get(), 1);
}

#[test]
fn two_layer_wheel_accepts_every_position_below_its_span() {
    let hits = Rc::new(Cell::new(0));
    let mut w = TimingWheel::new_with_layer(2);
    // 65535 = 255 * 256 + 255: sub-wheel 255, slot 255; id = 255 + 256 * 256.
    assert_eq!(w.append_task(65535, counter_task(&hits, 0)), 255 + 256 * 256);
    assert_eq!(w.append_task(65536, counter_task(&hits, 0)), 0);
}

fn cloneable_task(hits: &Rc<Cell<u32>>) -> impl Fn() -> u32 + Clone + 'static {
    let hits = Rc::clone(hits);
    move || {
        hits.set(hits.get() + 1);
        TASK_SUCCESSED
    }
}

#[test]
fn cloned_wheel_keeps_its_own_tasks() {
    let hits = Rc::new(Cell::new(0));
    let mut w = TimingWheel::new_with_layer(2);
    assert_eq!(w.append_task(1, WheelValue::new_debug(0, false, cloneable_task(&hits))), 2 << 8);
    let mut c = (*w).clone();
    // Sub-wheel 0, slot 1.
    w.remove_task(1 << 8);
    assert_eq!(w.execute(), 1);
    assert_eq!(w.execute(), 1);
    assert_eq!(hits.get(), 0);
    assert_eq!(c.execute(), 1);
    assert_eq!(hits.get(), 0);
    assert_eq!(c.execute(), 1);
    assert_eq!(hits.get(), 1);
}
