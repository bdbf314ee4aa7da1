use std::cmp::Reverse;
use std::collections::BinaryHeap;

use openmobisim_core::ids::EntityKind;
use openmobisim_core::queue::EventQueue;
use openmobisim_core::time::{EventKey, FastDivU32, Second, StepGrid, StepGridError, StepIndex};

#[test]
fn grid_rejects_a_partial_trailing_step() {
    let err = StepGrid::new(Second::zero(), 300, 3_500).unwrap_err();
    assert!(matches!(err, StepGridError::WindowNotWholeSteps { .. }), "{err:?}");
    assert!(err.to_string().contains("whole number"));
    assert_eq!(err.to_string(), "window of 3500 s is not a whole number of 300 s steps");
}

#[test]
fn grid_rejects_a_zero_step() {
    assert!(matches!(StepGrid::new(Second::zero(), 0, 3_600).unwrap_err(), StepGridError::ZeroStep));
}

#[test]
fn grid_rejects_a_window_past_the_end_of_the_clock() {
    let err = StepGrid::new(Second(u32::MAX - 10), 1, 100).unwrap_err();
    assert!(matches!(err, StepGridError::WindowOverflowsClock { .. }), "{err:?}");
    assert_eq!(
        err.to_string(),
        "window of 100 s from second 4294967285 runs past the end of the u32 clock"
    );
}

#[test]
fn steps_are_half_open_and_contiguous() {
    let grid = StepGrid::new(Second::from_hours(7), 300, 3_600).unwrap();
    assert_eq!(grid.n_steps(), 12);

    for i in grid.steps() {
        let start = grid.step_start(i);
        let end = grid.step_end(i);
        assert_eq!(grid.step_of(start), i, "a step must contain its own start");
        assert_eq!(end.get() - start.get(), 300);
        if i.get() + 1 < grid.n_steps() {
            assert_eq!(grid.step_of(end), StepIndex(i.get() + 1), "the end belongs to the next step");
        }
    }
    assert_eq!(grid.end(), Second::from_hours(8));
}

#[test]
fn out_of_window_instants_clamp_rather_than_panic() {
    let grid = StepGrid::new(Second::from_hours(7), 300, 3_600).unwrap();
    assert_eq!(grid.step_of(Second::zero()), StepIndex(0));
    assert_eq!(grid.step_of(Second::max_value()), StepIndex(11));
    assert_eq!(grid.try_step_of(Second::zero()), None);
    assert_eq!(grid.try_step_of(Second::max_value()), None);
    assert_eq!(grid.try_step_of(Second::from_hours(7)), Some(StepIndex(0)));
}

#[test]
fn events_order_by_second_then_kind_then_id() {
    let mut q = BinaryHeap::new();
    for key in [
        EventKey::new(Second(10), EntityKind::Vehicle, 1),
        EventKey::new(Second(10), EntityKind::Trip, 9),
        EventKey::new(Second(10), EntityKind::Trip, 2),
        EventKey::new(Second(5), EntityKind::UserClass, 0),
    ] {
        q.push(Reverse(key));
    }

    let popped: Vec<EventKey> = std::iter::from_fn(|| q.pop().map(|r| r.0)).collect();
    assert_eq!(
        popped,
        [
            EventKey::new(Second(5), EntityKind::UserClass, 0),
            EventKey::new(Second(10), EntityKind::Trip, 2),
            EventKey::new(Second(10), EntityKind::Trip, 9),
            EventKey::new(Second(10), EntityKind::Vehicle, 1),
        ]
    );
}

#[test]
fn second_displays_as_a_clock_time_past_midnight() {
    assert_eq!(Second::from_hours(7).to_string(), "07:00:00");
    assert_eq!(Second(93_784).to_string(), "26:03:04");
    assert_eq!(format!("{:?}", Second(5)), "Second(5)");
}

#[test]
fn fast_division_matches_hardware() {
    let divisors = [1u32, 2, 3, 5, 7, 10, 15, 30, 60, 120, 300, 600, 900, 3_600, 65_537, u32::MAX - 1, u32::MAX];
    let numerators = [0u32, 1, 2, 299, 300, 301, 1_234, 65_535, 1 << 31, u32::MAX - 1, u32::MAX];
    for d in divisors {
        let fast = FastDivU32::new(d);
        assert_eq!(fast.divisor(), d);
        for n in numerators {
            assert_eq!(fast.div(n), n / d, "div({n}, {d})");
            assert_eq!(fast.rem(n), n % d, "rem({n}, {d})");
            assert_eq!(fast.div_rem(n), (n / d, n % d));
        }
    }
    let d = FastDivU32::new(300);
    assert_eq!(d.div(1_234), 1_234 / 300);
    assert_eq!(d.rem(1_234), 1_234 % 300);
}

#[test]
fn step_of_is_consistent_with_step_bounds() {
    for step in [1u32, 60, 300, 900] {
        for n_steps in [1u32, 7, 499] {
            let window = step * n_steps;
            let grid = StepGrid::new(Second::zero(), step, window).unwrap();
            for offset in [0u32, 1, 59, 299, 1_000, 77_777, u32::MAX] {
                let t = Second(offset % window);
                let i = grid.step_of(t);
                assert!(grid.step_start(i) <= t);
                assert!(t < grid.step_end(i));
            }
        }
    }
}

#[test]
fn the_documented_grid_example() {
    let grid = StepGrid::new(Second::from_hours(7), 300, 4 * 3600).unwrap();
    assert_eq!(grid.n_steps(), 48);
    assert_eq!(grid.step_of(Second::from_hours(7)), StepIndex(0));
    assert_eq!(grid.step_of(Second::from_hours(8)), StepIndex(12));
    assert_eq!(grid.step_start(StepIndex(12)), Second::from_hours(8));
    assert_eq!(grid.origin(), Second::from_hours(7));
    assert_eq!(grid.step_seconds(), StepGrid::DEFAULT_STEP_SECONDS);
    assert!(grid.contains(Second::from_hours(10)));
    assert!(!grid.contains(Second::from_hours(11)));
}

#[test]
fn clock_arithmetic_saturates() {
    assert_eq!(Second(u32::MAX - 1).saturating_add(5), Second::max_value());
    assert_eq!(Second(10).saturating_add(5), Second(15));
    assert_eq!(Second(10).saturating_sub(Second(20)), 0);
    assert_eq!(Second(30).saturating_sub(Second(20)), 10);
    assert_eq!(Second::from_minutes(2), Second(120));
    assert_eq!(StepIndex(7).index(), 7);
    assert_eq!(StepIndex(7).to_string(), "7");
}

#[test]
fn the_event_queue_pops_by_second_then_kind_then_id() {
    let mut q = EventQueue::new();
    for key in [
        EventKey::new(Second(10), EntityKind::Vehicle, 1),
        EventKey::new(Second(10), EntityKind::Trip, 9),
        EventKey::new(Second(10), EntityKind::Trip, 2),
        EventKey::new(Second(5), EntityKind::UserClass, 0),
    ] {
        q.push(key);
    }
    assert_eq!(q.len(), 4);
    assert_eq!(q.peek(), Some(EventKey::new(Second(5), EntityKind::UserClass, 0)));

    let mut popped = Vec::new();
    while let Some(k) = q.pop() {
        popped.push(k);
    }
    assert_eq!(
        popped,
        [
            EventKey::new(Second(5), EntityKind::UserClass, 0),
            EventKey::new(Second(10), EntityKind::Trip, 2),
            EventKey::new(Second(10), EntityKind::Trip, 9),
            EventKey::new(Second(10), EntityKind::Vehicle, 1),
        ]
    );
    assert!(q.is_empty());
    assert_eq!(q.pop(), None);
}

#[test]
fn the_event_queue_agrees_with_the_derived_order() {
    let kinds = [EntityKind::Trip, EntityKind::Vehicle, EntityKind::Node, EntityKind::Link];
    let mut ours = EventQueue::new();
    let mut std_heap = BinaryHeap::new();
    let mut x: u32 = 12_345;
    for i in 0..2_000u32 {
        x = x.wrapping_mul(1_103_515_245).wrapping_add(12_345);
        let key = EventKey::new(Second(x % 97), kinds[(x >> 8) as usize % 4], (x >> 16) % 13);
        ours.push(key);
        std_heap.push(Reverse(key));
        if i % 3 == 0 {
            assert_eq!(ours.pop(), std_heap.pop().map(|r| r.0));
        }
    }
    while let Some(Reverse(k)) = std_heap.pop() {
        assert_eq!(ours.pop(), Some(k));
    }
    assert!(ours.is_empty());
}
