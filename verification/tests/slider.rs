use psychic_seamstress::ui::widget::SliderPosition;

#[test]
fn validator_snaps_to_the_step_grid() {
    // Grid points from minimum 1 with step 5 run 1, 6, 11, ..., 116, 121;
    // 119 snaps to the nearest one.
    let p = SliderPosition { current: 119, minimum: 1, maximum: 2000, step: 5 };
    let v = p.validator();
    assert_eq!(v.current, 121);
    assert_eq!(v.minimum, 1);
    assert_eq!(v.maximum, 2000);
    assert_eq!(v.step, 5);
}

#[test]
fn validator_clamps_before_snapping() {
    // 5000 clamps to the maximum 2000 first; the nearest grid point from
    // minimum 1 would overshoot the maximum, so the last in-range grid point
    // 1996 is taken, keeping minimum <= current <= maximum.
    let p = SliderPosition { current: 5000, minimum: 1, maximum: 2000, step: 5 };
    let v = p.validator();
    assert_eq!(v.current, 1996);
    assert!(v.minimum <= v.current && v.current <= v.maximum);
}

#[test]
fn validator_clamps_below_the_minimum() {
    let p = SliderPosition { current: -40, minimum: 1, maximum: 2000, step: 5 };
    let v = p.validator();
    assert_eq!(v.current, 1);
}

#[test]
fn validator_repairs_a_backwards_range() {
    let p = SliderPosition { current: 10, minimum: 20, maximum: 5, step: 1 };
    let v = p.validator();
    assert_eq!(v.minimum, 20);
    assert_eq!(v.maximum, 20);
    assert_eq!(v.current, 20);
}

#[test]
fn validator_forces_a_positive_step() {
    let p = SliderPosition { current: 7, minimum: 0, maximum: 10, step: 0 };
    let v = p.validator();
    assert_eq!(v.step, 1);
    assert_eq!(v.current, 7);
}

#[test]
fn validator_rounds_halves_up() {
    // 10 is halfway between the grid points 8 and 12; halves round up.
    let p = SliderPosition { current: 10, minimum: 0, maximum: 100, step: 4 };
    let v = p.validator();
    assert_eq!(v.current, 12);
}

#[test]
fn validator_is_idempotent_on_its_output() {
    let p = SliderPosition { current: 119, minimum: 1, maximum: 2000, step: 5 };
    let once = p.validator();
    let twice = once.validator();
    assert_eq!(once, twice);
}

#[test]
fn size_change_and_offset() {
    let p = SliderPosition { current: 100, minimum: 1, maximum: 2000, step: 5 };
    assert_eq!(p.size(), 1999);
    assert_eq!(p.change(7).current, 7);
    assert_eq!(p.offset(5).current, 105);
    assert_eq!(p.offset(-5).current, 95);
    let near_max = SliderPosition { current: i64::MAX - 1, minimum: 0, maximum: i64::MAX, step: 1 };
    assert_eq!(near_max.offset(10).current, i64::MAX);
}
