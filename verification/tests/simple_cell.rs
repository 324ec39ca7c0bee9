use psychic_seamstress::property::Validator;
use psychic_seamstress::property::Value;
use psychic_seamstress::ui::property::Notice;
use psychic_seamstress::ui::property::Property;
use psychic_seamstress::ui::widget::SliderPosition;

#[test]
fn set_stores_the_validator_output_and_notifies_in_order() {
    let mut cell = Property::new_validated(
        Value::Slider(SliderPosition { current: 0, minimum: 1, maximum: 2000, step: 5 }),
        Validator::Slider,
    );
    cell.observe(1);
    cell.observe(2);
    // Observing handed each the current value immediately.
    let notices = cell.take_notices();
    assert_eq!(notices.len(), 2);
    assert_eq!(notices[0].tag, 1);
    assert_eq!(notices[1].tag, 2);

    cell.set(Value::Slider(SliderPosition { current: 119, minimum: 1, maximum: 2000, step: 5 }));
    // The stored value is the validator's output...
    match cell.get() {
        Value::Slider(p) => assert_eq!(p.current, 121),
        other => panic!("not a slider value: {:?}", other),
    }
    // ...and each observer was handed it exactly once, in registration order.
    let notices = cell.take_notices();
    assert_eq!(notices.len(), 2);
    assert_eq!(notices[0].tag, 1);
    assert_eq!(notices[1].tag, 2);
    for n in &notices {
        match n.value {
            Value::Slider(p) => assert_eq!(p.current, 121),
            _ => panic!("wrong payload"),
        }
    }
}

#[test]
fn every_write_notifies_every_observer_once() {
    let mut cell = Property::new(Value::U32(0));
    cell.observe(7);
    cell.take_notices();
    cell.set(Value::U32(1));
    cell.set(Value::U32(2));
    cell.set(Value::U32(3));
    let notices = cell.take_notices();
    assert_eq!(
        notices,
        vec![
            Notice { tag: 7, value: Value::U32(1) },
            Notice { tag: 7, value: Value::U32(2) },
            Notice { tag: 7, value: Value::U32(3) },
        ]
    );
}

#[test]
fn a_cell_without_validator_stores_raw_values() {
    let mut cell = Property::new(Value::U16(9));
    assert!(matches!(cell.get(), Value::U16(9)));
    cell.set(Value::U16(11));
    assert!(matches!(cell.get(), Value::U16(11)));
    // No observers: no notices.
    assert!(cell.take_notices().is_empty());
}

#[test]
fn with_reads_without_mutating() {
    let cell = Property::new(Value::U32(21));
    let doubled = cell.with(|v| match v {
        Value::U32(x) => x * 2,
        _ => 0,
    });
    assert_eq!(doubled, 42);
    assert!(matches!(cell.get(), Value::U32(21)));
}
