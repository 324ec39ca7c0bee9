use psychic_seamstress::camera::Command;
use psychic_seamstress::camera::WhiteBalance;
use psychic_seamstress::property::CommandKind;
use psychic_seamstress::property::FwdMap;
use psychic_seamstress::property::Graph;
use psychic_seamstress::property::Mapping;
use psychic_seamstress::property::Property;
use psychic_seamstress::property::Validator;
use psychic_seamstress::property::Value;
use psychic_seamstress::ui::widget::SliderPosition;

#[test]
fn write_validates_and_notifies_each_observer_in_order() {
    let mut g = Graph::new();
    let cell = Property::new(&mut g, Value::U32(1));
    cell.notify(&mut g, CommandKind::Tint);
    cell.notify(&mut g, CommandKind::ColorTemperature);
    // Installing the observers handed each the current value once.
    let initial = g.take_commands();
    assert_eq!(
        initial,
        vec![
            Command::SetTint(1),
            Command::SetColorTemperature { kelvin: 1 },
        ]
    );

    cell.set(&mut g, Value::U32(5));
    assert!(matches!(cell.get(&g), Value::U32(5)));
    // One command per observer, in registration order, with the stored value.
    let cmds = g.take_commands();
    assert_eq!(
        cmds,
        vec![
            Command::SetTint(5),
            Command::SetColorTemperature { kelvin: 5 },
        ]
    );
}

#[test]
fn write_stores_the_validator_output() {
    let mut g = Graph::new();
    let cell = Property::with_validator(
        &mut g,
        Value::Slider(SliderPosition { current: 0, minimum: 1, maximum: 2000, step: 5 }),
        Validator::Slider,
    );
    cell.notify(&mut g, CommandKind::ExposureTime);
    g.take_commands();

    cell.set(
        &mut g,
        Value::Slider(SliderPosition { current: 119, minimum: 1, maximum: 2000, step: 5 }),
    );
    // The observer sees the repaired value, not the raw written one.
    match cell.get(&g) {
        Value::Slider(p) => assert_eq!(p.current, 121),
        other => panic!("not a slider value: {:?}", other),
    }
}

#[test]
fn link_aliases_storage_and_migrates_observers() {
    let mut g = Graph::new();
    let a = Property::new(&mut g, Value::U32(1));
    a.notify(&mut g, CommandKind::Tint);
    let b = Property::new(&mut g, Value::U32(7));
    assert_eq!(g.take_commands(), vec![Command::SetTint(1)]);

    // Linking transplants a's observer onto b's root; the transplant itself
    // delivers nothing.
    a.link(&mut g, b);
    assert_eq!(g.take_commands(), vec![]);

    // A write through a stores into b: both cells present the value, and the
    // migrated observer fires on that write.
    a.set(&mut g, Value::U32(42));
    assert!(matches!(b.get(&g), Value::U32(42)));
    assert!(matches!(a.get(&g), Value::U32(42)));
    assert_eq!(g.take_commands(), vec![Command::SetTint(42)]);

    // The migrated observer now belongs to b's root: a direct write to b
    // fires it too.
    b.set(&mut g, Value::U32(9));
    assert!(matches!(a.get(&g), Value::U32(9)));
    assert_eq!(g.take_commands(), vec![Command::SetTint(9)]);
}

#[test]
fn derive_round_trips_through_the_target() {
    let mut g = Graph::new();
    let balance = Property::new(
        &mut g,
        Value::Balance(WhiteBalance { temperature: 6503, tint: 1000 }),
    );
    let tint = Property::derived(&mut g, balance, Mapping::BalanceTint);

    // Reading maps the target down to the local type.
    assert!(matches!(tint.get(&g), Value::U32(1000)));

    // Writing the local value merges it into the target, keeping the field
    // the local type does not model.
    tint.set(&mut g, Value::U32(1200));
    match balance.get(&g) {
        Value::Balance(wb) => {
            assert_eq!(wb.temperature, 6503);
            assert_eq!(wb.tint, 1200);
        },
        other => panic!("not a balance value: {:?}", other),
    }
    assert!(matches!(tint.get(&g), Value::U32(1200)));
}

#[test]
fn derive_scales_slider_positions() {
    let mut g = Graph::new();
    // Exposure time: the slider shows milliseconds, the device cell holds
    // microseconds.
    let slider = Property::with_validator(
        &mut g,
        Value::Slider(SliderPosition { current: 120, minimum: 1, maximum: 2000, step: 5 }),
        Validator::Slider,
    );
    let micros = Property::derived(&mut g, slider, Mapping::SliderCurrent { scale: 1000 });
    assert!(matches!(micros.get(&g), Value::U32(121000)));

    micros.set(&mut g, Value::U32(50000));
    match slider.get(&g) {
        Value::Slider(p) => assert_eq!(p.current, 51),
        other => panic!("not a slider value: {:?}", other),
    }
}

#[test]
fn relink_after_derive_keeps_command_wiring() {
    let mut g = Graph::new();
    // The device parameter cell with its command observer, as the camera
    // wires it.
    let micros = Property::new(&mut g, Value::U32(120000));
    micros.notify(&mut g, CommandKind::ExposureTime);
    g.take_commands();

    // The UI appears: the parameter is re-pointed to the slider, scaled.
    let slider = Property::new(
        &mut g,
        Value::Slider(SliderPosition { current: 120, minimum: 1, maximum: 2000, step: 5 }),
    );
    micros.derive(&mut g, slider, Mapping::SliderCurrent { scale: 1000 });
    // The transplant delivers nothing by itself.
    assert_eq!(g.take_commands(), vec![]);

    // Moving the slider reaches the device through the surviving observer.
    slider.set(
        &mut g,
        Value::Slider(SliderPosition { current: 50, minimum: 1, maximum: 2000, step: 5 }),
    );
    assert_eq!(
        g.take_commands(),
        vec![Command::SetExposureTime { microseconds: 50000 }]
    );
    assert!(matches!(micros.get(&g), Value::U32(50000)));
}

#[test]
fn propagate_writes_into_the_other_cell() {
    let mut g = Graph::new();
    let source = Property::new(&mut g, Value::U32(3));
    let mirror = Property::new(&mut g, Value::U32(0));
    mirror.notify(&mut g, CommandKind::Tint);
    g.take_commands();

    // Installation propagates the current value once.
    source.propagate(&mut g, mirror, FwdMap::Same);
    assert!(matches!(mirror.get(&g), Value::U32(3)));
    assert_eq!(g.take_commands(), vec![Command::SetTint(3)]);

    // Every later write follows, and the mirror's own observers hear of it.
    source.set(&mut g, Value::U32(8));
    assert!(matches!(mirror.get(&g), Value::U32(8)));
    assert_eq!(g.take_commands(), vec![Command::SetTint(8)]);
}

#[test]
fn read_and_write_apply_the_callable() {
    let mut g = Graph::new();
    let cell = Property::new(&mut g, Value::U32(10));
    let doubled = cell.read(&g, |v| match v {
        Value::U32(x) => x * 2,
        _ => 0,
    });
    assert_eq!(doubled, 20);

    let written = cell.write(&mut g, |v| match v {
        Value::U32(x) => Value::U32(x + 1),
        other => other,
    });
    assert!(matches!(written, Value::U32(11)));
    assert!(matches!(cell.get(&g), Value::U32(11)));
}

#[test]
fn linked_and_derived_cells_share_storage_from_birth() {
    let mut g = Graph::new();
    let root = Property::new(&mut g, Value::U16(100));
    let alias = Property::linked(&mut g, root);
    assert!(matches!(alias.get(&g), Value::U16(100)));
    alias.set(&mut g, Value::U16(250));
    assert!(matches!(root.get(&g), Value::U16(250)));
}

#[test]
fn derive_carries_u16_slider_positions() {
    let mut g = Graph::new();
    let slider = Property::new(
        &mut g,
        Value::Slider(SliderPosition { current: 100, minimum: 100, maximum: 500, step: 1 }),
    );
    let percents = Property::derived(&mut g, slider, Mapping::SliderCurrentU16);
    assert!(matches!(percents.get(&g), Value::U16(100)));
    percents.set(&mut g, Value::U16(150));
    match slider.get(&g) {
        Value::Slider(p) => assert_eq!(p.current, 150),
        other => panic!("not a slider value: {:?}", other),
    }
}

#[test]
fn slider_mapping_saturates_out_of_range_values() {
    let mut g = Graph::new();
    let slider = Property::new(
        &mut g,
        Value::Slider(SliderPosition {
            current: 5_000_000_000,
            minimum: 0,
            maximum: i64::MAX,
            step: 1,
        }),
    );
    let micros = Property::derived(&mut g, slider, Mapping::SliderCurrent { scale: 1000 });
    // 5e9 * 1000 overflows a u32; the read saturates.
    assert!(matches!(micros.get(&g), Value::U32(u32::MAX)));

    let negative = Property::new(
        &mut g,
        Value::Slider(SliderPosition { current: -7, minimum: -10, maximum: 10, step: 1 }),
    );
    let level = Property::derived(&mut g, negative, Mapping::SliderCurrentU16);
    assert!(matches!(level.get(&g), Value::U16(0)));
}

#[test]
fn propagate_can_map_the_forwarded_value() {
    let mut g = Graph::new();
    let balance = Property::new(
        &mut g,
        Value::Balance(WhiteBalance { temperature: 6503, tint: 1000 }),
    );
    let tint_view = Property::new(&mut g, Value::U32(0));
    // Forward only the tint of every stored balance.
    balance.propagate(&mut g, tint_view, FwdMap::Mapped(Mapping::BalanceTint));
    assert!(matches!(tint_view.get(&g), Value::U32(1000)));
    balance.set(&mut g, Value::Balance(WhiteBalance { temperature: 5000, tint: 1250 }));
    assert!(matches!(tint_view.get(&g), Value::U32(1250)));
}

#[test]
fn chains_of_aliases_reach_the_one_root() {
    let mut g = Graph::new();
    let root = Property::new(&mut g, Value::U32(5));
    let alias = Property::linked(&mut g, root);
    let alias_of_alias = Property::linked(&mut g, alias);
    assert!(matches!(alias_of_alias.get(&g), Value::U32(5)));
    alias_of_alias.set(&mut g, Value::U32(77));
    assert!(matches!(root.get(&g), Value::U32(77)));
    assert!(matches!(alias.get(&g), Value::U32(77)));
}

#[test]
fn observers_on_a_transform_cell_survive_its_repointing() {
    let mut g = Graph::new();
    let first = Property::new(
        &mut g,
        Value::Balance(WhiteBalance { temperature: 6503, tint: 1000 }),
    );
    // A tint view over the first balance, observed.
    let tint = Property::derived(&mut g, first, Mapping::BalanceTint);
    tint.notify(&mut g, CommandKind::Tint);
    assert_eq!(g.take_commands(), vec![Command::SetTint(1000)]);

    // Re-point the tint view at a second balance: the subscription follows.
    let second = Property::new(
        &mut g,
        Value::Balance(WhiteBalance { temperature: 5000, tint: 700 }),
    );
    tint.derive(&mut g, second, Mapping::BalanceTint);
    assert_eq!(g.take_commands(), vec![]);

    second.set(&mut g, Value::Balance(WhiteBalance { temperature: 5000, tint: 900 }));
    assert_eq!(g.take_commands(), vec![Command::SetTint(900)]);
    // The old target no longer reaches the observer.
    first.set(&mut g, Value::Balance(WhiteBalance { temperature: 6503, tint: 1 }));
    assert_eq!(g.take_commands(), vec![]);
}

#[test]
fn propagating_observers_survive_a_link() {
    let mut g = Graph::new();
    let a = Property::new(&mut g, Value::U32(1));
    let mirror = Property::new(&mut g, Value::U32(0));
    a.propagate(&mut g, mirror, FwdMap::Same);
    assert!(matches!(mirror.get(&g), Value::U32(1)));

    // Re-point a at b: the propagating observer migrates with it.
    let b = Property::new(&mut g, Value::U32(5));
    a.link(&mut g, b);
    b.set(&mut g, Value::U32(6));
    assert!(matches!(mirror.get(&g), Value::U32(6)));
}

#[test]
fn propagation_chains_deliver_in_waves() {
    let mut g = Graph::new();
    let head = Property::new(&mut g, Value::U32(0));
    let middle = Property::new(&mut g, Value::U32(0));
    let tail = Property::new(&mut g, Value::U32(0));
    tail.notify(&mut g, CommandKind::Tint);
    middle.propagate(&mut g, tail, FwdMap::Same);
    head.propagate(&mut g, middle, FwdMap::Same);
    g.take_commands();

    // A write at the head flows through the middle cell into the tail, whose
    // observer reports it; each propagated write is delivered after the pass
    // that caused it.
    head.set(&mut g, Value::U32(44));
    assert!(matches!(middle.get(&g), Value::U32(44)));
    assert!(matches!(tail.get(&g), Value::U32(44)));
    assert_eq!(g.take_commands(), vec![Command::SetTint(44)]);
}
