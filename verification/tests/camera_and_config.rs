use psychic_seamstress::camera::Camera;
use psychic_seamstress::camera::Command;
use psychic_seamstress::camera::WhiteBalance;
use psychic_seamstress::camera::set_alpha;
use psychic_seamstress::config::Config;
use psychic_seamstress::property::Value;
use psychic_seamstress::ui::geometry::Direction;
use psychic_seamstress::ui::widget::State;

#[test]
fn camera_starts_with_its_parameters_announced() {
    let mut cam = Camera::new();
    // Wiring the observers handed each parameter's startup value on, once,
    // in wiring order.
    let cmds = cam.props.take_commands();
    assert_eq!(
        cmds,
        vec![
            Command::SetExposureTime { microseconds: 120000 },
            Command::SetExposureGain { percents: 100 },
            Command::SetColorTemperature { kelvin: 6503 },
            Command::SetTint(1000),
        ]
    );
}

#[test]
fn parameter_writes_become_commands() {
    let mut cam = Camera::new();
    cam.props.take_commands();
    let exposure = cam.exposure_time_us();
    exposure.set(&mut cam.props, Value::U32(50000));
    assert_eq!(
        cam.props.take_commands(),
        vec![Command::SetExposureTime { microseconds: 50000 }]
    );
    let gain = cam.exposure_gain_pct();
    gain.set(&mut cam.props, Value::U16(150));
    assert_eq!(
        cam.props.take_commands(),
        vec![Command::SetExposureGain { percents: 150 }]
    );
}

#[test]
fn connect_replays_the_current_parameter_values() {
    let mut cam = Camera::new();
    cam.props.take_commands();
    let tint = cam.tint();
    tint.set(&mut cam.props, Value::U32(1200));
    cam.props.take_commands();

    cam.connect(Some("cam0".to_string()));
    assert_eq!(
        cam.props.take_commands(),
        vec![
            Command::Connect(Some("cam0".to_string())),
            Command::SetExposureTime { microseconds: 120000 },
            Command::SetExposureGain { percents: 100 },
            Command::SetColorTemperature { kelvin: 6503 },
            Command::SetTint(1200),
        ]
    );
}

#[test]
fn snap_queues_a_still_capture() {
    let mut cam = Camera::new();
    cam.props.take_commands();
    cam.snap();
    assert_eq!(cam.props.take_commands(), vec![Command::Snap]);
}

#[test]
fn alpha_fixup_forces_every_fourth_byte_opaque() {
    let mut data = vec![
        9, 9, 9, 1, 0, 0, 0, 0, 7, 7, 7, 200, 3, 3, 3, 255,
    ];
    set_alpha(&mut data, 255);
    assert_eq!(data, vec![9, 9, 9, 255, 0, 0, 0, 255, 7, 7, 7, 255, 3, 3, 3, 255]);
}

#[test]
fn alpha_fixup_is_idempotent() {
    let mut data: Vec<u8> = (0u8..32u8).collect();
    set_alpha(&mut data, 255);
    let once = data.clone();
    set_alpha(&mut data, 255);
    assert_eq!(data, once);
}

#[test]
fn alpha_fixup_ors_the_given_alpha_in() {
    let mut data = vec![1, 2, 3, 0b0101, 0, 0, 0, 0b0011, 0, 0, 0, 0, 0, 0, 0, 0xF0];
    set_alpha(&mut data, 0b1010);
    assert_eq!(data[3], 0b1111);
    assert_eq!(data[7], 0b1011);
    assert_eq!(data[11], 0b1010);
    assert_eq!(data[15], 0xFA);
    assert_eq!(data[0], 1);
    assert_eq!(data[14], 0);
}

#[test]
fn white_balance_merges_keep_the_other_field() {
    let wb = WhiteBalance { temperature: 6503, tint: 1000 };
    let warmer = wb.with_temperature(5000);
    assert_eq!(warmer.temperature, 5000);
    assert_eq!(warmer.tint, 1000);
    let tinted = wb.with_tint(1200);
    assert_eq!(tinted.temperature, 6503);
    assert_eq!(tinted.tint, 1200);
}

#[test]
fn config_defaults_to_zero_and_keeps_what_it_is_given() {
    let d = Config::default();
    assert_eq!(d.exposure_time_us(), 0);
    assert_eq!(d.exposure_gain_pct(), 0);
    assert_eq!(d.color_temperature_k(), 0);
    assert_eq!(d.tint(), 0);

    let c = Config::new(120000, 100, 6503, 1000);
    assert_eq!(c.exposure_time_us(), 120000);
    assert_eq!(c.exposure_gain_pct(), 100);
    assert_eq!(c.color_temperature_k(), 6503);
    assert_eq!(c.tint(), 1000);
}

#[test]
fn ui_enums_distinguish_their_variants() {
    assert_ne!(Direction::Horizontal, Direction::Vertical);
    assert_ne!(State::Passive, State::Hovered);
    assert_ne!(State::Hovered, State::Active);
}
