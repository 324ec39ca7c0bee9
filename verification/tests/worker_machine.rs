use psychic_seamstress::camera::Command;
use psychic_seamstress::camera::Event;
use psychic_seamstress::camera::Frame;
use psychic_seamstress::worker::Action;
use psychic_seamstress::worker::ConnState;
use psychic_seamstress::worker::HwEvent;
use psychic_seamstress::worker::Input;
use psychic_seamstress::worker::step;

#[test]
fn startup_enumeration_is_reported() {
    let (state, acts) = step(ConnState::Idle, Input::Hotplug(vec!["cam0".to_string()]));
    assert_eq!(state, ConnState::WaitingForConnect);
    assert_eq!(acts, vec![Action::Emit(Event::Hotplug(vec!["cam0".to_string()]))]);
}

#[test]
fn failed_open_leaves_state_and_emits_nothing() {
    // Enumerate, ask to connect, have the open fail: the machine stays put
    // and no Connect event is ever emitted.
    let (state, acts) = step(ConnState::Idle, Input::Hotplug(vec!["X".to_string()]));
    assert_eq!(state, ConnState::WaitingForConnect);
    assert_eq!(acts.len(), 1);

    let (state, acts) = step(state, Input::Command(Command::Connect(Some("X".to_string()))));
    assert_eq!(state, ConnState::WaitingForConnect);
    assert_eq!(acts, vec![Action::TryOpen(Some("X".to_string()))]);

    let (state, acts) = step(state, Input::OpenResult(false));
    assert_eq!(state, ConnState::WaitingForConnect);
    assert!(acts.is_empty());
}

#[test]
fn successful_open_emits_exactly_one_connect_before_any_frame() {
    let (state, acts) = step(
        ConnState::WaitingForConnect,
        Input::Command(Command::Connect(Some("X".to_string()))),
    );
    assert_eq!(acts, vec![Action::TryOpen(Some("X".to_string()))]);

    let (state, acts) = step(state, Input::OpenResult(true));
    assert_eq!(state, ConnState::Streaming);
    // The session is configured before Connect is reported, and Connect is
    // reported exactly once.
    assert_eq!(acts, vec![Action::Configure, Action::Emit(Event::Connect)]);

    // Only now do hardware frame events produce pulls.
    let (state, acts) = step(state, Input::Hw(HwEvent::Image));
    assert_eq!(state, ConnState::Streaming);
    assert_eq!(acts, vec![Action::PullImage]);
}

#[test]
fn parameter_commands_before_a_session_are_dropped() {
    let (state, acts) = step(
        ConnState::WaitingForConnect,
        Input::Command(Command::SetExposureTime { microseconds: 5000 }),
    );
    assert_eq!(state, ConnState::WaitingForConnect);
    assert!(acts.is_empty());

    let (_, acts) = step(ConnState::Idle, Input::Command(Command::Snap));
    assert!(acts.is_empty());
}

#[test]
fn parameter_commands_apply_while_streaming() {
    let s = ConnState::Streaming;
    let (_, acts) = step(s, Input::Command(Command::SetExposureTime { microseconds: 120000 }));
    assert_eq!(acts, vec![Action::ApplyExposureTime(120000)]);
    let (_, acts) = step(s, Input::Command(Command::SetExposureGain { percents: 100 }));
    assert_eq!(acts, vec![Action::ApplyExposureGain(100)]);
    let (_, acts) = step(s, Input::Command(Command::SetColorTemperature { kelvin: 6503 }));
    assert_eq!(acts, vec![Action::ApplyColorTemperature(6503)]);
    let (_, acts) = step(s, Input::Command(Command::SetTint(1000)));
    assert_eq!(acts, vec![Action::ApplyTint(1000)]);
    let (_, acts) = step(s, Input::Command(Command::Snap));
    assert_eq!(acts, vec![Action::Snap]);
    // A second connect request while streaming is ignored.
    let (state, acts) = step(s, Input::Command(Command::Connect(None)));
    assert_eq!(state, ConnState::Streaming);
    assert!(acts.is_empty());
}

#[test]
fn pulled_frames_are_post_processed_and_emitted() {
    let frame = Frame {
        data: vec![
            1, 2, 3, 0, 5, 6, 7, 9, 10, 11, 12, 255, 13, 14, 15, 128,
        ],
        width: 2,
        height: 2,
    };
    let (state, acts) = step(ConnState::Streaming, Input::Frame(frame));
    assert_eq!(state, ConnState::Streaming);
    assert_eq!(acts.len(), 1);
    match &acts[0] {
        Action::Emit(Event::Image(out)) => {
            assert_eq!(out.width, 2);
            assert_eq!(out.height, 2);
            assert_eq!(
                out.data,
                vec![1, 2, 3, 255, 5, 6, 7, 255, 10, 11, 12, 255, 13, 14, 15, 255]
            );
        },
        other => panic!("expected a frame emission, got {:?}", other),
    }
}

#[test]
fn still_frames_are_post_processed_and_emitted() {
    let frame = Frame { data: vec![0u8; 16], width: 2, height: 2 };
    let (_, acts) = step(ConnState::Streaming, Input::Still(frame));
    assert_eq!(acts.len(), 1);
    match &acts[0] {
        Action::Emit(Event::StillImage(out)) => {
            for (i, b) in out.data.iter().enumerate() {
                if i % 4 == 3 {
                    assert_eq!(*b, 255);
                } else {
                    assert_eq!(*b, 0);
                }
            }
        },
        other => panic!("expected a still emission, got {:?}", other),
    }
}

#[test]
fn disconnect_ends_the_session_and_silences_frames() {
    let (state, acts) = step(ConnState::Streaming, Input::Hw(HwEvent::Disconnected));
    assert_eq!(state, ConnState::WaitingForConnect);
    assert_eq!(acts, vec![Action::Emit(Event::Disconnect), Action::Close]);

    // Until the next successful connect, frame events produce nothing.
    let (state, acts) = step(state, Input::Hw(HwEvent::Image));
    assert_eq!(state, ConnState::WaitingForConnect);
    assert!(acts.is_empty());
    let (_, acts) = step(
        ConnState::WaitingForConnect,
        Input::Frame(Frame { data: vec![0u8; 16], width: 2, height: 2 }),
    );
    assert!(acts.is_empty());
}

#[test]
fn exposure_echo_is_ignored_and_unknown_is_fatal() {
    let (state, acts) = step(ConnState::Streaming, Input::Hw(HwEvent::Exposure));
    assert_eq!(state, ConnState::Streaming);
    assert!(acts.is_empty());

    let (state, acts) = step(ConnState::Streaming, Input::Hw(HwEvent::Unknown));
    assert_eq!(state, ConnState::Streaming);
    assert_eq!(acts, vec![Action::Fatal]);
}

#[test]
fn hotplug_does_not_interrupt_a_session() {
    let (state, acts) = step(ConnState::Streaming, Input::Hotplug(vec![]));
    assert_eq!(state, ConnState::Streaming);
    assert_eq!(acts, vec![Action::Emit(Event::Hotplug(vec![]))]);
}
