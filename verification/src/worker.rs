//! The device worker's connection state machine.
//!
//! The worker is the one execution context that owns the hardware session. It
//! waits on three sources at once — user commands, hardware events, hotplug
//! notifications — and reacts to whichever is ready first. The decisions are
//! this pure step function from state and input to next state and actions;
//! the surrounding loop performs the actions (the hardware calls and channel
//! sends) and feeds their results back in as the next inputs, so the session
//! handle never leaves that loop.

use vstd::prelude::*;

use crate::camera::Command;
use crate::camera::Event;
use crate::camera::Frame;
use crate::camera::alpha_fixed;
use crate::camera::set_alpha;

verus! {

/// Connection state of the device worker.
#[derive(Copy, Clone, PartialEq, Eq, Structural, Debug)]
pub enum ConnState {
    /// Before the startup enumeration.
    Idle,
    /// Enumerated, no open session.
    WaitingForConnect,
    /// A session is open and frames are flowing.
    Streaming,
}

/// A hardware event, as the session's event channel reports it.
#[derive(Copy, Clone, PartialEq, Eq, Structural, Debug)]
pub enum HwEvent {
    /// A preview frame is ready to pull.
    Image,
    /// A still capture is ready to pull.
    StillImage,
    /// The device is gone.
    Disconnected,
    /// The device adjusted exposure on its own; ignored by design.
    Exposure,
    /// Anything the protocol does not know.
    Unknown,
}

/// One thing the worker's wait can wake up on, results of its own earlier
/// actions included.
#[derive(Clone, PartialEq, Eq, Debug)]
pub enum Input {
    /// A hotplug notification arrived (or the worker just started) and the
    /// attached devices were re-enumerated.
    Hotplug(Vec<String>),
    /// A user command from the inbound channel.
    Command(Command),
    /// The outcome of a requested open.
    OpenResult(bool),
    /// A hardware event from the open session.
    Hw(HwEvent),
    /// The buffer a requested frame pull produced.
    Frame(Frame),
    /// The buffer a requested still pull produced.
    Still(Frame),
}

/// What the worker asks its surrounding loop to do, in order.
#[derive(Clone, PartialEq, Eq, Debug)]
pub enum Action {
    /// Send an event to the application.
    Emit(Event),
    /// Try to open the named device, or the first available one; answer with
    /// `OpenResult`.
    TryOpen(Option<String>),
    /// Select the highest-resolution preview mode and disable automatic
    /// exposure, so parameter commands stay authoritative.
    Configure,
    ApplyExposureTime(u32),
    ApplyExposureGain(u16),
    ApplyColorTemperature(u32),
    ApplyTint(u32),
    /// Trigger a still capture at the current preview resolution.
    Snap,
    /// Pull the ready preview frame; answer with `Frame`.
    PullImage,
    /// Pull the ready still frame; answer with `Still`.
    PullStill,
    /// Release the session.
    Close,
    /// An unrecognized hardware event: a protocol violation the worker treats
    /// as fatal rather than hardening against.
    Fatal,
}

/// Is a session open in this state?
pub open spec fn session_open(s: ConnState) -> bool {
    s == ConnState::Streaming
}

/// The transition relation of the worker, one wake-up at a time. This is the
/// whole table; `step` is proved to follow it exactly. It is kept opaque so
/// that run-level reasoning goes through the step lemmas below.
#[verifier::opaque]
pub open spec fn step_ok(state: ConnState, input: Input, post: ConnState, acts: Seq<Action>) -> bool {
    match input {
        // Re-enumeration is reported in every state and interrupts nothing;
        // it moves the worker out of its startup state.
        Input::Hotplug(list) => {
            &&& post == (if state == ConnState::Idle {
                ConnState::WaitingForConnect
            } else {
                state
            })
            &&& acts == seq![Action::Emit(Event::Hotplug(list))]
        },
        Input::Command(cmd) => {
            if session_open(state) {
                &&& post == state
                &&& match cmd {
                    // Only one session at a time: a connect request while
                    // streaming is ignored.
                    Command::Connect(_) => acts == Seq::<Action>::empty(),
                    Command::SetExposureTime { microseconds } => acts == seq![
                        Action::ApplyExposureTime(microseconds),
                    ],
                    Command::SetExposureGain { percents } => acts == seq![
                        Action::ApplyExposureGain(percents),
                    ],
                    Command::SetColorTemperature { kelvin } => acts == seq![
                        Action::ApplyColorTemperature(kelvin),
                    ],
                    Command::SetTint(tint) => acts == seq![Action::ApplyTint(tint)],
                    Command::Snap => acts == seq![Action::Snap],
                }
            } else {
                &&& post == state
                &&& match cmd {
                    Command::Connect(id) => acts == seq![Action::TryOpen(id)],
                    // Parameter commands with no session are dropped, not
                    // queued.
                    _ => acts == Seq::<Action>::empty(),
                }
            }
        },
        Input::OpenResult(opened) => {
            if !session_open(state) && opened {
                // The one way into a session: configure it, then report
                // exactly one Connect.
                &&& post == ConnState::Streaming
                &&& acts == seq![Action::Configure, Action::Emit(Event::Connect)]
            } else {
                // A failed open is non-fatal: stay put, wait for the next
                // command or hotplug.
                &&& post == state
                &&& acts == Seq::<Action>::empty()
            }
        },
        Input::Hw(ev) => {
            if session_open(state) {
                match ev {
                    HwEvent::Image => post == state && acts == seq![Action::PullImage],
                    HwEvent::StillImage => post == state && acts == seq![Action::PullStill],
                    HwEvent::Disconnected => post == ConnState::WaitingForConnect && acts == seq![
                        Action::Emit(Event::Disconnect),
                        Action::Close,
                    ],
                    HwEvent::Exposure => post == state && acts == Seq::<Action>::empty(),
                    HwEvent::Unknown => post == state && acts == seq![Action::Fatal],
                }
            } else {
                // A stray event with no session is dropped.
                post == state && acts == Seq::<Action>::empty()
            }
        },
        Input::Frame(f) => {
            if session_open(state) {
                &&& post == state
                &&& acts.len() == 1
                &&& match acts[0] {
                    Action::Emit(Event::Image(out)) => {
                        &&& out.width == f.width
                        &&& out.height == f.height
                        &&& alpha_fixed(f.data@, out.data@, 255)
                    },
                    _ => false,
                }
            } else {
                post == state && acts == Seq::<Action>::empty()
            }
        },
        Input::Still(f) => {
            if session_open(state) {
                &&& post == state
                &&& acts.len() == 1
                &&& match acts[0] {
                    Action::Emit(Event::StillImage(out)) => {
                        &&& out.width == f.width
                        &&& out.height == f.height
                        &&& alpha_fixed(f.data@, out.data@, 255)
                    },
                    _ => false,
                }
            } else {
                post == state && acts == Seq::<Action>::empty()
            }
        },
    }
}

/// One decision of the worker: from the current state and the input the wait
/// woke up on, the next state and the actions to perform, exactly as
/// `step_ok` lays them out. Pulled frame buffers are post-processed here —
/// the alpha channel forced opaque — before they are handed out.
pub fn step(state: ConnState, input: Input) -> (r: (ConnState, Vec<Action>))
    requires
        match input {
            Input::Frame(f) => f.data@.len() % 16 == 0,
            Input::Still(f) => f.data@.len() % 16 == 0,
            _ => true,
        },
    ensures
        step_ok(state, input, r.0, r.1@),
{
    proof {
        reveal(step_ok);
    }
    let streaming = match state {
        ConnState::Streaming => true,
        _ => false,
    };
    let mut acts: Vec<Action> = Vec::new();
    let post: ConnState = match input {
        Input::Hotplug(list) => {
            acts.push(Action::Emit(Event::Hotplug(list)));
            if let ConnState::Idle = state {
                ConnState::WaitingForConnect
            } else {
                state
            }
        },
        Input::Command(cmd) => {
            if streaming {
                match cmd {
                    Command::Connect(_) => {},
                    Command::SetExposureTime { microseconds } => {
                        acts.push(Action::ApplyExposureTime(microseconds));
                    },
                    Command::SetExposureGain { percents } => {
                        acts.push(Action::ApplyExposureGain(percents));
                    },
                    Command::SetColorTemperature { kelvin } => {
                        acts.push(Action::ApplyColorTemperature(kelvin));
                    },
                    Command::SetTint(tint) => {
                        acts.push(Action::ApplyTint(tint));
                    },
                    Command::Snap => {
                        acts.push(Action::Snap);
                    },
                }
            } else {
                match cmd {
                    Command::Connect(id) => {
                        acts.push(Action::TryOpen(id));
                    },
                    _ => {},
                }
            }
            state
        },
        Input::OpenResult(opened) => {
            if !streaming && opened {
                acts.push(Action::Configure);
                acts.push(Action::Emit(Event::Connect));
                proof {
                    assert(acts@ =~= seq![Action::Configure, Action::Emit(Event::Connect)]);
                }
                ConnState::Streaming
            } else {
                state
            }
        },
        Input::Hw(ev) => {
            if streaming {
                match ev {
                    HwEvent::Image => {
                        acts.push(Action::PullImage);
                        state
                    },
                    HwEvent::StillImage => {
                        acts.push(Action::PullStill);
                        state
                    },
                    HwEvent::Disconnected => {
                        acts.push(Action::Emit(Event::Disconnect));
                        acts.push(Action::Close);
                        proof {
                            assert(acts@ =~= seq![
                                Action::Emit(Event::Disconnect),
                                Action::Close,
                            ]);
                        }
                        ConnState::WaitingForConnect
                    },
                    HwEvent::Exposure => state,
                    HwEvent::Unknown => {
                        acts.push(Action::Fatal);
                        state
                    },
                }
            } else {
                state
            }
        },
        Input::Frame(mut f) => {
            if streaming {
                set_alpha(&mut f.data, 255);
                acts.push(Action::Emit(Event::Image(f)));
            }
            state
        },
        Input::Still(mut f) => {
            if streaming {
                set_alpha(&mut f.data, 255);
                acts.push(Action::Emit(Event::StillImage(f)));
            }
            state
        },
    };
    (post, acts)
}

// What a step can emit.

pub open spec fn is_connect_emit(a: Action) -> bool {
    a == Action::Emit(Event::Connect)
}

pub open spec fn is_disconnect_emit(a: Action) -> bool {
    a == Action::Emit(Event::Disconnect)
}

pub open spec fn is_frame_emit(a: Action) -> bool {
    match a {
        Action::Emit(Event::Image(_)) => true,
        Action::Emit(Event::StillImage(_)) => true,
        _ => false,
    }
}

pub open spec fn emits_connect(acts: Seq<Action>) -> bool {
    exists|k: int| 0 <= k < acts.len() && is_connect_emit(#[trigger] acts[k])
}

pub open spec fn emits_frame(acts: Seq<Action>) -> bool {
    exists|k: int| 0 <= k < acts.len() && is_frame_emit(#[trigger] acts[k])
}

/// Law: `Connect` is reported exactly when an open succeeded with no session
/// yet, it is reported exactly once in that step, and the worker is streaming
/// afterwards.
pub proof fn lemma_connect_only_on_open(state: ConnState, input: Input, post: ConnState, acts: Seq<Action>)
    requires
        step_ok(state, input, post, acts),
        emits_connect(acts),
    ensures
        input == Input::OpenResult(true),
        !session_open(state),
        post == ConnState::Streaming,
        acts == seq![Action::Configure, Action::Emit(Event::Connect)],
{
    reveal(step_ok);
    let k = choose|k: int| 0 <= k < acts.len() && is_connect_emit(#[trigger] acts[k]);
    match input {
        Input::Hotplug(list) => {
            assert(acts[k] == Action::Emit(Event::Hotplug(list)));
        },
        _ => {},
    }
}

/// Law: a failed open is non-fatal and silent: the state machine stays put
/// and performs nothing.
pub proof fn lemma_open_failure_is_silent(state: ConnState, post: ConnState, acts: Seq<Action>)
    requires
        step_ok(state, Input::OpenResult(false), post, acts),
    ensures
        post == state,
        acts == Seq::<Action>::empty(),
{
    reveal(step_ok);
}

/// Law: frames are emitted only while a session is streaming, only for a
/// pulled buffer, and the session continues.
pub proof fn lemma_frame_only_while_streaming(
    state: ConnState,
    input: Input,
    post: ConnState,
    acts: Seq<Action>,
)
    requires
        step_ok(state, input, post, acts),
        emits_frame(acts),
    ensures
        session_open(state),
        post == ConnState::Streaming,
        input matches Input::Frame(_) || input matches Input::Still(_),
{
    reveal(step_ok);
    let k = choose|k: int| 0 <= k < acts.len() && is_frame_emit(#[trigger] acts[k]);
    match input {
        Input::Hotplug(list) => {
            assert(acts[k] == Action::Emit(Event::Hotplug(list)));
        },
        _ => {},
    }
}

/// Law: `Disconnect` is reported exactly on the hardware's disconnect event
/// while streaming, exactly once, the session is released, and no frame
/// accompanies it; the worker then waits for the next connect.
pub proof fn lemma_disconnect_ends_session(
    state: ConnState,
    input: Input,
    post: ConnState,
    acts: Seq<Action>,
)
    requires
        step_ok(state, input, post, acts),
        exists|k: int| 0 <= k < acts.len() && is_disconnect_emit(#[trigger] acts[k]),
    ensures
        session_open(state),
        input == Input::Hw(HwEvent::Disconnected),
        post == ConnState::WaitingForConnect,
        acts == seq![Action::Emit(Event::Disconnect), Action::Close],
        !emits_frame(acts),
{
    reveal(step_ok);
    let k = choose|k: int| 0 <= k < acts.len() && is_disconnect_emit(#[trigger] acts[k]);
    match input {
        Input::Hotplug(list) => {
            assert(acts[k] == Action::Emit(Event::Hotplug(list)));
        },
        _ => {},
    }
    assert(!emits_frame(acts)) by {
        if emits_frame(acts) {
            let j = choose|j: int| 0 <= j < acts.len() && is_frame_emit(#[trigger] acts[j]);
            assert(false);
        }
    }
}

/// One run of the worker: each entry is the input a wake-up delivered, the
/// state after it, and the actions performed.
pub open spec fn trace_state(s0: ConnState, steps: Seq<(Input, ConnState, Seq<Action>)>, k: int) -> ConnState {
    if k == 0 {
        s0
    } else {
        steps[k - 1].1
    }
}

pub open spec fn trace_ok(s0: ConnState, steps: Seq<(Input, ConnState, Seq<Action>)>) -> bool {
    forall|k: int|
        0 <= k < steps.len() ==> step_ok(
            trace_state(s0, steps, k),
            (#[trigger] steps[k]).0,
            steps[k].1,
            steps[k].2,
        )
}

/// One step that starts without a session and reports no `Connect` leaves
/// the session closed.
pub proof fn lemma_step_keeps_session_closed(
    state: ConnState,
    input: Input,
    post: ConnState,
    acts: Seq<Action>,
)
    requires
        step_ok(state, input, post, acts),
        !session_open(state),
        !emits_connect(acts),
    ensures
        !session_open(post),
{
    reveal(step_ok);
    match input {
        Input::OpenResult(opened) => {
            if opened {
                assert(is_connect_emit(acts[1]));
                assert(emits_connect(acts));
            }
        },
        _ => {},
    }
}

/// Law: starting without a session, a run in which no `Connect` is ever
/// reported never opens a session and never emits a frame — so within the
/// outbound stream, `Connect` precedes the first frame of every session.
#[verifier::rlimit(100)]
pub proof fn lemma_no_frame_before_connect(s0: ConnState, steps: Seq<(Input, ConnState, Seq<Action>)>)
    requires
        !session_open(s0),
        trace_ok(s0, steps),
        forall|k: int| 0 <= k < steps.len() ==> !emits_connect((#[trigger] steps[k]).2),
    ensures
        !session_open(trace_state(s0, steps, steps.len() as int)),
        forall|k: int| 0 <= k < steps.len() ==> !emits_frame((#[trigger] steps[k]).2),
    decreases steps.len(),
{
    if steps.len() > 0 {
        let n = steps.len() as int;
        let prev = steps.drop_last();
        assert forall|k: int| 0 <= k < prev.len() implies step_ok(
            trace_state(s0, prev, k),
            (#[trigger] prev[k]).0,
            prev[k].1,
            prev[k].2,
        ) by {
            assert(prev[k] == steps[k]);
            assert(trace_state(s0, prev, k) == trace_state(s0, steps, k));
            assert(step_ok(trace_state(s0, steps, k), steps[k].0, steps[k].1, steps[k].2));
        }
        assert forall|k: int| 0 <= k < prev.len() implies !emits_connect(
            (#[trigger] prev[k]).2,
        ) by {
            assert(prev[k] == steps[k]);
        }
        lemma_no_frame_before_connect(s0, prev);
        let before = trace_state(s0, steps, n - 1);
        let last = steps[n - 1];
        assert(trace_state(s0, prev, prev.len() as int) == before);
        assert(step_ok(before, last.0, last.1, last.2));
        assert(!emits_connect(last.2));
        lemma_step_keeps_session_closed(before, last.0, last.1, last.2);
        assert(!session_open(trace_state(s0, steps, n)));
        assert(!emits_frame(last.2)) by {
            if emits_frame(last.2) {
                lemma_frame_only_while_streaming(before, last.0, last.1, last.2);
            }
        }
        assert forall|k: int| 0 <= k < steps.len() implies !emits_frame(
            (#[trigger] steps[k]).2,
        ) by {
            if k < n - 1 {
                assert(steps[k] == prev[k]);
                assert(!emits_frame(prev[k].2));
            }
        }
    }
}

} // verus!
