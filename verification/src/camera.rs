use vstd::prelude::*;

use crate::property::CommandKind;
use crate::property::Graph;
use crate::property::Property;
use crate::property::Value;
use crate::property::cascade;
use crate::property::command_notices;
use crate::property::is_forward_kind;
use crate::property::lemma_resolve_ends_at_root;
use crate::property::lemma_write_notifies_in_order;
use crate::property::local_value;
use crate::property::node_is_root;
use crate::property::node_observers;
use crate::property::node_validator;
use crate::property::node_value;
use crate::property::root_of;
use crate::property::rooted;
use crate::property::settles;
use crate::property::store_at;
use crate::property::stored_value;
use crate::property::write_queue;
use crate::property::Mapping;
use crate::property::ObserverKind;
use crate::property::Validator;

verus! {

/// A request the application sends to the device worker. Parameter commands
/// act on the open session; sent with no session open they are dropped, not
/// queued.
#[derive(Clone, PartialEq, Eq, Debug)]
pub enum Command {
    /// Open the named device, or the first available one.
    Connect(Option<String>),
    SetExposureTime { microseconds: u32 },
    SetExposureGain { percents: u16 },
    SetColorTemperature { kelvin: u32 },
    SetTint(u32),
    /// Capture a still image at the current preview resolution.
    Snap,
}

/// White balance as the device reports it: a correlated color temperature in
/// kelvin and a green-magenta tint.
#[derive(Copy, Clone, PartialEq, Eq, Structural, Debug)]
pub struct WhiteBalance {
    pub temperature: u32,
    pub tint: u32,
}

impl WhiteBalance {
    /// The same balance with the temperature replaced and the tint kept, as a
    /// temperature-only command must leave the device's tint untouched.
    pub fn with_temperature(self, kelvin: u32) -> (r: WhiteBalance)
        ensures
            r == (WhiteBalance { temperature: kelvin, tint: self.tint }),
    {
        WhiteBalance { temperature: kelvin, ..self }
    }

    /// The same balance with the tint replaced and the temperature kept.
    pub fn with_tint(self, tint: u32) -> (r: WhiteBalance)
        ensures
            r == (WhiteBalance { temperature: self.temperature, tint }),
    {
        WhiteBalance { tint, ..self }
    }
}

/// One pulled image: raw bytes, four per pixel, with the resolution they were
/// pulled at.
#[derive(Clone, PartialEq, Eq, Debug)]
pub struct Frame {
    pub data: Vec<u8>,
    pub width: u32,
    pub height: u32,
}

/// What the worker reports to the application. Per session, exactly one
/// `Connect` precedes the first frame and exactly one `Disconnect` follows
/// the last.
#[derive(Clone, PartialEq, Eq, Debug)]
pub enum Event {
    /// The devices currently attached, in enumeration order.
    Hotplug(Vec<String>),
    Connect,
    Image(Frame),
    StillImage(Frame),
    Disconnect,
}

/// How one pass of the alpha fix-up relates a buffer to its result: every
/// fourth byte — the alpha channel of its pixel — has `alpha` or-ed in, and
/// every other byte is untouched.
pub open spec fn alpha_fixed(pre: Seq<u8>, post: Seq<u8>, alpha: u8) -> bool {
    &&& post.len() == pre.len()
    &&& forall|i: int| 0 <= i < pre.len() && i % 4 == 3 ==> post[i] == (pre[i] | alpha)
    &&& forall|i: int| 0 <= i < pre.len() && i % 4 != 3 ==> post[i] == pre[i]
}

/// Forces the alpha channel of every pixel towards opaque, in place: `alpha`
/// is or-ed into every fourth byte. Buffers come in whole four-pixel groups.
pub fn set_alpha(rgba: &mut Vec<u8>, alpha: u8)
    requires
        old(rgba)@.len() % 16 == 0,
    ensures
        alpha_fixed(old(rgba)@, final(rgba)@, alpha),
{
    let length = rgba.len();
    proof {
        assert(length % 4 == 0) by (nonlinear_arith)
            requires
                length % 16 == 0,
        ;
    }
    let mut index: usize = 0;
    while index < length
        invariant
            index <= length,
            index % 4 == 0,
            length % 4 == 0,
            rgba@.len() == length,
            old(rgba)@.len() == length,
            forall|i: int|
                0 <= i < index && i % 4 == 3 ==> rgba@[i] == (old(rgba)@[i] | alpha),
            forall|i: int| index <= i < length ==> rgba@[i] == old(rgba)@[i],
            forall|i: int| 0 <= i < index && i % 4 != 3 ==> rgba@[i] == old(rgba)@[i],
        decreases length - index,
    {
        let b = rgba[index + 3];
        rgba[index + 3] = b | alpha;
        index += 4;
    }
}

/// Law: the alpha fix-up is idempotent — a second pass with the same alpha
/// changes nothing — and with a fully opaque alpha every fourth byte of the
/// result is fully opaque.
pub proof fn lemma_set_alpha_idempotent(a: Seq<u8>, b: Seq<u8>, c: Seq<u8>, alpha: u8)
    requires
        alpha_fixed(a, b, alpha),
        alpha_fixed(b, c, alpha),
    ensures
        c == b,
        alpha == 255 ==> forall|i: int| 0 <= i < b.len() && i % 4 == 3 ==> b[i] == 255,
{
    assert forall|i: int| 0 <= i < b.len() implies c[i] == b[i] by {
        if i % 4 == 3 {
            let x = a[i];
            assert(((x | alpha) | alpha) == (x | alpha)) by (bit_vector);
        }
    }
    assert(c =~= b);
    if alpha == 255 {
        assert forall|i: int| 0 <= i < b.len() && i % 4 == 3 implies b[i] == 255 by {
            let x = a[i];
            assert((x | 255u8) == 255u8) by (bit_vector);
        }
    }
}

/// The application-side face of the device: the four device parameters as
/// property cells in one binding graph, each wired to forward every stored
/// value as the matching parameter command, and the queue those commands
/// accumulate in until the owner drains them into the worker's channel.
pub struct Camera {
    pub props: Graph,
    pub exposure_time_us: Property,
    pub exposure_gain_pct: Property,
    pub color_temperature_k: Property,
    pub tint: Property,
}

impl Camera {
    /// The four cells live in the graph, each a root with one command
    /// observer.
    pub open spec fn wf(self) -> bool {
        &&& self.props.wf()
        &&& self.exposure_time_us.index < self.props.nodes@.len()
        &&& self.exposure_gain_pct.index < self.props.nodes@.len()
        &&& self.color_temperature_k.index < self.props.nodes@.len()
        &&& self.tint.index < self.props.nodes@.len()
    }

    /// The value a parameter cell currently presents.
    pub open spec fn param(self, p: Property) -> Value {
        local_value(self.props.nodes@, p.index as int)
    }

    /// Is the cell at `p` wired as a device parameter: a root cell with no
    /// repair whose one observer turns every stored value into the given
    /// parameter command?
    pub open spec fn wired(self, p: Property, kind: CommandKind) -> bool {
        let node = self.props.nodes@[p.index as int];
        &&& node_is_root(node)
        &&& node_validator(node) == Validator::Accept
        &&& node_observers(node).len() == 1
        &&& node_observers(node)[0].kind == ObserverKind::Command(kind)
        &&& node_observers(node)[0].proj@ == Seq::<Mapping>::empty()
        &&& node_observers(node)[0].site == p.index
    }

    /// A camera with the four parameter cells at their startup values, each
    /// wired to forward every stored value as its parameter command.
    /// Installing the observers hands each the current value once, so the
    /// queue starts with one command per parameter, in wiring order.
    pub fn new() -> (r: Camera)
        ensures
            r.wf(),
            r.param(r.exposure_time_us) == Value::U32(120000),
            r.param(r.exposure_gain_pct) == Value::U16(100),
            r.param(r.color_temperature_k) == Value::U32(6503),
            r.param(r.tint) == Value::U32(1000),
            r.wired(r.exposure_time_us, CommandKind::ExposureTime),
            r.wired(r.exposure_gain_pct, CommandKind::ExposureGain),
            r.wired(r.color_temperature_k, CommandKind::ColorTemperature),
            r.wired(r.tint, CommandKind::Tint),
            r.props.commands@ == seq![
                Command::SetExposureTime { microseconds: 120000u32 },
                Command::SetExposureGain { percents: 100u16 },
                Command::SetColorTemperature { kelvin: 6503u32 },
                Command::SetTint(1000u32),
            ],
    {
        let mut props = Graph::new();
        let exposure_time_us = Property::new(&mut props, Value::U32(120000));
        exposure_time_us.notify(&mut props, CommandKind::ExposureTime);
        let exposure_gain_pct = Property::new(&mut props, Value::U16(100));
        exposure_gain_pct.notify(&mut props, CommandKind::ExposureGain);
        let color_temperature_k = Property::new(&mut props, Value::U32(6503));
        color_temperature_k.notify(&mut props, CommandKind::ColorTemperature);
        let tint = Property::new(&mut props, Value::U32(1000));
        tint.notify(&mut props, CommandKind::Tint);
        proof {
            assert(props.commands@ =~= seq![
                Command::SetExposureTime { microseconds: 120000u32 },
                Command::SetExposureGain { percents: 100u16 },
                Command::SetColorTemperature { kelvin: 6503u32 },
                Command::SetTint(1000u32),
            ]);
        }
        Camera { props, exposure_time_us, exposure_gain_pct, color_temperature_k, tint }
    }

    /// Requests a session: queues the connect command, then replays the four
    /// current parameter values, so a fresh session starts from what the
    /// application shows.
    pub fn connect(&mut self, unique_id: Option<String>)
        requires
            old(self).wf(),
        ensures
            final(self).wf(),
            final(self).props.nodes@ == old(self).props.nodes@,
            final(self).exposure_time_us == old(self).exposure_time_us,
            final(self).exposure_gain_pct == old(self).exposure_gain_pct,
            final(self).color_temperature_k == old(self).color_temperature_k,
            final(self).tint == old(self).tint,
            final(self).props.commands@ == old(self).props.commands@ + seq![
                Command::Connect(unique_id),
                Command::SetExposureTime {
                    microseconds: old(self).param(old(self).exposure_time_us).spec_u32(),
                },
                Command::SetExposureGain {
                    percents: old(self).param(old(self).exposure_gain_pct).spec_u16(),
                },
                Command::SetColorTemperature {
                    kelvin: old(self).param(old(self).color_temperature_k).spec_u32(),
                },
                Command::SetTint(old(self).param(old(self).tint).spec_u32()),
            ],
    {
        let time = self.exposure_time_us.get(&self.props).to_u32();
        let gain = self.exposure_gain_pct.get(&self.props).to_u16();
        let temperature = self.color_temperature_k.get(&self.props).to_u32();
        let tint = self.tint.get(&self.props).to_u32();
        self.props.commands.push(Command::Connect(unique_id));
        self.props.commands.push(Command::SetExposureTime { microseconds: time });
        self.props.commands.push(Command::SetExposureGain { percents: gain });
        self.props.commands.push(Command::SetColorTemperature { kelvin: temperature });
        self.props.commands.push(Command::SetTint(tint));
        proof {
            assert(self.props.commands@ =~= old(self).props.commands@ + seq![
                Command::Connect(unique_id),
                Command::SetExposureTime {
                    microseconds: old(self).param(old(self).exposure_time_us).spec_u32(),
                },
                Command::SetExposureGain {
                    percents: old(self).param(old(self).exposure_gain_pct).spec_u16(),
                },
                Command::SetColorTemperature {
                    kelvin: old(self).param(old(self).color_temperature_k).spec_u32(),
                },
                Command::SetTint(old(self).param(old(self).tint).spec_u32()),
            ]);
        }
    }

    /// Queues a still-capture request.
    pub fn snap(&mut self)
        requires
            old(self).wf(),
        ensures
            final(self).wf(),
            final(self).props.nodes@ == old(self).props.nodes@,
            final(self).exposure_time_us == old(self).exposure_time_us,
            final(self).exposure_gain_pct == old(self).exposure_gain_pct,
            final(self).color_temperature_k == old(self).color_temperature_k,
            final(self).tint == old(self).tint,
            final(self).props.commands@ == old(self).props.commands@.push(Command::Snap),
    {
        self.props.commands.push(Command::Snap);
    }

    /// Law: a write through a wired parameter handle settles in one step,
    /// stores exactly the written value at the handle's own cell, and queues
    /// exactly the matching parameter command carrying it — this is the data
    /// flow from a cell write to the device worker.
    pub proof fn lemma_parameter_write_queues_command(
        self,
        p: Property,
        kind: CommandKind,
        v: Value,
    )
        requires
            self.wf(),
            p.index < self.props.nodes@.len(),
            self.wired(p, kind),
        ensures
            ({
                let nodes = self.props.nodes@;
                let cmds = self.props.commands@;
                &&& settles(nodes, write_queue(p.index, v))
                &&& forall|n: nat|
                    n >= 1 ==> cascade(nodes, cmds, write_queue(p.index, v), n) == Some(
                        (
                            store_at(nodes, p.index as int, v),
                            cmds.push(kind.spec_command(v)),
                        ),
                    )
                &&& local_value(store_at(nodes, p.index as int, v), p.index as int) == v
            }),
    {
        let nodes = self.props.nodes@;
        let cmds = self.props.commands@;
        let i = p.index as int;
        assert(rooted(nodes, i));
        lemma_resolve_ends_at_root(nodes, i, nodes.len() as nat);
        assert(root_of(nodes, i) == i);
        assert(stored_value(nodes, i, v) == v);
        let obs = node_observers(nodes[i]);
        assert forall|k: int| 0 <= k < obs.len() implies !is_forward_kind(
            (#[trigger] obs[k]).kind,
        ) by {
            assert(obs[k] == obs[0]);
        }
        lemma_write_notifies_in_order(nodes, cmds, p.index, v);
        assert(command_notices(obs, v) =~= seq![kind.spec_command(v)]) by {
            assert(command_notices(obs.drop_last(), v) =~= Seq::<Command>::empty());
            assert(obs.last() == obs[0]);
        }
        assert(cmds + command_notices(obs, v) =~= cmds.push(kind.spec_command(v)));
        let post = store_at(nodes, i, v);
        assert(node_value(post[i]) == v);
        assert(local_value(post, i) == v);
    }

    pub fn exposure_time_us(&self) -> (r: Property)
        ensures
            r == self.exposure_time_us,
    {
        self.exposure_time_us
    }

    pub fn exposure_gain_pct(&self) -> (r: Property)
        ensures
            r == self.exposure_gain_pct,
    {
        self.exposure_gain_pct
    }

    pub fn color_temperature_k(&self) -> (r: Property)
        ensures
            r == self.color_temperature_k,
    {
        self.color_temperature_k
    }

    pub fn tint(&self) -> (r: Property)
        ensures
            r == self.tint,
    {
        self.tint
    }
}

} // verus!
