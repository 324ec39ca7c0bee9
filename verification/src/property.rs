use vstd::prelude::*;

use crate::camera::Command;
use crate::camera::WhiteBalance;
use crate::ui::widget::SliderPosition;

verus! {

/// A value a property cell can hold. The closed set of payload types keeps
/// validators, value mappings and observers first-order data, so the whole
/// binding graph can be reasoned about.
#[derive(Copy, Clone, PartialEq, Eq, Structural, Debug)]
pub enum Value {
    U32(u32),
    U16(u16),
    Slider(SliderPosition),
    Balance(WhiteBalance),
}

impl Value {
    /// The value read as an unsigned 32-bit quantity; payloads that do not
    /// carry one read as zero.
    pub open spec fn spec_u32(self) -> u32 {
        match self {
            Value::U32(x) => x,
            Value::U16(x) => x as u32,
            _ => 0,
        }
    }

    /// The value read as an unsigned 16-bit quantity; payloads that do not
    /// carry one read as zero.
    pub open spec fn spec_u16(self) -> u16 {
        match self {
            Value::U16(x) => x,
            _ => 0,
        }
    }

    pub fn to_u32(self) -> (r: u32)
        ensures
            r == self.spec_u32(),
    {
        match self {
            Value::U32(x) => x,
            Value::U16(x) => x as u32,
            _ => 0,
        }
    }

    pub fn to_u16(self) -> (r: u16)
        ensures
            r == self.spec_u16(),
    {
        match self {
            Value::U16(x) => x,
            _ => 0,
        }
    }
}

/// The validator a cell repairs every written value with before storing it
/// and notifying observers.
#[derive(Copy, Clone, PartialEq, Eq, Structural, Debug)]
pub enum Validator {
    /// Store every value unchanged.
    Accept,
    /// Repair slider positions; other payloads pass unchanged.
    Slider,
}

impl Validator {
    pub open spec fn spec_validate(self, v: Value) -> Value {
        match self {
            Validator::Accept => v,
            Validator::Slider => match v {
                Value::Slider(p) => Value::Slider(p.validated()),
                _ => v,
            },
        }
    }

    pub fn validate(self, v: Value) -> (r: Value)
        ensures
            r == self.spec_validate(v),
    {
        match self {
            Validator::Accept => v,
            Validator::Slider => match v {
                Value::Slider(p) => Value::Slider(p.validator()),
                _ => v,
            },
        }
    }
}

/// The largest u32, as an integer, for saturating conversions.
pub open spec fn clamp_to_u32(x: int) -> u32 {
    if x < 0 {
        0u32
    } else if x > u32::MAX {
        u32::MAX
    } else {
        x as u32
    }
}

/// The largest u16, as an integer, for saturating conversions.
pub open spec fn clamp_to_u16(x: int) -> u16 {
    if x < 0 {
        0u16
    } else if x > u16::MAX {
        u16::MAX
    } else {
        x as u16
    }
}

/// How a derived cell translates between its own values and its target's.
/// Reading maps the target value to the local type; writing maps a new local
/// value back, keeping the target fields the local type does not model.
#[derive(Copy, Clone, PartialEq, Eq, Structural, Debug)]
pub enum Mapping {
    /// Local u32 is the target white balance's tint; writing replaces the
    /// tint and keeps the temperature.
    BalanceTint,
    /// Local u32 is the target slider's current value scaled up by `scale`
    /// (saturating); writing divides by `scale` and replaces the current
    /// value, keeping the range. A zero scale acts as one.
    SliderCurrent { scale: u32 },
    /// Local u16 is the target slider's current value (saturating); writing
    /// replaces the current value.
    SliderCurrentU16,
}

impl Mapping {
    /// The scale a `SliderCurrent` mapping acts with: never zero.
    pub open spec fn effective_scale(scale: u32) -> u32 {
        if scale == 0 {
            1u32
        } else {
            scale
        }
    }

    /// The local value read through the mapping. A target value of an
    /// unexpected payload type passes through unchanged.
    pub open spec fn spec_from(self, target: Value) -> Value {
        match self {
            Mapping::BalanceTint => match target {
                Value::Balance(wb) => Value::U32(wb.tint),
                _ => target,
            },
            Mapping::SliderCurrent { scale } => match target {
                Value::Slider(p) => Value::U32(
                    clamp_to_u32(p.current as int * Self::effective_scale(scale) as int),
                ),
                _ => target,
            },
            Mapping::SliderCurrentU16 => match target {
                Value::Slider(p) => Value::U16(clamp_to_u16(p.current as int)),
                _ => target,
            },
        }
    }

    /// The new target value written through the mapping: the new local value
    /// merged into the old target value. Unexpected payload types leave the
    /// target unchanged.
    pub open spec fn spec_to(self, target: Value, local: Value) -> Value {
        match self {
            Mapping::BalanceTint => match (target, local) {
                (Value::Balance(wb), Value::U32(t)) => Value::Balance(
                    WhiteBalance { temperature: wb.temperature, tint: t },
                ),
                _ => target,
            },
            Mapping::SliderCurrent { scale } => match (target, local) {
                (Value::Slider(p), Value::U32(v)) => Value::Slider(
                    SliderPosition {
                        current: (v / Self::effective_scale(scale)) as i64,
                        minimum: p.minimum,
                        maximum: p.maximum,
                        step: p.step,
                    },
                ),
                _ => target,
            },
            Mapping::SliderCurrentU16 => match (target, local) {
                (Value::Slider(p), Value::U16(v)) => Value::Slider(
                    SliderPosition {
                        current: v as i64,
                        minimum: p.minimum,
                        maximum: p.maximum,
                        step: p.step,
                    },
                ),
                _ => target,
            },
        }
    }

    pub fn from_value(self, target: Value) -> (r: Value)
        ensures
            r == self.spec_from(target),
    {
        match self {
            Mapping::BalanceTint => match target {
                Value::Balance(wb) => Value::U32(wb.tint),
                _ => target,
            },
            Mapping::SliderCurrent { scale } => match target {
                Value::Slider(p) => {
                    let s: u32 = if scale == 0 {
                        1
                    } else {
                        scale
                    };
                    proof {
                        assert(p.current as int * s as int <= i64::MAX as int * u32::MAX as int
                            && p.current as int * s as int >= i64::MIN as int * u32::MAX as int)
                            by (nonlinear_arith)
                            requires
                                i64::MIN <= p.current as int <= i64::MAX,
                                1 <= s as int <= u32::MAX,
                        ;
                    }
                    let scaled: i128 = p.current as i128 * s as i128;
                    let clamped: u32 = if scaled < 0 {
                        0
                    } else if scaled > u32::MAX as i128 {
                        u32::MAX
                    } else {
                        scaled as u32
                    };
                    Value::U32(clamped)
                },
                _ => target,
            },
            Mapping::SliderCurrentU16 => match target {
                Value::Slider(p) => {
                    let clamped: u16 = if p.current < 0 {
                        0
                    } else if p.current > u16::MAX as i64 {
                        u16::MAX
                    } else {
                        p.current as u16
                    };
                    Value::U16(clamped)
                },
                _ => target,
            },
        }
    }

    pub fn to_value(self, target: Value, local: Value) -> (r: Value)
        ensures
            r == self.spec_to(target, local),
    {
        match self {
            Mapping::BalanceTint => match (target, local) {
                (Value::Balance(wb), Value::U32(t)) => Value::Balance(
                    WhiteBalance { temperature: wb.temperature, tint: t },
                ),
                _ => target,
            },
            Mapping::SliderCurrent { scale } => match (target, local) {
                (Value::Slider(p), Value::U32(v)) => {
                    let s: u32 = if scale == 0 {
                        1
                    } else {
                        scale
                    };
                    Value::Slider(
                        SliderPosition {
                            current: (v / s) as i64,
                            minimum: p.minimum,
                            maximum: p.maximum,
                            step: p.step,
                        },
                    )
                },
                _ => target,
            },
            Mapping::SliderCurrentU16 => match (target, local) {
                (Value::Slider(p), Value::U16(v)) => Value::Slider(
                    SliderPosition {
                        current: v as i64,
                        minimum: p.minimum,
                        maximum: p.maximum,
                        step: p.step,
                    },
                ),
                _ => target,
            },
        }
    }
}

/// Which parameter command an observer turns observed values into.
#[derive(Copy, Clone, PartialEq, Eq, Structural, Debug)]
pub enum CommandKind {
    ExposureTime,
    ExposureGain,
    ColorTemperature,
    Tint,
}

impl CommandKind {
    /// The command carrying `v` under this kind.
    pub open spec fn spec_command(self, v: Value) -> Command {
        match self {
            CommandKind::ExposureTime => Command::SetExposureTime { microseconds: v.spec_u32() },
            CommandKind::ExposureGain => Command::SetExposureGain { percents: v.spec_u16() },
            CommandKind::ColorTemperature => Command::SetColorTemperature { kelvin: v.spec_u32() },
            CommandKind::Tint => Command::SetTint(v.spec_u32()),
        }
    }

    pub fn command(self, v: Value) -> (r: Command)
        ensures
            r == self.spec_command(v),
    {
        match self {
            CommandKind::ExposureTime => Command::SetExposureTime { microseconds: v.to_u32() },
            CommandKind::ExposureGain => Command::SetExposureGain { percents: v.to_u16() },
            CommandKind::ColorTemperature => Command::SetColorTemperature { kelvin: v.to_u32() },
            CommandKind::Tint => Command::SetTint(v.to_u32()),
        }
    }
}

/// How a propagating observer maps the observed value before writing it into
/// its target cell.
#[derive(Copy, Clone, PartialEq, Eq, Structural, Debug)]
pub enum FwdMap {
    /// Forward the observed value as it is.
    Same,
    /// Forward the observed value read through a mapping.
    Mapped(Mapping),
}

/// The value a propagating observer hands on.
pub open spec fn fwd_value(map: FwdMap, v: Value) -> Value {
    match map {
        FwdMap::Same => v,
        FwdMap::Mapped(m) => m.spec_from(v),
    }
}

/// What an observer does with each value it is notified of.
#[derive(Copy, Clone, PartialEq, Eq, Structural, Debug)]
pub enum ObserverKind {
    /// Append the value, as a parameter command, to the graph's outgoing
    /// command queue; the owner drains the queue into the worker's channel.
    Command(CommandKind),
    /// Write the (mapped) value into another cell.
    Forward { target: usize, map: FwdMap },
}

/// A registered observer. It lives in the observer list of the root node its
/// cell delegates storage to; `proj` is the chain of read-mappings between
/// that root's value and the value the observer sees, and `site` is the cell
/// it was registered on, so that re-pointing that cell can carry it along.
#[derive(Clone, Debug)]
pub struct Observer {
    pub proj: Vec<Mapping>,
    pub kind: ObserverKind,
    pub site: usize,
}

/// One node of the binding graph.
#[derive(Debug)]
pub enum Node {
    /// A cell that owns its value, validator and observers.
    Root { value: Value, validator: Validator, observers: Vec<Observer> },
    /// A pure alias: every read and write goes verbatim to the target cell.
    Linked { target: usize },
    /// A two-way transform: reads and writes are translated through `map`
    /// against the target cell.
    Derived { target: usize, map: Mapping },
}

/// The binding graph: property cells behind stable handles (indices), plus the
/// queue of commands that command observers have emitted.
#[derive(Debug)]
pub struct Graph {
    pub nodes: Vec<Node>,
    pub commands: Vec<Command>,
}

/// A handle to one cell of a graph. Re-pointing the cell swaps the node the
/// handle designates; the handle itself is stable.
#[derive(Copy, Clone, PartialEq, Eq, Structural, Debug)]
pub struct Property {
    pub index: usize,
}

// Spec-level structure of a node sequence.

pub open spec fn node_is_root(n: Node) -> bool {
    match n {
        Node::Root { .. } => true,
        _ => false,
    }
}

/// The observers held at a node; alias and transform nodes hold none.
pub open spec fn node_observers(n: Node) -> Seq<Observer> {
    match n {
        Node::Root { observers, .. } => observers@,
        _ => Seq::empty(),
    }
}

/// The value held at a node; meaningful for root nodes only.
pub open spec fn node_value(n: Node) -> Value {
    match n {
        Node::Root { value, .. } => value,
        _ => Value::U32(0),
    }
}

/// The validator held at a node; alias and transform nodes validate nothing
/// themselves (their root does).
pub open spec fn node_validator(n: Node) -> Validator {
    match n {
        Node::Root { validator, .. } => validator,
        _ => Validator::Accept,
    }
}

/// The node with its stored value replaced; only root nodes store one.
pub open spec fn with_value(n: Node, v: Value) -> Node {
    match n {
        Node::Root { value, validator, observers } => Node::Root {
            value: v,
            validator,
            observers,
        },
        _ => n,
    }
}

/// The node sequence with the value at `r` replaced.
pub open spec fn store_at(nodes: Seq<Node>, r: int, v: Value) -> Seq<Node> {
    nodes.update(r, with_value(nodes[r], v))
}

/// Walks the delegation chain from node `i`: the index of the root that
/// stores the cell's value, and the read-mappings between that root's value
/// and the local value at `i`, outermost first. `None` when the chain leaves
/// the graph or does not reach a root within `fuel` steps.
pub open spec fn resolve(nodes: Seq<Node>, i: int, fuel: nat) -> Option<(int, Seq<Mapping>)>
    decreases fuel,
{
    if 0 <= i < nodes.len() {
        match nodes[i] {
            Node::Root { .. } => Some((i, Seq::empty())),
            Node::Linked { target } => if fuel == 0 {
                None
            } else {
                resolve(nodes, target as int, (fuel - 1) as nat)
            },
            Node::Derived { target, map } => if fuel == 0 {
                None
            } else {
                match resolve(nodes, target as int, (fuel - 1) as nat) {
                    Some((r, proj)) => Some((r, seq![map] + proj)),
                    None => None,
                }
            },
        }
    } else {
        None
    }
}

/// Does the chain from `i` reach a root? A graph in which every node does is
/// acyclic, since a chain that reaches a root within as many steps as there
/// are nodes repeats no node.
pub open spec fn rooted(nodes: Seq<Node>, i: int) -> bool {
    resolve(nodes, i, nodes.len() as nat) is Some
}

pub open spec fn root_of(nodes: Seq<Node>, i: int) -> int {
    resolve(nodes, i, nodes.len() as nat).unwrap().0
}

pub open spec fn proj_of(nodes: Seq<Node>, i: int) -> Seq<Mapping> {
    resolve(nodes, i, nodes.len() as nat).unwrap().1
}

/// A chain of read-mappings applied to a root value, innermost (deepest)
/// last.
pub open spec fn apply_proj(proj: Seq<Mapping>, v: Value) -> Value
    decreases proj.len(),
{
    if proj.len() == 0 {
        v
    } else {
        proj[0].spec_from(apply_proj(proj.subrange(1, proj.len() as int), v))
    }
}

/// A new local value written up through a chain of mappings onto the old deep
/// value: each level merges the value coming from above into the old value at
/// that level.
pub open spec fn apply_up(proj: Seq<Mapping>, deep_old: Value, local_new: Value) -> Value
    decreases proj.len(),
{
    if proj.len() == 0 {
        local_new
    } else {
        let m = proj.last();
        m.spec_to(deep_old, apply_up(proj.drop_last(), m.spec_from(deep_old), local_new))
    }
}

/// The value the cell at `i` presents: its root's value read down through the
/// chain's mappings.
pub open spec fn local_value(nodes: Seq<Node>, i: int) -> Value {
    apply_proj(proj_of(nodes, i), node_value(nodes[root_of(nodes, i)]))
}

pub open spec fn is_forward_kind(k: ObserverKind) -> bool {
    match k {
        ObserverKind::Forward { .. } => true,
        ObserverKind::Command(_) => false,
    }
}

/// May an observer of this kind live in the graph? A propagating observer's
/// target must be a cell of the graph.
pub open spec fn kind_ok(nodes: Seq<Node>, kind: ObserverKind) -> bool {
    match kind {
        ObserverKind::Command(_) => true,
        ObserverKind::Forward { target, map } => 0 <= target < nodes.len(),
    }
}

pub open spec fn observer_ok(nodes: Seq<Node>, o: Observer) -> bool {
    kind_ok(nodes, o.kind)
}

/// Well-formedness of a node sequence: every chain reaches a root, and every
/// propagating observer targets a cell of the graph.
pub open spec fn nodes_wf(nodes: Seq<Node>) -> bool {
    &&& forall|i: int| 0 <= i < nodes.len() ==> rooted(nodes, i)
    &&& forall|i: int, k: int|
        0 <= i < nodes.len() && 0 <= k < node_observers(nodes[i]).len() ==> observer_ok(
            nodes,
            #[trigger] node_observers(nodes[i])[k],
        )
}

impl Graph {
    pub open spec fn wf(self) -> bool {
        nodes_wf(self.nodes@)
    }

    /// An empty graph.
    pub fn new() -> (r: Graph)
        ensures
            r.nodes@ == Seq::<Node>::empty(),
            r.commands@ == Seq::<Command>::empty(),
            r.wf(),
    {
        Graph { nodes: Vec::new(), commands: Vec::new() }
    }

    /// Hands the queued commands to the owner for sending and empties the
    /// queue.
    pub fn take_commands(&mut self) -> (r: Vec<Command>)
        ensures
            r@ == old(self).commands@,
            final(self).commands@ == Seq::<Command>::empty(),
            final(self).nodes@ == old(self).nodes@,
            old(self).wf() ==> final(self).wf(),
    {
        let mut taken: Vec<Command> = Vec::new();
        core::mem::swap(&mut taken, &mut self.commands);
        taken
    }
}

// Resolution lemmas.

/// A resolution stays the same when given more fuel.
pub proof fn lemma_resolve_fuel(nodes: Seq<Node>, i: int, fuel: nat, more: nat)
    requires
        resolve(nodes, i, fuel) is Some,
        fuel <= more,
    ensures
        resolve(nodes, i, more) == resolve(nodes, i, fuel),
    decreases fuel,
{
    if 0 <= i < nodes.len() {
        match nodes[i] {
            Node::Root { .. } => {},
            Node::Linked { target } => {
                lemma_resolve_fuel(nodes, target as int, (fuel - 1) as nat, (more - 1) as nat);
            },
            Node::Derived { target, map } => {
                lemma_resolve_fuel(nodes, target as int, (fuel - 1) as nat, (more - 1) as nat);
            },
        }
    }
}

/// A successful resolution ends at a root node inside the graph.
pub proof fn lemma_resolve_ends_at_root(nodes: Seq<Node>, i: int, fuel: nat)
    requires
        resolve(nodes, i, fuel) is Some,
    ensures
        0 <= resolve(nodes, i, fuel).unwrap().0 < nodes.len(),
        node_is_root(nodes[resolve(nodes, i, fuel).unwrap().0]),
    decreases fuel,
{
    if 0 <= i < nodes.len() {
        match nodes[i] {
            Node::Root { .. } => {},
            Node::Linked { target } => {
                lemma_resolve_ends_at_root(nodes, target as int, (fuel - 1) as nat);
            },
            Node::Derived { target, map } => {
                lemma_resolve_ends_at_root(nodes, target as int, (fuel - 1) as nat);
            },
        }
    }
}

/// Replacing a root's stored value leaves every resolution unchanged: chains
/// and mappings are structure, not values.
pub proof fn lemma_resolve_store(nodes: Seq<Node>, r: int, v: Value, i: int, fuel: nat)
    requires
        0 <= r < nodes.len(),
    ensures
        resolve(store_at(nodes, r, v), i, fuel) == resolve(nodes, i, fuel),
    decreases fuel,
{
    let stored = store_at(nodes, r, v);
    assert(stored.len() == nodes.len());
    if 0 <= i < nodes.len() {
        assert(stored[i] == if i == r {
            with_value(nodes[i], v)
        } else {
            nodes[i]
        });
        match nodes[i] {
            Node::Root { .. } => {
                assert(node_is_root(stored[i]));
            },
            Node::Linked { target } => {
                assert(stored[i] == (Node::Linked { target }));
                if fuel > 0 {
                    lemma_resolve_store(nodes, r, v, target as int, (fuel - 1) as nat);
                }
            },
            Node::Derived { target, map } => {
                assert(stored[i] == (Node::Derived { target, map }));
                if fuel > 0 {
                    lemma_resolve_store(nodes, r, v, target as int, (fuel - 1) as nat);
                }
            },
        }
    }
}

/// Replacing a root's stored value also preserves observers, validators and
/// well-formedness.
pub proof fn lemma_store_preserves_wf(nodes: Seq<Node>, r: int, v: Value)
    requires
        nodes_wf(nodes),
        0 <= r < nodes.len(),
    ensures
        nodes_wf(store_at(nodes, r, v)),
        forall|j: int|
            0 <= j < nodes.len() ==> node_observers(#[trigger] store_at(nodes, r, v)[j])
                == node_observers(nodes[j]),
        forall|j: int|
            0 <= j < nodes.len() ==> node_validator(#[trigger] store_at(nodes, r, v)[j])
                == node_validator(nodes[j]),
        forall|i: int|
            #![trigger root_of(store_at(nodes, r, v), i)]
            #![trigger proj_of(store_at(nodes, r, v), i)]
            true ==> root_of(store_at(nodes, r, v), i) == root_of(nodes, i) && proj_of(
                store_at(nodes, r, v),
                i,
            ) == proj_of(nodes, i),
{
    let stored = store_at(nodes, r, v);
    assert(stored.len() == nodes.len());
    assert forall|i: int, fuel: nat| true implies #[trigger] resolve(stored, i, fuel) == resolve(
        nodes,
        i,
        fuel,
    ) by {
        lemma_resolve_store(nodes, r, v, i, fuel);
    }
    assert forall|i: int| 0 <= i < stored.len() implies rooted(stored, i) by {
        assert(rooted(nodes, i));
    }
    assert forall|j: int| 0 <= j < nodes.len() implies node_observers(#[trigger] stored[j])
        == node_observers(nodes[j]) by {
        assert(stored[j] == if j == r {
            with_value(nodes[j], v)
        } else {
            nodes[j]
        });
    }
    assert forall|i: int, k: int|
        0 <= i < stored.len() && 0 <= k < node_observers(stored[i]).len() implies observer_ok(
        stored,
        #[trigger] node_observers(stored[i])[k],
    ) by {
        let o = node_observers(nodes[i])[k];
        assert(observer_ok(nodes, o));
        match o.kind {
            ObserverKind::Command(_) => {},
            ObserverKind::Forward { target, map } => {
                assert(rooted(nodes, target as int));
                lemma_resolve_ends_at_root(nodes, target as int, nodes.len() as nat);
                assert(root_of(stored, target as int) == root_of(nodes, target as int));
            },
        }
    }
}

// Exec resolution.

/// Follows the delegation chain from `i` to the root that stores the cell's
/// value, collecting the read-mappings along the way.
fn resolve_chain(g: &Graph, i: usize) -> (res: (usize, Vec<Mapping>))
    requires
        g.wf(),
        i < g.nodes@.len(),
    ensures
        res.0 < g.nodes@.len(),
        res.0 as int == root_of(g.nodes@, i as int),
        res.1@ == proj_of(g.nodes@, i as int),
        node_is_root(g.nodes@[res.0 as int]),
{
    let nodes_len = g.nodes.len();
    let ghost full = resolve(g.nodes@, i as int, nodes_len as nat);
    proof {
        assert(rooted(g.nodes@, i as int));
        lemma_resolve_ends_at_root(g.nodes@, i as int, nodes_len as nat);
    }
    let mut cur = i;
    let mut proj: Vec<Mapping> = Vec::new();
    let mut k: usize = 0;
    while k < nodes_len
        invariant
            g.wf(),
            k <= nodes_len,
            nodes_len == g.nodes@.len(),
            cur < nodes_len,
            full == resolve(g.nodes@, i as int, nodes_len as nat),
            full is Some,
            resolve(g.nodes@, cur as int, (nodes_len - k) as nat) is Some,
            full.unwrap().0 == resolve(g.nodes@, cur as int, (nodes_len - k) as nat).unwrap().0,
            full.unwrap().1 == proj@ + resolve(
                g.nodes@,
                cur as int,
                (nodes_len - k) as nat,
            ).unwrap().1,
        decreases nodes_len - k,
    {
        match &g.nodes[cur] {
            Node::Root { .. } => {
                proof {
                    assert(full.unwrap().1 =~= proj@);
                }
                return (cur, proj);
            },
            Node::Linked { target } => {
                proof {
                    lemma_resolve_fuel(
                        g.nodes@,
                        *target as int,
                        (nodes_len - k - 1) as nat,
                        nodes_len as nat,
                    );
                    assert(rooted(g.nodes@, *target as int));
                }
                cur = *target;
            },
            Node::Derived { target, map } => {
                proof {
                    assert(resolve(g.nodes@, *target as int, (nodes_len - k - 1) as nat) is Some);
                    assert((full.unwrap().1 =~= (proj@.push(*map)) + resolve(
                        g.nodes@,
                        *target as int,
                        (nodes_len - k - 1) as nat,
                    ).unwrap().1));
                }
                proj.push(*map);
                cur = *target;
            },
        }
        k += 1;
    }
    // A chain that is still unfinished after as many steps as there are nodes
    // would contradict the invariant: zero fuel resolves at roots only, and a
    // root returns above.
    match &g.nodes[cur] {
        Node::Root { .. } => {
            proof {
                assert(full.unwrap().1 =~= proj@);
            }
            (cur, proj)
        },
        _ => {
            proof {
                assert(false);
            }
            (cur, proj)
        },
    }
}

/// Applies the tail of a mapping chain, from position `from` on, to a deep
/// value.
fn apply_proj_from(proj: &Vec<Mapping>, from: usize, v: Value) -> (r: Value)
    requires
        from <= proj@.len(),
    ensures
        r == apply_proj(proj@.subrange(from as int, proj@.len() as int), v),
{
    let mut t = proj.len();
    let mut acc = v;
    while t > from
        invariant
            from <= t <= proj@.len(),
            acc == apply_proj(proj@.subrange(t as int, proj@.len() as int), v),
        decreases t,
    {
        t = t - 1;
        let ghost before = proj@.subrange(t as int + 1, proj@.len() as int);
        acc = proj[t].from_value(acc);
        proof {
            let now = proj@.subrange(t as int, proj@.len() as int);
            assert(now[0] == proj@[t as int]);
            assert(now.subrange(1, now.len() as int) =~= before);
        }
    }
    acc
}

/// Writes a new local value up through a whole mapping chain onto the old
/// deep value.
fn apply_up_chain(proj: &Vec<Mapping>, deep_old: Value, local_new: Value) -> (r: Value)
    ensures
        r == apply_up(proj@, deep_old, local_new),
{
    let mut t: usize = 0;
    let mut acc = local_new;
    while t < proj.len()
        invariant
            t <= proj@.len(),
            acc == apply_up(
                proj@.subrange(0, t as int),
                apply_proj(proj@.subrange(t as int, proj@.len() as int), deep_old),
                local_new,
            ),
        decreases proj@.len() - t,
    {
        let target_old = apply_proj_from(proj, t + 1, deep_old);
        acc = proj[t].to_value(target_old, acc);
        proof {
            let upper = proj@.subrange(0, t as int + 1);
            assert(upper.last() == proj@[t as int]);
            assert(upper.drop_last() =~= proj@.subrange(0, t as int));
            let deeper = proj@.subrange(t as int, proj@.len() as int);
            assert(deeper[0] == proj@[t as int]);
            assert(deeper.subrange(1, deeper.len() as int) =~= proj@.subrange(
                t as int + 1,
                proj@.len() as int,
            ));
        }
        t += 1;
    }
    proof {
        assert(proj@.subrange(0, proj@.len() as int) =~= proj@);
        assert(proj@.subrange(proj@.len() as int, proj@.len() as int) =~= Seq::<Mapping>::empty());
    }
    acc
}

/// The value the root of `i` stores after the cell at `i` is written with
/// `v`: the write is mapped up the chain and repaired by the root's
/// validator.
pub open spec fn stored_value(nodes: Seq<Node>, i: int, v: Value) -> Value {
    let r = root_of(nodes, i);
    node_validator(nodes[r]).spec_validate(
        apply_up(proj_of(nodes, i), node_value(nodes[r]), v),
    )
}

// The write transition, as specification functions the executable write path
// is proved against.

/// The command one observer contributes when notified of `stored`; a
/// propagating observer contributes none itself.
pub open spec fn notice_of(o: Observer, stored: Value) -> Seq<Command> {
    match o.kind {
        ObserverKind::Command(ck) => seq![ck.spec_command(apply_proj(o.proj@, stored))],
        ObserverKind::Forward { .. } => Seq::empty(),
    }
}

/// The commands a list of observers contributes when each is notified of
/// `stored`, in registration order.
pub open spec fn command_notices(obs: Seq<Observer>, stored: Value) -> Seq<Command>
    decreases obs.len(),
{
    if obs.len() == 0 {
        Seq::empty()
    } else {
        command_notices(obs.drop_last(), stored) + notice_of(obs.last(), stored)
    }
}

/// The propagated writes an observer list queues for a stored value: one per
/// propagating observer, in registration order, carrying the value as that
/// observer sees it.
pub open spec fn forward_notices(obs: Seq<Observer>, stored: Value) -> Seq<(usize, Value)>
    decreases obs.len(),
{
    if obs.len() == 0 {
        Seq::empty()
    } else {
        forward_notices(obs.drop_last(), stored) + (match obs.last().kind {
            ObserverKind::Forward { target, map } => seq![
                (target, fwd_value(map, apply_proj(obs.last().proj@, stored))),
            ],
            ObserverKind::Command(_) => Seq::empty(),
        })
    }
}

/// A queue of pending writes worked off first come, first served. Each write
/// is mapped up its target's chain, repaired by the root's validator and
/// stored; the command observers at that root then each contribute one
/// command, in registration order, and the propagating observers queue their
/// writes behind the rest — a propagated write is sequenced after the
/// notification pass that caused it, never nested inside it. `None` when the
/// queue does not settle within `fuel` writes; under acyclic propagation a
/// large enough fuel always exists.
pub open spec fn cascade(
    nodes: Seq<Node>,
    commands: Seq<Command>,
    queue: Seq<(usize, Value)>,
    fuel: nat,
) -> Option<(Seq<Node>, Seq<Command>)>
    decreases fuel,
{
    if queue.len() == 0 {
        Some((nodes, commands))
    } else if fuel == 0 {
        None
    } else {
        let t = queue[0].0;
        let v = queue[0].1;
        let r = root_of(nodes, t as int);
        let stored = stored_value(nodes, t as int, v);
        let nodes2 = store_at(nodes, r, stored);
        let obs = node_observers(nodes2[r]);
        cascade(
            nodes2,
            commands + command_notices(obs, stored),
            queue.subrange(1, queue.len() as int) + forward_notices(obs, stored),
            (fuel - 1) as nat,
        )
    }
}

/// Does a queue of writes settle? The commands accumulated so far steer
/// nothing, so the question is asked of the nodes and the queue alone. A
/// propagation cycle never settles — the cells of such a cycle would write
/// one another forever.
pub open spec fn settles(nodes: Seq<Node>, queue: Seq<(usize, Value)>) -> bool {
    exists|n: nat| cascade(nodes, Seq::empty(), queue, n) is Some
}

/// The queue one write through the cell at `i` starts with.
pub open spec fn write_queue(i: usize, v: Value) -> Seq<(usize, Value)> {
    seq![(i, v)]
}

/// The nodes of `structure` carrying the stored values of `values`: what a
/// state looked like before value-only steps ran over it.
pub open spec fn with_values_of(structure: Seq<Node>, values: Seq<Node>) -> Seq<Node> {
    Seq::new(structure.len(), |j: int| with_value(structure[j], node_value(values[j])))
}

/// Replacing a value twice keeps only the last replacement, and reading it
/// back gives it.
pub proof fn lemma_with_value(n: Node, a: Value, b: Value)
    ensures
        with_value(with_value(n, a), b) == with_value(n, b),
        node_is_root(n) ==> node_value(with_value(n, a)) == a,
        !node_is_root(n) ==> with_value(n, a) == n,
{
}

/// More fuel never changes a settled cascade.
pub proof fn lemma_cascade_fuel(
    nodes: Seq<Node>,
    commands: Seq<Command>,
    queue: Seq<(usize, Value)>,
    fuel: nat,
    more: nat,
)
    requires
        cascade(nodes, commands, queue, fuel) is Some,
        fuel <= more,
    ensures
        cascade(nodes, commands, queue, more) == cascade(nodes, commands, queue, fuel),
    decreases fuel,
{
    if queue.len() > 0 {
        let t = queue[0].0;
        let v = queue[0].1;
        let r = root_of(nodes, t as int);
        let stored = stored_value(nodes, t as int, v);
        let nodes2 = store_at(nodes, r, stored);
        let obs = node_observers(nodes2[r]);
        lemma_cascade_fuel(
            nodes2,
            commands + command_notices(obs, stored),
            queue.subrange(1, queue.len() as int) + forward_notices(obs, stored),
            (fuel - 1) as nat,
            (more - 1) as nat,
        );
    }
}

/// Whether and where a cascade settles does not depend on the commands it
/// starts from, and neither do the nodes it ends with.
pub proof fn lemma_cascade_commands(
    nodes: Seq<Node>,
    c1: Seq<Command>,
    c2: Seq<Command>,
    queue: Seq<(usize, Value)>,
    fuel: nat,
)
    ensures
        (cascade(nodes, c1, queue, fuel) is Some) == (cascade(nodes, c2, queue, fuel) is Some),
        cascade(nodes, c1, queue, fuel) is Some ==> cascade(
            nodes,
            c1,
            queue,
            fuel,
        ).unwrap().0 == cascade(nodes, c2, queue, fuel).unwrap().0,
    decreases fuel,
{
    if queue.len() > 0 && fuel > 0 {
        let t = queue[0].0;
        let v = queue[0].1;
        let r = root_of(nodes, t as int);
        let stored = stored_value(nodes, t as int, v);
        let nodes2 = store_at(nodes, r, stored);
        let obs = node_observers(nodes2[r]);
        lemma_cascade_commands(
            nodes2,
            c1 + command_notices(obs, stored),
            c2 + command_notices(obs, stored),
            queue.subrange(1, queue.len() as int) + forward_notices(obs, stored),
            (fuel - 1) as nat,
        );
    }
}

// Executable write path.

/// The stored value and validator of a root node.
fn root_state(g: &Graph, r: usize) -> (res: (Value, Validator))
    requires
        r < g.nodes@.len(),
        node_is_root(g.nodes@[r as int]),
    ensures
        res.0 == node_value(g.nodes@[r as int]),
        res.1 == node_validator(g.nodes@[r as int]),
{
    match &g.nodes[r] {
        Node::Root { value, validator, .. } => (*value, *validator),
        _ => {
            proof {
                assert(false);
            }
            (Value::U32(0), Validator::Accept)
        },
    }
}

/// How many observers are registered at a node.
fn observers_len(g: &Graph, r: usize) -> (n: usize)
    requires
        r < g.nodes@.len(),
    ensures
        n == node_observers(g.nodes@[r as int]).len(),
{
    match &g.nodes[r] {
        Node::Root { observers, .. } => observers.len(),
        _ => 0,
    }
}

/// The kind of the `k`-th observer at root `r`, and the value it sees when
/// the root stores `stored`.
fn read_observer(g: &Graph, r: usize, k: usize, stored: Value) -> (res: (ObserverKind, Value))
    requires
        r < g.nodes@.len(),
        k < node_observers(g.nodes@[r as int]).len(),
    ensures
        res.0 == node_observers(g.nodes@[r as int])[k as int].kind,
        res.1 == apply_proj(node_observers(g.nodes@[r as int])[k as int].proj@, stored),
{
    match &g.nodes[r] {
        Node::Root { observers, .. } => {
            let o = &observers[k];
            proof {
                assert(o.proj@.subrange(0, o.proj@.len() as int) =~= o.proj@);
            }
            let local = apply_proj_from(&o.proj, 0, stored);
            (o.kind, local)
        },
        _ => {
            proof {
                assert(false);
            }
            (ObserverKind::Command(CommandKind::Tint), stored)
        },
    }
}

/// The value a propagating observer hands on.
fn apply_fwd(map: FwdMap, v: Value) -> (r: Value)
    ensures
        r == fwd_value(map, v),
{
    match map {
        FwdMap::Same => v,
        FwdMap::Mapped(m) => m.from_value(v),
    }
}

/// Stores `v` written at cell `i` into its root, mapped up the chain and
/// validated; notifies nobody. Returns the root and the stored value.
fn store_through(g: &mut Graph, i: usize, v: Value) -> (res: (usize, Value))
    requires
        old(g).wf(),
        i < old(g).nodes@.len(),
    ensures
        res.0 as int == root_of(old(g).nodes@, i as int),
        res.1 == stored_value(old(g).nodes@, i as int, v),
        final(g).nodes@ == store_at(old(g).nodes@, res.0 as int, res.1),
        final(g).commands@ == old(g).commands@,
        final(g).wf(),
{
    let (r, proj) = resolve_chain(g, i);
    let (root_old, vd) = root_state(g, r);
    let raw = apply_up_chain(&proj, root_old, v);
    let stored = vd.validate(raw);
    match &mut g.nodes[r] {
        Node::Root { value, .. } => {
            *value = stored;
        },
        _ => {
            proof {
                assert(false);
            }
        },
    }
    proof {
        assert(g.nodes@ =~= store_at(old(g).nodes@, r as int, stored));
        lemma_store_preserves_wf(old(g).nodes@, r as int, stored);
    }
    (r, stored)
}

/// Appends the commands the observers at `r` contribute for `stored`; used
/// for propagated writes, which notify command observers only.
fn push_command_notices(g: &mut Graph, r: usize, stored: Value)
    requires
        r < old(g).nodes@.len(),
    ensures
        final(g).nodes@ == old(g).nodes@,
        final(g).commands@ == old(g).commands@ + command_notices(
            node_observers(old(g).nodes@[r as int]),
            stored,
        ),
{
    let ghost obs = node_observers(g.nodes@[r as int]);
    let obs_len = observers_len(g, r);
    let mut k: usize = 0;
    while k < obs_len
        invariant
            k <= obs_len,
            obs_len == obs.len(),
            r < g.nodes@.len(),
            g.nodes@ == old(g).nodes@,
            obs == node_observers(g.nodes@[r as int]),
            g.commands@ == old(g).commands@ + command_notices(obs.take(k as int), stored),
        decreases obs_len - k,
    {
        let (kind, local) = read_observer(g, r, k, stored);
        match kind {
            ObserverKind::Command(ck) => {
                let c = ck.command(local);
                g.commands.push(c);
            },
            ObserverKind::Forward { .. } => {},
        }
        proof {
            assert(obs.take(k as int + 1).drop_last() =~= obs.take(k as int));
            assert(obs.take(k as int + 1).last() == obs[k as int]);
            assert(g.commands@ =~= old(g).commands@ + command_notices(
                obs.take(k as int + 1),
                stored,
            ));
        }
        k += 1;
    }
    proof {
        assert(obs.take(obs.len() as int) =~= obs);
    }
}

/// The propagated writes the observers at `r` queue for `stored`.
fn collect_forwards(g: &Graph, r: usize, stored: Value) -> (fw: Vec<(usize, Value)>)
    requires
        g.wf(),
        r < g.nodes@.len(),
    ensures
        fw@ == forward_notices(node_observers(g.nodes@[r as int]), stored),
        forall|j: int| 0 <= j < fw@.len() ==> (#[trigger] fw@[j]).0 < g.nodes@.len(),
{
    let ghost obs = node_observers(g.nodes@[r as int]);
    let obs_len = observers_len(g, r);
    let mut fw: Vec<(usize, Value)> = Vec::new();
    let mut k: usize = 0;
    while k < obs_len
        invariant
            k <= obs_len,
            obs_len == obs.len(),
            g.wf(),
            r < g.nodes@.len(),
            obs == node_observers(g.nodes@[r as int]),
            fw@ == forward_notices(obs.take(k as int), stored),
            forall|j: int| 0 <= j < fw@.len() ==> (#[trigger] fw@[j]).0 < g.nodes@.len(),
        decreases obs_len - k,
    {
        let (kind, local) = read_observer(g, r, k, stored);
        match kind {
            ObserverKind::Command(_) => {},
            ObserverKind::Forward { target, map } => {
                proof {
                    assert(observer_ok(g.nodes@, obs[k as int]));
                }
                let v2 = apply_fwd(map, local);
                fw.push((target, v2));
            },
        }
        proof {
            assert(obs.take(k as int + 1).drop_last() =~= obs.take(k as int));
            assert(obs.take(k as int + 1).last() == obs[k as int]);
            assert(fw@ =~= forward_notices(obs.take(k as int + 1), stored));
        }
        k += 1;
    }
    proof {
        assert(obs.take(obs.len() as int) =~= obs);
    }
    fw
}

/// Works off a queue of pending writes, first come, first served, as the
/// `cascade` specification lays down.
fn run_cascade(g: &mut Graph, queue: Vec<(usize, Value)>)
    requires
        old(g).wf(),
        forall|j: int| 0 <= j < queue@.len() ==> (#[trigger] queue@[j]).0 < old(g).nodes@.len(),
        settles(old(g).nodes@, queue@),
    ensures
        exists|n: nat|
            cascade(old(g).nodes@, old(g).commands@, queue@, n) == Some(
                (final(g).nodes@, final(g).commands@),
            ),
        final(g).wf(),
        final(g).nodes@.len() == old(g).nodes@.len(),
        forall|j: int|
            0 <= j < old(g).nodes@.len() ==> node_observers(#[trigger] final(g).nodes@[j])
                == node_observers(old(g).nodes@[j]),
        forall|j: int|
            0 <= j < old(g).nodes@.len() ==> node_validator(#[trigger] final(g).nodes@[j])
                == node_validator(old(g).nodes@[j]),
        forall|j: int|
            0 <= j < old(g).nodes@.len() ==> #[trigger] final(g).nodes@[j] == with_value(
                old(g).nodes@[j],
                node_value(final(g).nodes@[j]),
            ),
{
    let ghost nodes0 = old(g).nodes@;
    let ghost cmds0 = old(g).commands@;
    let ghost q0 = queue@;
    let ghost n0: nat = choose|n: nat| cascade(nodes0, Seq::empty(), q0, n) is Some;
    proof {
        lemma_cascade_commands(nodes0, Seq::empty(), cmds0, q0, n0);
        assert(cascade(nodes0, cmds0, q0, n0) is Some);
    }
    let mut queue = queue;
    let ghost mut k: nat = 0;
    while queue.len() > 0
        invariant
            k <= n0,
            g.wf(),
            g.nodes@.len() == nodes0.len(),
            forall|j: int| 0 <= j < queue@.len() ==> (#[trigger] queue@[j]).0 < g.nodes@.len(),
            cascade(g.nodes@, g.commands@, queue@, (n0 - k) as nat) == cascade(
                nodes0,
                cmds0,
                q0,
                n0,
            ),
            cascade(nodes0, cmds0, q0, n0) is Some,
            forall|j: int|
                0 <= j < nodes0.len() ==> node_observers(#[trigger] g.nodes@[j])
                    == node_observers(nodes0[j]),
            forall|j: int|
                0 <= j < nodes0.len() ==> node_validator(#[trigger] g.nodes@[j])
                    == node_validator(nodes0[j]),
            forall|j: int|
                0 <= j < nodes0.len() ==> #[trigger] g.nodes@[j] == with_value(
                    nodes0[j],
                    node_value(g.nodes@[j]),
                ),
        decreases n0 - k,
    {
        proof {
            // The queue is not empty, so a settled cascade has fuel left.
            if n0 - k == 0 {
                assert(cascade(g.nodes@, g.commands@, queue@, 0nat) is None);
                assert(false);
            }
            assert(k < n0);
        }
        let ghost pre_nodes = g.nodes@;
        let ghost pre_cmds = g.commands@;
        let ghost pre_q = queue@;
        let entry = queue.remove(0);
        proof {
            assert(rooted(g.nodes@, entry.0 as int));
            lemma_resolve_ends_at_root(g.nodes@, entry.0 as int, g.nodes@.len() as nat);
        }
        let (r, stored) = store_through(g, entry.0, entry.1);
        proof {
            lemma_store_preserves_wf(pre_nodes, r as int, stored);
        }
        push_command_notices(g, r, stored);
        let mut fw = collect_forwards(g, r, stored);
        proof {
            assert(forall|j: int|
                0 <= j < fw@.len() ==> (#[trigger] fw@[j]).0 < g.nodes@.len());
        }
        queue.append(&mut fw);
        proof {
            let fuel = (n0 - k) as nat;
            assert(pre_q[0] == entry);
            assert(queue@ =~= pre_q.subrange(1, pre_q.len() as int) + forward_notices(
                node_observers(g.nodes@[r as int]),
                stored,
            ));
            assert(cascade(pre_nodes, pre_cmds, pre_q, fuel) == cascade(
                g.nodes@,
                g.commands@,
                queue@,
                (fuel - 1) as nat,
            ));
            assert forall|j: int| 0 <= j < nodes0.len() implies #[trigger] g.nodes@[j]
                == with_value(nodes0[j], node_value(g.nodes@[j])) by {
                lemma_with_value(nodes0[j], node_value(pre_nodes[j]), node_value(g.nodes@[j]));
                assert(pre_nodes[j] == with_value(nodes0[j], node_value(pre_nodes[j])));
            }
            k = (k + 1) as nat;
        }
    }
    proof {
        assert(cascade(g.nodes@, g.commands@, queue@, (n0 - k) as nat) == Some(
            (g.nodes@, g.commands@),
        ));
    }
}

impl Property {
    /// A fresh root cell storing `initial`, with no repair and no observers.
    pub fn new(g: &mut Graph, initial: Value) -> (r: Property)
        requires
            old(g).wf(),
        ensures
            final(g).wf(),
            r.index == old(g).nodes@.len(),
            final(g).nodes@.len() == old(g).nodes@.len() + 1,
            forall|j: int| 0 <= j < old(g).nodes@.len() ==> final(g).nodes@[j] == old(g).nodes@[j],
            node_is_root(final(g).nodes@[r.index as int]),
            node_value(final(g).nodes@[r.index as int]) == initial,
            node_validator(final(g).nodes@[r.index as int]) == Validator::Accept,
            node_observers(final(g).nodes@[r.index as int]) == Seq::<Observer>::empty(),
            final(g).commands@ == old(g).commands@,
    {
        Property::with_validator(g, initial, Validator::Accept)
    }

    /// A fresh root cell with a validator; the initial value is repaired by
    /// the validator before it is stored.
    pub fn with_validator(g: &mut Graph, initial: Value, validator: Validator) -> (r: Property)
        requires
            old(g).wf(),
        ensures
            final(g).wf(),
            r.index == old(g).nodes@.len(),
            final(g).nodes@.len() == old(g).nodes@.len() + 1,
            forall|j: int| 0 <= j < old(g).nodes@.len() ==> final(g).nodes@[j] == old(g).nodes@[j],
            node_is_root(final(g).nodes@[r.index as int]),
            node_value(final(g).nodes@[r.index as int]) == validator.spec_validate(initial),
            node_validator(final(g).nodes@[r.index as int]) == validator,
            node_observers(final(g).nodes@[r.index as int]) == Seq::<Observer>::empty(),
            final(g).commands@ == old(g).commands@,
    {
        let repaired = validator.validate(initial);
        let index = g.nodes.len();
        g.nodes.push(
            Node::Root { value: repaired, validator, observers: Vec::new() },
        );
        proof {
            lemma_append_preserves_wf(old(g).nodes@, g.nodes@);
        }
        Property { index }
    }

    /// A fresh alias cell: every read and write goes verbatim to `other`.
    pub fn linked(g: &mut Graph, other: Property) -> (r: Property)
        requires
            old(g).wf(),
            other.index < old(g).nodes@.len(),
        ensures
            final(g).wf(),
            r.index == old(g).nodes@.len(),
            final(g).nodes@.len() == old(g).nodes@.len() + 1,
            forall|j: int| 0 <= j < old(g).nodes@.len() ==> final(g).nodes@[j] == old(g).nodes@[j],
            final(g).nodes@[r.index as int] == (Node::Linked { target: other.index }),
            final(g).commands@ == old(g).commands@,
    {
        let index = g.nodes.len();
        g.nodes.push(Node::Linked { target: other.index });
        proof {
            lemma_append_preserves_wf(old(g).nodes@, g.nodes@);
        }
        Property { index }
    }

    /// A fresh transform cell: reads and writes are translated through `map`
    /// against `other`.
    pub fn derived(g: &mut Graph, other: Property, map: Mapping) -> (r: Property)
        requires
            old(g).wf(),
            other.index < old(g).nodes@.len(),
        ensures
            final(g).wf(),
            r.index == old(g).nodes@.len(),
            final(g).nodes@.len() == old(g).nodes@.len() + 1,
            forall|j: int| 0 <= j < old(g).nodes@.len() ==> final(g).nodes@[j] == old(g).nodes@[j],
            final(g).nodes@[r.index as int] == (Node::Derived { target: other.index, map }),
            final(g).commands@ == old(g).commands@,
    {
        let index = g.nodes.len();
        g.nodes.push(Node::Derived { target: other.index, map });
        proof {
            lemma_append_preserves_wf(old(g).nodes@, g.nodes@);
        }
        Property { index }
    }

    /// The value this cell presents: its root's value read down through the
    /// chain's mappings.
    pub fn get(self, g: &Graph) -> (r: Value)
        requires
            g.wf(),
            self.index < g.nodes@.len(),
        ensures
            r == local_value(g.nodes@, self.index as int),
    {
        let (r, proj) = resolve_chain(g, self.index);
        let (root_old, _) = root_state(g, r);
        proof {
            assert(proj@.subrange(0, proj@.len() as int) =~= proj@);
        }
        apply_proj_from(&proj, 0, root_old)
    }

    /// Writes `new_value` through this cell: the value is mapped up the chain
    /// to the root, repaired by the root's validator and stored, then every
    /// observer registered at that root is notified once, in registration
    /// order — command observers queue their command, propagating observers
    /// queue a write into their target cell, delivered after this
    /// notification pass completes, never nested inside it. The write must
    /// settle: a cell caught in a propagation cycle would be written forever.
    pub fn set(self, g: &mut Graph, new_value: Value)
        requires
            old(g).wf(),
            self.index < old(g).nodes@.len(),
            settles(old(g).nodes@, write_queue(self.index, new_value)),
        ensures
            exists|n: nat|
                cascade(
                    old(g).nodes@,
                    old(g).commands@,
                    write_queue(self.index, new_value),
                    n,
                ) == Some((final(g).nodes@, final(g).commands@)),
            final(g).wf(),
            final(g).nodes@.len() == old(g).nodes@.len(),
            forall|j: int|
                0 <= j < old(g).nodes@.len() ==> node_observers(#[trigger] final(g).nodes@[j])
                    == node_observers(old(g).nodes@[j]),
            forall|j: int|
                0 <= j < old(g).nodes@.len() ==> node_validator(#[trigger] final(g).nodes@[j])
                    == node_validator(old(g).nodes@[j]),
            forall|j: int|
                0 <= j < old(g).nodes@.len() ==> #[trigger] final(g).nodes@[j] == with_value(
                    old(g).nodes@[j],
                    node_value(final(g).nodes@[j]),
                ),
    {
        let mut queue: Vec<(usize, Value)> = Vec::new();
        queue.push((self.index, new_value));
        proof {
            assert(queue@ =~= write_queue(self.index, new_value));
        }
        run_cascade(g, queue);
    }
}

// Observer registration.

/// Resolution sees node variants and targets only, so it is blind to stored
/// values and observer lists.
pub open spec fn structure_eq(m: Node, n: Node) -> bool {
    match (m, n) {
        (Node::Root { .. }, Node::Root { .. }) => true,
        (Node::Linked { target: t1 }, Node::Linked { target: t2 }) => t1 == t2,
        (
            Node::Derived { target: t1, map: m1 },
            Node::Derived { target: t2, map: m2 },
        ) => t1 == t2 && m1 == m2,
        _ => false,
    }
}

pub open spec fn same_structure(a: Seq<Node>, b: Seq<Node>) -> bool {
    &&& a.len() == b.len()
    &&& forall|j: int| 0 <= j < a.len() ==> structure_eq(a[j], #[trigger] b[j])
}

pub proof fn lemma_resolve_same_structure(a: Seq<Node>, b: Seq<Node>, i: int, fuel: nat)
    requires
        same_structure(a, b),
    ensures
        resolve(b, i, fuel) is Some <==> resolve(a, i, fuel) is Some,
        resolve(a, i, fuel) is Some ==> resolve(b, i, fuel) == resolve(a, i, fuel),
    decreases fuel,
{
    if 0 <= i < a.len() {
        assert(structure_eq(a[i], b[i]));
        match a[i] {
            Node::Root { .. } => {},
            Node::Linked { target } => {
                if fuel > 0 {
                    lemma_resolve_same_structure(a, b, target as int, (fuel - 1) as nat);
                }
            },
            Node::Derived { target, map } => {
                if fuel > 0 {
                    lemma_resolve_same_structure(a, b, target as int, (fuel - 1) as nat);
                }
            },
        }
    }
}

/// Appends `o` to the observer list of the root `r`.
fn register_observer(g: &mut Graph, r: usize, o: Observer)
    requires
        old(g).wf(),
        r < old(g).nodes@.len(),
        node_is_root(old(g).nodes@[r as int]),
        kind_ok(old(g).nodes@, o.kind),
    ensures
        final(g).nodes@.len() == old(g).nodes@.len(),
        forall|j: int|
            0 <= j < old(g).nodes@.len() && j != r ==> final(g).nodes@[j] == old(g).nodes@[j],
        node_is_root(final(g).nodes@[r as int]),
        node_value(final(g).nodes@[r as int]) == node_value(old(g).nodes@[r as int]),
        node_validator(final(g).nodes@[r as int]) == node_validator(old(g).nodes@[r as int]),
        node_observers(final(g).nodes@[r as int]) == node_observers(
            old(g).nodes@[r as int],
        ).push(o),
        final(g).commands@ == old(g).commands@,
        same_structure(old(g).nodes@, final(g).nodes@),
        final(g).wf(),
{
    match &mut g.nodes[r] {
        Node::Root { observers, .. } => {
            observers.push(o);
        },
        _ => {
            proof {
                assert(false);
            }
        },
    }
    proof {
        let pre = old(g).nodes@;
        let post = g.nodes@;
        assert(same_structure(pre, post));
        assert forall|i: int, fuel: nat| true implies #[trigger] resolve(post, i, fuel) == resolve(
            pre,
            i,
            fuel,
        ) by {
            lemma_resolve_same_structure(pre, post, i, fuel);
            if !(resolve(pre, i, fuel) is Some) {
                assert(resolve(post, i, fuel) is None);
            }
        }
        assert forall|i: int| 0 <= i < post.len() implies rooted(post, i) by {
            assert(rooted(pre, i));
        }
        assert(node_observers(post[r as int]) =~= node_observers(pre[r as int]).push(o));
        assert forall|i: int, k: int|
            0 <= i < post.len() && 0 <= k < node_observers(post[i]).len() implies observer_ok(
            post,
            #[trigger] node_observers(post[i])[k],
        ) by {
            let oo = node_observers(post[i])[k];
            if i == r && k == node_observers(pre[i]).len() {
                assert(oo == o);
            } else {
                assert(oo == node_observers(pre[i])[k]);
                assert(observer_ok(pre, oo));
            }
        }
    }
}

impl Property {
    /// Registers an observer on this cell: the observer is handed the current
    /// value once immediately, then appended to the observer list of the root
    /// the cell delegates to, so every subsequent write through that root
    /// reaches it. The immediate delivery of a propagating observer writes
    /// its target, so that delivery must settle.
    pub fn observe(self, g: &mut Graph, kind: ObserverKind)
        requires
            old(g).wf(),
            self.index < old(g).nodes@.len(),
            kind_ok(old(g).nodes@, kind),
            match kind {
                ObserverKind::Command(_) => true,
                ObserverKind::Forward { target, map } => settles(
                    old(g).nodes@,
                    seq![(target, fwd_value(map, local_value(old(g).nodes@, self.index as int)))],
                ),
            },
        ensures
            ({
                let r = root_of(old(g).nodes@, self.index as int);
                let local = local_value(old(g).nodes@, self.index as int);
                &&& final(g).nodes@.len() == old(g).nodes@.len()
                &&& node_observers(final(g).nodes@[r]) == node_observers(final(g).nodes@[r]).drop_last().push(
                    node_observers(final(g).nodes@[r]).last(),
                )
                &&& node_observers(final(g).nodes@[r]).last().kind == kind
                &&& node_observers(final(g).nodes@[r]).last().proj@ == proj_of(
                    old(g).nodes@,
                    self.index as int,
                )
                &&& node_observers(final(g).nodes@[r]).last().site == self.index
                &&& node_observers(final(g).nodes@[r]).len() == node_observers(
                    old(g).nodes@[r],
                ).len() + 1
                &&& forall|j: int|
                    0 <= j < old(g).nodes@.len() && j != r ==> node_observers(
                        #[trigger] final(g).nodes@[j],
                    ) == node_observers(old(g).nodes@[j])
                &&& node_observers(final(g).nodes@[r]).drop_last() == node_observers(
                    old(g).nodes@[r],
                )
                &&& forall|j: int|
                    0 <= j < old(g).nodes@.len() ==> node_validator(
                        #[trigger] final(g).nodes@[j],
                    ) == node_validator(old(g).nodes@[j])
                &&& match kind {
                    ObserverKind::Command(ck) => {
                        &&& final(g).commands@ == old(g).commands@.push(ck.spec_command(local))
                        &&& forall|j: int|
                            0 <= j < old(g).nodes@.len() ==> node_value(
                                #[trigger] final(g).nodes@[j],
                            ) == node_value(old(g).nodes@[j])
                        &&& forall|j: int|
                            0 <= j < old(g).nodes@.len() && j != r ==> (#[trigger] final(g).nodes@[j])
                                == old(g).nodes@[j]
                    },
                    ObserverKind::Forward { target, map } => exists|n: nat|
                        cascade(
                            old(g).nodes@,
                            old(g).commands@,
                            seq![(target, fwd_value(map, local))],
                            n,
                        ) == Some(
                            (
                                with_values_of(old(g).nodes@, final(g).nodes@),
                                final(g).commands@,
                            ),
                        ),
                }
                &&& final(g).wf()
            }),
    {
        proof {
            assert(rooted(old(g).nodes@, self.index as int));
            lemma_resolve_ends_at_root(
                old(g).nodes@,
                self.index as int,
                old(g).nodes@.len() as nat,
            );
        }
        let (r, proj) = resolve_chain(g, self.index);
        let (rv, _) = root_state(g, r);
        proof {
            assert(proj@.subrange(0, proj@.len() as int) =~= proj@);
        }
        let local = apply_proj_from(&proj, 0, rv);
        match kind {
            ObserverKind::Command(ck) => {
                let c = ck.command(local);
                g.commands.push(c);
            },
            ObserverKind::Forward { target, map } => {
                let v2 = apply_fwd(map, local);
                let mut queue: Vec<(usize, Value)> = Vec::new();
                queue.push((target, v2));
                proof {
                    assert(queue@ =~= seq![
                        (
                            target,
                            fwd_value(
                                map,
                                local_value(old(g).nodes@, self.index as int),
                            ),
                        ),
                    ]);
                }
                run_cascade(g, queue);
            },
        }
        let ghost mid_nodes = g.nodes@;
        proof {
            assert(node_is_root(g.nodes@[r as int]));
        }
        register_observer(g, r, Observer { proj, kind, site: self.index });
        proof {
            assert(node_observers(g.nodes@[r as int]).drop_last() =~= node_observers(
                mid_nodes[r as int],
            ));
            match kind {
                ObserverKind::Command(ck) => {},
                ObserverKind::Forward { target, map } => {
                    assert forall|j: int| 0 <= j < old(g).nodes@.len() implies with_values_of(
                        old(g).nodes@,
                        g.nodes@,
                    )[j] == mid_nodes[j] by {
                        assert(mid_nodes[j] == with_value(
                            old(g).nodes@[j],
                            node_value(mid_nodes[j]),
                        ));
                        assert(node_value(g.nodes@[j]) == node_value(mid_nodes[j]));
                    }
                    assert(with_values_of(old(g).nodes@, g.nodes@) =~= mid_nodes);
                },
            }
        }
    }

    /// Installs an observer that turns every value this cell stores into the
    /// given parameter command on the graph's outgoing queue. The observer is
    /// handed the current value once immediately.
    pub fn notify(self, g: &mut Graph, kind: CommandKind)
        requires
            old(g).wf(),
            self.index < old(g).nodes@.len(),
        ensures
            ({
                let r = root_of(old(g).nodes@, self.index as int);
                let local = local_value(old(g).nodes@, self.index as int);
                &&& final(g).commands@ == old(g).commands@.push(kind.spec_command(local))
                &&& final(g).nodes@.len() == old(g).nodes@.len()
                &&& forall|j: int|
                    0 <= j < old(g).nodes@.len() && j != r ==> final(g).nodes@[j] == old(
                        g,
                    ).nodes@[j]
                &&& node_value(final(g).nodes@[r]) == node_value(old(g).nodes@[r])
                &&& node_validator(final(g).nodes@[r]) == node_validator(old(g).nodes@[r])
                &&& node_observers(final(g).nodes@[r]) == node_observers(old(g).nodes@[r]).push(
                    node_observers(final(g).nodes@[r]).last(),
                )
                &&& node_observers(final(g).nodes@[r]).last().kind == ObserverKind::Command(kind)
                &&& node_observers(final(g).nodes@[r]).last().proj@ == proj_of(
                    old(g).nodes@,
                    self.index as int,
                )
                &&& node_observers(final(g).nodes@[r]).last().site == self.index
                &&& final(g).wf()
            }),
    {
        self.observe(g, ObserverKind::Command(kind));
        proof {
            assert(rooted(old(g).nodes@, self.index as int));
            lemma_resolve_ends_at_root(
                old(g).nodes@,
                self.index as int,
                old(g).nodes@.len() as nat,
            );
            let r = root_of(old(g).nodes@, self.index as int);
            assert(node_observers(g.nodes@[r]) =~= node_observers(old(g).nodes@[r]).push(
                node_observers(g.nodes@[r]).last(),
            ));
        }
    }

    /// Installs an observer that writes every value this cell stores, read
    /// through `map`, into `other`. The observer is handed the current value
    /// once immediately, so `other` is brought in line at installation; that
    /// first delivery must settle, as a propagation cycle would write itself
    /// forever.
    pub fn propagate(self, g: &mut Graph, other: Property, map: FwdMap)
        requires
            old(g).wf(),
            self.index < old(g).nodes@.len(),
            other.index < old(g).nodes@.len(),
            settles(
                old(g).nodes@,
                seq![
                    (
                        other.index,
                        fwd_value(map, local_value(old(g).nodes@, self.index as int)),
                    ),
                ],
            ),
        ensures
            ({
                let r = root_of(old(g).nodes@, self.index as int);
                let local = local_value(old(g).nodes@, self.index as int);
                &&& final(g).nodes@.len() == old(g).nodes@.len()
                &&& node_observers(final(g).nodes@[r]).last().kind == (ObserverKind::Forward {
                    target: other.index,
                    map,
                })
                &&& node_observers(final(g).nodes@[r]).last().proj@ == proj_of(
                    old(g).nodes@,
                    self.index as int,
                )
                &&& node_observers(final(g).nodes@[r]).last().site == self.index
                &&& node_observers(final(g).nodes@[r]).drop_last() == node_observers(
                    old(g).nodes@[r],
                )
                &&& forall|j: int|
                    0 <= j < old(g).nodes@.len() && j != r ==> node_observers(
                        #[trigger] final(g).nodes@[j],
                    ) == node_observers(old(g).nodes@[j])
                &&& exists|n: nat|
                    cascade(
                        old(g).nodes@,
                        old(g).commands@,
                        seq![(other.index, fwd_value(map, local))],
                        n,
                    ) == Some(
                        (
                            with_values_of(old(g).nodes@, final(g).nodes@),
                            final(g).commands@,
                        ),
                    )
                &&& final(g).wf()
            }),
    {
        self.observe(g, ObserverKind::Forward { target: other.index, map })
    }

    /// Invokes `reader` on the value this cell presents and returns its
    /// result; the graph is not mutated.
    pub fn read<F: Fn(Value) -> R, R>(self, g: &Graph, reader: F) -> (r: R)
        requires
            g.wf(),
            self.index < g.nodes@.len(),
            call_requires(reader, (local_value(g.nodes@, self.index as int),)),
        ensures
            call_ensures(reader, (local_value(g.nodes@, self.index as int),), r),
    {
        reader(self.get(g))
    }

    /// Replaces the value this cell presents with `writer` applied to it, and
    /// writes the result through the cell as `set` does. Returns the value
    /// `writer` produced, before validation at the root.
    pub fn write<F: Fn(Value) -> Value>(self, g: &mut Graph, writer: F) -> (r: Value)
        requires
            old(g).wf(),
            self.index < old(g).nodes@.len(),
            call_requires(writer, (local_value(old(g).nodes@, self.index as int),)),
            forall|v: Value|
                call_ensures(writer, (local_value(old(g).nodes@, self.index as int),), v)
                    ==> settles(old(g).nodes@, write_queue(self.index, v)),
        ensures
            call_ensures(writer, (local_value(old(g).nodes@, self.index as int),), r),
            exists|n: nat|
                cascade(old(g).nodes@, old(g).commands@, write_queue(self.index, r), n) == Some(
                    (final(g).nodes@, final(g).commands@),
                ),
            final(g).wf(),
    {
        let v = writer(self.get(g));
        self.set(g, v);
        v
    }
}

// Re-pointing a cell: link and derive.

/// The observers of a list that stay behind when the cell `a` is re-pointed:
/// those registered on other cells.
pub open spec fn staying(obs: Seq<Observer>, a: usize) -> Seq<Observer>
    decreases obs.len(),
{
    if obs.len() == 0 {
        Seq::empty()
    } else {
        staying(obs.drop_last(), a) + (if obs.last().site != a {
            seq![obs.last()]
        } else {
            Seq::empty()
        })
    }
}

/// The observers of a list that move when the cell `a` is re-pointed: those
/// registered on `a` itself, in registration order.
pub open spec fn moving(obs: Seq<Observer>, a: usize) -> Seq<Observer>
    decreases obs.len(),
{
    if obs.len() == 0 {
        Seq::empty()
    } else {
        moving(obs.drop_last(), a) + (if obs.last().site == a {
            seq![obs.last()]
        } else {
            Seq::empty()
        })
    }
}

/// Are `newobs` exactly `oldobs` carried over to a new root, each keeping its
/// kind and registration site, with the new chain appended to its view?
pub open spec fn migrated_append(
    newobs: Seq<Observer>,
    oldobs: Seq<Observer>,
    chain: Seq<Mapping>,
) -> bool {
    &&& newobs.len() == oldobs.len()
    &&& forall|j: int|
        0 <= j < newobs.len() ==> (#[trigger] newobs[j]).kind == oldobs[j].kind && newobs[j].site
            == oldobs[j].site && newobs[j].proj@ == oldobs[j].proj@ + chain
}

/// Are `newobs` exactly `oldobs` carried over to a new root, each keeping its
/// kind and registration site, now viewing through the new chain alone?
pub open spec fn migrated_rechained(
    newobs: Seq<Observer>,
    oldobs: Seq<Observer>,
    chain: Seq<Mapping>,
) -> bool {
    &&& newobs.len() == oldobs.len()
    &&& forall|j: int|
        0 <= j < newobs.len() ==> (#[trigger] newobs[j]).kind == oldobs[j].kind && newobs[j].site
            == oldobs[j].site && newobs[j].proj@ == chain
}

/// How re-pointing the cell at `a` to the node `replacement` reshapes the
/// graph: the node is swapped, and the observers registered on the cell —
/// those its old root node owned, or, when it delegated its storage, those
/// sitting at its old root under its name — are transplanted, in order, onto
/// the root the new chain reaches, so existing subscriptions survive the
/// rebind. Values, validators and the command queue are untouched.
pub open spec fn relink_shape(
    pre_nodes: Seq<Node>,
    a: usize,
    replacement: Node,
    post_nodes: Seq<Node>,
) -> bool {
    let un = pre_nodes.update(a as int, replacement);
    let rb = root_of(un, a as int);
    let chain = proj_of(un, a as int);
    &&& post_nodes.len() == un.len()
    &&& forall|j: int|
        0 <= j < un.len() ==> structure_eq(un[j], #[trigger] post_nodes[j]) && node_validator(
            post_nodes[j],
        ) == node_validator(un[j]) && node_value(post_nodes[j]) == node_value(un[j])
    &&& if node_is_root(pre_nodes[a as int]) {
        // The old node owned its observers: all of them move, their views
        // extended down the new chain.
        let moved = node_observers(pre_nodes[a as int]);
        let base = node_observers(un[rb]);
        &&& forall|j: int|
            0 <= j < un.len() && j != rb ==> node_observers(#[trigger] post_nodes[j])
                == node_observers(un[j])
        &&& node_observers(post_nodes[rb]).len() == base.len() + moved.len()
        &&& node_observers(post_nodes[rb]).take(base.len() as int) == base
        &&& migrated_append(node_observers(post_nodes[rb]).skip(base.len() as int), moved, chain)
    } else {
        // The cell delegated its storage: the observers registered on the
        // cell itself sit at its old root and move from there; their view is
        // the new chain.
        let r_old = root_of(pre_nodes, a as int);
        let moved = moving(node_observers(pre_nodes[r_old]), a);
        let kept = staying(node_observers(pre_nodes[r_old]), a);
        let base = if r_old == rb {
            kept
        } else {
            node_observers(un[rb])
        };
        &&& forall|j: int|
            0 <= j < un.len() && j != rb && j != r_old ==> node_observers(#[trigger] post_nodes[j])
                == node_observers(un[j])
        &&& (r_old != rb ==> node_observers(post_nodes[r_old]) == kept)
        &&& node_observers(post_nodes[rb]).len() == base.len() + moved.len()
        &&& node_observers(post_nodes[rb]).take(base.len() as int) == base
        &&& migrated_rechained(node_observers(post_nodes[rb]).skip(base.len() as int), moved, chain)
    }
}

/// A copy of a mapping chain.
fn copy_mappings(src: &Vec<Mapping>) -> (r: Vec<Mapping>)
    ensures
        r@ == src@,
{
    let mut out: Vec<Mapping> = Vec::new();
    let mut k: usize = 0;
    while k < src.len()
        invariant
            k <= src@.len(),
            out@ == src@.take(k as int),
        decreases src@.len() - k,
    {
        out.push(src[k]);
        proof {
            assert(out@ =~= src@.take(k as int + 1));
        }
        k += 1;
    }
    proof {
        assert(src@.take(src@.len() as int) =~= src@);
    }
    out
}

/// Swaps the node at `a` for `replacement` and transplants the observers
/// registered on the cell onto the root the new chain reaches, in order. A
/// pure transplant: no observer is invoked, no value changes, no command is
/// queued — the carried subscriptions fire on the new root's subsequent
/// writes.
fn repoint(g: &mut Graph, a: usize, replacement: Node)
    requires
        a < old(g).nodes@.len(),
        old(g).wf(),
        match replacement {
            Node::Root { .. } => false,
            Node::Linked { target } => target < old(g).nodes@.len(),
            Node::Derived { target, map } => target < old(g).nodes@.len(),
        },
        nodes_wf(old(g).nodes@.update(a as int, replacement)),
    ensures
        relink_shape(old(g).nodes@, a, replacement, final(g).nodes@),
        final(g).commands@ == old(g).commands@,
        final(g).wf(),
{
    let ghost pre = old(g).nodes@;
    let ghost un = pre.update(a as int, replacement);
    proof {
        assert(rooted(pre, a as int));
        lemma_resolve_ends_at_root(pre, a as int, pre.len() as nat);
    }
    // The old root of the cell: the cell itself when it owned its observers.
    let (r_old, _) = resolve_chain(g, a);
    let a_is_root = match &g.nodes[a] {
        Node::Root { .. } => true,
        _ => false,
    };
    let mut taken: Node = replacement;
    core::mem::swap(&mut taken, &mut g.nodes[a]);
    proof {
        assert(g.nodes@ =~= un);
        assert(g.wf());
    }
    // Gather the observers that move, in registration order, with the node
    // they leave behind already trimmed.
    let mut moved: Vec<Observer> = Vec::new();
    if a_is_root {
        match taken {
            Node::Root { observers, .. } => {
                moved = observers;
            },
            _ => {
                proof {
                    assert(false);
                }
            },
        }
        proof {
            assert(moved@ =~= node_observers(pre[a as int]));
        }
    } else {
        let ghost orig = node_observers(pre[r_old as int]);
        let mut list: Vec<Observer> = Vec::new();
        match &mut g.nodes[r_old] {
            Node::Root { observers, .. } => {
                core::mem::swap(observers, &mut list);
            },
            _ => {
                proof {
                    assert(false);
                }
            },
        }
        proof {
            assert(list@ =~= orig);
        }
        let ghost total = list@;
        let mut kept: Vec<Observer> = Vec::new();
        let ghost mut done: int = 0;
        while list.len() > 0
            invariant
                0 <= done <= total.len(),
                list@ == total.skip(done),
                kept@ == staying(total.take(done), a),
                moved@ == moving(total.take(done), a),
            decreases list@.len(),
        {
            let o = list.remove(0);
            proof {
                assert(o == total[done]);
                assert(total.take(done + 1).drop_last() =~= total.take(done));
                assert(total.take(done + 1).last() == total[done]);
            }
            if o.site == a {
                moved.push(o);
                proof {
                    assert(moved@ =~= moving(total.take(done + 1), a));
                    assert(kept@ =~= staying(total.take(done + 1), a));
                }
            } else {
                kept.push(o);
                proof {
                    assert(kept@ =~= staying(total.take(done + 1), a));
                    assert(moved@ =~= moving(total.take(done + 1), a));
                }
            }
            proof {
                done = done + 1;
                assert(list@ =~= total.skip(done));
            }
        }
        proof {
            assert(total.take(total.len() as int) =~= total);
            assert(kept@ == staying(orig, a));
            assert(moved@ == moving(orig, a));
        }
        match &mut g.nodes[r_old] {
            Node::Root { observers, .. } => {
                core::mem::swap(observers, &mut kept);
            },
            _ => {
                proof {
                    assert(false);
                }
            },
        }
        proof {
            // Keeping a subset of a root's observers preserves
            // well-formedness.
            let now = g.nodes@;
            assert(same_structure(un, now));
            assert forall|i: int, fuel: nat| true implies #[trigger] resolve(now, i, fuel)
                == resolve(un, i, fuel) by {
                lemma_resolve_same_structure(un, now, i, fuel);
                if !(resolve(un, i, fuel) is Some) {
                    assert(resolve(now, i, fuel) is None);
                }
            }
            assert forall|i: int| 0 <= i < now.len() implies rooted(now, i) by {
                assert(rooted(un, i));
            }
            lemma_split_observers_ok(orig, a, un.len() as nat);
            assert forall|i: int, k: int|
                0 <= i < now.len() && 0 <= k < node_observers(now[i]).len() implies observer_ok(
                now,
                #[trigger] node_observers(now[i])[k],
            ) by {
                if i == r_old as int {
                    assert(kind_ok_len(staying(orig, a)[k].kind, now.len() as nat));
                } else {
                    assert(node_observers(now[i]) == node_observers(un[i]));
                    assert(observer_ok(un, node_observers(un[i])[k]));
                }
            }
        }
    }
    // Re-register the carried observers, in order, at the new chain's root.
    let (rb, chain) = resolve_chain(g, a);
    let ghost base = node_observers(g.nodes@[rb as int]);
    let ghost mid = g.nodes@;
    let ghost moved0 = moved@;
    proof {
        if !a_is_root {
            lemma_split_observers_ok(node_observers(pre[r_old as int]), a, un.len() as nat);
        }
    }
    let mut k: usize = 0;
    while k < moved.len()
        invariant
            k <= moved@.len(),
            moved@ == moved0,
            a < mid.len(),
            g.wf(),
            g.nodes@.len() == mid.len(),
            rb < mid.len(),
            rb as int == root_of(mid, a as int),
            chain@ == proj_of(mid, a as int),
            forall|j: int|
                0 <= j < mid.len() && j != rb ==> #[trigger] g.nodes@[j] == mid[j],
            node_is_root(g.nodes@[rb as int]),
            node_value(g.nodes@[rb as int]) == node_value(mid[rb as int]),
            node_validator(g.nodes@[rb as int]) == node_validator(mid[rb as int]),
            structure_eq(mid[rb as int], g.nodes@[rb as int]),
            node_observers(g.nodes@[rb as int]).len() == base.len() + k,
            node_observers(g.nodes@[rb as int]).take(base.len() as int) == base,
            a_is_root ==> migrated_append(
                node_observers(g.nodes@[rb as int]).skip(base.len() as int),
                moved0.take(k as int),
                chain@,
            ),
            !a_is_root ==> migrated_rechained(
                node_observers(g.nodes@[rb as int]).skip(base.len() as int),
                moved0.take(k as int),
                chain@,
            ),
            forall|j: int| 0 <= j < moved0.len() ==> kind_ok_len((#[trigger] moved0[j]).kind, mid.len() as nat),
            g.commands@ == old(g).commands@,
        decreases moved@.len() - k,
    {
        let ghost pre_obs = node_observers(g.nodes@[rb as int]);
        let o = &moved[k];
        let o_kind = o.kind;
        let o_site = o.site;
        let mut proj2 = if a_is_root {
            copy_mappings(&o.proj)
        } else {
            Vec::new()
        };
        let mut tail = copy_mappings(&chain);
        proj2.append(&mut tail);
        proof {
            assert(kind_ok_len(o_kind, mid.len() as nat));
            assert(kind_ok(g.nodes@, o_kind));
        }
        register_observer(g, rb, Observer { proj: proj2, kind: o_kind, site: o_site });
        proof {
            let now_obs = node_observers(g.nodes@[rb as int]);
            assert(now_obs == pre_obs.push(now_obs.last()));
            assert(now_obs.take(base.len() as int) =~= base);
            assert(now_obs.skip(base.len() as int) =~= pre_obs.skip(base.len() as int).push(
                now_obs.last(),
            ));
        }
        k += 1;
    }
    proof {
        assert(moved0.take(moved0.len() as int) =~= moved0);
    }
}

/// Does a kind fit a graph of `len` nodes?
pub open spec fn kind_ok_len(kind: ObserverKind, len: nat) -> bool {
    match kind {
        ObserverKind::Command(_) => true,
        ObserverKind::Forward { target, map } => target < len,
    }
}

/// Splitting a well-formed observer list leaves every part well-formed.
pub proof fn lemma_split_observers_ok(obs: Seq<Observer>, a: usize, len: nat)
    requires
        forall|k: int| 0 <= k < obs.len() ==> kind_ok_len((#[trigger] obs[k]).kind, len),
    ensures
        forall|k: int|
            0 <= k < staying(obs, a).len() ==> kind_ok_len(
                (#[trigger] staying(obs, a)[k]).kind,
                len,
            ),
        forall|k: int|
            0 <= k < moving(obs, a).len() ==> kind_ok_len(
                (#[trigger] moving(obs, a)[k]).kind,
                len,
            ),
        staying(obs, a).len() + moving(obs, a).len() == obs.len(),
    decreases obs.len(),
{
    if obs.len() > 0 {
        lemma_split_observers_ok(obs.drop_last(), a, len);
    }
}

impl Property {
    /// Re-points this cell to be a pure alias of `other`: the node is swapped
    /// for an alias node, and the observers registered on this cell are
    /// carried over to `other`'s root, so subscriptions set up before the
    /// link survive it and fire on `other`'s subsequent writes.
    pub fn link(self, g: &mut Graph, other: Property)
        requires
            old(g).wf(),
            self.index < old(g).nodes@.len(),
            other.index < old(g).nodes@.len(),
            nodes_wf(
                old(g).nodes@.update(
                    self.index as int,
                    Node::Linked { target: other.index },
                ),
            ),
        ensures
            relink_shape(
                old(g).nodes@,
                self.index,
                Node::Linked { target: other.index },
                final(g).nodes@,
            ),
            final(g).commands@ == old(g).commands@,
            final(g).wf(),
    {
        repoint(g, self.index, Node::Linked { target: other.index })
    }

    /// Re-points this cell to be a two-way transform over `other`: reads and
    /// writes translate through `map`, and the observers registered on this
    /// cell are carried over to `other`'s root with the transform in their
    /// view, so they keep seeing values of this cell's own type.
    pub fn derive(self, g: &mut Graph, other: Property, map: Mapping)
        requires
            old(g).wf(),
            self.index < old(g).nodes@.len(),
            other.index < old(g).nodes@.len(),
            nodes_wf(
                old(g).nodes@.update(
                    self.index as int,
                    Node::Derived { target: other.index, map },
                ),
            ),
        ensures
            relink_shape(
                old(g).nodes@,
                self.index,
                Node::Derived { target: other.index, map },
                final(g).nodes@,
            ),
            final(g).commands@ == old(g).commands@,
            final(g).wf(),
    {
        repoint(g, self.index, Node::Derived { target: other.index, map })
    }
}

/// Appending nodes to a graph changes no existing resolution.
pub proof fn lemma_resolve_append(pre: Seq<Node>, post: Seq<Node>, i: int, fuel: nat)
    requires
        pre.len() <= post.len(),
        forall|j: int| 0 <= j < pre.len() ==> post[j] == pre[j],
        resolve(pre, i, fuel) is Some,
    ensures
        resolve(post, i, fuel) == resolve(pre, i, fuel),
    decreases fuel,
{
    if 0 <= i < pre.len() {
        match pre[i] {
            Node::Root { .. } => {},
            Node::Linked { target } => {
                lemma_resolve_append(pre, post, target as int, (fuel - 1) as nat);
            },
            Node::Derived { target, map } => {
                lemma_resolve_append(pre, post, target as int, (fuel - 1) as nat);
            },
        }
    }
}

/// A well-formed graph stays well-formed when one node is appended, provided
/// the new node's chain reaches a root.
pub proof fn lemma_append_preserves_wf(pre: Seq<Node>, post: Seq<Node>)
    requires
        nodes_wf(pre),
        post.len() == pre.len() + 1,
        forall|j: int| 0 <= j < pre.len() ==> post[j] == pre[j],
        match post[pre.len() as int] {
            Node::Root { observers, .. } => observers@.len() == 0,
            Node::Linked { target } => target < pre.len(),
            Node::Derived { target, map } => target < pre.len(),
        },
    ensures
        nodes_wf(post),
        forall|i: int|
            0 <= i < pre.len() ==> #[trigger] root_of(post, i) == root_of(pre, i) && proj_of(
                post,
                i,
            ) == proj_of(pre, i),
{
    let n = pre.len() as int;
    assert forall|i: int| 0 <= i < pre.len() implies resolve(post, i, post.len() as nat) == resolve(
        pre,
        i,
        pre.len() as nat,
    ) by {
        assert(rooted(pre, i));
        lemma_resolve_append(pre, post, i, pre.len() as nat);
        lemma_resolve_fuel(post, i, pre.len() as nat, post.len() as nat);
    }
    assert forall|i: int| 0 <= i < post.len() implies rooted(post, i) by {
        if i < n {
            assert(rooted(pre, i));
        } else {
            match post[n] {
                Node::Root { .. } => {},
                Node::Linked { target } => {
                    assert(rooted(pre, target as int));
                    lemma_resolve_append(pre, post, target as int, pre.len() as nat);
                    lemma_resolve_fuel(post, target as int, pre.len() as nat, post.len() as nat);
                    assert(resolve(post, i, post.len() as nat) == resolve(
                        post,
                        target as int,
                        (post.len() - 1) as nat,
                    ));
                    lemma_resolve_fuel(post, target as int, pre.len() as nat, (post.len() - 1) as nat);
                },
                Node::Derived { target, map } => {
                    assert(rooted(pre, target as int));
                    lemma_resolve_append(pre, post, target as int, pre.len() as nat);
                    lemma_resolve_fuel(post, target as int, pre.len() as nat, (post.len() - 1) as nat);
                },
            }
        }
    }
    assert forall|i: int, k: int|
        0 <= i < post.len() && 0 <= k < node_observers(post[i]).len() implies observer_ok(
        post,
        #[trigger] node_observers(post[i])[k],
    ) by {
        if i < n {
            let o = node_observers(pre[i])[k];
            assert(observer_ok(pre, o));
            match o.kind {
                ObserverKind::Command(_) => {},
                ObserverKind::Forward { target, map } => {
                    assert(rooted(pre, target as int));
                    lemma_resolve_ends_at_root(pre, target as int, pre.len() as nat);
                    assert(root_of(post, target as int) == root_of(pre, target as int));
                },
            }
        }
    }
}


// Laws of the observable cell and the binding graph.

/// The notices of a command-observer list, characterized pointwise: one
/// command per observer, in registration order, each carrying the stored
/// value as that observer sees it.
pub open spec fn notices_pointwise(obs: Seq<Observer>, stored: Value) -> bool {
    &&& command_notices(obs, stored).len() == obs.len()
    &&& forall|k: int|
        0 <= k < obs.len() ==> match (#[trigger] obs[k]).kind {
            ObserverKind::Command(ck) => command_notices(obs, stored)[k] == ck.spec_command(
                apply_proj(obs[k].proj@, stored),
            ),
            ObserverKind::Forward { .. } => true,
        }
}

/// With only command observers, the notices are exactly one command per
/// observer, in registration order, each carrying the stored value as that
/// observer sees it.
pub proof fn lemma_command_notices_pointwise(obs: Seq<Observer>, stored: Value)
    requires
        forall|k: int| 0 <= k < obs.len() ==> !is_forward_kind((#[trigger] obs[k]).kind),
    ensures
        notices_pointwise(obs, stored),
    decreases obs.len(),
{
    if obs.len() > 0 {
        let pre = obs.drop_last();
        lemma_command_notices_pointwise(pre, stored);
        assert(!is_forward_kind(obs.last().kind));
        assert(notice_of(obs.last(), stored).len() == 1);
        assert forall|k: int| 0 <= k < obs.len() implies match (#[trigger] obs[k]).kind {
            ObserverKind::Command(ck) => command_notices(obs, stored)[k] == ck.spec_command(
                apply_proj(obs[k].proj@, stored),
            ),
            ObserverKind::Forward { .. } => true,
        } by {
            if k < obs.len() - 1 {
                assert(obs[k] == pre[k]);
                assert(command_notices(obs, stored)[k] == command_notices(pre, stored)[k]);
            } else {
                assert(obs[k] == obs.last());
                assert(command_notices(obs, stored)[k] == notice_of(obs.last(), stored)[0]);
            }
        }
    }
}

/// With only command observers, an observer list queues no propagated
/// writes.
pub proof fn lemma_no_forwards_queued(obs: Seq<Observer>, stored: Value)
    requires
        forall|k: int| 0 <= k < obs.len() ==> !is_forward_kind((#[trigger] obs[k]).kind),
    ensures
        forward_notices(obs, stored) == Seq::<(usize, Value)>::empty(),
    decreases obs.len(),
{
    if obs.len() == 0 {
        assert(forward_notices(obs, stored) =~= Seq::<(usize, Value)>::empty());
    } else {
        lemma_no_forwards_queued(obs.drop_last(), stored);
        assert(!is_forward_kind(obs.last().kind));
        assert(forward_notices(obs, stored) =~= Seq::<(usize, Value)>::empty());
    }
}

/// A write through a cell whose root has only command observers settles in
/// one step: the root stores the validated value, each observer queues its
/// one command, in registration order, and nothing is propagated.
pub proof fn lemma_cascade_one_step(nodes: Seq<Node>, commands: Seq<Command>, i: usize, v: Value)
    requires
        nodes_wf(nodes),
        (i as int) < nodes.len(),
        forall|k: int|
            0 <= k < node_observers(nodes[root_of(nodes, i as int)]).len() ==> !is_forward_kind(
                (#[trigger] node_observers(nodes[root_of(nodes, i as int)])[k]).kind,
            ),
    ensures
        ({
            let r = root_of(nodes, i as int);
            let stored = stored_value(nodes, i as int, v);
            let obs = node_observers(nodes[r]);
            &&& settles(nodes, write_queue(i, v))
            &&& forall|n: nat|
                n >= 1 ==> cascade(nodes, commands, write_queue(i, v), n) == Some(
                    (store_at(nodes, r, stored), commands + command_notices(obs, stored)),
                )
        }),
{
    let r = root_of(nodes, i as int);
    let stored = stored_value(nodes, i as int, v);
    let obs = node_observers(nodes[r]);
    assert(rooted(nodes, i as int));
    lemma_resolve_ends_at_root(nodes, i as int, nodes.len() as nat);
    lemma_store_preserves_wf(nodes, r, stored);
    let nodes2 = store_at(nodes, r, stored);
    assert(node_observers(nodes2[r]) == obs);
    lemma_no_forwards_queued(obs, stored);
    assert forall|n: nat| n >= 1 implies cascade(nodes, commands, write_queue(i, v), n) == Some(
        (nodes2, commands + command_notices(obs, stored)),
    ) by {
        let q = write_queue(i, v);
        assert(q[0] == (i, v));
        assert(q.subrange(1, q.len() as int) + forward_notices(obs, stored) =~= Seq::<
            (usize, Value),
        >::empty());
        assert(cascade(nodes2, commands + command_notices(obs, stored), Seq::empty(), (n - 1) as nat)
            == Some((nodes2, commands + command_notices(obs, stored))));
    }
    assert(cascade(nodes, commands, write_queue(i, v), 1nat) is Some);
    lemma_cascade_commands(nodes, commands, Seq::empty(), write_queue(i, v), 1nat);
    assert(cascade(nodes, Seq::empty(), write_queue(i, v), 1nat) is Some);
}

/// Law: a write through a cell whose root has only command observers stores
/// exactly the validated value at that root, changes no other node, and
/// appends one command per registered observer, in registration order, each
/// carrying the stored value as that observer sees it.
pub proof fn lemma_write_notifies_in_order(
    nodes: Seq<Node>,
    commands: Seq<Command>,
    i: usize,
    v: Value,
)
    requires
        nodes_wf(nodes),
        (i as int) < nodes.len(),
        forall|k: int|
            0 <= k < node_observers(nodes[root_of(nodes, i as int)]).len() ==> !is_forward_kind(
                (#[trigger] node_observers(nodes[root_of(nodes, i as int)])[k]).kind,
            ),
    ensures
        ({
            let r = root_of(nodes, i as int);
            let stored = stored_value(nodes, i as int, v);
            let obs = node_observers(nodes[r]);
            let post = store_at(nodes, r, stored);
            &&& settles(nodes, write_queue(i, v))
            &&& forall|n: nat|
                n >= 1 ==> cascade(nodes, commands, write_queue(i, v), n) == Some(
                    (post, commands + command_notices(obs, stored)),
                )
            &&& node_value(post[r]) == stored
            &&& forall|j: int| 0 <= j < nodes.len() && j != r ==> post[j] == nodes[j]
            &&& notices_pointwise(obs, stored)
        }),
{
    let r = root_of(nodes, i as int);
    let stored = stored_value(nodes, i as int, v);
    let obs = node_observers(nodes[r]);
    assert(rooted(nodes, i as int));
    lemma_resolve_ends_at_root(nodes, i as int, nodes.len() as nat);
    lemma_cascade_one_step(nodes, commands, i, v);
    lemma_command_notices_pointwise(obs, stored);
    assert(node_value(store_at(nodes, r, stored)[r]) == stored);
}

/// Law: after `link(a, b)` on a cell that owned its observers, `a` delegates
/// to `b`: with `b` a root with an accepting validator, a write of `x`
/// through `a` stores `x` at `b`, so reading either cell yields `x`, and the
/// very write that stores it notifies every observer registered at `b` — the
/// observers carried over from `a` included — while `a` keeps no state of its
/// own.
pub proof fn lemma_link_aliases(
    g0_nodes: Seq<Node>,
    g1_nodes: Seq<Node>,
    g1_cmds: Seq<Command>,
    a: usize,
    b: usize,
    x: Value,
)
    requires
        nodes_wf(g0_nodes),
        nodes_wf(g1_nodes),
        (a as int) < g0_nodes.len(),
        (b as int) < g0_nodes.len(),
        a != b,
        node_is_root(g0_nodes[b as int]),
        node_validator(g0_nodes[b as int]) == Validator::Accept,
        relink_shape(g0_nodes, a, Node::Linked { target: b }, g1_nodes),
        forall|k: int|
            0 <= k < node_observers(g1_nodes[b as int]).len() ==> !is_forward_kind(
                (#[trigger] node_observers(g1_nodes[b as int])[k]).kind,
            ),
    ensures
        ({
            let stored_nodes = store_at(g1_nodes, b as int, x);
            &&& root_of(g1_nodes, a as int) == b as int
            &&& proj_of(g1_nodes, a as int) == Seq::<Mapping>::empty()
            &&& stored_value(g1_nodes, a as int, x) == x
            &&& settles(g1_nodes, write_queue(a, x))
            &&& forall|n: nat|
                n >= 1 ==> cascade(g1_nodes, g1_cmds, write_queue(a, x), n) == Some(
                    (stored_nodes, g1_cmds + command_notices(node_observers(g1_nodes[b as int]), x)),
                )
            &&& local_value(stored_nodes, b as int) == x
            &&& local_value(stored_nodes, a as int) == x
            &&& notices_pointwise(node_observers(g1_nodes[b as int]), x)
        }),
{
    let ai = a as int;
    let bi = b as int;
    let un = g0_nodes.update(ai, Node::Linked { target: b });
    reveal_with_fuel(resolve, 3);
    // The chain from `a` in the relinked graph: one alias step to the root `b`.
    assert(un.len() == g0_nodes.len());
    assert(un[bi] == g0_nodes[bi]);
    assert(resolve(un, bi, (un.len() - 1) as nat) == Some((bi, Seq::<Mapping>::empty())));
    assert(resolve(un, ai, un.len() as nat) == Some((bi, Seq::<Mapping>::empty())));
    assert(root_of(un, ai) == bi);
    assert(g1_nodes.len() == un.len());
    assert(structure_eq(un[ai], g1_nodes[ai]));
    assert(g1_nodes[ai] == (Node::Linked { target: b }));
    assert(node_is_root(g1_nodes[bi]));
    assert(resolve(g1_nodes, bi, (g1_nodes.len() - 1) as nat) == Some(
        (bi, Seq::<Mapping>::empty()),
    ));
    assert(resolve(g1_nodes, ai, g1_nodes.len() as nat) == Some((bi, Seq::<Mapping>::empty())));
    assert(resolve(g1_nodes, bi, g1_nodes.len() as nat) == Some((bi, Seq::<Mapping>::empty())));
    assert(node_validator(g1_nodes[bi]) == Validator::Accept);
    assert(stored_value(g1_nodes, ai, x) == x);
    lemma_cascade_one_step(g1_nodes, g1_cmds, a, x);
    lemma_command_notices_pointwise(node_observers(g1_nodes[bi]), x);
    let stored_nodes = store_at(g1_nodes, bi, x);
    lemma_store_preserves_wf(g1_nodes, bi, x);
    assert(node_value(stored_nodes[bi]) == x);
    assert(local_value(stored_nodes, bi) == x);
    assert(local_value(stored_nodes, ai) == x);
}

} // verus!
