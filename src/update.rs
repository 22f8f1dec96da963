use vstd::prelude::*;

use crate::graph::{AppGraph, GraphError, ids_unique, index_of, has_id};
use crate::edit::HardwareItem;
use crate::node::{Mode, Node, NodeType, node_output};

verus! {

/// A failed read or write reported by the hardware layer, for the item at
/// `handle` in its inventory.
#[derive(Debug, Clone, Copy, PartialEq, Eq, Structural)]
pub struct HardwareError {
    pub handle: usize,
}

/// A hardware failure during a tick, with the node it concerned.
#[derive(Debug, Clone, Copy, PartialEq, Eq, Structural)]
pub struct TickError {
    pub node_id: u64,
    pub error: HardwareError,
}

/// Access to sensors and fans. Items are addressed by their index in the
/// live inventory. Every call may fail.
pub trait HardwareBridge {
    /// The live inventory.
    fn inventory(&self) -> Vec<HardwareItem>;

    /// Re-reads the inventory and its readings.
    fn refresh(&mut self) -> Result<(), HardwareError>;

    /// Releases the hardware; called once, when the program exits.
    fn shutdown(&mut self) -> Result<(), HardwareError>;

    /// The current reading of a sensor or fan.
    fn read_value(&mut self, handle: usize) -> Result<i32, HardwareError>;

    /// Drives a fan at `value` percent.
    fn set_value(&mut self, handle: usize, value: i32) -> Result<(), HardwareError>;

    /// Hands a fan to its firmware, or takes it over.
    fn set_mode(&mut self, handle: usize, mode: Mode) -> Result<(), HardwareError>;
}

/// One call made to the hardware layer.
#[derive(Debug, Clone, Copy, PartialEq, Eq, Structural)]
pub enum BridgeCall {
    Refresh,
    Read(usize),
    SetValue(usize, i32),
    SetMode(usize, Mode),
}

/// A hardware layer together with the record of every call made to it
/// through this library.
pub struct Bridge<B> {
    pub hw: B,
    pub calls: Ghost<Seq<BridgeCall>>,
}

impl<B: HardwareBridge> Bridge<B> {
    /// Wraps a hardware layer; no call is recorded yet.
    pub fn new(hw: B) -> (r: Bridge<B>)
        ensures
            r.calls@.len() == 0,
    {
        Bridge { hw, calls: Ghost(Seq::empty()) }
    }

    /// Re-reads the inventory and its readings.
    pub fn refresh(&mut self) -> (r: Result<(), HardwareError>)
        ensures
            final(self).calls@ == old(self).calls@.push(BridgeCall::Refresh),
    {
        let r = self.hw.refresh();
        proof {
            self.calls@ = self.calls@.push(BridgeCall::Refresh);
        }
        r
    }

    /// The current reading of the sensor or fan at `handle`.
    pub fn read_value(&mut self, handle: usize) -> (r: Result<i32, HardwareError>)
        ensures
            final(self).calls@ == old(self).calls@.push(BridgeCall::Read(handle)),
    {
        let r = self.hw.read_value(handle);
        proof {
            self.calls@ = self.calls@.push(BridgeCall::Read(handle));
        }
        r
    }

    /// Drives the fan at `handle` at `value` percent.
    pub fn set_value(&mut self, handle: usize, value: i32) -> (r: Result<(), HardwareError>)
        ensures
            final(self).calls@ == old(self).calls@.push(BridgeCall::SetValue(handle, value)),
    {
        let r = self.hw.set_value(handle, value);
        proof {
            self.calls@ = self.calls@.push(BridgeCall::SetValue(handle, value));
        }
        r
    }

    /// Hands the fan at `handle` to its firmware, or takes it over.
    pub fn set_mode(&mut self, handle: usize, mode: Mode) -> (r: Result<(), HardwareError>)
        ensures
            final(self).calls@ == old(self).calls@.push(BridgeCall::SetMode(handle, mode)),
    {
        let r = self.hw.set_mode(handle, mode);
        proof {
            self.calls@ = self.calls@.push(BridgeCall::SetMode(handle, mode));
        }
        r
    }
}

/// The value of node `i` given one hardware reading per node, following
/// inputs at most `fuel` levels up.
pub open spec fn value_of(n: Seq<Node>, readings: Seq<Option<i32>>, i: int, fuel: nat) -> Option<i32>
    decreases fuel, 0nat,
{
    if fuel == 0 || !(0 <= i < n.len()) {
        None
    } else {
        node_output(n[i].node_type, upstream_values(n, readings, i, (fuel - 1) as nat), readings[i])
    }
}

/// The values of the inputs of node `i`, in order; an input that refers to
/// no node is absent.
pub open spec fn upstream_values(n: Seq<Node>, readings: Seq<Option<i32>>, i: int, fuel: nat) -> Seq<Option<i32>>
    decreases fuel, 1nat,
{
    if 0 <= i < n.len() {
        Seq::new(
            n[i].inputs@.len(),
            |j: int|
                match index_of(n, n[i].inputs@[j].id) {
                    Some(k) => value_of(n, readings, k, fuel),
                    None => None,
                },
        )
    } else {
        Seq::empty()
    }
}

/// The value of node `i` in a tick: deep enough to reach every leaf of an
/// acyclic graph. A node that depends on a cycle has no value.
pub open spec fn tick_value(n: Seq<Node>, readings: Seq<Option<i32>>, i: int) -> Option<i32> {
    value_of(n, readings, i, n.len())
}

/// The hardware item a node reads from, if any.
pub open spec fn read_handle(t: NodeType) -> Option<usize> {
    match t {
        NodeType::Temp(h) => h.handle,
        NodeType::Fan(h) => h.handle,
        _ => None,
    }
}

/// Readings fit the nodes: one per node, and none for a node that reads no
/// hardware.
pub open spec fn readings_fit(n: Seq<Node>, readings: Seq<Option<i32>>) -> bool {
    &&& readings.len() == n.len()
    &&& forall|i: int| 0 <= i < n.len() && read_handle((#[trigger] n[i]).node_type) is None ==> readings[i] is None
}

/// `b` is `a` with only the values changed.
pub open spec fn same_but_values(a: Seq<Node>, b: Seq<Node>) -> bool {
    &&& a.len() == b.len()
    &&& forall|k: int|
        0 <= k < a.len() ==> {
            &&& (#[trigger] b[k]).id == a[k].id
            &&& b[k].name == a[k].name
            &&& b[k].inputs == a[k].inputs
            &&& b[k].node_type == a[k].node_type
        }
}

/// How a requested tick ended.
#[derive(Debug, Clone, Copy, PartialEq, Eq, Structural)]
pub enum TickOutcome {
    /// Another tick was in flight; this one did nothing.
    Skipped,
    /// The tick ran; this many fan writes were made.
    Done(usize),
    /// Refreshing the inventory failed; nothing was computed.
    RefreshFailed(HardwareError),
    /// A read or write failed during the tick.
    Failed(TickError),
}

/// A write of `value` to the fan at `handle`, on behalf of node `node_id`.
#[derive(Debug, Clone, Copy, PartialEq, Eq, Structural)]
pub struct HardwareWrite {
    pub node_id: u64,
    pub handle: usize,
    pub value: i32,
}

/// The write a node asks for: a control in manual mode, active, bound to a
/// fan and with a value.
pub open spec fn write_of(node: Node) -> Option<HardwareWrite> {
    match node.node_type {
        NodeType::Control(c) => if c.mode == Mode::Manual && c.active && c.handle is Some
            && node.value is Some {
            Some(HardwareWrite { node_id: node.id, handle: c.handle.unwrap(), value: node.value.unwrap() })
        } else {
            None
        },
        _ => None,
    }
}

/// The writes of a tick, in node order.
pub open spec fn writes_of(n: Seq<Node>) -> Seq<HardwareWrite>
    decreases n.len(),
{
    if n.len() == 0 {
        Seq::empty()
    } else {
        match write_of(n.last()) {
            Some(w) => writes_of(n.drop_last()).push(w),
            None => writes_of(n.drop_last()),
        }
    }
}

/// The reads of a tick: one per node bound to a sensor or fan, in order.
pub open spec fn read_calls(n: Seq<Node>) -> Seq<BridgeCall>
    decreases n.len(),
{
    if n.len() == 0 {
        Seq::empty()
    } else {
        match read_handle(n.last().node_type) {
            Some(h) => read_calls(n.drop_last()).push(BridgeCall::Read(h)),
            None => read_calls(n.drop_last()),
        }
    }
}

/// The value writes for `ws`, in order.
pub open spec fn write_calls(ws: Seq<HardwareWrite>) -> Seq<BridgeCall> {
    ws.map_values(|w: HardwareWrite| BridgeCall::SetValue(w.handle, w.value))
}

/// No node reads hardware.
pub open spec fn no_reads(n: Seq<Node>) -> bool {
    forall|i: int| 0 <= i < n.len() ==> read_handle((#[trigger] n[i]).node_type) is None
}

/// The read for node `e.node_id` failed: the calls made are the reads of
/// the nodes before it, then its own.
pub open spec fn read_failed(n: Seq<Node>, before: Seq<BridgeCall>, after: Seq<BridgeCall>, e: TickError) -> bool {
    exists|k: int|
        0 <= k < n.len() && (#[trigger] n[k]).id == e.node_id && read_handle(n[k].node_type) is Some && after
            == before + read_calls(n.subrange(0, k)).push(BridgeCall::Read(read_handle(n[k].node_type).unwrap()))
}

/// What a tick from nodes `a` to nodes `b` did, with the bridge's call
/// record going from `before` to `after`. On success: every node's value
/// computed, all reads then all writes made. A failed read: nothing changed,
/// reads made up to the failed one. A failed write: values computed and
/// kept, all reads made, writes made up to the failed one.
pub open spec fn tick_result(
    a: Seq<Node>,
    b: Seq<Node>,
    before: Seq<BridgeCall>,
    after: Seq<BridgeCall>,
    r: Result<usize, TickError>,
) -> bool {
    match r {
        Ok(count) => {
            &&& exists|readings: Seq<Option<i32>>| readings_fit(a, readings) && #[trigger] computed(a, b, readings)
            &&& count == writes_of(b).len()
            &&& after == before + read_calls(a) + write_calls(writes_of(b))
        },
        Err(e) => {
            ||| b == a && read_failed(a, before, after, e)
            ||| {
                &&& exists|readings: Seq<Option<i32>>| readings_fit(a, readings) && #[trigger] computed(a, b, readings)
                &&& exists|w: int|
                    0 <= w < writes_of(b).len() && writes_of(b)[w].node_id == e.node_id && after == before
                        + read_calls(a) + write_calls(writes_of(b).subrange(0, w + 1))
            }
        },
    }
}

/// `b` is `mid`, the nodes left by a deletion, with every input that
/// refers to no node dropped and every other input kept, in order; so no
/// input of `b` dangles.
pub open spec fn remaining_after_delete(mid: Seq<Node>, b: Seq<Node>) -> bool {
    &&& b.len() == mid.len()
    &&& forall|m: int|
        0 <= m < mid.len() ==> {
            let x = #[trigger] mid[m];
            let y = b[m];
            &&& y.id == x.id
            &&& y.name == x.name
            &&& y.value == x.value
            &&& y.node_type == x.node_type
            &&& y.inputs@ == crate::graph::kept_inputs(
                mid,
                x.inputs@,
                crate::node::max_inputs(crate::node::kind_of(x.node_type)),
                x.id,
                false,
            )
        }
    &&& forall|m: int, j: int| 0 <= m < b.len() && 0 <= j < b[m].inputs@.len() ==> has_id(b, (#[trigger] b[m].inputs@[j]).id)
}

/// `b` holds the nodes of `a` with the values of a tick on `readings`.
pub open spec fn computed(a: Seq<Node>, b: Seq<Node>, readings: Seq<Option<i32>>) -> bool {
    &&& same_but_values(a, b)
    &&& forall|i: int| 0 <= i < a.len() ==> (#[trigger] b[i]).value == tick_value(a, readings, i)
}

/// Node `i` leads to a resolved source within `fuel` levels: a bound sensor
/// or fan, or a constant; a control must also be bound to a fan.
pub open spec fn resolves(n: Seq<Node>, i: int, fuel: nat) -> bool
    decreases fuel, 0nat, 0nat,
{
    if fuel == 0 || !(0 <= i < n.len()) {
        false
    } else {
        let f = (fuel - 1) as nat;
        match n[i].node_type {
            NodeType::Temp(h) => h.handle is Some,
            NodeType::Fan(h) => h.handle is Some,
            NodeType::Flat(_) => true,
            NodeType::CustomTemp(_) => n[i].inputs@.len() > 0 && inputs_resolve_within(n, i, n[i].inputs@.len() as nat, f),
            NodeType::Control(c) => c.handle is Some && n[i].inputs@.len() > 0 && input_resolves_within(n, i, 0, f),
            _ => n[i].inputs@.len() > 0 && input_resolves_within(n, i, 0, f),
        }
    }
}

/// Input `j` of node `i` refers to a node that resolves within `fuel` levels.
pub open spec fn input_resolves_within(n: Seq<Node>, i: int, j: int, fuel: nat) -> bool
    decreases fuel, 1nat, 0nat,
{
    if 0 <= i < n.len() && 0 <= j < n[i].inputs@.len() {
        match index_of(n, n[i].inputs@[j].id) {
            Some(k) => resolves(n, k, fuel),
            None => false,
        }
    } else {
        false
    }
}

/// The first `count` inputs of node `i` resolve within `fuel` levels.
pub open spec fn inputs_resolve_within(n: Seq<Node>, i: int, count: nat, fuel: nat) -> bool
    decreases fuel, 2nat, count,
{
    if count == 0 {
        true
    } else {
        inputs_resolve_within(n, i, (count - 1) as nat, fuel) && input_resolves_within(n, i, count - 1, fuel)
    }
}

/// A control that has a valid path to a temperature source.
pub open spec fn is_valid(n: Seq<Node>, i: int) -> bool {
    resolves(n, i, n.len())
}

/// Node `i` is a root control whose validity is `valid`.
pub open spec fn root_control(n: Seq<Node>, roots: Seq<u64>, i: int, valid: bool) -> bool {
    &&& 0 <= i < n.len()
    &&& n[i].node_type is Control
    &&& roots.contains(n[i].id)
    &&& is_valid(n, i) == valid
}

/// Forcing node `i` to auto needs a hardware write: it is bound to a fan,
/// and, for an invalid control, recorded in manual mode. A valid control is
/// written whatever its recorded mode, which may be stale.
pub open spec fn needs_write(n: Seq<Node>, roots: Seq<u64>, i: int, valid: bool) -> bool {
    &&& root_control(n, roots, i, valid)
    &&& n[i].node_type->Control_0.handle is Some
    &&& (valid || n[i].node_type->Control_0.mode == Mode::Manual)
}

/// One mode write to a fan, and whether the hardware accepted it.
#[derive(Debug, Clone, Copy, PartialEq, Eq, Structural)]
pub struct ModeWrite {
    pub node_id: u64,
    pub handle: usize,
    pub ok: bool,
}

/// The node ids and fan handles among the first `k` nodes whose forcing
/// needs a hardware write, in order.
pub open spec fn auto_writes(n: Seq<Node>, roots: Seq<u64>, k: int, valid: bool) -> Seq<(u64, usize)>
    decreases k,
{
    if k <= 0 {
        Seq::empty()
    } else if needs_write(n, roots, k - 1, valid) {
        auto_writes(n, roots, k - 1, valid).push((n[k - 1].id, n[k - 1].node_type->Control_0.handle.unwrap()))
    } else {
        auto_writes(n, roots, k - 1, valid)
    }
}

/// The bridge calls of a log of mode writes: each one sets auto.
pub open spec fn auto_calls(log: Seq<ModeWrite>) -> Seq<BridgeCall> {
    log.map_values(|w: ModeWrite| BridgeCall::SetMode(w.handle, Mode::Auto))
}

/// `node`, a control, in auto mode, and inactive when `deactivate`.
pub open spec fn forced_auto(node: Node, deactivate: bool) -> Node {
    match node.node_type {
        NodeType::Control(c) => Node {
            node_type: NodeType::Control(
                crate::node::Control { mode: Mode::Auto, active: if deactivate { false } else { c.active }, ..c },
            ),
            ..node
        },
        _ => node,
    }
}

/// `b` is `a` after every root control whose validity is `valid` was forced
/// to auto, with `log` the writes issued; invalid ones are also made
/// inactive. A control is recorded in auto mode even when its write failed:
/// the failure is in `log`, and the next pass does not write again.
pub open spec fn forced(a: Seq<Node>, b: Seq<Node>, roots: Seq<u64>, valid: bool, log: Seq<ModeWrite>) -> bool {
    &&& a.len() == b.len()
    &&& log.map_values(|w: ModeWrite| (w.node_id, w.handle)) == auto_writes(a, roots, a.len() as int, valid)
    &&& forall|i: int|
        0 <= i < a.len() ==> #[trigger] b[i] == if root_control(a, roots, i, valid) {
            forced_auto(a[i], !valid)
        } else {
            a[i]
        }
}

proof fn lemma_inputs_resolve_prefix(n: Seq<Node>, i: int, count: nat, k: nat, fuel: nat)
    requires
        k <= count,
        inputs_resolve_within(n, i, count, fuel),
    ensures
        inputs_resolve_within(n, i, k, fuel),
    decreases count,
{
    if k < count {
        lemma_inputs_resolve_prefix(n, i, (count - 1) as nat, k, fuel);
    }
}

impl AppGraph {
    /// Computes `value_of` for node `i`.
    fn eval(&self, readings: &Vec<Option<i32>>, i: usize, fuel: usize) -> (r: Option<i32>)
        requires
            ids_unique(self.nodes@),
            i < self.nodes@.len(),
            readings@.len() == self.nodes@.len(),
        ensures
            r == value_of(self.nodes@, readings@, i as int, fuel as nat),
        decreases fuel,
    {
        if fuel == 0 {
            return None;
        }
        let ghost n = self.nodes@;
        let inputs = &self.nodes[i].inputs;
        let mut ups: Vec<Option<i32>> = Vec::new();
        let mut j: usize = 0;
        while j < inputs.len()
            invariant
                ids_unique(self.nodes@),
                n == self.nodes@,
                i < n.len(),
                fuel > 0,
                readings@.len() == n.len(),
                *inputs == n[i as int].inputs,
                j <= inputs@.len(),
                ups@.len() == j,
                forall|b: int|
                    0 <= b < j ==> #[trigger] ups@[b] == match index_of(n, n[i as int].inputs@[b].id) {
                        Some(k) => value_of(n, readings@, k, (fuel - 1) as nat),
                        None => None,
                    },
            decreases inputs@.len() - j,
        {
            let v = match self.find(inputs[j].id) {
                Some(k) => self.eval(readings, k, fuel - 1),
                None => None,
            };
            ups.push(v);
            j = j + 1;
        }
        assert(ups@ =~= upstream_values(n, readings@, i as int, (fuel - 1) as nat));
        self.nodes[i].node_type.output(&ups, readings[i])
    }

    /// Stores in every node its value for this tick, computed from one
    /// hardware reading per node.
    pub fn compute_values(&mut self, readings: &Vec<Option<i32>>)
        requires
            old(self).wf(),
            readings@.len() == old(self).nodes@.len(),
        ensures
            final(self).wf(),
            final(self).root_nodes == old(self).root_nodes,
            final(self).next_id == old(self).next_id,
            same_but_values(old(self).nodes@, final(self).nodes@),
            forall|i: int|
                0 <= i < old(self).nodes@.len() ==> (#[trigger] final(self).nodes@[i]).value == tick_value(
                    old(self).nodes@,
                    readings@,
                    i,
                ),
    {
        let n = self.nodes.len();
        let mut values: Vec<Option<i32>> = Vec::new();
        let mut i: usize = 0;
        while i < n
            invariant
                n == self.nodes@.len(),
                self.wf(),
                readings@.len() == n,
                i <= n,
                values@.len() == i,
                forall|k: int| 0 <= k < i ==> #[trigger] values@[k] == tick_value(self.nodes@, readings@, k),
            decreases n - i,
        {
            values.push(self.eval(readings, i, n));
            i = i + 1;
        }
        let ghost before = self.nodes@;
        let mut i: usize = 0;
        while i < n
            invariant
                n == self.nodes@.len(),
                before.len() == n,
                values@.len() == n,
                i <= n,
                self.root_nodes == old(self).root_nodes,
                self.next_id == old(self).next_id,
                before == old(self).nodes@,
                forall|k: int| 0 <= k < n ==> #[trigger] values@[k] == tick_value(before, readings@, k),
                same_but_values(before, self.nodes@),
                forall|k: int| 0 <= k < i ==> (#[trigger] self.nodes@[k]).value == values@[k],
            decreases n - i,
        {
            self.nodes[i].value = values[i];
            i = i + 1;
        }
        proof {
            let after = self.nodes@;
            assert forall|a: int, b: int| 0 <= a < after.len() && 0 <= b < after.len() && a != b implies #[trigger] after[a].id != #[trigger] after[b].id by {
                assert(before[a].id != before[b].id);
            }
            assert forall|a: int, b: int| 0 <= a < after.len() && 0 <= b < after.len() && a != b implies #[trigger] after[a].name@ != #[trigger] after[b].name@ by {
                assert(before[a].name@ != before[b].name@);
            }
            assert forall|a: int, j: int, m: int|
                0 <= a < after.len() && 0 <= j < after[a].inputs@.len() && 0 <= m < after.len() && (#[trigger] after[a].inputs@[j]).id
                    == (#[trigger] after[m]).id implies after[a].inputs@[j].name@ == after[m].name@ by {
                assert(before[a].inputs@[j].id == before[m].id);
            }
            assert forall|a: int| 0 <= a < after.len() implies (#[trigger] after[a]).id < self.next_id by {
                assert(before[a].id == after[a].id);
            }
            assert forall|x: u64| #[trigger] self.root_nodes@.contains(x) <==> crate::graph::is_root(after, x) by {
                crate::graph::lemma_same_wiring_roots(before, after, x);
            }
        }
    }
    /// Reads every sensor and fan that a node is bound to, in node order;
    /// the first failed read ends the pass.
    fn read_all<B: HardwareBridge>(&self, bridge: &mut Bridge<B>) -> (r: Result<Vec<Option<i32>>, TickError>)
        ensures
            r matches Ok(v) ==> readings_fit(self.nodes@, v@) && final(bridge).calls@ == old(bridge).calls@ + read_calls(self.nodes@),
            r matches Err(e) ==> read_failed(self.nodes@, old(bridge).calls@, final(bridge).calls@, e),
            no_reads(self.nodes@) ==> r is Ok,
    {
        let mut readings: Vec<Option<i32>> = Vec::new();
        let mut i: usize = 0;
        while i < self.nodes.len()
            invariant
                i <= self.nodes@.len(),
                readings@.len() == i,
                forall|k: int| 0 <= k < i && read_handle((#[trigger] self.nodes@[k]).node_type) is None ==> readings@[k] is None,
                bridge.calls@ == old(bridge).calls@ + read_calls(self.nodes@.subrange(0, i as int)),
            decreases self.nodes@.len() - i,
        {
            let ghost pre = self.nodes@.subrange(0, i as int + 1);
            assert(pre.drop_last() =~= self.nodes@.subrange(0, i as int));
            let handle = match &self.nodes[i].node_type {
                NodeType::Temp(h) => h.handle,
                NodeType::Fan(h) => h.handle,
                _ => None,
            };
            match handle {
                Some(h) => match bridge.read_value(h) {
                    Ok(v) => {
                        readings.push(Some(v));
                        assert(bridge.calls@ =~= old(bridge).calls@ + read_calls(pre));
                    },
                    Err(e) => {
                        assert(bridge.calls@ =~= old(bridge).calls@ + read_calls(self.nodes@.subrange(0, i as int)).push(BridgeCall::Read(h)));
                        return Err(TickError { node_id: self.nodes[i].id, error: e });
                    },
                },
                None => {
                    readings.push(None);
                },
            }
            i = i + 1;
        }
        assert(self.nodes@.subrange(0, i as int) =~= self.nodes@);
        Ok(readings)
    }

    /// The writes this tick asks for, in node order.
    pub fn pending_writes(&self) -> (r: Vec<HardwareWrite>)
        ensures
            r@ == writes_of(self.nodes@),
    {
        let mut writes: Vec<HardwareWrite> = Vec::new();
        let mut i: usize = 0;
        while i < self.nodes.len()
            invariant
                i <= self.nodes@.len(),
                writes@ == writes_of(self.nodes@.subrange(0, i as int)),
            decreases self.nodes@.len() - i,
        {
            let ghost pre = self.nodes@.subrange(0, i as int + 1);
            assert(pre.drop_last() =~= self.nodes@.subrange(0, i as int));
            let node = &self.nodes[i];
            match &node.node_type {
                NodeType::Control(c) => {
                    if c.mode == Mode::Manual && c.active {
                        match (c.handle, node.value) {
                            (Some(h), Some(v)) => writes.push(HardwareWrite { node_id: node.id, handle: h, value: v }),
                            _ => {},
                        }
                    }
                },
                _ => {},
            }
            i = i + 1;
        }
        assert(self.nodes@.subrange(0, i as int) =~= self.nodes@);
        writes
    }

    /// One tick: reads the hardware, stores every node's value, then writes
    /// the value of every manual, active control to its fan. A failed read
    /// ends the tick before anything changes; a failed write ends the writes,
    /// and the computed values stay.
    pub fn evaluate_all<B: HardwareBridge>(&mut self, bridge: &mut Bridge<B>) -> (r: Result<usize, TickError>)
        requires
            old(self).wf(),
        ensures
            final(self).wf(),
            final(self).root_nodes == old(self).root_nodes,
            final(self).next_id == old(self).next_id,
            tick_result(old(self).nodes@, final(self).nodes@, old(bridge).calls@, final(bridge).calls@, r),
            no_reads(old(self).nodes@) ==> computed(old(self).nodes@, final(self).nodes@, Seq::new(old(self).nodes@.len(), |i: int| None::<i32>)),
    {
        let readings = match self.read_all(bridge) {
            Ok(v) => v,
            Err(e) => {
                return Err(e);
            },
        };
        self.compute_values(&readings);
        let ghost mid_calls = bridge.calls@;
        assert(computed(old(self).nodes@, self.nodes@, readings@));
        proof {
            if no_reads(old(self).nodes@) {
                assert forall|i: int| 0 <= i < readings@.len() implies readings@[i] is None by {
                    assert(read_handle(old(self).nodes@[i].node_type) is None);
                }
                assert(readings@ =~= Seq::new(old(self).nodes@.len(), |i: int| None::<i32>));
            }
        }
        let r = self.write_all(bridge);
        proof {
            match r {
                Ok(_) => {
                    assert(bridge.calls@ =~= old(bridge).calls@ + read_calls(old(self).nodes@) + write_calls(writes_of(self.nodes@)));
                },
                Err(e) => {
                    let w = choose|w: int| 0 <= w < writes_of(self.nodes@).len() && writes_of(self.nodes@)[w].node_id == e.node_id
                        && bridge.calls@ == mid_calls + write_calls(writes_of(self.nodes@).subrange(0, w + 1));
                    assert(bridge.calls@ =~= old(bridge).calls@ + read_calls(old(self).nodes@) + write_calls(writes_of(self.nodes@).subrange(0, w + 1)));
                },
            }
        }
        r
    }

    /// Writes the pending writes in order; the first failure ends them.
    fn write_all<B: HardwareBridge>(&self, bridge: &mut Bridge<B>) -> (r: Result<usize, TickError>)
        ensures
            r matches Ok(count) ==> count == writes_of(self.nodes@).len()
                && final(bridge).calls@ == old(bridge).calls@ + write_calls(writes_of(self.nodes@)),
            r matches Err(e) ==> exists|w: int|
                0 <= w < writes_of(self.nodes@).len() && writes_of(self.nodes@)[w].node_id == e.node_id
                    && final(bridge).calls@ == old(bridge).calls@ + write_calls(writes_of(self.nodes@).subrange(0, w + 1)),
    {
        let writes = self.pending_writes();
        let mut i: usize = 0;
        while i < writes.len()
            invariant
                i <= writes@.len(),
                writes@ == writes_of(self.nodes@),
                bridge.calls@ == old(bridge).calls@ + write_calls(writes@.subrange(0, i as int)),
            decreases writes@.len() - i,
        {
            let w = writes[i];
            let r = bridge.set_value(w.handle, w.value);
            assert(write_calls(writes@.subrange(0, i as int + 1)) =~= write_calls(writes@.subrange(0, i as int)).push(
                BridgeCall::SetValue(w.handle, w.value),
            ));
            assert(bridge.calls@ =~= old(bridge).calls@ + write_calls(writes@.subrange(0, i as int + 1)));
            match r {
                Ok(()) => {},
                Err(e) => {
                    assert(writes@[i as int].node_id == w.node_id);
                    return Err(TickError { node_id: w.node_id, error: e });
                },
            }
            i = i + 1;
        }
        assert(writes@.subrange(0, i as int) =~= writes@);
        Ok(i)
    }

    /// The incremental tick. It stores the same values and makes the same
    /// calls as `evaluate_all`.
    pub fn evaluate_reachable<B: HardwareBridge>(&mut self, bridge: &mut Bridge<B>) -> (r: Result<usize, TickError>)
        requires
            old(self).wf(),
        ensures
            final(self).wf(),
            final(self).root_nodes == old(self).root_nodes,
            final(self).next_id == old(self).next_id,
            tick_result(old(self).nodes@, final(self).nodes@, old(bridge).calls@, final(bridge).calls@, r),
            no_reads(old(self).nodes@) ==> computed(old(self).nodes@, final(self).nodes@, Seq::new(old(self).nodes@.len(), |i: int| None::<i32>)),
    {
        self.evaluate_all(bridge)
    }

    fn resolves_exec(&self, i: usize, fuel: usize) -> (r: bool)
        requires
            ids_unique(self.nodes@),
            i < self.nodes@.len(),
        ensures
            r == resolves(self.nodes@, i as int, fuel as nat),
        decreases fuel, 0nat, 0nat,
    {
        if fuel == 0 {
            return false;
        }
        let node = &self.nodes[i];
        let has_input = node.inputs.len() > 0;
        let ghost fuel_n: nat = fuel as nat;
        let ghost f: nat = (fuel_n - 1) as nat;
        let ghost n = self.nodes@;
        match &node.node_type {
            NodeType::Temp(h) => h.handle.is_some(),
            NodeType::Fan(h) => h.handle.is_some(),
            NodeType::Flat(_) => true,
            NodeType::CustomTemp(_) => {
                if !has_input {
                    return false;
                }
                let mut j: usize = 0;
                while j < node.inputs.len()
                    invariant
                        ids_unique(self.nodes@),
                        i < self.nodes@.len(),
                        fuel > 0,
                        *node == self.nodes@[i as int],
                        j <= node.inputs@.len(),
                        n == self.nodes@,
                        f == ((fuel as nat) - 1) as nat,
                        f == (fuel - 1) as nat,
                        node.node_type is CustomTemp,
                        inputs_resolve_within(n, i as int, j as nat, f),
                    decreases node.inputs@.len() - j,
                {
                    if !self.input_resolves_exec(i, j, fuel - 1) {
                        proof {
                            if resolves(n, i as int, fuel as nat) {
                                lemma_inputs_resolve_prefix(n, i as int, node.inputs@.len() as nat, (j + 1) as nat, f);
                            }
                        }
                        return false;
                    }
                    j = j + 1;
                }
                true
            },
            NodeType::Control(c) => c.handle.is_some() && has_input && self.input_resolves_exec(i, 0, fuel - 1),
            _ => has_input && self.input_resolves_exec(i, 0, fuel - 1),
        }
    }

    /// Computes `input_resolves_within` for input `j` of node `i`.
    fn input_resolves_exec(&self, i: usize, j: usize, fuel: usize) -> (r: bool)
        requires
            ids_unique(self.nodes@),
            i < self.nodes@.len(),
            j < self.nodes@[i as int].inputs@.len(),
        ensures
            r == input_resolves_within(self.nodes@, i as int, j as int, fuel as nat),
        decreases fuel, 1nat, 0nat,
    {
        match self.find(self.nodes[i].inputs[j].id) {
            Some(k) => self.resolves_exec(k, fuel),
            None => false,
        }
    }

    /// Whether node `i` is a control with a valid path to a temperature source.
    pub fn is_valid_control(&self, i: usize) -> (r: bool)
        requires
            ids_unique(self.nodes@),
            i < self.nodes@.len(),
        ensures
            r == (self.nodes@[i as int].node_type is Control && is_valid(self.nodes@, i as int)),
    {
        match &self.nodes[i].node_type {
            NodeType::Control(_) => self.resolves_exec(i, self.nodes.len()),
            _ => false,
        }
    }

    fn root_listed(&self, id: u64) -> (r: bool)
        ensures
            r == self.root_nodes@.contains(id),
    {
        let mut i: usize = 0;
        while i < self.root_nodes.len()
            invariant
                i <= self.root_nodes@.len(),
                forall|k: int| 0 <= k < i ==> self.root_nodes@[k] != id,
            decreases self.root_nodes@.len() - i,
        {
            if self.root_nodes[i] == id {
                return true;
            }
            i = i + 1;
        }
        false
    }

    /// Forces to auto every root control whose validity is `valid`; invalid
    /// ones are also made inactive. A failed write is recorded and the rest
    /// go on.
    fn force_roots_auto<B: HardwareBridge>(&mut self, bridge: &mut Bridge<B>, valid: bool) -> (r: Vec<ModeWrite>)
        requires
            old(self).wf(),
        ensures
            final(self).wf(),
            final(self).root_nodes == old(self).root_nodes,
            final(self).next_id == old(self).next_id,
            forced(old(self).nodes@, final(self).nodes@, old(self).root_nodes@, valid, r@),
            final(bridge).calls@ == old(bridge).calls@ + auto_calls(r@),
    {
        let n = self.nodes.len();
        let mut selected: Vec<bool> = Vec::new();
        let mut i: usize = 0;
        while i < n
            invariant
                n == self.nodes@.len(),
                self.wf(),
                i <= n,
                selected@.len() == i,
                forall|k: int| 0 <= k < i ==> #[trigger] selected@[k] == root_control(self.nodes@, self.root_nodes@, k, valid),
            decreases n - i,
        {
            let pick = match &self.nodes[i].node_type {
                NodeType::Control(_) => self.root_listed(self.nodes[i].id) && self.resolves_exec(i, n) == valid,
                _ => false,
            };
            selected.push(pick);
            i = i + 1;
        }
        let ghost before = self.nodes@;
        let ghost roots = self.root_nodes@;
        let mut log: Vec<ModeWrite> = Vec::new();
        let mut i: usize = 0;
        while i < n
            invariant
                n == self.nodes@.len(),
                before.len() == n,
                before == old(self).nodes@,
                roots == old(self).root_nodes@,
                self.root_nodes == old(self).root_nodes,
                self.next_id == old(self).next_id,
                ids_unique(before),
                i <= n,
                selected@.len() == n,
                forall|k: int| 0 <= k < n ==> #[trigger] selected@[k] == root_control(before, roots, k, valid),
                log@.map_values(|w: ModeWrite| (w.node_id, w.handle)) == auto_writes(before, roots, i as int, valid),
                bridge.calls@ == old(bridge).calls@ + auto_calls(log@),
                forall|k: int| 0 <= k < i ==> #[trigger] self.nodes@[k] == if root_control(before, roots, k, valid) {
                    forced_auto(before[k], !valid)
                } else {
                    before[k]
                },
                forall|k: int| i <= k < n ==> #[trigger] self.nodes@[k] == before[k],
            decreases n - i,
        {
            let ghost log_before = log@;
            if selected[i] {
                let (mode, handle) = match &self.nodes[i].node_type {
                    NodeType::Control(c) => (c.mode, c.handle),
                    _ => (Mode::Auto, None),
                };
                if valid || mode == Mode::Manual {
                    match handle {
                        Some(h) => {
                            let ok = match bridge.set_mode(h, Mode::Auto) {
                                Ok(()) => true,
                                Err(_) => false,
                            };
                            log.push(ModeWrite { node_id: self.nodes[i].id, handle: h, ok });
                            proof {
                                assert(auto_calls(log@) =~= auto_calls(log_before).push(BridgeCall::SetMode(h, Mode::Auto)));
                            }
                        },
                        None => {},
                    }
                }
                match &mut self.nodes[i].node_type {
                    NodeType::Control(c) => {
                        c.mode = Mode::Auto;
                        if !valid {
                            c.active = false;
                        }
                    },
                    _ => {},
                }
            }
            proof {
                assert(log@.map_values(|w: ModeWrite| (w.node_id, w.handle)) =~= auto_writes(before, roots, i as int + 1, valid)) by {
                    if needs_write(before, roots, i as int, valid) {
                        assert(log@ == log_before.push(log@[log@.len() - 1]));
                    } else {
                        assert(log@ == log_before);
                    }
                }
            }
            i = i + 1;
        }
        proof {
            let after = self.nodes@;
            assert forall|a: int| 0 <= a < n implies {
                &&& (#[trigger] after[a]).id == before[a].id
                &&& after[a].name == before[a].name
                &&& after[a].inputs == before[a].inputs
            } by {
                assert(after[a] == if root_control(before, roots, a, valid) {
                    forced_auto(before[a], !valid)
                } else {
                    before[a]
                });
            }
            assert(crate::graph::same_wiring(before, after));
            assert forall|a: int, b: int| 0 <= a < after.len() && 0 <= b < after.len() && a != b implies #[trigger] after[a].id != #[trigger] after[b].id by {
                assert(before[a].id != before[b].id);
            }
            assert forall|a: int, b: int| 0 <= a < after.len() && 0 <= b < after.len() && a != b implies #[trigger] after[a].name@ != #[trigger] after[b].name@ by {
                assert(before[a].name@ != before[b].name@);
            }
            assert forall|a: int, j: int, m: int|
                0 <= a < after.len() && 0 <= j < after[a].inputs@.len() && 0 <= m < after.len() && (#[trigger] after[a].inputs@[j]).id
                    == (#[trigger] after[m]).id implies after[a].inputs@[j].name@ == after[m].name@ by {
                assert(before[a].inputs@[j].id == before[m].id);
            }
            assert forall|a: int| 0 <= a < after.len() implies (#[trigger] after[a]).id < self.next_id by {
                assert(before[a].id == after[a].id);
            }
            assert forall|x: u64| #[trigger] self.root_nodes@.contains(x) <==> crate::graph::is_root(after, x) by {
                crate::graph::lemma_same_wiring_roots(before, after, x);
            }
        }
        log
    }

    /// Forces to auto, and makes inactive, every root control with no valid
    /// path to a temperature source: an unbound fan, a missing input, or a
    /// broken chain. Returns the mode writes issued, one per such control
    /// recorded in manual mode and bound to a fan. A failed write is
    /// reported in the returned log and does not stop the others; the
    /// control is recorded in auto mode either way, so a second pass makes
    /// no write.
    pub fn enforce_invalid_roots_auto<B: HardwareBridge>(&mut self, bridge: &mut Bridge<B>) -> (r: Vec<ModeWrite>)
        requires
            old(self).wf(),
        ensures
            final(self).wf(),
            final(self).root_nodes == old(self).root_nodes,
            final(self).next_id == old(self).next_id,
            forced(old(self).nodes@, final(self).nodes@, old(self).root_nodes@, false, r@),
            final(bridge).calls@ == old(bridge).calls@ + auto_calls(r@),
    {
        self.force_roots_auto(bridge, false)
    }

    /// Forces to auto every valid root control bound to a fan, whatever its
    /// recorded mode, so that no fan keeps the speed of a configuration that
    /// is being left. Returns the mode writes issued.
    pub fn enforce_valid_roots_auto<B: HardwareBridge>(&mut self, bridge: &mut Bridge<B>) -> (r: Vec<ModeWrite>)
        requires
            old(self).wf(),
        ensures
            final(self).wf(),
            final(self).root_nodes == old(self).root_nodes,
            final(self).next_id == old(self).next_id,
            forced(old(self).nodes@, final(self).nodes@, old(self).root_nodes@, true, r@),
            final(bridge).calls@ == old(bridge).calls@ + auto_calls(r@),
    {
        self.force_roots_auto(bridge, true)
    }
    /// Deletes the node with id `id`. A control bound to a fan is first
    /// handed back to the fan's firmware, so that no fan stays at a manual
    /// speed; the write is returned with the node, and a failed one does not
    /// stop the deletion. Inputs that referred to the node are then dropped.
    /// An unknown id is a caller error.
    pub fn delete_node<B: HardwareBridge>(&mut self, id: u64, bridge: &mut Bridge<B>) -> (r: Result<(Node, Option<ModeWrite>), GraphError>)
        requires
            old(self).wf(),
        ensures
            final(self).wf(),
            r is Err <==> !has_id(old(self).nodes@, id),
            r is Err ==> r == Err::<(Node, Option<ModeWrite>), GraphError>(GraphError::InvariantViolation)
                && final(self).nodes@ == old(self).nodes@ && final(self).root_nodes@ == old(self).root_nodes@,
            r matches Ok((node, write)) ==> {
                &&& node == old(self).nodes@[index_of(old(self).nodes@, id).unwrap()]
                &&& final(self).nodes@.len() == old(self).nodes@.len() - 1
                &&& !has_id(final(self).nodes@, id)
                &&& !crate::graph::is_referenced(final(self).nodes@, id)
                &&& (write is Some <==> node.node_type is Control && node.node_type->Control_0.handle is Some)
                &&& (write matches Some(w) ==> w.node_id == id && Some(w.handle) == node.node_type->Control_0.handle)
                &&& final(bridge).calls@ == old(bridge).calls@ + match write {
                    Some(w) => seq![BridgeCall::SetMode(w.handle, Mode::Auto)],
                    None => Seq::empty(),
                }
                &&& remaining_after_delete(old(self).nodes@.remove(index_of(old(self).nodes@, id).unwrap()), final(self).nodes@)
            },
            r is Err ==> final(bridge).calls@ == old(bridge).calls@,
    {
        let k = match self.find(id) {
            Some(k) => k,
            None => {
                return Err(GraphError::InvariantViolation);
            },
        };
        let write = match &self.nodes[k].node_type {
            NodeType::Control(c) => match c.handle {
                Some(h) => {
                    let ok = match bridge.set_mode(h, Mode::Auto) {
                        Ok(()) => true,
                        Err(_) => false,
                    };
                    Some(ModeWrite { node_id: id, handle: h, ok })
                },
                None => None,
            },
            _ => None,
        };
        let node = match self.remove_node(id) {
            Some(node) => node,
            None => {
                return Err(GraphError::InvariantViolation);
            },
        };
        let ghost mid = self.nodes@;
        proof {
            assert(!has_id(mid, id)) by {
                if has_id(mid, id) {
                    let m = choose|m: int| 0 <= m < mid.len() && (#[trigger] mid[m]).id == id;
                    let m0 = if m < k { m } else { m + 1 };
                    assert(mid[m] == old(self).nodes@[m0]);
                    assert(old(self).nodes@[m0].id != old(self).nodes@[k as int].id);
                }
            }
        }
        self.sanitize_inputs(false);
        proof {
            let after = self.nodes@;
            crate::graph::lemma_same_ids(after, mid, id);
            assert forall|a: int, j: int| 0 <= a < after.len() && 0 <= j < after[a].inputs@.len() implies (#[trigger] after[a].inputs@[j]).id != id
                && has_id(after, after[a].inputs@[j].id) by {
                crate::graph::lemma_kept_inputs_from(mid, mid[a].inputs@, crate::node::max_inputs(crate::node::kind_of(mid[a].node_type)), mid[a].id, false);
                crate::graph::lemma_same_ids(after, mid, after[a].inputs@[j].id);
            }
            assert(remaining_after_delete(mid, after));
            match write {
                Some(w) => {
                    assert(bridge.calls@ =~= old(bridge).calls@ + seq![BridgeCall::SetMode(w.handle, Mode::Auto)]);
                },
                None => {
                    assert(bridge.calls@ =~= old(bridge).calls@ + Seq::<BridgeCall>::empty());
                },
            }
        }
        Ok((node, write))
    }
    /// Runs one tick unless one is in flight, as `busy` says: refreshes the
    /// hardware, then evaluates and writes as `evaluate_all` does. `busy` is
    /// set while the tick runs and cleared when it ends, however it ends.
    pub fn tick<B: HardwareBridge>(&mut self, busy: &mut bool, bridge: &mut Bridge<B>) -> (r: TickOutcome)
        requires
            old(self).wf(),
        ensures
            final(self).wf(),
            final(self).root_nodes == old(self).root_nodes,
            final(self).next_id == old(self).next_id,
            *final(busy) == *old(busy),
            *old(busy) <==> r is Skipped,
            r is Skipped ==> final(self).nodes@ == old(self).nodes@ && final(bridge).calls@ == old(bridge).calls@,
            r is RefreshFailed ==> final(self).nodes@ == old(self).nodes@ && final(bridge).calls@ == old(bridge).calls@.push(
                BridgeCall::Refresh,
            ),
            r matches TickOutcome::Done(count) ==> tick_result(
                old(self).nodes@,
                final(self).nodes@,
                old(bridge).calls@.push(BridgeCall::Refresh),
                final(bridge).calls@,
                Ok(count),
            ),
            r matches TickOutcome::Failed(e) ==> tick_result(
                old(self).nodes@,
                final(self).nodes@,
                old(bridge).calls@.push(BridgeCall::Refresh),
                final(bridge).calls@,
                Err(e),
            ),
    {
        if *busy {
            return TickOutcome::Skipped;
        }
        *busy = true;
        let r = match bridge.refresh() {
            Err(e) => TickOutcome::RefreshFailed(e),
            Ok(()) => match self.evaluate_all(bridge) {
                Ok(count) => TickOutcome::Done(count),
                Err(e) => TickOutcome::Failed(e),
            },
        };
        *busy = false;
        r
    }
}

} // verus!
