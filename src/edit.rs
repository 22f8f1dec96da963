use vstd::prelude::*;

use crate::graph::{AppGraph, GraphError, has_id, ids_unique, index_of, input_resolves};
use crate::node::{Control, HardwareRef, Mode, Node, NodeInput, NodeKind, NodeType, kind_of, max_inputs};
use crate::update::{Bridge, BridgeCall, HardwareBridge, HardwareError, ModeWrite};

verus! {

/// Node `i` depends on the node with id `target` within `fuel` levels: one of
/// its inputs is that node, or leads to it.
pub open spec fn depends_on(n: Seq<Node>, i: int, target: u64, fuel: nat) -> bool
    decreases fuel, 0nat, 0nat,
{
    if fuel == 0 || !(0 <= i < n.len()) {
        false
    } else {
        some_input_leads(n, i, n[i].inputs@.len() as nat, target, (fuel - 1) as nat)
    }
}

/// One of the first `count` inputs of node `i` leads to `target`.
pub open spec fn some_input_leads(n: Seq<Node>, i: int, count: nat, target: u64, fuel: nat) -> bool
    decreases fuel, 2nat, count,
{
    if count == 0 {
        false
    } else {
        some_input_leads(n, i, (count - 1) as nat, target, fuel) || input_leads(n, i, count - 1, target, fuel)
    }
}

/// Input `j` of node `i` is `target`, or a node that depends on it.
pub open spec fn input_leads(n: Seq<Node>, i: int, j: int, target: u64, fuel: nat) -> bool
    decreases fuel, 1nat, 0nat,
{
    if 0 <= i < n.len() && 0 <= j < n[i].inputs@.len() {
        n[i].inputs@[j].id == target || match index_of(n, n[i].inputs@[j].id) {
            Some(k) => depends_on(n, k, target, fuel),
            None => false,
        }
    } else {
        false
    }
}

/// Wiring node `id` to `input` would close a cycle: `input` is the node
/// itself, or depends on it.
pub open spec fn closes_cycle(n: Seq<Node>, id: u64, input: NodeInput) -> bool {
    input.id == id || match index_of(n, input.id) {
        Some(k) => depends_on(n, k, id, n.len()),
        None => false,
    }
}

/// `input` may be wired into node `id`: it refers to a node of `n` by that
/// node's name, and closes no cycle.
pub open spec fn input_allowed(n: Seq<Node>, id: u64, input: NodeInput) -> bool {
    input_resolves(n, input) && !closes_cycle(n, id, input)
}

/// `b` is `a` with the inputs of node `k` replaced by `inputs`.
pub open spec fn inputs_set(a: Seq<Node>, b: Seq<Node>, k: int, inputs: Seq<NodeInput>) -> bool {
    &&& a.len() == b.len()
    &&& forall|m: int| 0 <= m < a.len() && m != k ==> #[trigger] b[m] == a[m]
    &&& b[k].id == a[k].id
    &&& b[k].name == a[k].name
    &&& b[k].value == a[k].value
    &&& b[k].node_type == a[k].node_type
    &&& b[k].inputs@ == inputs
}

/// `s` without the inputs that refer to `id`.
pub open spec fn without_id(s: Seq<NodeInput>, id: u64) -> Seq<NodeInput>
    decreases s.len(),
{
    if s.len() == 0 {
        Seq::empty()
    } else if s.last().id == id {
        without_id(s.drop_last(), id)
    } else {
        without_id(s.drop_last(), id).push(s.last())
    }
}

proof fn lemma_without_id_from(s: Seq<NodeInput>, id: u64)
    ensures
        forall|j: int| 0 <= j < without_id(s, id).len() ==> s.contains(#[trigger] without_id(s, id)[j]),
    decreases s.len(),
{
    if s.len() > 0 {
        let r = without_id(s.drop_last(), id);
        lemma_without_id_from(s.drop_last(), id);
        assert forall|j: int| 0 <= j < without_id(s, id).len() implies s.contains(#[trigger] without_id(s, id)[j]) by {
            if j < r.len() {
                assert(s.drop_last().contains(r[j]));
                let q = choose|q: int| 0 <= q < s.drop_last().len() && s.drop_last()[q] == r[j];
                assert(s[q] == r[j]);
            } else {
                assert(s[s.len() - 1] == s.last());
            }
        }
    }
}

/// One item of the live hardware inventory.
#[derive(Debug, Clone)]
pub struct HardwareItem {
    pub hardware_id: String,
    pub kind: HardwareKind,
}

/// What a hardware item is.
#[derive(Debug, Clone, Copy, PartialEq, Eq, Structural)]
pub enum HardwareKind {
    Temp,
    Fan,
    Control,
}

/// The index of the first item of kind `kind` with the id `hw`.
pub open spec fn lookup(inv: Seq<HardwareItem>, kind: HardwareKind, hw: Seq<char>) -> Option<usize>
    decreases inv.len(),
{
    if inv.len() == 0 {
        None
    } else {
        match lookup(inv.drop_last(), kind, hw) {
            Some(i) => Some(i),
            None => if inv.last().kind == kind && inv.last().hardware_id@ == hw {
                Some((inv.len() - 1) as usize)
            } else {
                None
            },
        }
    }
}

/// The handle a hardware id resolves to in the inventory; none for no id,
/// and for an id with no live match.
pub open spec fn resolve_handle(inv: Seq<HardwareItem>, kind: HardwareKind, hw: Option<String>) -> Option<usize> {
    match hw {
        Some(h) => lookup(inv, kind, h@),
        None => None,
    }
}

/// `t` bound to `hw` at `handle`; a control is also put back to auto when
/// `auto`.
pub open spec fn rebound(t: NodeType, hw: Option<String>, handle: Option<usize>, auto: bool) -> NodeType {
    match t {
        NodeType::Control(c) => NodeType::Control(
            Control { hardware_id: hw, handle: handle, mode: if auto { Mode::Auto } else { c.mode }, ..c },
        ),
        NodeType::Fan(_) => NodeType::Fan(HardwareRef { hardware_id: hw, handle: handle }),
        NodeType::Temp(_) => NodeType::Temp(HardwareRef { hardware_id: hw, handle: handle }),
        _ => t,
    }
}

/// Parameters a node may take: a linear node's temperatures increase, and
/// a curve is sorted with unique temperatures.
pub open spec fn params_valid(t: NodeType) -> bool {
    match t {
        NodeType::Linear(l) => l.min_temp < l.max_temp,
        NodeType::Graph(g) => g.wf(),
        _ => true,
    }
}

/// `b` is `a` with the type of node `k` replaced by `t`.
pub open spec fn type_set(a: Seq<Node>, b: Seq<Node>, k: int, t: NodeType) -> bool {
    &&& a.len() == b.len()
    &&& forall|m: int| 0 <= m < a.len() && m != k ==> #[trigger] b[m] == a[m]
    &&& b[k].id == a[k].id
    &&& b[k].name == a[k].name
    &&& b[k].value == a[k].value
    &&& b[k].inputs == a[k].inputs
    &&& b[k].node_type == t
}

pub(crate) fn find_hardware(inv: &Vec<HardwareItem>, kind: HardwareKind, hw: &Option<String>) -> (r: Option<usize>)
    ensures
        r == resolve_handle(inv@, kind, *hw),
{
    let h = match hw {
        Some(h) => h,
        None => {
            return None;
        },
    };
    let mut i: usize = 0;
    while i < inv.len()
        invariant
            i <= inv@.len(),
            *hw == Some(*h),
            lookup(inv@.subrange(0, i as int), kind, h@) is None,
        decreases inv@.len() - i,
    {
        let ghost pre = inv@.subrange(0, i as int + 1);
        assert(pre.drop_last() =~= inv@.subrange(0, i as int));
        if inv[i].kind == kind && inv[i].hardware_id == *h {
            proof {
                assert(pre.last() == inv@[i as int]);
                assert(lookup(pre, kind, h@) == Some(i));
                lemma_lookup_prefix(inv@, (i + 1) as nat, kind, h@);
            }
            return Some(i);
        }
        i = i + 1;
    }
    assert(inv@.subrange(0, i as int) =~= inv@);
    None
}

proof fn lemma_lookup_prefix(inv: Seq<HardwareItem>, p: nat, kind: HardwareKind, hw: Seq<char>)
    requires
        p <= inv.len(),
        lookup(inv.subrange(0, p as int), kind, hw) is Some,
    ensures
        lookup(inv, kind, hw) == lookup(inv.subrange(0, p as int), kind, hw),
    decreases inv.len(),
{
    if p < inv.len() {
        assert(inv.drop_last().subrange(0, p as int) =~= inv.subrange(0, p as int));
        lemma_lookup_prefix(inv.drop_last(), p, kind, hw);
    } else {
        assert(inv.subrange(0, p as int) =~= inv);
    }
}

proof fn lemma_some_input_leads_grows(n: Seq<Node>, i: int, c1: nat, c2: nat, target: u64, fuel: nat)
    requires
        c1 <= c2,
        some_input_leads(n, i, c1, target, fuel),
    ensures
        some_input_leads(n, i, c2, target, fuel),
    decreases c2,
{
    if c1 < c2 {
        lemma_some_input_leads_grows(n, i, c1, (c2 - 1) as nat, target, fuel);
    }
}

impl AppGraph {
    fn depends_on_exec(&self, i: usize, target: u64, fuel: usize) -> (r: bool)
        requires
            ids_unique(self.nodes@),
            i < self.nodes@.len(),
        ensures
            r == depends_on(self.nodes@, i as int, target, fuel as nat),
        decreases fuel, 0nat, 0nat,
    {
        if fuel == 0 {
            return false;
        }
        let ghost n = self.nodes@;
        let ghost f: nat = ((fuel as nat) - 1) as nat;
        let count = self.nodes[i].inputs.len();
        let mut j: usize = 0;
        while j < count
            invariant
                ids_unique(self.nodes@),
                n == self.nodes@,
                i < n.len(),
                fuel > 0,
                f == (fuel - 1) as nat,
                count == n[i as int].inputs@.len(),
                j <= count,
                !some_input_leads(n, i as int, j as nat, target, f),
            decreases count - j,
        {
            if self.input_leads_exec(i, j, target, fuel - 1) {
                proof {
                    lemma_some_input_leads_grows(n, i as int, (j + 1) as nat, count as nat, target, f);
                }
                return true;
            }
            j = j + 1;
        }
        false
    }

    fn input_leads_exec(&self, i: usize, j: usize, target: u64, fuel: usize) -> (r: bool)
        requires
            ids_unique(self.nodes@),
            i < self.nodes@.len(),
            j < self.nodes@[i as int].inputs@.len(),
        ensures
            r == input_leads(self.nodes@, i as int, j as int, target, fuel as nat),
        decreases fuel, 1nat, 0nat,
    {
        let id = self.nodes[i].inputs[j].id;
        if id == target {
            return true;
        }
        match self.find(id) {
            Some(k) => self.depends_on_exec(k, target, fuel),
            None => false,
        }
    }

    /// Whether wiring node `id` to `input` closes a cycle.
    pub(crate) fn closes_cycle_exec(&self, id: u64, input: &NodeInput) -> (r: bool)
        requires
            ids_unique(self.nodes@),
        ensures
            r == closes_cycle(self.nodes@, id, *input),
    {
        if input.id == id {
            return true;
        }
        match self.find(input.id) {
            Some(k) => self.depends_on_exec(k, id, self.nodes.len()),
            None => false,
        }
    }

    /// Whether wiring node `id` to `input` is allowed.
    fn input_allowed_exec(&self, id: u64, input: &NodeInput) -> (r: bool)
        requires
            ids_unique(self.nodes@),
        ensures
            r == input_allowed(self.nodes@, id, *input),
    {
        if input.id == id {
            return false;
        }
        match self.find(input.id) {
            Some(k) => {
                if self.nodes[k].name != input.name {
                    proof {
                        assert forall|m: int| 0 <= m < self.nodes@.len() && (#[trigger] self.nodes@[m]).id == input.id
                            implies self.nodes@[m].name@ != input.name@ by {
                            if m != k as int {
                                assert(self.nodes@[m].id != self.nodes@[k as int].id);
                            }
                        }
                    }
                    return false;
                }
                !self.depends_on_exec(k, id, self.nodes.len())
            },
            None => false,
        }
    }

    /// Replaces the inputs of node `k` by inputs that each refer to a node
    /// of the graph by its name.
    fn set_inputs(&mut self, k: usize, inputs: Vec<NodeInput>)
        requires
            old(self).wf(),
            k < old(self).nodes@.len(),
            forall|j: int| 0 <= j < inputs@.len() ==> input_resolves(old(self).nodes@, #[trigger] inputs@[j])
                || !has_id(old(self).nodes@, inputs@[j].id),
        ensures
            final(self).wf(),
            final(self).next_id == old(self).next_id,
            inputs_set(old(self).nodes@, final(self).nodes@, k as int, inputs@),
    {
        let ghost before = self.nodes@;
        let ghost new_inputs = inputs@;
        self.nodes[k].inputs = inputs;
        proof {
            let after = self.nodes@;
            assert forall|a: int| 0 <= a < after.len() implies (#[trigger] after[a]).id == before[a].id
                && after[a].name == before[a].name by {}
            assert forall|a: int, b: int| 0 <= a < after.len() && 0 <= b < after.len() && a != b implies #[trigger] after[a].id != #[trigger] after[b].id by {
                assert(before[a].id != before[b].id);
            }
            assert forall|a: int, b: int| 0 <= a < after.len() && 0 <= b < after.len() && a != b implies #[trigger] after[a].name@ != #[trigger] after[b].name@ by {
                assert(before[a].name@ != before[b].name@);
            }
            assert forall|a: int, j: int, m: int|
                0 <= a < after.len() && 0 <= j < after[a].inputs@.len() && 0 <= m < after.len() && (#[trigger] after[a].inputs@[j]).id
                    == (#[trigger] after[m]).id implies after[a].inputs@[j].name@ == after[m].name@ by {
                if a == k as int {
                    assert(before[m].id == new_inputs[j].id);
                    assert(input_resolves(before, new_inputs[j]));
                    let m2 = choose|m2: int| 0 <= m2 < before.len() && (#[trigger] before[m2]).id == new_inputs[j].id
                        && before[m2].name@ == new_inputs[j].name@;
                    if m2 != m {
                        assert(before[m2].id != before[m].id);
                    }
                } else {
                    assert(before[a].inputs@[j].id == before[m].id);
                }
            }
            assert forall|a: int| 0 <= a < after.len() implies (#[trigger] after[a]).id < self.next_id by {
                assert(before[a].id == after[a].id);
            }
        }
        self.recompute_roots();
    }

    /// Wires a single-input node (control, graph, linear, target) to `input`,
    /// or unwires it. Refused with `InvariantViolation` for an unknown id;
    /// with `Validation` for a node of another kind, or for an input that
    /// does not refer to a node of the graph by its name, or closes a cycle.
    pub fn replace_input(&mut self, id: u64, input: Option<NodeInput>) -> (r: Result<(), GraphError>)
        requires
            old(self).wf(),
        ensures
            final(self).wf(),
            final(self).next_id == old(self).next_id,
            !has_id(old(self).nodes@, id) ==> r == Err::<(), GraphError>(GraphError::InvariantViolation),
            r is Ok <==> has_id(old(self).nodes@, id) && max_inputs(kind_of(old(self).nodes@[index_of(old(self).nodes@, id).unwrap()].node_type)) == Some(1nat)
                && (input matches Some(x) ==> input_allowed(old(self).nodes@, id, x)),
            r is Err ==> final(self).nodes@ == old(self).nodes@ && final(self).root_nodes@ == old(self).root_nodes@,
            r is Ok ==> inputs_set(
                old(self).nodes@,
                final(self).nodes@,
                index_of(old(self).nodes@, id).unwrap(),
                match input {
                    Some(x) => seq![x],
                    None => Seq::empty(),
                },
            ),
    {
        let k = match self.find(id) {
            Some(k) => k,
            None => {
                return Err(GraphError::InvariantViolation);
            },
        };
        match self.nodes[k].node_type.kind().max_inputs() {
            Some(m) => {
                if m != 1 {
                    return Err(GraphError::Validation);
                }
            },
            None => {
                return Err(GraphError::Validation);
            },
        }
        let mut inputs: Vec<NodeInput> = Vec::new();
        match input {
            Some(x) => {
                if !self.input_allowed_exec(id, &x) {
                    return Err(GraphError::Validation);
                }
                inputs.push(x);
            },
            None => {},
        }
        proof {
            assert(inputs@ =~= match input {
                Some(x) => seq![x],
                None => Seq::<NodeInput>::empty(),
            });
        }
        self.set_inputs(k, inputs);
        Ok(())
    }

    /// Adds `input` to a custom-temperature node. Refused as `replace_input`
    /// refuses, for a node of another kind.
    pub fn add_input(&mut self, id: u64, input: NodeInput) -> (r: Result<(), GraphError>)
        requires
            old(self).wf(),
        ensures
            final(self).wf(),
            final(self).next_id == old(self).next_id,
            !has_id(old(self).nodes@, id) ==> r == Err::<(), GraphError>(GraphError::InvariantViolation),
            r is Ok <==> has_id(old(self).nodes@, id) && kind_of(old(self).nodes@[index_of(old(self).nodes@, id).unwrap()].node_type) == NodeKind::CustomTemp
                && input_allowed(old(self).nodes@, id, input),
            r is Err ==> final(self).nodes@ == old(self).nodes@ && final(self).root_nodes@ == old(self).root_nodes@,
            r is Ok ==> inputs_set(
                old(self).nodes@,
                final(self).nodes@,
                index_of(old(self).nodes@, id).unwrap(),
                old(self).nodes@[index_of(old(self).nodes@, id).unwrap()].inputs@.push(input),
            ),
    {
        let k = match self.find(id) {
            Some(k) => k,
            None => {
                return Err(GraphError::InvariantViolation);
            },
        };
        if self.nodes[k].node_type.kind() != NodeKind::CustomTemp || !self.input_allowed_exec(id, &input) {
            return Err(GraphError::Validation);
        }
        let mut inputs: Vec<NodeInput> = Vec::new();
        let mut j: usize = 0;
        let ghost old_inputs = self.nodes@[k as int].inputs@;
        while j < self.nodes[k].inputs.len()
            invariant
                self.wf(),
                k < self.nodes@.len(),
                old_inputs == self.nodes@[k as int].inputs@,
                j <= old_inputs.len(),
                inputs@ == old_inputs.subrange(0, j as int),
            decreases old_inputs.len() - j,
        {
            let x = &self.nodes[k].inputs[j];
            inputs.push(NodeInput { id: x.id, name: x.name.clone() });
            proof {
                assert(inputs@ =~= old_inputs.subrange(0, j as int + 1));
            }
            j = j + 1;
        }
        inputs.push(input);
        proof {
            let n = self.nodes@;
            assert(inputs@ =~= old_inputs.push(input));
            assert forall|j: int| 0 <= j < inputs@.len() implies input_resolves(n, #[trigger] inputs@[j])
                || !has_id(n, inputs@[j].id) by {
                if j < old_inputs.len() {
                    let x = old_inputs[j];
                    assert(n[k as int].inputs@[j] == x);
                    if has_id(n, x.id) {
                        let m = choose|m: int| 0 <= m < n.len() && (#[trigger] n[m]).id == x.id;
                        assert(n[k as int].inputs@[j].id == n[m].id);
                    }
                }
            }
        }
        self.set_inputs(k, inputs);
        Ok(())
    }
    /// Removes every input of a custom-temperature node that refers to
    /// `input_id`. Refused with `InvariantViolation` for an unknown id, and
    /// with `Validation` for a node of another kind.
    pub fn remove_input(&mut self, id: u64, input_id: u64) -> (r: Result<(), GraphError>)
        requires
            old(self).wf(),
        ensures
            final(self).wf(),
            final(self).next_id == old(self).next_id,
            !has_id(old(self).nodes@, id) ==> r == Err::<(), GraphError>(GraphError::InvariantViolation),
            r is Ok <==> has_id(old(self).nodes@, id) && kind_of(old(self).nodes@[index_of(old(self).nodes@, id).unwrap()].node_type) == NodeKind::CustomTemp,
            r is Err ==> final(self).nodes@ == old(self).nodes@ && final(self).root_nodes@ == old(self).root_nodes@,
            r is Ok ==> inputs_set(
                old(self).nodes@,
                final(self).nodes@,
                index_of(old(self).nodes@, id).unwrap(),
                without_id(old(self).nodes@[index_of(old(self).nodes@, id).unwrap()].inputs@, input_id),
            ),
    {
        let k = match self.find(id) {
            Some(k) => k,
            None => {
                return Err(GraphError::InvariantViolation);
            },
        };
        if self.nodes[k].node_type.kind() != NodeKind::CustomTemp {
            return Err(GraphError::Validation);
        }
        let mut inputs: Vec<NodeInput> = Vec::new();
        let mut j: usize = 0;
        let ghost old_inputs = self.nodes@[k as int].inputs@;
        while j < self.nodes[k].inputs.len()
            invariant
                self.wf(),
                k < self.nodes@.len(),
                old_inputs == self.nodes@[k as int].inputs@,
                j <= old_inputs.len(),
                inputs@ == without_id(old_inputs.subrange(0, j as int), input_id),
            decreases old_inputs.len() - j,
        {
            let ghost pre = old_inputs.subrange(0, j as int + 1);
            assert(pre.drop_last() =~= old_inputs.subrange(0, j as int));
            let x = &self.nodes[k].inputs[j];
            if x.id != input_id {
                inputs.push(NodeInput { id: x.id, name: x.name.clone() });
            }
            j = j + 1;
        }
        proof {
            let n = self.nodes@;
            assert(old_inputs.subrange(0, j as int) =~= old_inputs);
            lemma_without_id_from(old_inputs, input_id);
            assert forall|j: int| 0 <= j < inputs@.len() implies input_resolves(n, #[trigger] inputs@[j])
                || !has_id(n, inputs@[j].id) by {
                let x = inputs@[j];
                assert(old_inputs.contains(x));
                let q = choose|q: int| 0 <= q < old_inputs.len() && old_inputs[q] == x;
                if has_id(n, x.id) {
                    let m = choose|m: int| 0 <= m < n.len() && (#[trigger] n[m]).id == x.id;
                    assert(n[k as int].inputs@[q].id == n[m].id);
                }
            }
        }
        self.set_inputs(k, inputs);
        Ok(())
    }

    /// Turns a control on or off. Refused with `InvariantViolation` for an
    /// unknown id, and with `Validation` for a node that is not a control.
    pub fn set_control_active(&mut self, id: u64, active: bool) -> (r: Result<(), GraphError>)
        requires
            old(self).wf(),
        ensures
            final(self).wf(),
            final(self).root_nodes == old(self).root_nodes,
            final(self).next_id == old(self).next_id,
            !has_id(old(self).nodes@, id) ==> r == Err::<(), GraphError>(GraphError::InvariantViolation),
            r is Ok <==> has_id(old(self).nodes@, id) && old(self).nodes@[index_of(old(self).nodes@, id).unwrap()].node_type is Control,
            r is Err ==> final(self).nodes@ == old(self).nodes@,
            r is Ok ==> ({
                let k = index_of(old(self).nodes@, id).unwrap();
                let c = old(self).nodes@[k].node_type->Control_0;
                type_set(old(self).nodes@, final(self).nodes@, k, NodeType::Control(Control { active: active, ..c }))
            }),
    {
        let k = match self.find(id) {
            Some(k) => k,
            None => {
                return Err(GraphError::InvariantViolation);
            },
        };
        if self.nodes[k].node_type.kind() != NodeKind::Control {
            return Err(GraphError::Validation);
        }
        let ghost before = self.nodes@;
        match &mut self.nodes[k].node_type {
            NodeType::Control(c) => {
                c.active = active;
            },
            _ => {},
        }
        proof {
            self.lemma_type_change_keeps_wf(before, k as int);
        }
        Ok(())
    }

    /// Binds a sensor, fan or control node to the hardware item with the id
    /// `hardware_id`, looked up among the live items of its kind; an id with
    /// no live match leaves the node unbound. A control bound to a fan first
    /// hands that fan back to its firmware; the write is returned, and a
    /// failed one does not stop the change. Refused with
    /// `InvariantViolation` for an unknown id, and with `Validation` for a
    /// node of another kind.
    pub fn change_hardware<B: HardwareBridge>(
        &mut self,
        id: u64,
        hardware_id: Option<String>,
        inventory: &Vec<HardwareItem>,
        bridge: &mut Bridge<B>,
    ) -> (r: Result<Option<ModeWrite>, GraphError>)
        requires
            old(self).wf(),
        ensures
            final(self).wf(),
            final(self).root_nodes == old(self).root_nodes,
            final(self).next_id == old(self).next_id,
            !has_id(old(self).nodes@, id) ==> r == Err::<Option<ModeWrite>, GraphError>(GraphError::InvariantViolation),
            r is Ok <==> has_id(old(self).nodes@, id) && ({
                let t = old(self).nodes@[index_of(old(self).nodes@, id).unwrap()].node_type;
                t is Control || t is Fan || t is Temp
            }),
            r is Err ==> final(self).nodes@ == old(self).nodes@ && final(bridge).calls@ == old(bridge).calls@,
            r matches Ok(write) ==> ({
                let k = index_of(old(self).nodes@, id).unwrap();
                let t = old(self).nodes@[k].node_type;
                let kind = match t {
                    NodeType::Temp(_) => HardwareKind::Temp,
                    NodeType::Fan(_) => HardwareKind::Fan,
                    _ => HardwareKind::Control,
                };
                let handle = resolve_handle(inventory@, kind, hardware_id);
                &&& (write is Some <==> t is Control && t->Control_0.handle is Some)
                &&& (write matches Some(w) ==> w.node_id == id && Some(w.handle) == t->Control_0.handle)
                &&& final(bridge).calls@ == old(bridge).calls@ + match write {
                    Some(w) => seq![BridgeCall::SetMode(w.handle, Mode::Auto)],
                    None => Seq::empty(),
                }
                &&& type_set(
                    old(self).nodes@,
                    final(self).nodes@,
                    k,
                    rebound(t, hardware_id, handle, write matches Some(w) && w.ok),
                )
            }),
    {
        let k = match self.find(id) {
            Some(k) => k,
            None => {
                return Err(GraphError::InvariantViolation);
            },
        };
        let (kind, old_handle) = match &self.nodes[k].node_type {
            NodeType::Temp(_) => (HardwareKind::Temp, None),
            NodeType::Fan(_) => (HardwareKind::Fan, None),
            NodeType::Control(c) => (HardwareKind::Control, c.handle),
            _ => {
                return Err(GraphError::Validation);
            },
        };
        let write = match old_handle {
            Some(h) => {
                let ok = match bridge.set_mode(h, Mode::Auto) {
                    Ok(()) => true,
                    Err(_) => false,
                };
                Some(ModeWrite { node_id: id, handle: h, ok })
            },
            None => None,
        };
        let auto = match write {
            Some(w) => w.ok,
            None => false,
        };
        let handle = find_hardware(inventory, kind, &hardware_id);
        let ghost before = self.nodes@;
        match &mut self.nodes[k].node_type {
            NodeType::Control(c) => {
                c.hardware_id = hardware_id;
                c.handle = handle;
                if auto {
                    c.mode = Mode::Auto;
                }
            },
            NodeType::Fan(f) => {
                f.hardware_id = hardware_id;
                f.handle = handle;
            },
            NodeType::Temp(t) => {
                t.hardware_id = hardware_id;
                t.handle = handle;
            },
            _ => {},
        }
        proof {
            self.lemma_type_change_keeps_wf(before, k as int);
            match write {
                Some(w) => {
                    assert(bridge.calls@ =~= old(bridge).calls@ + seq![BridgeCall::SetMode(w.handle, Mode::Auto)]);
                },
                None => {
                    assert(bridge.calls@ =~= old(bridge).calls@ + Seq::<BridgeCall>::empty());
                },
            }
        }
        Ok(write)
    }

    proof fn lemma_type_change_keeps_wf(&self, before: Seq<Node>, k: int)
        requires
            ids_unique(before),
            crate::graph::names_unique(before),
            crate::graph::names_cached(before),
            forall|a: int| 0 <= a < before.len() ==> (#[trigger] before[a]).id < self.next_id,
            crate::graph::roots_match(before, self.root_nodes@),
            0 <= k < before.len(),
            self.nodes@.len() == before.len(),
            forall|m: int| 0 <= m < before.len() && m != k ==> #[trigger] self.nodes@[m] == before[m],
            self.nodes@[k].id == before[k].id,
            self.nodes@[k].name == before[k].name,
            self.nodes@[k].inputs == before[k].inputs,
        ensures
            self.wf(),
    {
        let after = self.nodes@;
        assert forall|a: int| 0 <= a < after.len() implies {
            &&& (#[trigger] after[a]).id == before[a].id
            &&& after[a].name == before[a].name
            &&& after[a].inputs == before[a].inputs
        } by {
            if a != k {
                assert(after[a] == before[a]);
            }
        }
        assert(crate::graph::same_wiring(before, after));
        assert forall|a: int, b: int| 0 <= a < after.len() && 0 <= b < after.len() && a != b implies #[trigger] after[a].id != #[trigger] after[b].id by {
            assert(before[a].id != before[b].id);
        }
        assert forall|a: int, b: int| 0 <= a < after.len() && 0 <= b < after.len() && a != b implies #[trigger] after[a].name@ != #[trigger] after[b].name@ by {
            assert(before[a].name@ != before[b].name@);
        }
        assert forall|a: int, j: int, m: int|
            0 <= a < after.len() && 0 <= j < after[a].inputs@.len() && 0 <= m < after.len() && (#[trigger] after[a].inputs@[j]).id
                == (#[trigger] after[m]).id implies after[a].inputs@[j].name@ == after[m].name@ by {
            assert(before[a].inputs@[j].id == before[m].id);
        }
        assert forall|a: int| 0 <= a < after.len() implies (#[trigger] after[a]).id < self.next_id by {
            assert(before[a].id == after[a].id);
        }
        assert forall|x: u64| #[trigger] self.root_nodes@.contains(x) <==> crate::graph::is_root(after, x) by {
            crate::graph::lemma_same_wiring_roots(before, after, x);
        }
    }
    /// Replaces the parameters of a computed node (graph, flat, linear,
    /// target, custom temperature) by valid `node_type` of the same kind; a flat
    /// node's value follows its new constant at once. Refused with
    /// `InvariantViolation` for an unknown id, and with `Validation` for a
    /// sensor, fan or control node, a type of another kind, a linear node
    /// whose temperatures do not increase, or an unsorted curve.
    pub fn set_params(&mut self, id: u64, node_type: NodeType) -> (r: Result<(), GraphError>)
        requires
            old(self).wf(),
        ensures
            final(self).wf(),
            final(self).root_nodes == old(self).root_nodes,
            final(self).next_id == old(self).next_id,
            !has_id(old(self).nodes@, id) ==> r == Err::<(), GraphError>(GraphError::InvariantViolation),
            r is Ok <==> has_id(old(self).nodes@, id) && ({
                let t = old(self).nodes@[index_of(old(self).nodes@, id).unwrap()].node_type;
                &&& kind_of(t) == kind_of(node_type)
                &&& !(t is Control || t is Fan || t is Temp)
                &&& params_valid(node_type)
            }),
            r is Err ==> final(self).nodes@ == old(self).nodes@,
            r is Ok ==> ({
                let k = index_of(old(self).nodes@, id).unwrap();
                let a = old(self).nodes@[k];
                let b = final(self).nodes@[k];
                &&& forall|m: int| 0 <= m < old(self).nodes@.len() && m != k ==> #[trigger] final(self).nodes@[m] == old(self).nodes@[m]
                &&& final(self).nodes@.len() == old(self).nodes@.len()
                &&& b.id == a.id && b.name == a.name && b.inputs == a.inputs
                &&& b.node_type == node_type
                &&& b.value == match node_type {
                    NodeType::Flat(f) => Some(f.value as i32),
                    _ => a.value,
                }
            }),
    {
        let k = match self.find(id) {
            Some(k) => k,
            None => {
                return Err(GraphError::InvariantViolation);
            },
        };
        let kind = self.nodes[k].node_type.kind();
        if kind != node_type.kind() || kind == NodeKind::Control || kind == NodeKind::Fan || kind == NodeKind::Temp {
            return Err(GraphError::Validation);
        }
        let valid = match &node_type {
            NodeType::Linear(l) => l.min_temp < l.max_temp,
            NodeType::Graph(g) => g.is_sorted(),
            _ => true,
        };
        if !valid {
            return Err(GraphError::Validation);
        }
        let ghost before = self.nodes@;
        match &node_type {
            NodeType::Flat(f) => {
                self.nodes[k].value = Some(f.value as i32);
            },
            _ => {},
        }
        self.nodes[k].node_type = node_type;
        proof {
            self.lemma_type_change_keeps_wf(before, k as int);
        }
        Ok(())
    }
    /// Switches a control between auto and manual mode: writes `mode` to its
    /// fan, and records it only when the hardware accepted it. Refused with
    /// `InvariantViolation` for an unknown id or a control bound to no fan,
    /// and with `Validation` for a node that is not a control; a refusal
    /// makes no hardware call.
    pub fn set_control_mode<B: HardwareBridge>(&mut self, id: u64, mode: Mode, bridge: &mut Bridge<B>) -> (r: Result<Result<(), HardwareError>, GraphError>)
        requires
            old(self).wf(),
        ensures
            final(self).wf(),
            final(self).root_nodes == old(self).root_nodes,
            final(self).next_id == old(self).next_id,
            !has_id(old(self).nodes@, id) ==> r == Err::<Result<(), HardwareError>, GraphError>(GraphError::InvariantViolation),
            has_id(old(self).nodes@, id) && !(old(self).nodes@[index_of(old(self).nodes@, id).unwrap()].node_type is Control)
                ==> r == Err::<Result<(), HardwareError>, GraphError>(GraphError::Validation),
            r is Ok <==> has_id(old(self).nodes@, id) && ({
                let t = old(self).nodes@[index_of(old(self).nodes@, id).unwrap()].node_type;
                t is Control && t->Control_0.handle is Some
            }),
            r is Err ==> final(self).nodes@ == old(self).nodes@ && final(bridge).calls@ == old(bridge).calls@,
            r matches Ok(written) ==> ({
                let k = index_of(old(self).nodes@, id).unwrap();
                let c = old(self).nodes@[k].node_type->Control_0;
                &&& final(bridge).calls@ == old(bridge).calls@.push(BridgeCall::SetMode(c.handle.unwrap(), mode))
                &&& written is Ok ==> type_set(old(self).nodes@, final(self).nodes@, k, NodeType::Control(Control { mode: mode, ..c }))
                &&& written is Err ==> final(self).nodes@ == old(self).nodes@
            }),
    {
        let k = match self.find(id) {
            Some(k) => k,
            None => {
                return Err(GraphError::InvariantViolation);
            },
        };
        let handle = match &self.nodes[k].node_type {
            NodeType::Control(c) => c.handle,
            _ => {
                return Err(GraphError::Validation);
            },
        };
        let h = match handle {
            Some(h) => h,
            None => {
                return Err(GraphError::InvariantViolation);
            },
        };
        match bridge.set_mode(h, mode) {
            Ok(()) => {},
            Err(e) => {
                return Ok(Err(e));
            },
        }
        let ghost before = self.nodes@;
        match &mut self.nodes[k].node_type {
            NodeType::Control(c) => {
                c.mode = mode;
            },
            _ => {},
        }
        proof {
            self.lemma_type_change_keeps_wf(before, k as int);
        }
        Ok(Ok(()))
    }
}

} // verus!
