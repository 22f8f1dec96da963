use vstd::prelude::*;

use crate::curve::{Coord, Graph};
use crate::edit::{HardwareItem, HardwareKind, resolve_handle};
use crate::graph::{AppGraph, GraphError};
use crate::update::{auto_calls, auto_writes, forced, Bridge, HardwareBridge, ModeWrite};
use crate::node::{Control, HardwareRef, Mode, Node, NodeInput, NodeType};

verus! {

/// The saved form of one node: its name, its parameters without runtime
/// state, and its inputs by name.
#[derive(Debug, Clone)]
pub struct NodeConfig {
    pub name: String,
    pub inputs: Vec<String>,
    pub node_type: NodeType,
}

/// The saved form of a graph.
#[derive(Debug, Clone)]
pub struct Config {
    pub nodes: Vec<NodeConfig>,
}

/// `r` holds the static parameters of `t`: no hardware handle, and a
/// control in auto mode.
pub open spec fn static_of(t: NodeType, r: NodeType) -> bool {
    match t {
        NodeType::Control(c) => r matches NodeType::Control(d) && d.hardware_id == c.hardware_id && d.handle is None
            && d.mode == Mode::Auto && d.active == c.active,
        NodeType::Temp(h) => r matches NodeType::Temp(g) && g.hardware_id == h.hardware_id && g.handle is None,
        NodeType::Fan(h) => r matches NodeType::Fan(g) && g.hardware_id == h.hardware_id && g.handle is None,
        NodeType::Graph(a) => r matches NodeType::Graph(b) && b.coords@ == a.coords@,
        NodeType::Flat(a) => r == NodeType::Flat(a),
        NodeType::Linear(a) => r == NodeType::Linear(a),
        NodeType::Target(a) => r == NodeType::Target(a),
        NodeType::CustomTemp(a) => r == NodeType::CustomTemp(a),
    }
}

/// `r` is the static `t` bound to the live inventory: every hardware id is
/// looked up again, and one with no live match leaves the node unbound.
pub open spec fn bound_to(t: NodeType, inv: Seq<HardwareItem>, r: NodeType) -> bool {
    match t {
        NodeType::Control(c) => r matches NodeType::Control(d) && d.hardware_id == c.hardware_id
            && d.handle == resolve_handle(inv, HardwareKind::Control, c.hardware_id) && d.mode == Mode::Auto
            && d.active == c.active,
        NodeType::Temp(h) => r matches NodeType::Temp(g) && g.hardware_id == h.hardware_id
            && g.handle == resolve_handle(inv, HardwareKind::Temp, h.hardware_id),
        NodeType::Fan(h) => r matches NodeType::Fan(g) && g.hardware_id == h.hardware_id
            && g.handle == resolve_handle(inv, HardwareKind::Fan, h.hardware_id),
        NodeType::Graph(a) => r matches NodeType::Graph(b) && b.coords@ == a.coords@,
        _ => r == t,
    }
}

fn copy_text(s: &Option<String>) -> (r: Option<String>)
    ensures
        r == *s,
{
    match s {
        Some(x) => Some(x.clone()),
        None => None,
    }
}

fn copy_curve(g: &Graph) -> (r: Graph)
    ensures
        r.coords@ == g.coords@,
{
    let mut coords: Vec<Coord> = Vec::new();
    let mut i: usize = 0;
    while i < g.coords.len()
        invariant
            i <= g.coords@.len(),
            coords@ == g.coords@.subrange(0, i as int),
        decreases g.coords@.len() - i,
    {
        coords.push(g.coords[i]);
        proof {
            assert(coords@ =~= g.coords@.subrange(0, i as int + 1));
        }
        i = i + 1;
    }
    assert(coords@ =~= g.coords@);
    Graph { coords }
}

/// The static parameters of `t`.
fn static_copy(t: &NodeType) -> (r: NodeType)
    ensures
        static_of(*t, r),
{
    match t {
        NodeType::Control(c) => NodeType::Control(
            Control { hardware_id: copy_text(&c.hardware_id), handle: None, mode: Mode::Auto, active: c.active },
        ),
        NodeType::Temp(h) => NodeType::Temp(HardwareRef { hardware_id: copy_text(&h.hardware_id), handle: None }),
        NodeType::Fan(h) => NodeType::Fan(HardwareRef { hardware_id: copy_text(&h.hardware_id), handle: None }),
        NodeType::Graph(g) => NodeType::Graph(copy_curve(g)),
        NodeType::Flat(a) => NodeType::Flat(*a),
        NodeType::Linear(a) => NodeType::Linear(*a),
        NodeType::Target(a) => NodeType::Target(*a),
        NodeType::CustomTemp(a) => NodeType::CustomTemp(*a),
    }
}

/// A saved node type bound to the live inventory.
fn bind(t: &NodeType, inv: &Vec<HardwareItem>) -> (r: NodeType)
    ensures
        bound_to(*t, inv@, r),
{
    match t {
        NodeType::Control(c) => NodeType::Control(
            Control {
                hardware_id: copy_text(&c.hardware_id),
                handle: crate::edit::find_hardware(inv, HardwareKind::Control, &c.hardware_id),
                mode: Mode::Auto,
                active: c.active,
            },
        ),
        NodeType::Temp(h) => NodeType::Temp(
            HardwareRef {
                hardware_id: copy_text(&h.hardware_id),
                handle: crate::edit::find_hardware(inv, HardwareKind::Temp, &h.hardware_id),
            },
        ),
        NodeType::Fan(h) => NodeType::Fan(
            HardwareRef {
                hardware_id: copy_text(&h.hardware_id),
                handle: crate::edit::find_hardware(inv, HardwareKind::Fan, &h.hardware_id),
            },
        ),
        NodeType::Graph(g) => NodeType::Graph(copy_curve(g)),
        NodeType::Flat(a) => NodeType::Flat(*a),
        NodeType::Linear(a) => NodeType::Linear(*a),
        NodeType::Target(a) => NodeType::Target(*a),
        NodeType::CustomTemp(a) => NodeType::CustomTemp(*a),
    }
}

/// The index of the first saved node named `name`.
pub open spec fn config_index(c: Seq<NodeConfig>, name: Seq<char>) -> Option<int> {
    if exists|m: int| 0 <= m < c.len() && (#[trigger] c[m]).name@ == name {
        Some(choose|m: int| 0 <= m < c.len() && (#[trigger] c[m]).name@ == name)
    } else {
        None
    }
}

/// Some name of `names` is `x`.
pub open spec fn named_in(names: Seq<String>, x: Seq<char>) -> bool {
    exists|p: int| 0 <= p < names.len() && (#[trigger] names[p])@ == x
}

/// `x` refers, by id and name, to the saved node `m` that receives the id
/// `base + m`.
pub open spec fn refers_to_saved(x: NodeInput, c: Seq<NodeConfig>, base: u64) -> bool {
    exists|m: int| 0 <= m < c.len() && x.id == base + m && x.name@ == (#[trigger] c[m]).name@
}

/// The inputs named by `names`, in order, each wired to the saved node of
/// that name, which receives the id `base` plus its index; a name of no
/// saved node is dropped.
pub open spec fn resolved_inputs(c: Seq<NodeConfig>, names: Seq<String>, base: u64) -> Seq<NodeInput>
    decreases names.len(),
{
    if names.len() == 0 {
        Seq::empty()
    } else {
        let r = resolved_inputs(c, names.drop_last(), base);
        match config_index(c, names.last()@) {
            Some(m) => r.push(NodeInput { id: (base + m) as u64, name: c[m].name }),
            None => r,
        }
    }
}

/// No two saved nodes share a name.
pub open spec fn config_names_unique(c: Seq<NodeConfig>) -> bool {
    forall|a: int, b: int| 0 <= a < c.len() && 0 <= b < c.len() && a != b ==> #[trigger] c[a].name@ != #[trigger] c[b].name@
}

/// The text of an optional string.
pub open spec fn opt_text(o: Option<String>) -> Option<Seq<char>> {
    match o {
        Some(s) => Some(s@),
        None => None,
    }
}

/// Two node types with the same parameters.
pub open spec fn type_eq(a: NodeType, b: NodeType) -> bool {
    match (a, b) {
        (NodeType::Control(x), NodeType::Control(y)) => opt_text(x.hardware_id) == opt_text(y.hardware_id)
            && x.handle == y.handle && x.mode == y.mode && x.active == y.active,
        (NodeType::Temp(x), NodeType::Temp(y)) => opt_text(x.hardware_id) == opt_text(y.hardware_id) && x.handle == y.handle,
        (NodeType::Fan(x), NodeType::Fan(y)) => opt_text(x.hardware_id) == opt_text(y.hardware_id) && x.handle == y.handle,
        (NodeType::Graph(x), NodeType::Graph(y)) => x.coords@ == y.coords@,
        (NodeType::Flat(x), NodeType::Flat(y)) => x == y,
        (NodeType::Linear(x), NodeType::Linear(y)) => x == y,
        (NodeType::Target(x), NodeType::Target(y)) => x == y,
        (NodeType::CustomTemp(x), NodeType::CustomTemp(y)) => x == y,
        _ => false,
    }
}

/// Two saved nodes with the same name, inputs and parameters.
pub open spec fn node_config_eq(a: NodeConfig, b: NodeConfig) -> bool {
    &&& a.name@ == b.name@
    &&& a.inputs@.len() == b.inputs@.len()
    &&& forall|j: int| 0 <= j < a.inputs@.len() ==> (#[trigger] a.inputs@[j])@ == b.inputs@[j]@
    &&& type_eq(a.node_type, b.node_type)
}

/// Two configurations that save the same graph.
pub open spec fn config_eq(a: Seq<NodeConfig>, b: Seq<NodeConfig>) -> bool {
    &&& a.len() == b.len()
    &&& forall|k: int| 0 <= k < a.len() ==> node_config_eq(#[trigger] a[k], b[k])
}

fn text_eq(a: &Option<String>, b: &Option<String>) -> (r: bool)
    ensures
        r == (opt_text(*a) == opt_text(*b)),
{
    match (a, b) {
        (Some(x), Some(y)) => *x == *y,
        (None, None) => true,
        _ => false,
    }
}

fn curve_eq(a: &Graph, b: &Graph) -> (r: bool)
    ensures
        r == (a.coords@ == b.coords@),
{
    if a.coords.len() != b.coords.len() {
        return false;
    }
    let mut i: usize = 0;
    while i < a.coords.len()
        invariant
            a.coords@.len() == b.coords@.len(),
            i <= a.coords@.len(),
            forall|k: int| 0 <= k < i ==> a.coords@[k] == b.coords@[k],
        decreases a.coords@.len() - i,
    {
        let x = a.coords[i];
        let y = b.coords[i];
        if x.temp != y.temp || x.percent != y.percent {
            return false;
        }
        i = i + 1;
    }
    assert(a.coords@ =~= b.coords@);
    true
}

fn type_equal(a: &NodeType, b: &NodeType) -> (r: bool)
    ensures
        r == type_eq(*a, *b),
{
    match (a, b) {
        (NodeType::Control(x), NodeType::Control(y)) => text_eq(&x.hardware_id, &y.hardware_id) && x.handle == y.handle
            && x.mode == y.mode && x.active == y.active,
        (NodeType::Temp(x), NodeType::Temp(y)) => text_eq(&x.hardware_id, &y.hardware_id) && x.handle == y.handle,
        (NodeType::Fan(x), NodeType::Fan(y)) => text_eq(&x.hardware_id, &y.hardware_id) && x.handle == y.handle,
        (NodeType::Graph(x), NodeType::Graph(y)) => curve_eq(x, y),
        (NodeType::Flat(x), NodeType::Flat(y)) => x.value == y.value,
        (NodeType::Linear(x), NodeType::Linear(y)) => x.min_temp == y.min_temp && x.min_speed == y.min_speed
            && x.max_temp == y.max_temp && x.max_speed == y.max_speed,
        (NodeType::Target(x), NodeType::Target(y)) => x.idle_temp == y.idle_temp && x.idle_speed == y.idle_speed
            && x.load_temp == y.load_temp && x.load_speed == y.load_speed,
        (NodeType::CustomTemp(x), NodeType::CustomTemp(y)) => *x == *y,
        _ => false,
    }
}

fn node_config_equal(a: &NodeConfig, b: &NodeConfig) -> (r: bool)
    ensures
        r == node_config_eq(*a, *b),
{
    if a.name != b.name || a.inputs.len() != b.inputs.len() {
        return false;
    }
    let mut j: usize = 0;
    while j < a.inputs.len()
        invariant
            a.inputs@.len() == b.inputs@.len(),
            j <= a.inputs@.len(),
            forall|q: int| 0 <= q < j ==> (#[trigger] a.inputs@[q])@ == b.inputs@[q]@,
        decreases a.inputs@.len() - j,
    {
        if a.inputs[j] != b.inputs[j] {
            return false;
        }
        j = j + 1;
    }
    type_equal(&a.node_type, &b.node_type)
}

impl Config {
    /// Whether `self` and `other` save the same graph.
    pub fn same_as(&self, other: &Config) -> (r: bool)
        ensures
            r == config_eq(self.nodes@, other.nodes@),
    {
        if self.nodes.len() != other.nodes.len() {
            return false;
        }
        let mut k: usize = 0;
        while k < self.nodes.len()
            invariant
                self.nodes@.len() == other.nodes@.len(),
                k <= self.nodes@.len(),
                forall|q: int| 0 <= q < k ==> node_config_eq(#[trigger] self.nodes@[q], other.nodes@[q]),
            decreases self.nodes@.len() - k,
        {
            if !node_config_equal(&self.nodes[k], &other.nodes[k]) {
                return false;
            }
            k = k + 1;
        }
        true
    }
}

/// Whether, at exit, the graph's configuration must be saved aside: when
/// there is no saved configuration, or it saves another graph.
pub fn must_save_on_exit(saved: Option<&Config>, runtime: &Config) -> (r: bool)
    ensures
        r == match saved {
            Some(c) => !config_eq(c.nodes@, runtime.nodes@),
            None => true,
        },
{
    match saved {
        Some(c) => !c.same_as(runtime),
        None => true,
    }
}

fn find_config(c: &Vec<NodeConfig>, name: &String) -> (r: Option<usize>)
    ensures
        r matches Some(m) ==> m < c@.len() && c@[m as int].name@ == name@,
        r is None ==> forall|m: int| 0 <= m < c@.len() ==> (#[trigger] c@[m]).name@ != name@,
{
    let mut i: usize = 0;
    while i < c.len()
        invariant
            i <= c@.len(),
            forall|m: int| 0 <= m < i ==> (#[trigger] c@[m]).name@ != name@,
        decreases c@.len() - i,
    {
        if c[i].name == *name {
            return Some(i);
        }
        i = i + 1;
    }
    None
}

fn names_distinct(c: &Vec<NodeConfig>) -> (r: bool)
    ensures
        r == config_names_unique(c@),
{
    let mut a: usize = 0;
    while a < c.len()
        invariant
            a <= c@.len(),
            forall|x: int, y: int| 0 <= x < a && 0 <= y < c@.len() && x != y ==> #[trigger] c@[x].name@ != #[trigger] c@[y].name@,
        decreases c@.len() - a,
    {
        let mut b: usize = 0;
        while b < c.len()
            invariant
                a < c@.len(),
                b <= c@.len(),
                forall|x: int, y: int| 0 <= x < a && 0 <= y < c@.len() && x != y ==> #[trigger] c@[x].name@ != #[trigger] c@[y].name@,
                forall|y: int| 0 <= y < b && y != a ==> c@[a as int].name@ != #[trigger] c@[y].name@,
            decreases c@.len() - b,
        {
            if a != b && c[a].name == c[b].name {
                return false;
            }
            b = b + 1;
        }
        proof {
            assert forall|x: int, y: int| 0 <= x < a + 1 && 0 <= y < c@.len() && x != y implies #[trigger] c@[x].name@ != #[trigger] c@[y].name@ by {
                if x == a {
                    assert(c@[a as int].name@ != c@[y].name@);
                }
            }
        }
        a = a + 1;
    }
    true
}

/// `b` is `built`, the saved nodes with their inputs resolved by name,
/// after dropping the inputs beyond each node's arity and those that close a
/// cycle, both judged on `built`.
pub open spec fn wired(built: Seq<Node>, b: Seq<Node>, c: Seq<NodeConfig>, base: u64) -> bool {
    &&& built.len() == c.len()
    &&& b.len() == c.len()
    &&& forall|k: int|
        0 <= k < c.len() ==> {
            &&& (#[trigger] built[k]).id == base + k
            &&& built[k].node_type == b[k].node_type
            &&& built[k].inputs@ == resolved_inputs(c, c[k].inputs@, base)
            &&& b[k].inputs@ == crate::graph::kept_inputs(
                built,
                built[k].inputs@,
                crate::node::max_inputs(crate::node::kind_of(built[k].node_type)),
                built[k].id,
                true,
            )
        }
}

impl AppGraph {
    /// The saved form of the graph: names, static parameters and inputs by
    /// name, without values or hardware handles.
    pub fn export_config(&self) -> (r: Config)
        ensures
            r.nodes@.len() == self.nodes@.len(),
            forall|k: int| 0 <= k < self.nodes@.len() ==> {
                let a = #[trigger] self.nodes@[k];
                let c = r.nodes@[k];
                &&& c.name@ == a.name@
                &&& static_of(a.node_type, c.node_type)
                &&& c.inputs@.len() == a.inputs@.len()
                &&& forall|j: int| 0 <= j < a.inputs@.len() ==> (#[trigger] c.inputs@[j])@ == a.inputs@[j].name@
            },
    {
        let mut nodes: Vec<NodeConfig> = Vec::new();
        let mut k: usize = 0;
        while k < self.nodes.len()
            invariant
                k <= self.nodes@.len(),
                nodes@.len() == k,
                forall|q: int| 0 <= q < k ==> {
                    let a = #[trigger] self.nodes@[q];
                    let c = nodes@[q];
                    &&& c.name@ == a.name@
                    &&& static_of(a.node_type, c.node_type)
                    &&& c.inputs@.len() == a.inputs@.len()
                    &&& forall|j: int| 0 <= j < a.inputs@.len() ==> (#[trigger] c.inputs@[j])@ == a.inputs@[j].name@
                },
            decreases self.nodes@.len() - k,
        {
            let node = &self.nodes[k];
            let mut inputs: Vec<String> = Vec::new();
            let mut j: usize = 0;
            while j < node.inputs.len()
                invariant
                    j <= node.inputs@.len(),
                    inputs@.len() == j,
                    forall|b: int| 0 <= b < j ==> (#[trigger] inputs@[b])@ == node.inputs@[b].name@,
                decreases node.inputs@.len() - j,
            {
                inputs.push(node.inputs[j].name.clone());
                j = j + 1;
            }
            nodes.push(NodeConfig { name: node.name.clone(), inputs, node_type: static_copy(&node.node_type) });
            k = k + 1;
        }
        Config { nodes }
    }
    /// Replaces the nodes by those of `config`, with fresh ids in order,
    /// every hardware id looked up again in the live inventory, and inputs
    /// wired by name; an input naming no saved node is dropped, and so is one
    /// beyond its node's arity or that closes a cycle. Refused with
    /// `Validation` when two saved nodes share a name, and with
    /// `InvariantViolation` when the ids would run out.
    pub fn apply_config(&mut self, config: &Config, inventory: &Vec<HardwareItem>) -> (r: Result<(), GraphError>)
        requires
            old(self).wf(),
        ensures
            final(self).wf(),
            !config_names_unique(config.nodes@) ==> r == Err::<(), GraphError>(GraphError::Validation),
            r is Ok <==> config_names_unique(config.nodes@) && old(self).next_id + config.nodes@.len() <= u64::MAX,
            r is Err ==> crate::graph::unchanged(final(self), old(self)),
            r is Ok ==> final(self).nodes@.len() == config.nodes@.len() && forall|k: int|
                0 <= k < config.nodes@.len() ==> {
                    let c = #[trigger] config.nodes@[k];
                    let a = final(self).nodes@[k];
                    &&& a.id == old(self).next_id + k
                    &&& a.name@ == c.name@
                    &&& a.value is None
                    &&& bound_to(c.node_type, inventory@, a.node_type)
                    &&& forall|j: int| 0 <= j < a.inputs@.len() ==> named_in(c.inputs@, (#[trigger] a.inputs@[j]).name@)
                },
            r is Ok ==> exists|built: Seq<Node>| #[trigger] wired(built, final(self).nodes@, config.nodes@, old(self).next_id),
    {
        if !names_distinct(&config.nodes) {
            return Err(GraphError::Validation);
        }
        let n = config.nodes.len();
        if n as u64 > u64::MAX - self.next_id {
            return Err(GraphError::InvariantViolation);
        }
        let base = self.next_id;
        let ghost c = config.nodes@;
        let mut nodes: Vec<Node> = Vec::new();
        let mut k: usize = 0;
        while k < n
            invariant
                n == c.len(),
                c == config.nodes@,
                config_names_unique(c),
                base as int + n <= u64::MAX,
                k <= n,
                nodes@.len() == k,
                forall|q: int| 0 <= q < k ==> {
                    let a = #[trigger] nodes@[q];
                    &&& a.id == base + q
                    &&& a.name@ == c[q].name@
                    &&& a.value is None
                    &&& bound_to(c[q].node_type, inventory@, a.node_type)
                    &&& a.inputs@ == resolved_inputs(c, c[q].inputs@, base)
                    &&& forall|j: int| 0 <= j < a.inputs@.len() ==> refers_to_saved(#[trigger] a.inputs@[j], c, base)
                    &&& forall|j: int| 0 <= j < a.inputs@.len() ==> named_in(c[q].inputs@, (#[trigger] a.inputs@[j]).name@)
                },
            decreases n - k,
        {
            let cfg = &config.nodes[k];
            let mut inputs: Vec<NodeInput> = Vec::new();
            let mut j: usize = 0;
            while j < cfg.inputs.len()
                invariant
                    n == c.len(),
                    c == config.nodes@,
                    k < n,
                    *cfg == c[k as int],
                    base as int + n <= u64::MAX,
                    j <= cfg.inputs@.len(),
                    config_names_unique(c),
                    inputs@ == resolved_inputs(c, cfg.inputs@.subrange(0, j as int), base),
                    forall|b: int| 0 <= b < inputs@.len() ==> refers_to_saved(#[trigger] inputs@[b], c, base),
                    forall|b: int| 0 <= b < inputs@.len() ==> named_in(c[k as int].inputs@, (#[trigger] inputs@[b]).name@),
                decreases cfg.inputs@.len() - j,
            {
                let ghost pre = cfg.inputs@.subrange(0, j as int + 1);
                assert(pre.drop_last() =~= cfg.inputs@.subrange(0, j as int));
                assert(pre.last() == cfg.inputs@[j as int]);
                match find_config(&config.nodes, &cfg.inputs[j]) {
                    Some(m) => {
                        let ghost before = inputs@;
                        inputs.push(NodeInput { id: base + m as u64, name: config.nodes[m].name.clone() });
                        proof {
                            assert(refers_to_saved(inputs@[before.len() as int], c, base)) by {
                                assert(c[m as int].name@ == inputs@[before.len() as int].name@);
                            }
                            assert(named_in(c[k as int].inputs@, inputs@[before.len() as int].name@)) by {
                                assert(c[k as int].inputs@[j as int]@ == inputs@[before.len() as int].name@);
                            }
                            assert forall|b: int| 0 <= b < before.len() implies #[trigger] inputs@[b] == before[b] by {}
                            let name = cfg.inputs@[j as int]@;
                            assert(exists|m2: int| 0 <= m2 < c.len() && (#[trigger] c[m2]).name@ == name) by {
                                assert(c[m as int].name@ == name);
                            }
                            let cm = config_index(c, name).unwrap();
                            assert(cm == m as int) by {
                                if cm != m as int {
                                    assert(c[cm].name@ != c[m as int].name@);
                                }
                            }
                            assert(inputs@ =~= resolved_inputs(c, pre, base));
                        }
                    },
                    None => {
                        assert(config_index(c, cfg.inputs@[j as int]@) is None);
                    },
                }
                j = j + 1;
            }
            assert(cfg.inputs@.subrange(0, j as int) =~= cfg.inputs@);
            let ghost nodes_before = nodes@;
            nodes.push(Node {
                id: base + k as u64,
                name: cfg.name.clone(),
                inputs,
                value: None,
                node_type: bind(&cfg.node_type, inventory),
            });
            proof {
                assert forall|q: int| 0 <= q < k implies #[trigger] nodes@[q] == nodes_before[q] by {}
                assert(nodes@[k as int].inputs@ == inputs@);
                assert(inputs@ == resolved_inputs(c, c[k as int].inputs@, base));
            }
            k = k + 1;
        }
        let ghost built = nodes@;
        proof {
            assert forall|a: int, b: int| 0 <= a < built.len() && 0 <= b < built.len() && a != b implies #[trigger] built[a].id != #[trigger] built[b].id by {}
            assert forall|a: int, b: int| 0 <= a < built.len() && 0 <= b < built.len() && a != b implies #[trigger] built[a].name@ != #[trigger] built[b].name@ by {
                assert(c[a].name@ != c[b].name@);
            }
            assert forall|a: int, j: int, m: int|
                0 <= a < built.len() && 0 <= j < built[a].inputs@.len() && 0 <= m < built.len() && (#[trigger] built[a].inputs@[j]).id
                    == (#[trigger] built[m]).id implies built[a].inputs@[j].name@ == built[m].name@ by {
                let x = built[a].inputs@[j];
                assert(refers_to_saved(x, c, base));
                let m2 = choose|m2: int| 0 <= m2 < c.len() && x.id == base + m2 && x.name@ == (#[trigger] c[m2]).name@;
                assert(m2 == m);
            }
        }
        self.nodes = nodes;
        self.next_id = base + n as u64;
        self.recompute_roots();
        self.sanitize_inputs(true);
        proof {
            let after = self.nodes@;
            assert(wired(built, after, c, base));
            assert forall|k: int| 0 <= k < c.len() implies {
                let cf = #[trigger] c[k];
                let a = after[k];
                &&& a.id == base + k
                &&& a.name@ == cf.name@
                &&& a.value is None
                &&& bound_to(cf.node_type, inventory@, a.node_type)
                &&& forall|j: int|
                    0 <= j < a.inputs@.len() ==> exists|q: int|
                        0 <= q < cf.inputs@.len() && (#[trigger] cf.inputs@[q])@ == (#[trigger] a.inputs@[j]).name@
            } by {
                let b = built[k];
                assert(b.id == base + k && b.name@ == c[k].name@ && b.value is None && bound_to(c[k].node_type, inventory@, b.node_type));
                assert(after[k].id == b.id && after[k].name == b.name && after[k].value == b.value && after[k].node_type == b.node_type);
                crate::graph::lemma_kept_inputs_from(built, b.inputs@, crate::node::max_inputs(crate::node::kind_of(b.node_type)), b.id, true);
                assert forall|j: int| 0 <= j < after[k].inputs@.len() implies named_in(c[k].inputs@, (#[trigger] after[k].inputs@[j]).name@) by {
                    let x = after[k].inputs@[j];
                    assert(b.inputs@.contains(x));
                    let jj = choose|jj: int| 0 <= jj < b.inputs@.len() && b.inputs@[jj] == x;
                    assert(named_in(c[k].inputs@, b.inputs@[jj].name@));
                }
            }
        }
        Ok(())
    }
    /// Switches to the configuration `config`: first hands every valid root
    /// control's fan back to its firmware, so that no fan keeps the speed of
    /// the configuration being left, then applies `config` as
    /// `apply_config` does. Returns the mode writes issued and the result of
    /// applying.
    pub fn switch_config<B: HardwareBridge>(
        &mut self,
        config: &Config,
        inventory: &Vec<HardwareItem>,
        bridge: &mut Bridge<B>,
    ) -> (r: (Vec<ModeWrite>, Result<(), GraphError>))
        requires
            old(self).wf(),
        ensures
            final(self).wf(),
            r.0@.map_values(|w: ModeWrite| (w.node_id, w.handle)) == auto_writes(
                old(self).nodes@,
                old(self).root_nodes@,
                old(self).nodes@.len() as int,
                true,
            ),
            final(bridge).calls@ == old(bridge).calls@ + auto_calls(r.0@),
            r.1 is Ok <==> config_names_unique(config.nodes@) && old(self).next_id + config.nodes@.len() <= u64::MAX,
            r.1 is Err ==> forced(old(self).nodes@, final(self).nodes@, old(self).root_nodes@, true, r.0@),
            r.1 is Ok ==> exists|built: Seq<Node>| #[trigger] wired(built, final(self).nodes@, config.nodes@, old(self).next_id),
    {
        let log = self.enforce_valid_roots_auto(bridge);
        let applied = self.apply_config(config, inventory);
        (log, applied)
    }
}

} // verus!
