use vstd::prelude::*;

use crate::curve::{Graph, Linear, Target};
use crate::edit::closes_cycle;
use crate::node::{
    Control, CustomTempKind, Flat, HardwareRef, Mode, Node, NodeInput, NodeKind, NodeType, kind_of,
};

verus! {

/// Why a graph operation was refused. Nothing was changed.
#[derive(Debug, Clone, Copy, PartialEq, Eq, Structural)]
pub enum GraphError {
    /// A name is already in use, or an input is wired wrongly.
    Validation,
    /// The caller named a node that is not there, or reused an id.
    InvariantViolation,
}

/// Some node of `n` has the id `id`.
pub open spec fn has_id(n: Seq<Node>, id: u64) -> bool {
    exists|k: int| 0 <= k < n.len() && (#[trigger] n[k]).id == id
}

/// Some input of some node of `n` refers to `id`.
pub open spec fn is_referenced(n: Seq<Node>, id: u64) -> bool {
    exists|k: int, j: int|
        0 <= k < n.len() && 0 <= j < n[k].inputs@.len() && (#[trigger] n[k].inputs@[j]).id == id
}

/// A node of `n` on which no other node depends.
pub open spec fn is_root(n: Seq<Node>, id: u64) -> bool {
    has_id(n, id) && !is_referenced(n, id)
}

pub open spec fn ids_unique(n: Seq<Node>) -> bool {
    forall|a: int, b: int| 0 <= a < n.len() && 0 <= b < n.len() && a != b ==> #[trigger] n[a].id != #[trigger] n[b].id
}

pub open spec fn names_unique(n: Seq<Node>) -> bool {
    forall|a: int, b: int|
        0 <= a < n.len() && 0 <= b < n.len() && a != b ==> #[trigger] n[a].name@ != #[trigger] n[b].name@
}

/// Every input that refers to a node of `n` carries that node's name.
pub open spec fn names_cached(n: Seq<Node>) -> bool {
    forall|k: int, j: int, m: int|
        0 <= k < n.len() && 0 <= j < n[k].inputs@.len() && 0 <= m < n.len() && (#[trigger] n[k].inputs@[j]).id
            == (#[trigger] n[m]).id ==> n[k].inputs@[j].name@ == n[m].name@
}

/// The index of the node with id `id`, in a sequence whose ids are unique.
pub open spec fn index_of(n: Seq<Node>, id: u64) -> Option<int> {
    if has_id(n, id) {
        Some(choose|k: int| 0 <= k < n.len() && (#[trigger] n[k]).id == id)
    } else {
        None
    }
}

/// `inp` refers to a node of `n` and carries its name.
pub open spec fn input_resolves(n: Seq<Node>, inp: NodeInput) -> bool {
    exists|m: int| 0 <= m < n.len() && (#[trigger] n[m]).id == inp.id && n[m].name@ == inp.name@
}

/// The node ids, each once, on which no other node depends.
pub open spec fn roots_match(n: Seq<Node>, roots: Seq<u64>) -> bool {
    &&& forall|id: u64| #[trigger] roots.contains(id) <==> is_root(n, id)
    &&& roots.no_duplicates()
}

/// The decimal digits of `n`.
pub open spec fn decimal(n: nat) -> Seq<char>
    decreases n,
{
    if n < 10 {
        "0123456789"@.subrange(n as int, n as int + 1)
    } else {
        decimal(n / 10) + "0123456789"@.subrange((n % 10) as int, (n % 10) as int + 1)
    }
}

/// The word a new node's name starts with.
pub open spec fn kind_label(k: NodeKind) -> Seq<char> {
    match k {
        NodeKind::Control => "Control"@,
        NodeKind::Fan => "Fan"@,
        NodeKind::Temp => "Temp"@,
        NodeKind::Graph => "Graph"@,
        NodeKind::Flat => "Flat"@,
        NodeKind::Linear => "Linear"@,
        NodeKind::Target => "Target"@,
        NodeKind::CustomTemp => "CustomTemp"@,
    }
}

/// Appends the decimal digits of `n`.
fn push_decimal(s: &mut String, n: u64)
    ensures
        final(s)@ == old(s)@ + decimal(n as nat),
    decreases n,
{
    let digits: &str = "0123456789";
    proof {
        reveal_strlit("0123456789");
    }
    if n >= 10 {
        push_decimal(s, n / 10);
    }
    let d: usize = (n % 10) as usize;
    s.append(digits.substring_char(d, d + 1));
    proof {
        if n >= 10 {
            assert(decimal(n as nat) == decimal((n / 10) as nat) + "0123456789"@.subrange(d as int, d as int + 1));
        }
    }
}

fn label(k: NodeKind) -> (r: String)
    ensures
        r@ == kind_label(k),
{
    match k {
        NodeKind::Control => String::from_str("Control"),
        NodeKind::Fan => String::from_str("Fan"),
        NodeKind::Temp => String::from_str("Temp"),
        NodeKind::Graph => String::from_str("Graph"),
        NodeKind::Flat => String::from_str("Flat"),
        NodeKind::Linear => String::from_str("Linear"),
        NodeKind::Target => String::from_str("Target"),
        NodeKind::CustomTemp => String::from_str("CustomTemp"),
    }
}

fn default_node_type(k: NodeKind) -> (r: NodeType)
    ensures
        kind_of(r) == k,
        r matches NodeType::Control(c) ==> c.mode == Mode::Auto && !c.active && c.handle is None,
        r matches NodeType::Graph(g) ==> g.wf(),
        r matches NodeType::Linear(l) ==> l.min_temp < l.max_temp,
{
    match k {
        NodeKind::Control => NodeType::Control(
            Control { hardware_id: None, handle: None, mode: Mode::Auto, active: false },
        ),
        NodeKind::Fan => NodeType::Fan(HardwareRef { hardware_id: None, handle: None }),
        NodeKind::Temp => NodeType::Temp(HardwareRef { hardware_id: None, handle: None }),
        NodeKind::Graph => NodeType::Graph(Graph::new()),
        NodeKind::Flat => NodeType::Flat(Flat { value: 100 }),
        NodeKind::Linear => NodeType::Linear(Linear::new_default()),
        NodeKind::Target => NodeType::Target(Target::new_default()),
        NodeKind::CustomTemp => NodeType::CustomTemp(CustomTempKind::Average),
    }
}

/// The parts of two graphs that structural edits change agree.
pub open spec fn unchanged(a: &AppGraph, b: &AppGraph) -> bool {
    a.nodes@ == b.nodes@ && a.root_nodes@ == b.root_nodes@ && a.next_id == b.next_id
}

/// Two node sequences with the same ids and the same input ids.
pub open spec fn same_wiring(a: Seq<Node>, b: Seq<Node>) -> bool {
    &&& a.len() == b.len()
    &&& forall|k: int| 0 <= k < a.len() ==> (#[trigger] a[k]).id == b[k].id && a[k].inputs@.len() == b[k].inputs@.len()
    &&& forall|k: int, j: int|
        0 <= k < a.len() && 0 <= j < a[k].inputs@.len() ==> (#[trigger] a[k].inputs@[j]).id == b[k].inputs@[j].id
}

/// Nodes with the same wiring have the same ids and the same root nodes.
pub proof fn lemma_same_wiring_roots(a: Seq<Node>, b: Seq<Node>, id: u64)
    requires
        same_wiring(a, b),
    ensures
        has_id(a, id) == has_id(b, id),
        is_referenced(a, id) == is_referenced(b, id),
        is_root(a, id) == is_root(b, id),
{
    if has_id(a, id) {
        let k = choose|k: int| 0 <= k < a.len() && (#[trigger] a[k]).id == id;
        assert(b[k].id == id);
    }
    if has_id(b, id) {
        let k = choose|k: int| 0 <= k < b.len() && (#[trigger] b[k]).id == id;
        assert(a[k].id == id);
    }
    if is_referenced(a, id) {
        let (k, j) = choose|k: int, j: int|
            0 <= k < a.len() && 0 <= j < a[k].inputs@.len() && (#[trigger] a[k].inputs@[j]).id == id;
        assert(b[k].inputs@[j].id == id);
    }
    if is_referenced(b, id) {
        let (k, j) = choose|k: int, j: int|
            0 <= k < b.len() && 0 <= j < b[k].inputs@.len() && (#[trigger] b[k].inputs@[j]).id == id;
        assert(a[k].inputs@[j].id == id);
    }
}

/// `b` is `a` after the node with id `id` was renamed to `name`: its own
/// name and every input that refers to it carry `name`, and nothing else
/// changed.
pub open spec fn renamed_node(a: Node, b: Node, id: u64, name: Seq<char>) -> bool {
    &&& b.id == a.id
    &&& b.value == a.value
    &&& b.node_type == a.node_type
    &&& b.name@ == (if a.id == id { name } else { a.name@ })
    &&& b.inputs@.len() == a.inputs@.len()
    &&& forall|j: int|
        0 <= j < a.inputs@.len() ==> (#[trigger] b.inputs@[j]).id == a.inputs@[j].id && b.inputs@[j].name@ == (
        if a.inputs@[j].id == id {
            name
        } else {
            a.inputs@[j].name@
        })
}

pub open spec fn renamed(a: Seq<Node>, b: Seq<Node>, id: u64, name: Seq<char>) -> bool {
    &&& a.len() == b.len()
    &&& forall|k: int| 0 <= k < a.len() ==> renamed_node(#[trigger] a[k], b[k], id, name)
}

/// The inputs of `s`, held by node `owner`, that refer to a node of `n`
/// and, when `strict`, close no cycle; in order, at most `max` of them when
/// `max` is given.
pub open spec fn kept_inputs(n: Seq<Node>, s: Seq<NodeInput>, max: Option<nat>, owner: u64, strict: bool) -> Seq<NodeInput>
    decreases s.len(),
{
    if s.len() == 0 {
        Seq::empty()
    } else {
        let r = kept_inputs(n, s.drop_last(), max, owner, strict);
        if has_id(n, s.last().id) && !(strict && closes_cycle(n, owner, s.last())) && (max is None || r.len()
            < max.unwrap()) {
            r.push(s.last())
        } else {
            r
        }
    }
}

pub(crate) proof fn lemma_kept_inputs_from(n: Seq<Node>, s: Seq<NodeInput>, max: Option<nat>, owner: u64, strict: bool)
    ensures
        forall|j: int| 0 <= j < kept_inputs(n, s, max, owner, strict).len() ==> s.contains(#[trigger] kept_inputs(n, s, max, owner, strict)[j]),
        forall|j: int| 0 <= j < kept_inputs(n, s, max, owner, strict).len() ==> has_id(n, #[trigger] kept_inputs(n, s, max, owner, strict)[j].id),
        forall|j: int| 0 <= j < kept_inputs(n, s, max, owner, strict).len() ==> !(strict && closes_cycle(n, owner, #[trigger] kept_inputs(n, s, max, owner, strict)[j])),
        max matches Some(m) ==> kept_inputs(n, s, max, owner, strict).len() <= m,
    decreases s.len(),
{
    if s.len() > 0 {
        let r = kept_inputs(n, s.drop_last(), max, owner, strict);
        lemma_kept_inputs_from(n, s.drop_last(), max, owner, strict);
        assert forall|j: int| 0 <= j < kept_inputs(n, s, max, owner, strict).len() implies s.contains(#[trigger] kept_inputs(n, s, max, owner, strict)[j]) by {
            if j < r.len() {
                assert(s.drop_last().contains(r[j]));
                let q = choose|q: int| 0 <= q < s.drop_last().len() && s.drop_last()[q] == r[j];
                assert(s[q] == r[j]);
            } else {
                assert(s[s.len() - 1] == s.last());
            }
        }
    }
}

pub(crate) proof fn lemma_same_ids(a: Seq<Node>, b: Seq<Node>, id: u64)
    requires
        a.len() == b.len(),
        forall|k: int| 0 <= k < a.len() ==> (#[trigger] a[k]).id == b[k].id,
    ensures
        has_id(a, id) == has_id(b, id),
{
    if has_id(a, id) {
        let k = choose|k: int| 0 <= k < a.len() && (#[trigger] a[k]).id == id;
        assert(b[k].id == id);
    }
    if has_id(b, id) {
        let k = choose|k: int| 0 <= k < b.len() && (#[trigger] b[k]).id == id;
        assert(a[k].id == id);
    }
}

/// The nodes of a control graph, with the ids of its root nodes.
pub struct AppGraph {
    pub nodes: Vec<Node>,
    pub root_nodes: Vec<u64>,
    /// Every id handed out so far is below this one.
    pub next_id: u64,
}

impl AppGraph {
    /// Ids and names are unique, every id is below `next_id`, cached input
    /// names agree with the nodes they refer to, and `root_nodes` lists
    /// exactly the nodes on which nothing depends.
    pub open spec fn wf(&self) -> bool {
        &&& ids_unique(self.nodes@)
        &&& names_unique(self.nodes@)
        &&& names_cached(self.nodes@)
        &&& forall|k: int| 0 <= k < self.nodes@.len() ==> (#[trigger] self.nodes@[k]).id < self.next_id
        &&& roots_match(self.nodes@, self.root_nodes@)
    }

    /// An empty graph.
    pub fn new() -> (r: AppGraph)
        ensures
            r.wf(),
            r.nodes@.len() == 0,
            r.root_nodes@.len() == 0,
    {
        AppGraph { nodes: Vec::new(), root_nodes: Vec::new(), next_id: 0 }
    }

    /// The index of the node with id `id`.
    pub fn find(&self, id: u64) -> (r: Option<usize>)
        requires
            ids_unique(self.nodes@),
        ensures
            r is None <==> !has_id(self.nodes@, id),
            r matches Some(k) ==> k < self.nodes@.len() && self.nodes@[k as int].id == id
                && index_of(self.nodes@, id) == Some(k as int),
    {
        let mut i: usize = 0;
        while i < self.nodes.len()
            invariant
                i <= self.nodes@.len(),
                ids_unique(self.nodes@),
                forall|k: int| 0 <= k < i ==> (#[trigger] self.nodes@[k]).id != id,
            decreases self.nodes@.len() - i,
        {
            if self.nodes[i].id == id {
                proof {
                    assert(has_id(self.nodes@, id)) by {
                        assert(self.nodes@[i as int].id == id);
                    }
                    let c = index_of(self.nodes@, id).unwrap();
                    assert(c == i as int) by {
                        if c != i as int {
                            assert(self.nodes@[c].id != self.nodes@[i as int].id);
                        }
                    }
                }
                return Some(i);
            }
            i = i + 1;
        }
        None
    }

    /// The node with id `id`; an unknown id is a caller error.
    pub fn get(&self, id: u64) -> (r: Result<&Node, GraphError>)
        requires
            ids_unique(self.nodes@),
        ensures
            r is Err <==> !has_id(self.nodes@, id),
            r is Err ==> r == Err::<&Node, GraphError>(GraphError::InvariantViolation),
            r matches Ok(n) ==> n.id == id && self.nodes@.contains(*n),
    {
        match self.find(id) {
            Some(k) => Ok(&self.nodes[k]),
            None => Err(GraphError::InvariantViolation),
        }
    }

    /// Whether some input of some node refers to `id`.
    fn referenced(&self, id: u64) -> (r: bool)
        ensures
            r == is_referenced(self.nodes@, id),
    {
        let mut k: usize = 0;
        while k < self.nodes.len()
            invariant
                k <= self.nodes@.len(),
                forall|a: int, j: int|
                    0 <= a < k && 0 <= j < self.nodes@[a].inputs@.len() ==> (#[trigger] self.nodes@[a].inputs@[j]).id
                        != id,
            decreases self.nodes@.len() - k,
        {
            let inputs = &self.nodes[k].inputs;
            let mut j: usize = 0;
            while j < inputs.len()
                invariant
                    k < self.nodes@.len(),
                    *inputs == self.nodes@[k as int].inputs,
                    j <= inputs@.len(),
                    forall|a: int, b: int|
                        0 <= a < k && 0 <= b < self.nodes@[a].inputs@.len() ==> (#[trigger] self.nodes@[a].inputs@[b]).id
                            != id,
                    forall|b: int| 0 <= b < j ==> (#[trigger] inputs@[b]).id != id,
                decreases inputs@.len() - j,
            {
                if inputs[j].id == id {
                    return true;
                }
                j = j + 1;
            }
            k = k + 1;
        }
        false
    }

    /// Recomputes `root_nodes` from the nodes.
    pub(crate) fn recompute_roots(&mut self)
        requires
            ids_unique(old(self).nodes@),
        ensures
            final(self).nodes == old(self).nodes,
            final(self).next_id == old(self).next_id,
            roots_match(final(self).nodes@, final(self).root_nodes@),
    {
        let mut roots: Vec<u64> = Vec::new();
        let mut i: usize = 0;
        while i < self.nodes.len()
            invariant
                i <= self.nodes@.len(),
                ids_unique(self.nodes@),
                forall|id: u64| #[trigger] roots@.contains(id) <==> (exists|k: int| 0 <= k < i && (#[trigger] self.nodes@[k]).id == id) && !is_referenced(self.nodes@, id),
                roots@.no_duplicates(),
                forall|r: int| #![trigger roots@[r]] 0 <= r < roots@.len() ==> exists|k: int| 0 <= k < i && (#[trigger] self.nodes@[k]).id == roots@[r],
            decreases self.nodes@.len() - i,
        {
            let id = self.nodes[i].id;
            if !self.referenced(id) {
                proof {
                    assert forall|r: int| 0 <= r < roots@.len() implies roots@[r] != id by {
                        let k = choose|k: int| 0 <= k < i && (#[trigger] self.nodes@[k]).id == roots@[r];
                        assert(self.nodes@[k].id != self.nodes@[i as int].id);
                    }
                }
                let ghost before = roots@;
                roots.push(id);
                proof {
                    assert forall|id2: u64| #[trigger] roots@.contains(id2) <==> before.contains(id2) || id2 == id by {
                        if roots@.contains(id2) && id2 != id {
                            let r = choose|r: int| 0 <= r < roots@.len() && roots@[r] == id2;
                            assert(before[r] == id2);
                        }
                        if before.contains(id2) {
                            let r = choose|r: int| 0 <= r < before.len() && before[r] == id2;
                            assert(roots@[r] == id2);
                        }
                        if id2 == id {
                            assert(roots@[roots@.len() - 1] == id);
                        }
                    }
                    assert forall|id2: u64| #[trigger] roots@.contains(id2) <==> (exists|k: int| 0 <= k < i + 1 && (#[trigger] self.nodes@[k]).id == id2) && !is_referenced(self.nodes@, id2) by {
                        if id2 == id {
                            assert(self.nodes@[i as int].id == id2);
                        }
                        if exists|k: int| 0 <= k < i + 1 && (#[trigger] self.nodes@[k]).id == id2 {
                            let k = choose|k: int| 0 <= k < i + 1 && (#[trigger] self.nodes@[k]).id == id2;
                            if k < i {
                                assert(exists|k: int| 0 <= k < i && (#[trigger] self.nodes@[k]).id == id2);
                            }
                        }
                    }
                    assert forall|r: int| #![trigger roots@[r]] 0 <= r < roots@.len() implies exists|k: int| 0 <= k < i + 1 && (#[trigger] self.nodes@[k]).id == roots@[r] by {
                        if r == roots@.len() - 1 {
                            assert(self.nodes@[i as int].id == roots@[r]);
                        } else {
                            assert(roots@.drop_last()[r] == roots@[r]);
                        }
                    }
                }
            }
            i = i + 1;
        }
        self.root_nodes = roots;
    }
    /// Whether some node is named `name`.
    pub fn name_used(&self, name: &String) -> (r: bool)
        ensures
            r == exists|k: int| 0 <= k < self.nodes@.len() && (#[trigger] self.nodes@[k]).name@ == name@,
    {
        let mut i: usize = 0;
        while i < self.nodes.len()
            invariant
                i <= self.nodes@.len(),
                forall|k: int| 0 <= k < i ==> (#[trigger] self.nodes@[k]).name@ != name@,
            decreases self.nodes@.len() - i,
        {
            if self.nodes[i].name == *name {
                return true;
            }
            i = i + 1;
        }
        false
    }

    /// A new node of kind `kind` with a fresh id, no inputs, no value and the
    /// kind's default parameters, named after its kind and id. The node is not
    /// inserted.
    pub fn create_node(&mut self, kind: NodeKind) -> (r: Result<Node, GraphError>)
        requires
            old(self).wf(),
        ensures
            final(self).wf(),
            final(self).nodes@ == old(self).nodes@,
            final(self).root_nodes@ == old(self).root_nodes@,
            r is Err <==> old(self).next_id == u64::MAX,
            r is Err ==> final(self).next_id == old(self).next_id && r == Err::<Node, GraphError>(GraphError::InvariantViolation),
            r matches Ok(n) ==> {
                &&& n.id == old(self).next_id
                &&& final(self).next_id == old(self).next_id + 1
                &&& !has_id(old(self).nodes@, n.id)
                &&& n.inputs@.len() == 0
                &&& n.value is None
                &&& kind_of(n.node_type) == kind
                &&& n.name@ == kind_label(kind) + decimal(n.id as nat)
                &&& (n.node_type matches NodeType::Control(c) ==> c.mode == Mode::Auto && !c.active
                    && c.handle is None)
                &&& (n.node_type matches NodeType::Graph(g) ==> g.wf())
            },
    {
        if self.next_id == u64::MAX {
            return Err(GraphError::InvariantViolation);
        }
        let id = self.next_id;
        self.next_id = id + 1;
        let mut name = label(kind);
        push_decimal(&mut name, id);
        Ok(Node { id, name, inputs: Vec::new(), value: None, node_type: default_node_type(kind) })
    }

    /// Whether each input of `node` refers to a node of the graph and carries
    /// its name.
    fn inputs_resolve(&self, node: &Node) -> (r: bool)
        requires
            ids_unique(self.nodes@),
        ensures
            r == forall|j: int|
                0 <= j < node.inputs@.len() ==> input_resolves(self.nodes@, #[trigger] node.inputs@[j]),
    {
        let mut j: usize = 0;
        while j < node.inputs.len()
            invariant
                ids_unique(self.nodes@),
                j <= node.inputs@.len(),
                forall|b: int| 0 <= b < j ==> input_resolves(self.nodes@, #[trigger] node.inputs@[b]),
            decreases node.inputs@.len() - j,
        {
            match self.find(node.inputs[j].id) {
                Some(m) => {
                    if self.nodes[m].name != node.inputs[j].name {
                        proof {
                            assert forall|m2: int|
                                0 <= m2 < self.nodes@.len() && (#[trigger] self.nodes@[m2]).id == node.inputs@[j as int].id
                                implies self.nodes@[m2].name@ != node.inputs@[j as int].name@ by {
                                if m2 != m as int {
                                    assert(self.nodes@[m2].id != self.nodes@[m as int].id);
                                }
                            }
                        }
                        return false;
                    }
                    assert(self.nodes@[m as int].id == node.inputs@[j as int].id);
                },
                None => {
                    return false;
                },
            }
            j = j + 1;
        }
        true
    }

    /// Inserts a node. Refused with `InvariantViolation` when its id is in
    /// use, referred to by an input, or was not handed out by this graph;
    /// with `Validation` when its name is in use, it has more inputs than its
    /// kind accepts, or one of its inputs does
    /// not refer to a node of the graph by that node's id and name.
    pub fn insert_node(&mut self, node: Node) -> (r: Result<(), GraphError>)
        requires
            old(self).wf(),
        ensures
            final(self).wf(),
            ({
                let n = old(self).nodes@;
                let bad_id = has_id(n, node.id) || is_referenced(n, node.id) || node.id >= old(self).next_id;
                let bad_wiring = (exists|k: int| 0 <= k < n.len() && (#[trigger] n[k]).name@ == node.name@)
                    || (crate::node::max_inputs(kind_of(node.node_type)) matches Some(m) && node.inputs@.len() > m)
                    || !(forall|j: int| 0 <= j < node.inputs@.len() ==> input_resolves(n, #[trigger] node.inputs@[j]));
                &&& bad_id ==> r == Err::<(), GraphError>(GraphError::InvariantViolation)
                &&& !bad_id && bad_wiring ==> r == Err::<(), GraphError>(GraphError::Validation)
                &&& r is Ok <==> !bad_id && !bad_wiring
            }),
            r is Ok ==> final(self).nodes@ == old(self).nodes@.push(node) && final(self).next_id == old(self).next_id,
            r is Err ==> unchanged(final(self), old(self)),
    {
        if self.find(node.id).is_some() || self.referenced(node.id) || node.id >= self.next_id {
            return Err(GraphError::InvariantViolation);
        }
        let too_many = match node.node_type.kind().max_inputs() {
            Some(m) => node.inputs.len() > m,
            None => false,
        };
        if too_many || self.name_used(&node.name) || !self.inputs_resolve(&node) {
            return Err(GraphError::Validation);
        }
        let ghost before = self.nodes@;
        self.nodes.push(node);
        proof {
            let after = self.nodes@;
            let last = before.len() as int;
            assert(after[last] == node);
            assert forall|a: int, b: int| 0 <= a < after.len() && 0 <= b < after.len() && a != b implies #[trigger] after[a].id != #[trigger] after[b].id by {
                if a == last {
                    assert(before[b].id != node.id);
                } else if b == last {
                    assert(before[a].id != node.id);
                } else {
                    assert(before[a] == after[a] && before[b] == after[b]);
                }
            }
            assert forall|a: int, b: int| 0 <= a < after.len() && 0 <= b < after.len() && a != b implies #[trigger] after[a].name@ != #[trigger] after[b].name@ by {
                if a == last {
                    assert(before[b].name@ != node.name@);
                } else if b == last {
                    assert(before[a].name@ != node.name@);
                } else {
                    assert(before[a] == after[a] && before[b] == after[b]);
                }
            }
            assert forall|k: int, j: int, m: int|
                0 <= k < after.len() && 0 <= j < after[k].inputs@.len() && 0 <= m < after.len() && (#[trigger] after[k].inputs@[j]).id
                    == (#[trigger] after[m]).id implies after[k].inputs@[j].name@ == after[m].name@ by {
                if k == last {
                    assert(input_resolves(before, node.inputs@[j]));
                    let m2 = choose|m2: int|
                        0 <= m2 < before.len() && (#[trigger] before[m2]).id == node.inputs@[j].id
                            && before[m2].name@ == node.inputs@[j].name@;
                    if m == last {
                        assert(before[m2].id != node.id);
                    } else if m != m2 {
                        assert(before[m2].id != before[m].id);
                    }
                } else {
                    assert(after[k] == before[k]);
                    if m == last {
                        assert(!is_referenced(before, node.id));
                        assert(before[k].inputs@[j].id != node.id);
                    } else {
                        assert(after[m] == before[m]);
                    }
                }
            }
            assert forall|k: int| 0 <= k < after.len() implies (#[trigger] after[k]).id < self.next_id by {
                if k < last {
                    assert(after[k] == before[k]);
                }
            }
        }
        self.recompute_roots();
        Ok(())
    }

    /// Removes the node with id `id` and hands it back; none for an unknown
    /// id. Inputs of other nodes that referred to it are left for
    /// `sanitize_inputs`.
    pub fn remove_node(&mut self, id: u64) -> (r: Option<Node>)
        requires
            old(self).wf(),
        ensures
            final(self).wf(),
            final(self).next_id == old(self).next_id,
            r is None <==> !has_id(old(self).nodes@, id),
            r is None ==> unchanged(final(self), old(self)),
            r matches Some(n) ==> {
                let k = index_of(old(self).nodes@, id).unwrap();
                &&& n == old(self).nodes@[k]
                &&& final(self).nodes@ == old(self).nodes@.remove(k)
            },
    {
        let k = match self.find(id) {
            Some(k) => k,
            None => {
                return None;
            },
        };
        let ghost before = self.nodes@;
        let node = self.nodes.remove(k);
        proof {
            let after = self.nodes@;
            assert forall|a: int| 0 <= a < after.len() implies #[trigger] after[a] == before[if a < k { a } else { a + 1 }] by {}
            assert forall|a: int, b: int| 0 <= a < after.len() && 0 <= b < after.len() && a != b implies #[trigger] after[a].id != #[trigger] after[b].id by {
                assert(after[a] == before[if a < k { a } else { a + 1 }]);
                assert(after[b] == before[if b < k { b } else { b + 1 }]);
            }
            assert forall|a: int, b: int| 0 <= a < after.len() && 0 <= b < after.len() && a != b implies #[trigger] after[a].name@ != #[trigger] after[b].name@ by {
                assert(after[a] == before[if a < k { a } else { a + 1 }]);
                assert(after[b] == before[if b < k { b } else { b + 1 }]);
            }
            assert forall|a: int, j: int, m: int|
                0 <= a < after.len() && 0 <= j < after[a].inputs@.len() && 0 <= m < after.len() && (#[trigger] after[a].inputs@[j]).id
                    == (#[trigger] after[m]).id implies after[a].inputs@[j].name@ == after[m].name@ by {
                let a0 = if a < k { a } else { a + 1 };
                let m0 = if m < k { m } else { m + 1 };
                assert(after[a] == before[a0]);
                assert(after[m] == before[m0]);
                assert(before[a0].inputs@[j].id == before[m0].id);
            }
            assert forall|a: int| 0 <= a < after.len() implies (#[trigger] after[a]).id < self.next_id by {
                assert(after[a] == before[if a < k { a } else { a + 1 }]);
            }
        }
        self.recompute_roots();
        Some(node)
    }
    /// Renames the node with id `id`, and in the same step every input that
    /// refers to it. Refused with `InvariantViolation` for an unknown id, and
    /// with `Validation` when another node is already named `name`.
    pub fn rename(&mut self, id: u64, name: String) -> (r: Result<(), GraphError>)
        requires
            old(self).wf(),
        ensures
            final(self).wf(),
            !has_id(old(self).nodes@, id) ==> r == Err::<(), GraphError>(GraphError::InvariantViolation),
            has_id(old(self).nodes@, id) && (exists|k: int|
                0 <= k < old(self).nodes@.len() && (#[trigger] old(self).nodes@[k]).name@ == name@
                    && old(self).nodes@[k].id != id) ==> r == Err::<(), GraphError>(GraphError::Validation),
            r is Ok <==> has_id(old(self).nodes@, id) && !(exists|k: int|
                0 <= k < old(self).nodes@.len() && (#[trigger] old(self).nodes@[k]).name@ == name@
                    && old(self).nodes@[k].id != id),
            r is Err ==> unchanged(final(self), old(self)),
            r is Ok ==> renamed(old(self).nodes@, final(self).nodes@, id, name@),
            r is Ok ==> final(self).root_nodes@ == old(self).root_nodes@ && final(self).next_id == old(self).next_id,
    {
        let k = match self.find(id) {
            Some(k) => k,
            None => {
                return Err(GraphError::InvariantViolation);
            },
        };
        let mut i: usize = 0;
        while i < self.nodes.len()
            invariant
                i <= self.nodes@.len(),
                k < self.nodes@.len(),
                self.nodes@[k as int].id == id,
                self.wf(),
                self.nodes == old(self).nodes,
                self.root_nodes == old(self).root_nodes,
                self.next_id == old(self).next_id,
                forall|a: int| 0 <= a < i ==> !((#[trigger] self.nodes@[a]).name@ == name@ && self.nodes@[a].id != id),
            decreases self.nodes@.len() - i,
        {
            if i != k && self.nodes[i].name == name {
                proof {
                    assert(self.nodes@[i as int].id != self.nodes@[k as int].id);
                }
                return Err(GraphError::Validation);
            }
            proof {
                if i != k {
                    assert(self.nodes@[i as int].id != self.nodes@[k as int].id);
                }
            }
            i = i + 1;
        }
        let ghost before = self.nodes@;
        self.nodes[k].name = name.clone();
        let ghost mid = self.nodes@;
        let mut i: usize = 0;
        while i < self.nodes.len()
            invariant
                i <= self.nodes@.len(),
                self.nodes@.len() == before.len(),
                mid.len() == before.len(),
                k < before.len(),
                before[k as int].id == id,
                before == old(self).nodes@,
                ids_unique(before),
                self.root_nodes == old(self).root_nodes,
                self.next_id == old(self).next_id,
                forall|a: int| 0 <= a < mid.len() && a != k ==> #[trigger] mid[a] == before[a],
                mid[k as int].name@ == name@,
                mid[k as int].id == id,
                mid[k as int].inputs == before[k as int].inputs,
                mid[k as int].value == before[k as int].value,
                mid[k as int].node_type == before[k as int].node_type,
                forall|a: int| 0 <= a < i ==> renamed_node(#[trigger] before[a], self.nodes@[a], id, name@),
                forall|a: int| i <= a < self.nodes@.len() ==> #[trigger] self.nodes@[a] == mid[a],
            decreases self.nodes@.len() - i,
        {
            let mut new_inputs: Vec<NodeInput> = Vec::new();
            let mut j: usize = 0;
            while j < self.nodes[i].inputs.len()
                invariant
                    i < self.nodes@.len(),
                    self.nodes@[i as int] == mid[i as int],
                    j <= self.nodes@[i as int].inputs@.len(),
                    new_inputs@.len() == j,
                    forall|b: int|
                        0 <= b < j ==> (#[trigger] new_inputs@[b]).id == mid[i as int].inputs@[b].id
                            && new_inputs@[b].name@ == (if mid[i as int].inputs@[b].id == id {
                            name@
                        } else {
                            mid[i as int].inputs@[b].name@
                        }),
                decreases self.nodes@[i as int].inputs@.len() - j,
            {
                let input = &self.nodes[i].inputs[j];
                let input_name = if input.id == id {
                    name.clone()
                } else {
                    input.name.clone()
                };
                new_inputs.push(NodeInput { id: input.id, name: input_name });
                j = j + 1;
            }
            self.nodes[i].inputs = new_inputs;
            proof {
                assert(mid[i as int].inputs == before[i as int].inputs);
                if i != k {
                    assert(before[i as int].id != before[k as int].id);
                }
            }
            i = i + 1;
        }
        proof {
            let after = self.nodes@;
            assert forall|a: int| 0 <= a < before.len() implies renamed_node(#[trigger] before[a], after[a], id, name@) by {}
            assert(same_wiring(before, after));
            assert forall|a: int, b: int| 0 <= a < after.len() && 0 <= b < after.len() && a != b implies #[trigger] after[a].id != #[trigger] after[b].id by {
                assert(renamed_node(before[a], after[a], id, name@));
                assert(renamed_node(before[b], after[b], id, name@));
            }
            assert forall|a: int, b: int| 0 <= a < after.len() && 0 <= b < after.len() && a != b implies #[trigger] after[a].name@ != #[trigger] after[b].name@ by {
                assert(renamed_node(before[a], after[a], id, name@));
                assert(renamed_node(before[b], after[b], id, name@));
                assert(before[a].id != before[b].id);
            }
            assert forall|a: int, j: int, m: int|
                0 <= a < after.len() && 0 <= j < after[a].inputs@.len() && 0 <= m < after.len() && (#[trigger] after[a].inputs@[j]).id
                    == (#[trigger] after[m]).id implies after[a].inputs@[j].name@ == after[m].name@ by {
                assert(renamed_node(before[a], after[a], id, name@));
                assert(renamed_node(before[m], after[m], id, name@));
                assert(before[a].inputs@[j].id == before[m].id);
            }
            assert forall|a: int| 0 <= a < after.len() implies (#[trigger] after[a]).id < self.next_id by {
                assert(renamed_node(before[a], after[a], id, name@));
            }
            assert forall|x: u64| #[trigger] self.root_nodes@.contains(x) <==> is_root(after, x) by {
                lemma_same_wiring_roots(before, after, x);
            }
        }
        Ok(())
    }
    /// The inputs of node `i` that `sanitize_inputs` keeps.
    fn kept_inputs_of(&self, i: usize, strict: bool) -> (r: Vec<NodeInput>)
        requires
            ids_unique(self.nodes@),
            i < self.nodes@.len(),
        ensures
            r@ == kept_inputs(
                self.nodes@,
                self.nodes@[i as int].inputs@,
                crate::node::max_inputs(kind_of(self.nodes@[i as int].node_type)),
                self.nodes@[i as int].id,
                strict,
            ),
    {
        let max = self.nodes[i].node_type.kind().max_inputs();
        let owner = self.nodes[i].id;
        let ghost gmax = crate::node::max_inputs(kind_of(self.nodes@[i as int].node_type));
        let inputs = &self.nodes[i].inputs;
        let mut kept: Vec<NodeInput> = Vec::new();
        let mut j: usize = 0;
        while j < inputs.len()
            invariant
                ids_unique(self.nodes@),
                *inputs == self.nodes@[i as int].inputs,
                owner == self.nodes@[i as int].id,
                j <= inputs@.len(),
                max matches Some(m) ==> gmax == Some(m as nat),
                max is None ==> gmax is None,
                kept@ == kept_inputs(self.nodes@, inputs@.subrange(0, j as int), gmax, owner, strict),
            decreases inputs@.len() - j,
        {
            let ghost pre = inputs@.subrange(0, j as int + 1);
            assert(pre.drop_last() =~= inputs@.subrange(0, j as int));
            let input = &inputs[j];
            let room = match max {
                Some(m) => kept.len() < m,
                None => true,
            };
            if room && self.find(input.id).is_some() && !(strict && self.closes_cycle_exec(owner, input)) {
                kept.push(NodeInput { id: input.id, name: input.name.clone() });
            }
            j = j + 1;
        }
        assert(inputs@.subrange(0, j as int) =~= inputs@);
        kept
    }

    /// Drops every input that refers to a node no longer in the graph, and
    /// the inputs beyond what the node's kind accepts; in `strict` mode also
    /// every input that closes a cycle. All are judged on the graph as it was
    /// before the call.
    pub fn sanitize_inputs(&mut self, strict: bool)
        requires
            old(self).wf(),
        ensures
            final(self).wf(),
            final(self).next_id == old(self).next_id,
            final(self).nodes@.len() == old(self).nodes@.len(),
            forall|k: int| 0 <= k < old(self).nodes@.len() ==> {
                let a = #[trigger] old(self).nodes@[k];
                let b = final(self).nodes@[k];
                &&& b.id == a.id
                &&& b.name == a.name
                &&& b.value == a.value
                &&& b.node_type == a.node_type
                &&& b.inputs@ == kept_inputs(
                    old(self).nodes@,
                    a.inputs@,
                    crate::node::max_inputs(kind_of(a.node_type)),
                    a.id,
                    strict,
                )
            },
    {
        let ghost before = self.nodes@;
        let n = self.nodes.len();
        let mut all: Vec<Vec<NodeInput>> = Vec::new();
        let mut i: usize = 0;
        while i < n
            invariant
                self.wf(),
                n == self.nodes@.len(),
                self.nodes@ == before,
                i <= n,
                all@.len() == i,
                forall|k: int| 0 <= k < i ==> (#[trigger] all@[k])@ == kept_inputs(
                    before,
                    before[k].inputs@,
                    crate::node::max_inputs(kind_of(before[k].node_type)),
                    before[k].id,
                    strict,
                ),
            decreases n - i,
        {
            all.push(self.kept_inputs_of(i, strict));
            i = i + 1;
        }
        let mut i: usize = n;
        while i > 0
            invariant
                i <= n,
                n == self.nodes@.len(),
                before.len() == n,
                self.next_id == old(self).next_id,
                before == old(self).nodes@,
                all@.len() == i,
                forall|k: int| 0 <= k < i ==> (#[trigger] all@[k])@ == kept_inputs(
                    before,
                    before[k].inputs@,
                    crate::node::max_inputs(kind_of(before[k].node_type)),
                    before[k].id,
                    strict,
                ),
                forall|k: int| 0 <= k < i ==> #[trigger] self.nodes@[k] == before[k],
                forall|k: int| i <= k < n ==> {
                    let a = #[trigger] before[k];
                    let b = self.nodes@[k];
                    &&& b.id == a.id
                    &&& b.name == a.name
                    &&& b.value == a.value
                    &&& b.node_type == a.node_type
                    &&& b.inputs@ == kept_inputs(before, a.inputs@, crate::node::max_inputs(kind_of(a.node_type)), a.id, strict)
                },
            decreases i,
        {
            let kept = match all.pop() {
                Some(v) => v,
                None => Vec::new(),
            };
            self.nodes[i - 1].inputs = kept;
            i = i - 1;
        }
        proof {
            let after = self.nodes@;
            assert forall|a: int, b: int| 0 <= a < after.len() && 0 <= b < after.len() && a != b implies #[trigger] after[a].id != #[trigger] after[b].id by {
                assert(before[a].id != before[b].id);
            }
            assert forall|a: int, b: int| 0 <= a < after.len() && 0 <= b < after.len() && a != b implies #[trigger] after[a].name@ != #[trigger] after[b].name@ by {
                assert(before[a].name@ != before[b].name@);
            }
            assert forall|a: int, j: int, m: int|
                0 <= a < after.len() && 0 <= j < after[a].inputs@.len() && 0 <= m < after.len() && (#[trigger] after[a].inputs@[j]).id
                    == (#[trigger] after[m]).id implies after[a].inputs@[j].name@ == after[m].name@ by {
                let max = crate::node::max_inputs(kind_of(before[a].node_type));
                lemma_kept_inputs_from(before, before[a].inputs@, max, before[a].id, strict);
                let x = after[a].inputs@[j];
                assert(before[a].inputs@.contains(x));
                let q = choose|q: int| 0 <= q < before[a].inputs@.len() && before[a].inputs@[q] == x;
                assert(before[a].inputs@[q].id == before[m].id);
            }
            assert forall|a: int| 0 <= a < after.len() implies (#[trigger] after[a]).id < self.next_id by {
                assert(before[a].id == after[a].id);
            }
        }
        self.recompute_roots();
    }
}

} // verus!
