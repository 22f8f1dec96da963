use vstd::prelude::*;

use crate::curve::{curve_value, linear_value, target_value, Graph, Linear, Target};

verus! {

/// Who drives a fan: its own firmware, or this program.
#[derive(Debug, Clone, Copy, PartialEq, Eq, Structural)]
pub enum Mode {
    Auto,
    Manual,
}

/// A node bound to a sensor or a fan speed reading.
#[derive(Debug, Clone)]
pub struct HardwareRef {
    /// The stable id of the hardware item, as saved in a configuration.
    pub hardware_id: Option<String>,
    /// The index of that item in the live inventory, once resolved.
    pub handle: Option<usize>,
}

/// A node that drives one fan.
#[derive(Debug, Clone)]
pub struct Control {
    pub hardware_id: Option<String>,
    pub handle: Option<usize>,
    /// The mode last written to the hardware.
    pub mode: Mode,
    /// Whether the user wants this control to drive its fan.
    pub active: bool,
}

/// How a `CustomTemp` node reduces its inputs.
#[derive(Debug, Clone, Copy, PartialEq, Eq, Structural)]
pub enum CustomTempKind {
    Min,
    Max,
    Average,
}

/// A node with a constant output.
#[derive(Debug, Clone, Copy, PartialEq, Eq)]
pub struct Flat {
    pub value: u16,
}

/// What a node is, with its own parameters.
#[derive(Debug, Clone)]
pub enum NodeType {
    Control(Control),
    Fan(HardwareRef),
    Temp(HardwareRef),
    Graph(Graph),
    Flat(Flat),
    Linear(Linear),
    Target(Target),
    CustomTemp(CustomTempKind),
}

/// The kind of a node, without parameters.
#[derive(Debug, Clone, Copy, PartialEq, Eq, Structural)]
pub enum NodeKind {
    Control,
    Fan,
    Temp,
    Graph,
    Flat,
    Linear,
    Target,
    CustomTemp,
}

/// A reference from a node to one of its upstream nodes, with the name of
/// that node kept for display.
#[derive(Debug, Clone)]
pub struct NodeInput {
    pub id: u64,
    pub name: String,
}

/// One node of the control graph.
#[derive(Debug, Clone)]
pub struct Node {
    pub id: u64,
    pub name: String,
    pub inputs: Vec<NodeInput>,
    pub value: Option<i32>,
    pub node_type: NodeType,
}

/// The kind of a node type.
pub open spec fn kind_of(t: NodeType) -> NodeKind {
    match t {
        NodeType::Control(_) => NodeKind::Control,
        NodeType::Fan(_) => NodeKind::Fan,
        NodeType::Temp(_) => NodeKind::Temp,
        NodeType::Graph(_) => NodeKind::Graph,
        NodeType::Flat(_) => NodeKind::Flat,
        NodeType::Linear(_) => NodeKind::Linear,
        NodeType::Target(_) => NodeKind::Target,
        NodeType::CustomTemp(_) => NodeKind::CustomTemp,
    }
}

/// How many inputs a node of this kind may have; none means any number.
pub open spec fn max_inputs(k: NodeKind) -> Option<nat> {
    match k {
        NodeKind::Fan | NodeKind::Temp | NodeKind::Flat => Some(0),
        NodeKind::CustomTemp => None,
        _ => Some(1),
    }
}

impl NodeKind {
    /// How many inputs a node of this kind may have; none means any number.
    pub fn max_inputs(&self) -> (r: Option<usize>)
        ensures
            r matches Some(n) ==> max_inputs(*self) == Some(n as nat),
            r is None ==> max_inputs(*self) is None,
    {
        match self {
            NodeKind::Fan | NodeKind::Temp | NodeKind::Flat => Some(0),
            NodeKind::CustomTemp => None,
            _ => Some(1),
        }
    }
}

impl NodeType {
    /// The kind of this node type.
    pub fn kind(&self) -> (r: NodeKind)
        ensures
            r == kind_of(*self),
    {
        match self {
            NodeType::Control(_) => NodeKind::Control,
            NodeType::Fan(_) => NodeKind::Fan,
            NodeType::Temp(_) => NodeKind::Temp,
            NodeType::Graph(_) => NodeKind::Graph,
            NodeType::Flat(_) => NodeKind::Flat,
            NodeType::Linear(_) => NodeKind::Linear,
            NodeType::Target(_) => NodeKind::Target,
            NodeType::CustomTemp(_) => NodeKind::CustomTemp,
        }
    }
}

/// The largest present value of `v`.
pub open spec fn max_present(v: Seq<Option<i32>>) -> Option<i32>
    decreases v.len(),
{
    if v.len() == 0 {
        None
    } else {
        let rest = max_present(v.drop_last());
        match v.last() {
            None => rest,
            Some(x) => match rest {
                Some(m) if m >= x => Some(m),
                _ => Some(x),
            },
        }
    }
}

/// The smallest present value of `v`.
pub open spec fn min_present(v: Seq<Option<i32>>) -> Option<i32>
    decreases v.len(),
{
    if v.len() == 0 {
        None
    } else {
        let rest = min_present(v.drop_last());
        match v.last() {
            None => rest,
            Some(x) => match rest {
                Some(m) if m <= x => Some(m),
                _ => Some(x),
            },
        }
    }
}

/// The sum of the present values of `v`.
pub open spec fn sum_present(v: Seq<Option<i32>>) -> int
    decreases v.len(),
{
    if v.len() == 0 {
        0
    } else {
        sum_present(v.drop_last()) + match v.last() {
            None => 0int,
            Some(x) => x as int,
        }
    }
}

/// How many values of `v` are present.
pub open spec fn count_present(v: Seq<Option<i32>>) -> nat
    decreases v.len(),
{
    if v.len() == 0 {
        0
    } else {
        count_present(v.drop_last()) + if v.last() is Some {
            1nat
        } else {
            0nat
        }
    }
}

/// `a / b` rounded toward zero, for a positive `b`.
pub open spec fn div_toward_zero(a: int, b: int) -> int {
    if a >= 0 {
        a / b
    } else {
        -((-a) / b)
    }
}

/// What a `CustomTemp` node of this kind outputs over its upstream values.
pub open spec fn reduce_present(kind: CustomTempKind, v: Seq<Option<i32>>) -> Option<i32> {
    match kind {
        CustomTempKind::Min => min_present(v),
        CustomTempKind::Max => max_present(v),
        CustomTempKind::Average => if count_present(v) == 0 {
            None
        } else {
            Some(div_toward_zero(sum_present(v), count_present(v) as int) as i32)
        },
    }
}

proof fn lemma_average_fits(sum: int, count: int)
    requires
        count >= 1,
        -(count * 0x8000_0000) <= sum <= count * 0x7fff_ffff,
    ensures
        i32::MIN <= div_toward_zero(sum, count) <= i32::MAX,
{
    if sum >= 0 {
        assert(sum / count <= 0x7fff_ffff) by (nonlinear_arith)
            requires
                count >= 1,
                0 <= sum <= count * 0x7fff_ffff,
        {
            vstd::arithmetic::div_mod::lemma_div_is_ordered(sum, count * 0x7fff_ffff, count);
            vstd::arithmetic::div_mod::lemma_div_multiples_vanish(0x7fff_ffff, count);
        }
        vstd::arithmetic::div_mod::lemma_div_pos_is_pos(sum, count);
    } else {
        assert((-sum) / count <= 0x8000_0000) by (nonlinear_arith)
            requires
                count >= 1,
                0 <= -sum <= count * 0x8000_0000,
        {
            vstd::arithmetic::div_mod::lemma_div_is_ordered(-sum, count * 0x8000_0000, count);
            vstd::arithmetic::div_mod::lemma_div_multiples_vanish(0x8000_0000, count);
        }
        vstd::arithmetic::div_mod::lemma_div_pos_is_pos(-sum, count);
    }
}

impl CustomTempKind {
    /// Reduces the present values of `values`; none when no value is present.
    pub fn reduce(&self, values: &Vec<Option<i32>>) -> (r: Option<i32>)
        ensures
            r == reduce_present(*self, values@),
    {
        let mut acc: Option<i32> = None;
        let mut sum: i128 = 0;
        let mut count: usize = 0;
        let mut i: usize = 0;
        while i < values.len()
            invariant
                i <= values@.len(),
                *self == CustomTempKind::Max ==> acc == max_present(values@.subrange(0, i as int)),
                *self == CustomTempKind::Min ==> acc == min_present(values@.subrange(0, i as int)),
                sum == sum_present(values@.subrange(0, i as int)),
                count == count_present(values@.subrange(0, i as int)),
                count <= i,
                -(count * 0x8000_0000) <= sum <= count * 0x7fff_ffff,
            decreases values@.len() - i,
        {
            let ghost next = values@.subrange(0, i as int + 1);
            assert(next.drop_last() =~= values@.subrange(0, i as int));
            match values[i] {
                Some(x) => {
                    acc = match acc {
                        Some(m) => if *self == CustomTempKind::Max {
                            if m >= x {
                                Some(m)
                            } else {
                                Some(x)
                            }
                        } else {
                            if m <= x {
                                Some(m)
                            } else {
                                Some(x)
                            }
                        },
                        None => Some(x),
                    };
                    sum = sum + x as i128;
                    count = count + 1;
                },
                None => {},
            }
            i = i + 1;
        }
        assert(values@.subrange(0, i as int) =~= values@);
        match self {
            CustomTempKind::Average => {
                if count == 0 {
                    None
                } else {
                    proof {
                        lemma_average_fits(sum as int, count as int);
                    }
                    let q: i128 = if sum >= 0 {
                        sum / count as i128
                    } else {
                        -((-sum) / count as i128)
                    };
                    Some(q as i32)
                }
            },
            _ => acc,
        }
    }
}

/// The first upstream value; absent when there is no input.
pub open spec fn first_upstream(ups: Seq<Option<i32>>) -> Option<i32> {
    if ups.len() == 0 {
        None
    } else {
        ups[0]
    }
}

/// What a node of type `t` outputs, given its upstream values in input order
/// and, for a sensor or fan node, the reading of its hardware.
pub open spec fn node_output(t: NodeType, ups: Seq<Option<i32>>, reading: Option<i32>) -> Option<i32> {
    match t {
        NodeType::Temp(_) | NodeType::Fan(_) => reading,
        NodeType::Control(c) => if c.mode == Mode::Manual && c.active {
            first_upstream(ups)
        } else {
            None
        },
        NodeType::Flat(f) => Some(f.value as i32),
        NodeType::Linear(l) => match first_upstream(ups) {
            Some(x) => Some(linear_value(l, x as int) as i32),
            None => None,
        },
        NodeType::Target(g) => match first_upstream(ups) {
            Some(x) => Some(target_value(g, x as int) as i32),
            None => None,
        },
        NodeType::Graph(g) => match first_upstream(ups) {
            Some(x) => if g.coords@.len() == 0 {
                None
            } else {
                Some(curve_value(g.coords@, x as int) as i32)
            },
            None => None,
        },
        NodeType::CustomTemp(k) => reduce_present(k, ups),
    }
}

impl NodeType {
    /// What a node of this type outputs, given its upstream values in input
    /// order and, for a sensor or fan node, the reading of its hardware.
    pub fn output(&self, upstream: &Vec<Option<i32>>, reading: Option<i32>) -> (r: Option<i32>)
        ensures
            r == node_output(*self, upstream@, reading),
    {
        let first: Option<i32> = if upstream.len() == 0 {
            None
        } else {
            upstream[0]
        };
        match self {
            NodeType::Temp(_) | NodeType::Fan(_) => reading,
            NodeType::Control(c) => if c.mode == Mode::Manual && c.active {
                first
            } else {
                None
            },
            NodeType::Flat(f) => Some(f.value as i32),
            NodeType::Linear(l) => match first {
                Some(x) => Some(l.value(x)),
                None => None,
            },
            NodeType::Target(g) => match first {
                Some(x) => Some(g.value(x)),
                None => None,
            },
            NodeType::Graph(g) => match first {
                Some(x) => g.value(x),
                None => None,
            },
            NodeType::CustomTemp(k) => k.reduce(upstream),
        }
    }
}

proof fn lemma_reduce_all_absent(v: Seq<Option<i32>>)
    requires
        forall|i: int| 0 <= i < v.len() ==> #[trigger] v[i] is None,
    ensures
        max_present(v) is None,
        min_present(v) is None,
        count_present(v) == 0,
    decreases v.len(),
{
    if v.len() > 0 {
        let rest = v.drop_last();
        assert forall|i: int| 0 <= i < rest.len() implies #[trigger] rest[i] is None by {
            assert(rest[i] == v[i]);
        }
        lemma_reduce_all_absent(rest);
    }
}

/// A computed node whose upstream values are all absent outputs nothing,
/// except a `Flat` node, whose output is always present.
pub proof fn lemma_absent_upstream(t: NodeType, ups: Seq<Option<i32>>, reading: Option<i32>)
    requires
        forall|i: int| 0 <= i < ups.len() ==> #[trigger] ups[i] is None,
    ensures
        !(t is Temp || t is Fan || t is Flat) ==> node_output(t, ups, reading) is None,
        t is Flat ==> node_output(t, ups, reading) is Some,
{
    lemma_reduce_all_absent(ups);
}

} // verus!
