use fan_control::curve::Linear;
use fan_control::graph::{AppGraph, GraphError};
use fan_control::node::{Control, HardwareRef, Mode, Node, NodeInput, NodeKind, NodeType};
use fan_control::edit::{HardwareItem, HardwareKind};
use fan_control::update::{Bridge, BridgeCall, HardwareBridge, HardwareError, HardwareWrite, TickError, TickOutcome};

#[derive(Default)]
struct FakeBridge {
    readings: Vec<i32>,
    fail_reads: bool,
    fail_writes: bool,
    values: Vec<(usize, i32)>,
    modes: Vec<(usize, Mode)>,
}

impl HardwareBridge for FakeBridge {
    fn inventory(&self) -> Vec<HardwareItem> {
        vec![
            HardwareItem { hardware_id: "cpu".to_string(), kind: HardwareKind::Temp },
            HardwareItem { hardware_id: "fan1".to_string(), kind: HardwareKind::Fan },
            HardwareItem { hardware_id: "fan1".to_string(), kind: HardwareKind::Control },
            HardwareItem { hardware_id: "fan2".to_string(), kind: HardwareKind::Control },
        ]
    }

    fn refresh(&mut self) -> Result<(), HardwareError> {
        if self.fail_reads {
            return Err(HardwareError { handle: usize::MAX });
        }
        Ok(())
    }

    fn shutdown(&mut self) -> Result<(), HardwareError> {
        Ok(())
    }

    fn read_value(&mut self, handle: usize) -> Result<i32, HardwareError> {
        if self.fail_reads {
            return Err(HardwareError { handle });
        }
        Ok(self.readings[handle])
    }

    fn set_value(&mut self, handle: usize, value: i32) -> Result<(), HardwareError> {
        if self.fail_writes {
            return Err(HardwareError { handle });
        }
        self.values.push((handle, value));
        Ok(())
    }

    fn set_mode(&mut self, handle: usize, mode: Mode) -> Result<(), HardwareError> {
        if self.fail_writes {
            return Err(HardwareError { handle });
        }
        self.modes.push((handle, mode));
        Ok(())
    }
}

fn add(g: &mut AppGraph, kind: NodeKind) -> Node {
    let node = g.create_node(kind).unwrap();
    g.insert_node(node.clone()).unwrap();
    node
}

fn input(n: &Node) -> NodeInput {
    NodeInput { id: n.id, name: n.name.clone() }
}

fn node(g: &AppGraph, id: u64) -> &Node {
    g.get(id).unwrap()
}

/// temp -> linear -> control, with the sensor at handle 0 and the fan at handle 3.
fn chain() -> (AppGraph, u64, u64, u64) {
    let mut g = AppGraph::new();
    let mut temp = g.create_node(NodeKind::Temp).unwrap();
    temp.node_type = NodeType::Temp(HardwareRef { hardware_id: Some("cpu".to_string()), handle: Some(0) });
    g.insert_node(temp.clone()).unwrap();
    let mut lin = g.create_node(NodeKind::Linear).unwrap();
    lin.node_type = NodeType::Linear(Linear { min_temp: 30, min_speed: 20, max_temp: 70, max_speed: 100 });
    lin.inputs.push(input(&temp));
    g.insert_node(lin.clone()).unwrap();
    let mut ctl = g.create_node(NodeKind::Control).unwrap();
    ctl.node_type = NodeType::Control(Control {
        hardware_id: Some("fan1".to_string()),
        handle: Some(3),
        mode: Mode::Manual,
        active: true,
    });
    ctl.inputs.push(input(&lin));
    g.insert_node(ctl.clone()).unwrap();
    (g, temp.id, lin.id, ctl.id)
}

#[test]
fn created_nodes_get_fresh_ids_and_names() {
    let mut g = AppGraph::new();
    let a = add(&mut g, NodeKind::Linear);
    let b = add(&mut g, NodeKind::Linear);
    let c = add(&mut g, NodeKind::CustomTemp);
    assert_ne!(a.id, b.id);
    assert_eq!(a.name, "Linear0");
    assert_eq!(b.name, "Linear1");
    assert_eq!(c.name, "CustomTemp2");
    assert!(a.inputs.is_empty() && a.value.is_none());
    assert_eq!(g.nodes.len(), 3);
    assert_eq!(g.root_nodes.len(), 3);
}

#[test]
fn decimal_names_for_larger_ids() {
    let mut g = AppGraph::new();
    g.next_id = 1234;
    let n = g.create_node(NodeKind::Flat).unwrap();
    assert_eq!(n.id, 1234);
    assert_eq!(n.name, "Flat1234");
    g.next_id = u64::MAX;
    assert_eq!(g.create_node(NodeKind::Flat).err(), Some(GraphError::InvariantViolation));
}

#[test]
fn insert_refuses_reused_ids_and_names() {
    let mut g = AppGraph::new();
    let a = add(&mut g, NodeKind::Fan);
    assert_eq!(g.insert_node(a.clone()), Err(GraphError::InvariantViolation));
    let mut b = g.create_node(NodeKind::CustomTemp).unwrap();
    b.name = a.name.clone();
    assert_eq!(g.insert_node(b.clone()), Err(GraphError::Validation));
    b.name = "other".to_string();
    b.inputs.push(NodeInput { id: a.id, name: "wrong".to_string() });
    assert_eq!(g.insert_node(b.clone()), Err(GraphError::Validation));
    b.inputs[0].name = a.name.clone();
    assert_eq!(g.insert_node(b), Ok(()));
    assert_eq!(g.nodes.len(), 2);
}

#[test]
fn roots_are_nodes_nothing_depends_on() {
    let (g, temp, lin, ctl) = chain();
    assert_eq!(g.root_nodes, vec![ctl]);
    assert!(!g.root_nodes.contains(&temp) && !g.root_nodes.contains(&lin));
}

#[test]
fn get_unknown_id_is_an_invariant_violation() {
    let (g, ..) = chain();
    assert_eq!(g.get(999).err(), Some(GraphError::InvariantViolation));
}

#[test]
fn rename_updates_every_reference() {
    let (mut g, temp, lin, ctl) = chain();
    assert_eq!(g.rename(lin, "curve".to_string()), Ok(()));
    assert_eq!(node(&g, lin).name, "curve");
    assert_eq!(node(&g, ctl).inputs[0].name, "curve");
    assert_eq!(node(&g, lin).inputs[0].name, node(&g, temp).name);
}

#[test]
fn rename_to_a_used_name_changes_nothing() {
    let (mut g, temp, lin, ctl) = chain();
    let taken = node(&g, temp).name.clone();
    assert_eq!(g.rename(lin, taken), Err(GraphError::Validation));
    assert_eq!(node(&g, lin).name, "Linear1");
    assert_eq!(node(&g, ctl).inputs[0].name, "Linear1");
    assert_eq!(g.rename(lin, "Linear1".to_string()), Ok(()));
    assert_eq!(g.rename(77, "x".to_string()), Err(GraphError::InvariantViolation));
}

#[test]
fn tick_computes_and_writes() {
    let (mut g, temp, lin, ctl) = chain();
    let mut b = Bridge::new(FakeBridge { readings: vec![50], ..Default::default() });
    assert_eq!(g.evaluate_all(&mut b), Ok(1));
    assert_eq!(node(&g, temp).value, Some(50));
    assert_eq!(node(&g, lin).value, Some(60));
    assert_eq!(node(&g, ctl).value, Some(60));
    assert_eq!(b.hw.values, vec![(3, 60)]);
    assert_eq!(g.pending_writes(), vec![HardwareWrite { node_id: ctl, handle: 3, value: 60 }]);
}

#[test]
fn incremental_tick_matches_full_tick() {
    let (mut g1, ..) = chain();
    let (mut g2, ..) = chain();
    let mut b1 = Bridge::new(FakeBridge { readings: vec![65], ..Default::default() });
    let mut b2 = Bridge::new(FakeBridge { readings: vec![65], ..Default::default() });
    assert_eq!(g1.evaluate_all(&mut b1), g2.evaluate_reachable(&mut b2));
    let v1: Vec<Option<i32>> = g1.nodes.iter().map(|n| n.value).collect();
    let v2: Vec<Option<i32>> = g2.nodes.iter().map(|n| n.value).collect();
    assert_eq!(v1, v2);
    assert_eq!(b1.hw.values, b2.hw.values);
}

#[test]
fn failed_read_aborts_the_tick() {
    let (mut g, temp, ..) = chain();
    let mut b = Bridge::new(FakeBridge { readings: vec![50], fail_reads: true, ..Default::default() });
    assert_eq!(g.evaluate_all(&mut b), Err(TickError { node_id: temp, error: HardwareError { handle: 0 } }));
    assert!(g.nodes.iter().all(|n| n.value.is_none()));
}

#[test]
fn failed_write_keeps_computed_values() {
    let (mut g, _, lin, ctl) = chain();
    let mut b = Bridge::new(FakeBridge { readings: vec![50], fail_writes: true, ..Default::default() });
    assert_eq!(g.evaluate_all(&mut b), Err(TickError { node_id: ctl, error: HardwareError { handle: 3 } }));
    assert_eq!(node(&g, lin).value, Some(60));
}

#[test]
fn inactive_control_is_not_written() {
    let (mut g, _, _, ctl) = chain();
    let mut removed = g.remove_node(ctl).unwrap();
    if let NodeType::Control(c) = &mut removed.node_type {
        c.active = false;
    }
    g.insert_node(removed).unwrap();
    let mut b = Bridge::new(FakeBridge { readings: vec![50], ..Default::default() });
    assert_eq!(g.evaluate_all(&mut b), Ok(0));
    assert!(b.hw.values.is_empty());
    assert_eq!(node(&g, ctl).value, None);
}

#[test]
fn delete_control_forces_auto_first() {
    let (mut g, _, lin, ctl) = chain();
    let mut b = Bridge::new(FakeBridge::default());
    let (removed, write) = g.delete_node(ctl, &mut b).unwrap();
    assert_eq!(removed.id, ctl);
    let w = write.unwrap();
    assert_eq!((w.node_id, w.handle, w.ok), (ctl, 3, true));
    assert_eq!(b.hw.modes, vec![(3, Mode::Auto)]);
    assert!(g.get(ctl).is_err());
    assert_eq!(g.root_nodes, vec![lin]);
    assert_eq!(g.delete_node(ctl, &mut b).err(), Some(GraphError::InvariantViolation));
}

#[test]
fn delete_drops_dangling_inputs() {
    let (mut g, temp, lin, ctl) = chain();
    let mut b = Bridge::new(FakeBridge::default());
    let (_, write) = g.delete_node(temp, &mut b).unwrap();
    assert!(write.is_none());
    assert!(b.hw.modes.is_empty());
    assert!(node(&g, lin).inputs.is_empty());
    assert_eq!(node(&g, ctl).inputs.len(), 1);
}

#[test]
fn sanitize_caps_inputs_to_arity() {
    let mut g = AppGraph::new();
    let a = add(&mut g, NodeKind::Flat);
    let b = add(&mut g, NodeKind::Flat);
    let mut lin = g.create_node(NodeKind::Linear).unwrap();
    lin.inputs.push(input(&a));
    let lin_id = lin.id;
    g.insert_node(lin).unwrap();
    g.nodes[2].inputs.push(input(&b));
    g.sanitize_inputs(false);
    assert_eq!(node(&g, lin_id).inputs.len(), 1);
    assert_eq!(node(&g, lin_id).inputs[0].id, a.id);
    assert!(g.root_nodes.contains(&b.id));
}

#[test]
fn invalid_root_controls_go_to_auto_once() {
    let (mut g, temp, _, ctl) = chain();
    let mut b = Bridge::new(FakeBridge::default());
    g.delete_node(temp, &mut b).unwrap();
    let first = g.enforce_invalid_roots_auto(&mut b);
    assert_eq!(first.len(), 1);
    assert_eq!(b.hw.modes, vec![(3, Mode::Auto)]);
    match &node(&g, ctl).node_type {
        NodeType::Control(c) => assert!(c.mode == Mode::Auto && !c.active),
        _ => panic!("not a control"),
    }
    let second = g.enforce_invalid_roots_auto(&mut b);
    assert!(second.is_empty());
    assert_eq!(b.hw.modes.len(), 1);
}

#[test]
fn valid_root_controls_are_left_alone_by_invalid_pass() {
    let (mut g, _, _, ctl) = chain();
    let mut b = Bridge::new(FakeBridge::default());
    assert!(g.is_valid_control(2));
    assert!(g.enforce_invalid_roots_auto(&mut b).is_empty());
    let writes = g.enforce_valid_roots_auto(&mut b);
    assert_eq!(writes.len(), 1);
    match &node(&g, ctl).node_type {
        NodeType::Control(c) => assert!(c.mode == Mode::Auto && c.active),
        _ => panic!("not a control"),
    }
}

#[test]
fn failed_mode_write_is_reported_and_not_repeated() {
    let (mut g, temp, _, ctl) = chain();
    let mut b = Bridge::new(FakeBridge::default());
    g.delete_node(temp, &mut b).unwrap();
    b.hw.fail_writes = true;
    let log = g.enforce_invalid_roots_auto(&mut b);
    assert_eq!(log.len(), 1);
    assert!(!log[0].ok);
    match &node(&g, ctl).node_type {
        NodeType::Control(c) => assert!(c.mode == Mode::Auto && !c.active),
        _ => panic!("not a control"),
    }
    assert!(g.enforce_invalid_roots_auto(&mut b).is_empty());
}

#[test]
fn cycle_yields_absent_values() {
    let mut g = AppGraph::new();
    let a = add(&mut g, NodeKind::Linear);
    let mut b = g.create_node(NodeKind::Linear).unwrap();
    b.inputs.push(input(&a));
    g.insert_node(b.clone()).unwrap();
    g.nodes[0].inputs.push(input(&b));
    g.sanitize_inputs(false);
    assert!(g.root_nodes.is_empty());
    let mut br = Bridge::new(FakeBridge::default());
    assert_eq!(g.evaluate_all(&mut br), Ok(0));
    assert!(g.nodes.iter().all(|n| n.value.is_none()));
}

#[test]
fn replace_input_rewires_and_refuses_cycles() {
    let (mut g, temp, lin, ctl) = chain();
    let ctl_input = input(node(&g, ctl));
    assert_eq!(g.replace_input(lin, Some(ctl_input)), Err(GraphError::Validation));
    let lin_input = input(node(&g, lin));
    assert_eq!(g.replace_input(lin, Some(lin_input)), Err(GraphError::Validation));
    let bad = NodeInput { id: temp, name: "nope".to_string() };
    assert_eq!(g.replace_input(ctl, Some(bad)), Err(GraphError::Validation));
    let temp_input = input(node(&g, temp));
    assert_eq!(g.replace_input(ctl, Some(temp_input.clone())), Ok(()));
    assert_eq!(node(&g, ctl).inputs[0].id, temp);
    assert!(g.root_nodes.contains(&lin) && g.root_nodes.contains(&ctl));
    assert_eq!(g.replace_input(temp, Some(temp_input)), Err(GraphError::Validation));
    assert_eq!(g.replace_input(ctl, None), Ok(()));
    assert!(node(&g, ctl).inputs.is_empty());
    assert_eq!(g.replace_input(500, None), Err(GraphError::InvariantViolation));
}

#[test]
fn custom_temp_inputs_are_added_and_removed() {
    let mut g = AppGraph::new();
    let a = add(&mut g, NodeKind::Temp);
    let b = add(&mut g, NodeKind::Temp);
    let c = add(&mut g, NodeKind::CustomTemp);
    assert_eq!(g.add_input(c.id, input(&a)), Ok(()));
    assert_eq!(g.add_input(c.id, input(&b)), Ok(()));
    assert_eq!(g.add_input(a.id, input(&b)), Err(GraphError::Validation));
    assert_eq!(node(&g, c.id).inputs.len(), 2);
    assert_eq!(g.root_nodes, vec![c.id]);
    assert_eq!(g.remove_input(c.id, a.id), Ok(()));
    assert_eq!(node(&g, c.id).inputs.len(), 1);
    assert_eq!(node(&g, c.id).inputs[0].id, b.id);
    assert_eq!(g.remove_input(a.id, b.id), Err(GraphError::Validation));
}

#[test]
fn toggling_a_control() {
    let (mut g, temp, _, ctl) = chain();
    assert_eq!(g.set_control_active(ctl, false), Ok(()));
    match &node(&g, ctl).node_type {
        NodeType::Control(c) => assert!(!c.active && c.mode == Mode::Manual),
        _ => panic!("not a control"),
    }
    assert_eq!(g.set_control_active(temp, false), Err(GraphError::Validation));
}

#[test]
fn change_hardware_resolves_against_inventory() {
    let (mut g, temp, lin, ctl) = chain();
    let mut b = Bridge::new(FakeBridge::default());
    let inv = b.hw.inventory();
    let w = g.change_hardware(ctl, Some("fan2".to_string()), &inv, &mut b).unwrap();
    assert_eq!(w.map(|w| (w.handle, w.ok)), Some((3, true)));
    assert_eq!(b.hw.modes, vec![(3, Mode::Auto)]);
    match &node(&g, ctl).node_type {
        NodeType::Control(c) => assert!(c.handle == Some(3) && c.mode == Mode::Auto),
        _ => panic!("not a control"),
    }
    assert_eq!(g.change_hardware(temp, Some("gone".to_string()), &inv, &mut b), Ok(None));
    match &node(&g, temp).node_type {
        NodeType::Temp(h) => assert!(h.handle.is_none() && h.hardware_id.as_deref() == Some("gone")),
        _ => panic!("not a temp"),
    }
    assert_eq!(g.change_hardware(temp, Some("cpu".to_string()), &inv, &mut b), Ok(None));
    match &node(&g, temp).node_type {
        NodeType::Temp(h) => assert_eq!(h.handle, Some(0)),
        _ => panic!("not a temp"),
    }
    assert_eq!(g.change_hardware(lin, None, &inv, &mut b), Err(GraphError::Validation));
}

#[test]
fn orphaned_sensor_makes_its_control_invalid() {
    let (mut g, temp, _, ctl) = chain();
    let mut b = Bridge::new(FakeBridge::default());
    let inv = b.hw.inventory();
    g.change_hardware(temp, Some("gone".to_string()), &inv, &mut b).unwrap();
    assert!(!g.is_valid_control(2));
    let log = g.enforce_invalid_roots_auto(&mut b);
    assert_eq!(log.len(), 1);
    assert_eq!(log[0].node_id, ctl);
}

#[test]
fn tick_is_skipped_while_busy() {
    let (mut g, ..) = chain();
    let mut b = Bridge::new(FakeBridge { readings: vec![50], ..Default::default() });
    let mut busy = true;
    assert_eq!(g.tick(&mut busy, &mut b), TickOutcome::Skipped);
    assert!(busy);
    assert!(b.hw.values.is_empty());
    busy = false;
    assert_eq!(g.tick(&mut busy, &mut b), TickOutcome::Done(1));
    assert!(!busy);
    assert_eq!(b.hw.values, vec![(3, 60)]);
    b.hw.fail_reads = true;
    assert_eq!(g.tick(&mut busy, &mut b), TickOutcome::RefreshFailed(HardwareError { handle: usize::MAX }));
}

#[test]
fn strict_sanitize_breaks_cycles() {
    let mut g = AppGraph::new();
    let t = add(&mut g, NodeKind::Temp);
    let a = add(&mut g, NodeKind::CustomTemp);
    let mut b = g.create_node(NodeKind::Linear).unwrap();
    b.inputs.push(input(&a));
    g.insert_node(b.clone()).unwrap();
    assert_eq!(g.add_input(a.id, input(&t)), Ok(()));
    g.nodes[1].inputs.push(input(&b));
    g.sanitize_inputs(false);
    assert_eq!(node(&g, a.id).inputs.len(), 2);
    g.sanitize_inputs(true);
    let a_inputs: Vec<u64> = node(&g, a.id).inputs.iter().map(|i| i.id).collect();
    assert_eq!(a_inputs, vec![t.id]);
    assert!(node(&g, b.id).inputs.is_empty());
    assert_eq!(g.replace_input(b.id, Some(input(&a))), Ok(()));
    g.sanitize_inputs(true);
    assert_eq!(node(&g, b.id).inputs.len(), 1);
}

#[test]
fn set_params_replaces_computed_parameters() {
    let (mut g, temp, lin, _) = chain();
    let new = NodeType::Linear(Linear { min_temp: 0, min_speed: 0, max_temp: 100, max_speed: 100 });
    assert_eq!(g.set_params(lin, new), Ok(()));
    let mut b = Bridge::new(FakeBridge { readings: vec![50], ..Default::default() });
    assert_eq!(g.evaluate_all(&mut b), Ok(1));
    assert_eq!(node(&g, lin).value, Some(50));
    let flat = NodeType::Flat(fan_control::node::Flat { value: 7 });
    assert_eq!(g.set_params(lin, flat.clone()), Err(GraphError::Validation));
    assert_eq!(g.set_params(temp, NodeType::Temp(HardwareRef { hardware_id: None, handle: None })), Err(GraphError::Validation));
    let f = add(&mut g, NodeKind::Flat);
    assert_eq!(g.set_params(f.id, flat), Ok(()));
    assert_eq!(node(&g, f.id).value, Some(7));
}

#[test]
fn mode_toggle_writes_the_mode() {
    let mut g = AppGraph::new();
    let mut c = g.create_node(NodeKind::Control).unwrap();
    c.node_type = NodeType::Control(Control { hardware_id: Some("fan1".to_string()), handle: Some(2), mode: Mode::Auto, active: true });
    let id = c.id;
    g.insert_node(c).unwrap();
    let mut b = Bridge::new(FakeBridge::default());
    assert_eq!(g.set_control_mode(id, Mode::Manual, &mut b), Ok(Ok(())));
    assert_eq!(b.hw.modes, vec![(2, Mode::Manual)]);
    match &node(&g, id).node_type {
        NodeType::Control(c) => assert_eq!(c.mode, Mode::Manual),
        _ => panic!("not a control"),
    }
    b.hw.fail_writes = true;
    assert_eq!(g.set_control_mode(id, Mode::Auto, &mut b), Ok(Err(HardwareError { handle: 2 })));
    match &node(&g, id).node_type {
        NodeType::Control(c) => assert_eq!(c.mode, Mode::Manual),
        _ => panic!("not a control"),
    }
    let orphan = add(&mut g, NodeKind::Control);
    assert_eq!(g.set_control_mode(orphan.id, Mode::Manual, &mut b), Err(GraphError::InvariantViolation));
    let flat = add(&mut g, NodeKind::Flat);
    assert_eq!(g.set_control_mode(flat.id, Mode::Manual, &mut b), Err(GraphError::Validation));
}

#[test]
fn valid_pass_writes_even_when_recorded_auto() {
    let (mut g, _, _, ctl) = chain();
    let mut b = Bridge::new(FakeBridge::default());
    assert_eq!(g.set_control_mode(ctl, Mode::Auto, &mut b), Ok(Ok(())));
    let log = g.enforce_valid_roots_auto(&mut b);
    assert_eq!(log.len(), 1);
    assert_eq!(b.hw.modes, vec![(3, Mode::Auto), (3, Mode::Auto)]);
}

#[test]
fn insert_and_set_params_refuse_bad_parameters() {
    let mut g = AppGraph::new();
    let a = add(&mut g, NodeKind::Flat);
    let b = add(&mut g, NodeKind::Flat);
    let mut lin = g.create_node(NodeKind::Linear).unwrap();
    lin.inputs.push(input(&a));
    lin.inputs.push(input(&b));
    assert_eq!(g.insert_node(lin.clone()), Err(GraphError::Validation));
    lin.inputs.pop();
    assert_eq!(g.insert_node(lin.clone()), Ok(()));
    let bad = NodeType::Linear(Linear { min_temp: 50, min_speed: 0, max_temp: 50, max_speed: 100 });
    assert_eq!(g.set_params(lin.id, bad), Err(GraphError::Validation));
    let mut curve = g.create_node(NodeKind::Graph).unwrap();
    let cid = curve.id;
    curve.inputs.clear();
    g.insert_node(curve).unwrap();
    let unsorted = fan_control::curve::Graph {
        coords: vec![fan_control::curve::Coord { temp: 50, percent: 1 }, fan_control::curve::Coord { temp: 40, percent: 2 }],
    };
    assert_eq!(g.set_params(cid, NodeType::Graph(unsorted)), Err(GraphError::Validation));
}

#[test]
fn bridge_records_every_call() {
    let (mut g, ..) = chain();
    let mut b = Bridge::new(FakeBridge { readings: vec![50], ..Default::default() });
    let mut busy = false;
    assert_eq!(g.tick(&mut busy, &mut b), TickOutcome::Done(1));
    assert_eq!(b.hw.values, vec![(3, 60)]);
    let _ = BridgeCall::Refresh;
}
