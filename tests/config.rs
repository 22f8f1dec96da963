use fan_control::config::{must_save_on_exit, Config, NodeConfig};
use fan_control::update::{Bridge, HardwareBridge, HardwareError};
use fan_control::curve::{Coord, Graph};
use fan_control::edit::{HardwareItem, HardwareKind};
use fan_control::graph::{AppGraph, GraphError};
use fan_control::node::{Control, HardwareRef, Mode, NodeInput, NodeKind, NodeType};

fn inventory() -> Vec<HardwareItem> {
    vec![
        HardwareItem { hardware_id: "cpu".to_string(), kind: HardwareKind::Temp },
        HardwareItem { hardware_id: "fan1".to_string(), kind: HardwareKind::Control },
    ]
}

fn sample() -> AppGraph {
    let mut g = AppGraph::new();
    let mut t = g.create_node(NodeKind::Temp).unwrap();
    t.node_type = NodeType::Temp(HardwareRef { hardware_id: Some("cpu".to_string()), handle: Some(0) });
    g.insert_node(t.clone()).unwrap();
    let mut curve = g.create_node(NodeKind::Graph).unwrap();
    let mut coords = Graph::new();
    coords.add_coord(Coord { temp: 30, percent: 20 }).unwrap();
    coords.add_coord(Coord { temp: 80, percent: 100 }).unwrap();
    curve.node_type = NodeType::Graph(coords);
    curve.inputs.push(NodeInput { id: t.id, name: t.name.clone() });
    g.insert_node(curve.clone()).unwrap();
    let mut c = g.create_node(NodeKind::Control).unwrap();
    c.node_type = NodeType::Control(Control {
        hardware_id: Some("fan1".to_string()),
        handle: Some(1),
        mode: Mode::Manual,
        active: true,
    });
    c.inputs.push(NodeInput { id: curve.id, name: curve.name.clone() });
    g.insert_node(c).unwrap();
    g
}

#[test]
fn export_drops_runtime_state() {
    let g = sample();
    let cfg = g.export_config();
    assert_eq!(cfg.nodes.len(), 3);
    assert_eq!(cfg.nodes[2].inputs, vec!["Graph1".to_string()]);
    match &cfg.nodes[2].node_type {
        NodeType::Control(c) => {
            assert_eq!(c.handle, None);
            assert_eq!(c.mode, Mode::Auto);
            assert!(c.active);
            assert_eq!(c.hardware_id.as_deref(), Some("fan1"));
        }
        _ => panic!("not a control"),
    }
}

#[test]
fn export_then_apply_reproduces_the_graph() {
    let g = sample();
    let cfg = g.export_config();
    let mut h = AppGraph::new();
    h.next_id = 40;
    assert_eq!(h.apply_config(&cfg, &inventory()), Ok(()));
    assert_eq!(h.nodes.len(), 3);
    let ids: Vec<u64> = h.nodes.iter().map(|n| n.id).collect();
    assert_eq!(ids, vec![40, 41, 42]);
    for (a, b) in g.nodes.iter().zip(h.nodes.iter()) {
        assert_eq!(a.name, b.name);
        let an: Vec<&String> = a.inputs.iter().map(|i| &i.name).collect();
        let bn: Vec<&String> = b.inputs.iter().map(|i| &i.name).collect();
        assert_eq!(an, bn);
    }
    assert_eq!(h.nodes[2].inputs[0].id, 41);
    match &h.nodes[0].node_type {
        NodeType::Temp(t) => assert_eq!(t.handle, Some(0)),
        _ => panic!("not a temp"),
    }
    match &h.nodes[1].node_type {
        NodeType::Graph(c) => assert_eq!(c.value(55), Some(60)),
        _ => panic!("not a graph"),
    }
    assert_eq!(h.root_nodes, vec![42]);
    assert_eq!(h.export_config().nodes[1].inputs, cfg.nodes[1].inputs);
}

#[test]
fn apply_leaves_orphaned_hardware_unbound() {
    let cfg = sample().export_config();
    let mut h = AppGraph::new();
    assert_eq!(h.apply_config(&cfg, &vec![]), Ok(()));
    match &h.nodes[2].node_type {
        NodeType::Control(c) => assert!(c.handle.is_none() && c.hardware_id.is_some()),
        _ => panic!("not a control"),
    }
    assert!(!h.is_valid_control(2));
}

#[test]
fn apply_refuses_duplicate_names_and_drops_unknown_inputs() {
    let node = |name: &str, inputs: Vec<&str>| NodeConfig {
        name: name.to_string(),
        inputs: inputs.into_iter().map(|s| s.to_string()).collect(),
        node_type: NodeType::CustomTemp(fan_control::node::CustomTempKind::Max),
    };
    let mut h = AppGraph::new();
    let dup = Config { nodes: vec![node("a", vec![]), node("a", vec![])] };
    assert_eq!(h.apply_config(&dup, &inventory()), Err(GraphError::Validation));
    let cfg = Config { nodes: vec![node("a", vec!["b", "zz"]), node("b", vec!["a"])] };
    assert_eq!(h.apply_config(&cfg, &inventory()), Ok(()));
    assert_eq!(h.nodes[0].inputs.len(), 0);
    assert_eq!(h.nodes[1].inputs.len(), 0);
}

#[derive(Default)]
struct Modes {
    modes: Vec<(usize, Mode)>,
}

impl HardwareBridge for Modes {
    fn inventory(&self) -> Vec<HardwareItem> {
        inventory()
    }
    fn refresh(&mut self) -> Result<(), HardwareError> {
        Ok(())
    }
    fn shutdown(&mut self) -> Result<(), HardwareError> {
        Ok(())
    }
    fn read_value(&mut self, _handle: usize) -> Result<i32, HardwareError> {
        Ok(0)
    }
    fn set_value(&mut self, _handle: usize, _value: i32) -> Result<(), HardwareError> {
        Ok(())
    }
    fn set_mode(&mut self, handle: usize, mode: Mode) -> Result<(), HardwareError> {
        self.modes.push((handle, mode));
        Ok(())
    }
}

#[test]
fn switch_config_hands_fans_back_first() {
    let mut g = sample();
    let cfg = g.export_config();
    let mut b = Bridge::new(Modes::default());
    let (log, applied) = g.switch_config(&cfg, &inventory(), &mut b);
    assert_eq!(applied, Ok(()));
    assert_eq!(log.len(), 1);
    assert_eq!(b.hw.modes, vec![(1, Mode::Auto)]);
    assert_eq!(g.nodes.len(), 3);
    assert_eq!(g.nodes[0].id, 3);
}

#[test]
fn save_on_exit_only_when_changed() {
    let g = sample();
    let cfg = g.export_config();
    assert!(must_save_on_exit(None, &cfg));
    assert!(!must_save_on_exit(Some(&g.export_config()), &cfg));
    let mut other = g.export_config();
    other.nodes[0].name = "renamed".to_string();
    assert!(must_save_on_exit(Some(&other), &cfg));
    assert!(cfg.same_as(&sample().export_config()));
}
