use fan_control::curve::{Coord, Graph, Linear, Target, ValidationError};
use fan_control::node::{Control, CustomTempKind, Flat, HardwareRef, Mode, NodeType};

fn linear() -> Linear {
    Linear { min_temp: 30, min_speed: 20, max_temp: 70, max_speed: 100 }
}

#[test]
fn linear_midpoint_follows_the_line() {
    // 20 + (50 - 30) / (70 - 30) * (100 - 20)
    assert_eq!(linear().value(50), 60);
    assert_eq!(linear().value(40), 40);
    assert_eq!(linear().value(31), 22);
}

#[test]
fn linear_end_points_and_clamping() {
    let l = linear();
    assert_eq!(l.value(30), 20);
    assert_eq!(l.value(70), 100);
    assert_eq!(l.value(-5), 20);
    assert_eq!(l.value(200), 100);
}

#[test]
fn linear_is_monotonic() {
    let l = linear();
    let mut last = l.value(0);
    for t in 1..100 {
        let v = l.value(t);
        assert!(v >= last);
        last = v;
    }
}

#[test]
fn linear_falling_rounds_toward_start() {
    let l = Linear { min_temp: 0, min_speed: 100, max_temp: 3, max_speed: 0 };
    assert_eq!(l.value(1), 67);
    assert_eq!(l.value(2), 34);
}

#[test]
fn target_interpolates_between_idle_and_load() {
    let t = Target { idle_temp: 40, idle_speed: 10, load_temp: 60, load_speed: 50 };
    assert_eq!(t.value(40), 10);
    assert_eq!(t.value(50), 30);
    assert_eq!(t.value(60), 50);
    assert_eq!(t.value(0), 10);
    assert_eq!(t.value(90), 50);
}

fn curve() -> Graph {
    let mut g = Graph::new();
    assert_eq!(g.add_coord(Coord { temp: 60, percent: 80 }), Ok(()));
    assert_eq!(g.add_coord(Coord { temp: 20, percent: 10 }), Ok(()));
    assert_eq!(g.add_coord(Coord { temp: 40, percent: 30 }), Ok(()));
    g
}

#[test]
fn curve_stays_sorted() {
    let g = curve();
    let temps: Vec<u8> = g.coords.iter().map(|c| c.temp).collect();
    assert_eq!(temps, vec![20, 40, 60]);
}

#[test]
fn curve_refuses_a_second_point_at_one_temperature() {
    let mut g = curve();
    assert_eq!(g.add_coord(Coord { temp: 40, percent: 99 }), Err(ValidationError));
    assert_eq!(g.coords.len(), 3);
}

#[test]
fn curve_exact_at_stored_points() {
    let g = curve();
    assert_eq!(g.value(20), Some(10));
    assert_eq!(g.value(40), Some(30));
    assert_eq!(g.value(60), Some(80));
}

#[test]
fn curve_interpolates_and_clamps() {
    let g = curve();
    assert_eq!(g.value(30), Some(20));
    assert_eq!(g.value(50), Some(55));
    assert_eq!(g.value(0), Some(10));
    assert_eq!(g.value(100), Some(80));
    assert_eq!(Graph::new().value(50), None);
}

#[test]
fn curve_replace_and_remove() {
    let mut g = curve();
    let p = Coord { temp: 40, percent: 30 };
    assert_eq!(g.replace_coord(&p, Coord { temp: 60, percent: 1 }), Err(ValidationError));
    assert_eq!(g.replace_coord(&Coord { temp: 41, percent: 30 }, Coord { temp: 45, percent: 1 }), Err(ValidationError));
    assert_eq!(g.replace_coord(&p, Coord { temp: 50, percent: 40 }), Ok(()));
    let temps: Vec<u8> = g.coords.iter().map(|c| c.temp).collect();
    assert_eq!(temps, vec![20, 50, 60]);
    assert_eq!(g.value(50), Some(40));
    g.remove_coord(&Coord { temp: 50, percent: 40 });
    g.remove_coord(&Coord { temp: 99, percent: 40 });
    let temps: Vec<u8> = g.coords.iter().map(|c| c.temp).collect();
    assert_eq!(temps, vec![20, 60]);
}

#[test]
fn custom_temp_reducers() {
    let v = vec![Some(40), None, Some(55), Some(30)];
    assert_eq!(CustomTempKind::Max.reduce(&v), Some(55));
    assert_eq!(CustomTempKind::Min.reduce(&v), Some(30));
    assert_eq!(CustomTempKind::Average.reduce(&v), Some(41));
    assert_eq!(CustomTempKind::Average.reduce(&vec![Some(-7), Some(-8)]), Some(-7));
}

#[test]
fn custom_temp_without_present_input_is_absent() {
    assert_eq!(CustomTempKind::Max.reduce(&vec![]), None);
    assert_eq!(CustomTempKind::Max.reduce(&vec![None, None]), None);
    assert_eq!(CustomTempKind::Average.reduce(&vec![None]), None);
}

#[test]
fn absent_upstream_gives_absent_value_except_flat() {
    let ups = vec![None];
    let types = vec![
        NodeType::Linear(linear()),
        NodeType::Target(Target { idle_temp: 1, idle_speed: 2, load_temp: 3, load_speed: 4 }),
        NodeType::Graph(curve()),
        NodeType::CustomTemp(CustomTempKind::Max),
        NodeType::Control(Control { hardware_id: None, handle: Some(0), mode: Mode::Manual, active: true }),
    ];
    for t in &types {
        assert_eq!(t.output(&ups, None), None);
    }
    assert_eq!(NodeType::Flat(Flat { value: 42 }).output(&ups, None), Some(42));
    assert_eq!(NodeType::Flat(Flat { value: 42 }).output(&vec![], None), Some(42));
}

#[test]
fn node_outputs_with_upstream() {
    let ups = vec![Some(50)];
    assert_eq!(NodeType::Linear(linear()).output(&ups, None), Some(60));
    let manual = Control { hardware_id: None, handle: Some(0), mode: Mode::Manual, active: true };
    assert_eq!(NodeType::Control(manual.clone()).output(&ups, None), Some(50));
    let auto = Control { mode: Mode::Auto, ..manual };
    assert_eq!(NodeType::Control(auto).output(&ups, None), None);
    let temp = NodeType::Temp(HardwareRef { hardware_id: None, handle: Some(1) });
    assert_eq!(temp.output(&vec![], Some(33)), Some(33));
}
