use xg_editor::midi_topology::{active_outputs, Direction, MidiRole, MidiTopology, PortRef};

#[test]
fn from_probe_merges_same_name_port() {
    // UX16: 同名 in + out → 合并成一个 MidiPort (is_input + is_output)
    let topo = MidiTopology::from_probe(
        &["UX16 (UX16) [Port1]".into(), "Bluetooth MIDI".into()],
        &["UX16 (UX16) [Port1]".into()],
    );
    assert_eq!(topo.ports.len(), 2);
    let ux = topo.ports.iter().find(|p| p.name.starts_with("UX16")).unwrap();
    assert!(ux.is_input && ux.is_output, "同名 in/out 应合并");
    let bt = topo.ports.iter().find(|p| p.name.starts_with("Bluetooth")).unwrap();
    assert!(bt.is_input && !bt.is_output);
}

#[test]
fn auto_assign_single_interface_port_a_only() {
    // 单 UX16 只有 1 个 out → PortA, PortB 留空; parts 1-16 路由, 17-32 不路由
    let mut topo = MidiTopology::from_probe(&[], &["UX16 (UX16) [Port1]".into()]);
    topo.auto_assign_roles();
    assert_eq!(topo.output_for_role(MidiRole::PortA).as_deref(), Some("UX16 (UX16) [Port1]"));
    assert_eq!(topo.output_for_role(MidiRole::PortB), None);
    assert!(topo.part_is_routed(0), "part1 应路由到 PortA");
    assert!(topo.part_is_routed(15), "part16 应路由到 PortA");
    assert!(!topo.part_is_routed(16), "part17 无 PortB 不应路由");
    assert!(!topo.part_is_routed(31), "part32 无 PortB 不应路由");
}

#[test]
fn auto_assign_two_interfaces_ports_a_and_b() {
    // 两个 out → PortA + PortB; 32 part 全路由
    let mut topo = MidiTopology::from_probe(
        &[],
        &["UX16 (UX16) [Port1]".into(), "Tascam Model 12 MIDI".into()],
    );
    topo.auto_assign_roles();
    assert_eq!(topo.output_for_role(MidiRole::PortA).as_deref(), Some("UX16 (UX16) [Port1]"));
    assert_eq!(topo.output_for_role(MidiRole::PortB).as_deref(), Some("Tascam Model 12 MIDI"));
    assert!(topo.part_is_routed(16), "part17 应路由到 PortB");
    assert!(topo.part_is_routed(31), "part32 应路由到 PortB");
    let r16 = topo.route_for_part(16).unwrap();
    assert_eq!(r16.name, "Tascam Model 12 MIDI");
}

#[test]
fn manual_role_override() {
    // 手动把 PortB 指定到蓝牙
    let mut topo = MidiTopology::from_probe(
        &[],
        &["UX16 (UX16) [Port1]".into(), "BT MIDI".into()],
    );
    topo.set_role("BT MIDI", MidiRole::PortB);
    topo.set_role("UX16 (UX16) [Port1]", MidiRole::PortA);
    topo.rebuild_default_routes();
    assert_eq!(topo.route_for_part(16).map(|r| r.name.as_str()), Some("BT MIDI"));
    assert_eq!(topo.route_for_part(0).map(|r| r.name.as_str()), Some("UX16 (UX16) [Port1]"));
}

#[test]
fn bound_inputs_tracking() {
    let mut topo = MidiTopology::from_probe(&["UX16 (UX16) [Port1]".into()], &[]);
    assert!(!topo.is_input_bound("UX16 (UX16) [Port1]"));
    topo.bound_inputs.push("UX16 (UX16) [Port1]".into());
    assert!(topo.is_input_bound("UX16 (UX16) [Port1]"));
    assert_eq!(topo.input_ports().len(), 1);
}

#[test]
fn part_route_override_single_channel() {
    // 用户手动覆盖: part17 从 PortB 改到 PortA (灵活路由表)
    let mut topo = MidiTopology::from_probe(
        &[],
        &["UX16 (UX16) [Port1]".into(), "Tascam Model 12 MIDI".into()],
    );
    topo.auto_assign_roles();
    topo.part_routes.routes[16] = Some(PortRef {
        name: "UX16 (UX16) [Port1]".into(),
        direction: Direction::Out,
    });
    assert_eq!(topo.route_for_part(16).map(|r| r.name.as_str()), Some("UX16 (UX16) [Port1]"));
}

fn names(v: &[&str]) -> Vec<String> {
    v.iter().map(|s| s.to_string()).collect()
}

#[test]
fn active_outputs_port_a_and_b_mirror() {
    let devices = names(&["UX16 Port1", "UX16 Port2"]);
    let topo = MidiTopology::default();
    // only port A selected
    assert_eq!(active_outputs(&devices, Some(0), false, None, &topo), vec!["UX16 Port1"]);
    // A + mirror to B
    assert_eq!(active_outputs(&devices, Some(0), true, Some(1), &topo), vec!["UX16 Port1", "UX16 Port2"]);
    // mirror off: B is not used
    assert_eq!(active_outputs(&devices, Some(0), false, Some(1), &topo), vec!["UX16 Port1"]);
    // B is the same device: listed once
    assert_eq!(active_outputs(&devices, Some(0), true, Some(0), &topo), vec!["UX16 Port1"]);
    // nothing selected
    assert!(active_outputs(&devices, None, true, None, &topo).is_empty());
}

#[test]
fn active_outputs_include_role_holders() {
    let devices = names(&["UX16 Port1"]);
    let mut topo = MidiTopology::from_probe(&[], &names(&["UX16 Port1", "Tascam Model 12 MIDI"]));
    topo.auto_assign_roles();
    assert_eq!(
        active_outputs(&devices, Some(0), false, None, &topo),
        vec!["UX16 Port1", "Tascam Model 12 MIDI"]
    );
    // an index past the device list selects nothing
    assert_eq!(active_outputs(&devices, Some(5), false, None, &topo), vec!["UX16 Port1", "Tascam Model 12 MIDI"]);
}

#[test]
fn from_probe_lists_each_name_once() {
    let topo = MidiTopology::from_probe(&names(&["A", "B", "A"]), &names(&["B", "C"]));
    let ns: Vec<&str> = topo.ports.iter().map(|p| p.name.as_str()).collect();
    assert_eq!(ns, vec!["A", "B", "C"]);
    assert!(topo.ports[0].is_input && !topo.ports[0].is_output);
    assert!(topo.ports[1].is_input && topo.ports[1].is_output);
    assert!(!topo.ports[2].is_input && topo.ports[2].is_output);
    assert_eq!(topo.output_ports().len(), 2);
    assert_eq!(topo.input_ports().len(), 2);
}

#[test]
fn auto_assign_without_outputs_routes_nothing() {
    let mut topo = MidiTopology::from_probe(&names(&["In only"]), &[]);
    topo.auto_assign_roles();
    assert_eq!(topo.output_for_role(MidiRole::PortA), None);
    for p in 0..32u8 {
        assert!(!topo.part_is_routed(p));
    }
    assert!(topo.route_for_part(40).is_none());
}

#[test]
fn set_role_replaces_existing_entry() {
    let mut topo = MidiTopology::from_probe(&[], &names(&["X", "Y"]));
    topo.set_role("X", MidiRole::PortA);
    topo.set_role("X", MidiRole::PortB);
    assert_eq!(topo.roles.len(), 1);
    assert_eq!(topo.output_for_role(MidiRole::PortA), None);
    assert_eq!(topo.output_for_role(MidiRole::PortB).as_deref(), Some("X"));
    let _ = Direction::In;
}
