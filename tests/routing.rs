use blockgraph::{
    input, output, BuildErr, Builder, ComponentKind, Graph, Port, PortHandle, PortType, RoutingErr,
    SystemInput, SystemOutput,
};

fn filter_ports() -> Vec<PortType> {
    vec![PortType::Input, PortType::Output]
}

fn graph_with(names: &[&str]) -> (Graph, Vec<usize>) {
    let mut g = Graph::new();
    let mut ids = Vec::new();
    for n in names {
        ids.push(g.register(ComponentKind::User, n.to_string(), filter_ports(), 0).unwrap());
    }
    (g, ids)
}

fn inp(c: usize) -> PortHandle {
    PortHandle::new(c, 0)
}

fn out(c: usize) -> PortHandle {
    PortHandle::new(c, 1)
}

fn place(g: &Graph, c: usize) -> usize {
    g.order.iter().position(|&x| x == c).unwrap()
}

fn assert_topological(g: &Graph) {
    assert_eq!(g.order.len(), g.components.len());
    for r in &g.routes {
        assert!(place(g, r.from.component) < place(g, r.to.component));
    }
}

#[test]
fn boundary_components_are_registered() {
    let g = Graph::new();
    assert_eq!(g.components.len(), 2);
    assert_eq!(g.components[0].ports, vec![PortType::SystemInput]);
    assert_eq!(g.components[1].ports, vec![PortType::SystemOutput]);
    assert_eq!(input(), PortHandle::new(0, 0));
    assert_eq!(output(), PortHandle::new(1, 0));
}

#[test]
fn duplicate_names_are_refused() {
    let mut g = Graph::new();
    assert_eq!(g.register(ComponentKind::User, "lp".to_string(), filter_ports(), 1), Ok(2));
    assert_eq!(g.register(ComponentKind::User, "lp".to_string(), filter_ports(), 1), Err(BuildErr::DuplicateName));
    assert_eq!(g.register(ComponentKind::User, "hp".to_string(), filter_ports(), 2), Ok(3));
    assert_eq!(g.components[3].slot_start, 1);
    assert_eq!(g.components[3].first_port, 4);
    assert_eq!(g.slot_total, 3);
    assert_eq!(g.port_total, 6);
}

#[test]
fn builder_reports_duplicates() {
    let mut b = Builder::new();
    assert_eq!(b.add_component("a".to_string(), filter_ports(), 0), Ok(2));
    assert_eq!(b.add_component("a".to_string(), filter_ports(), 0), Err(BuildErr::DuplicateName));
    assert_eq!(b.block_len, 512);
    b.buffer_length(64);
    assert_eq!(b.block_len, 64);
}

#[test]
fn order_is_topological_after_every_connect() {
    let (mut g, ids) = graph_with(&["a", "b", "c", "d"]);
    let (a, b, c, d) = (ids[0], ids[1], ids[2], ids[3]);
    assert_eq!(g.connect(out(c), inp(d)), Ok(()));
    assert_topological(&g);
    assert_eq!(g.connect(out(b), inp(c)), Ok(()));
    assert_topological(&g);
    assert_eq!(g.connect(out(a), inp(b)), Ok(()));
    assert_topological(&g);
    assert_eq!(g.connect(input(), inp(a)), Ok(()));
    assert_topological(&g);
    assert_eq!(g.connect(out(d), output()), Ok(()));
    assert_topological(&g);
    assert!(place(&g, 0) < place(&g, a) && place(&g, a) < place(&g, b));
    assert!(place(&g, c) < place(&g, d) && place(&g, d) < place(&g, 1));
}

#[test]
fn order_depends_on_the_route_set_only() {
    let (mut g1, ids) = graph_with(&["a", "b", "c"]);
    let (mut g2, _) = graph_with(&["a", "b", "c"]);
    let (a, b, c) = (ids[0], ids[1], ids[2]);
    g1.connect(input(), inp(b)).unwrap();
    g1.connect(out(c), inp(a)).unwrap();
    g2.connect(out(c), inp(a)).unwrap();
    g2.connect(input(), inp(b)).unwrap();
    assert_eq!(g1.order, g2.order);
    assert_topological(&g1);
}

#[test]
fn order_is_stable_for_the_same_calls() {
    let (mut g1, ids) = graph_with(&["a", "b", "c"]);
    let (mut g2, _) = graph_with(&["a", "b", "c"]);
    for g in [&mut g1, &mut g2] {
        g.connect(out(ids[2]), inp(ids[0])).unwrap();
        g.connect(out(ids[1]), inp(ids[2])).unwrap();
    }
    assert_eq!(g1.order, g2.order);
}

#[test]
fn cycle_is_refused_and_nothing_changes() {
    let (mut g, ids) = graph_with(&["a", "b"]);
    g.connect(out(ids[0]), inp(ids[1])).unwrap();
    let routes = g.routes.clone();
    let order = g.order.clone();
    let pos = g.pos.clone();
    assert_eq!(g.connect(out(ids[1]), inp(ids[0])), Err(RoutingErr::CycleDetected));
    assert_eq!(g.routes, routes);
    assert_eq!(g.order, order);
    assert_eq!(g.pos, pos);
}

#[test]
fn self_route_is_a_cycle() {
    let (mut g, ids) = graph_with(&["p"]);
    assert_eq!(g.connect(out(ids[0]), inp(ids[0])), Err(RoutingErr::CycleDetected));
    assert!(g.routes.is_empty());
}

#[test]
fn three_way_cycle_keeps_first_two_routes() {
    let (mut g, ids) = graph_with(&["a", "b", "c"]);
    let (a, b, c) = (ids[0], ids[1], ids[2]);
    assert_eq!(g.connect(out(a), inp(b)), Ok(()));
    assert_eq!(g.connect(out(b), inp(c)), Ok(()));
    assert_eq!(g.connect(out(c), inp(a)), Err(RoutingErr::CycleDetected));
    assert_eq!(g.routes.len(), 2);
    assert_eq!(g.resolve_port(inp(b)), Some(g.components[a].first_port + 1));
    assert_eq!(g.resolve_port(inp(c)), Some(g.components[b].first_port + 1));
    assert_topological(&g);
}

#[test]
fn replacing_a_route_can_reverse_a_dependency() {
    let (mut g, ids) = graph_with(&["a", "b"]);
    let (a, b) = (ids[0], ids[1]);
    g.connect(out(a), inp(b)).unwrap();
    // b's input is fed by a; a new route into a's input from b is a cycle
    assert_eq!(g.connect(out(b), inp(a)), Err(RoutingErr::CycleDetected));
    // once b's input is fed from the boundary instead, b no longer depends on a
    g.connect(input(), inp(b)).unwrap();
    assert_eq!(g.routes.len(), 1);
    assert_eq!(g.connect(out(b), inp(a)), Ok(()));
    assert_topological(&g);
    assert!(place(&g, b) < place(&g, a));
}

#[test]
fn direction_errors() {
    let (mut g, ids) = graph_with(&["a", "b"]);
    let (a, b) = (ids[0], ids[1]);
    assert_eq!(g.connect(out(a), out(b)), Err(RoutingErr::ToPortIsOutput));
    assert_eq!(g.connect(inp(a), inp(b)), Err(RoutingErr::FromPortIsInput));
    assert_eq!(g.connect(out(a), out(a)), Err(RoutingErr::ToPortIsOutput));
    assert_eq!(g.connect(inp(a), inp(a)), Err(RoutingErr::FromPortIsInput));
    assert_eq!(g.connect(output(), input()), Err(RoutingErr::FromPortIsInput));
    assert_eq!(g.connect(input(), input()), Err(RoutingErr::ToPortIsOutput));
    assert!(g.routes.is_empty());
}

#[test]
fn missing_components_and_ports() {
    let (mut g, ids) = graph_with(&["a"]);
    let a = ids[0];
    assert_eq!(g.connect(out(9), inp(a)), Err(RoutingErr::ComponentNotFound));
    assert_eq!(g.connect(out(a), inp(9)), Err(RoutingErr::ComponentNotFound));
    assert_eq!(g.connect(PortHandle::new(a, 2), output()), Err(RoutingErr::PortNotFound));
    assert_eq!(g.connect(input(), PortHandle::new(1, 1)), Err(RoutingErr::PortNotFound));
    // existence is checked before direction
    assert_eq!(g.connect(inp(a), PortHandle::new(1, 5)), Err(RoutingErr::PortNotFound));
}

#[test]
fn unrouted_input_resolves_to_nothing() {
    let (mut g, ids) = graph_with(&["a", "b"]);
    let (a, b) = (ids[0], ids[1]);
    assert_eq!(g.resolve_port(inp(a)), None);
    assert_eq!(g.resolve_port(output()), None);
    assert_eq!(g.resolve_port(out(a)), Some(g.components[a].first_port + 1));
    g.connect(out(a), inp(b)).unwrap();
    assert_eq!(g.resolve_port(inp(b)), g.resolve_port(out(a)));
    assert_eq!(g.resolve_port(inp(a)), None);
}

#[test]
fn fan_out_shares_one_buffer() {
    let (mut g, ids) = graph_with(&["a", "b", "c"]);
    let (a, b, c) = (ids[0], ids[1], ids[2]);
    g.connect(out(a), inp(b)).unwrap();
    g.connect(out(a), inp(c)).unwrap();
    assert_eq!(g.resolve_port(inp(b)), g.resolve_port(inp(c)));
    let table = g.buffer_table();
    assert_eq!(table.len(), 5);
    assert_eq!(table[b][0], table[a][1]);
    assert_eq!(table[c][0], table[a][1]);
    assert_eq!(table[b][1], Some(g.components[b].first_port + 1));
}

#[test]
fn every_output_has_its_own_buffer() {
    let (g, _) = graph_with(&["a", "b", "c"]);
    let table = g.buffer_table();
    let mut seen = Vec::new();
    for row in &table {
        for s in row.iter().flatten() {
            assert!(!seen.contains(s));
            seen.push(*s);
        }
    }
    assert_eq!(seen.len(), 4);
}

#[test]
fn error_messages() {
    assert_eq!(RoutingErr::CycleDetected.message(), "Cycle detected in routing graph");
    assert_eq!(RoutingErr::ComponentNotFound.message(), "Component not found");
    assert_eq!(RoutingErr::PortNotFound.message(), "Buffer not found");
    assert_eq!(RoutingErr::FromPortIsInput.message(), "\"from\" must be an Output port");
    assert_eq!(RoutingErr::ToPortIsOutput.message(), "\"to\" must be an Input port");
    assert_eq!(RoutingErr::ChannelClosed.message(), "Runtime is no longer receiving");
}

#[test]
fn boundary_port_types() {
    assert_eq!(SystemInput::port_type(), PortType::SystemInput);
    assert_eq!(SystemOutput::port_type(), PortType::SystemOutput);
}

#[test]
fn too_many_ports_is_refused() {
    let mut g = Graph::new();
    g.port_total = usize::MAX - 1;
    assert_eq!(g.register(ComponentKind::User, "big".to_string(), filter_ports(), 0), Err(BuildErr::TooLarge));
    assert_eq!(g.components.len(), 2);
}

#[test]
fn new_route_into_an_input_replaces_the_old_one() {
    let (mut g, ids) = graph_with(&["a", "b"]);
    let (a, b) = (ids[0], ids[1]);
    g.connect(out(a), output()).unwrap();
    g.connect(out(b), output()).unwrap();
    assert_eq!(g.routes.len(), 1);
    assert_eq!(g.resolve_port(output()), Some(g.components[b].first_port + 1));
}
