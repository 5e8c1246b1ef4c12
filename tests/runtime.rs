use blockgraph::{
    input, output, BufferIdx, Builder, Context, ContextHandle, PortHandle, PortType, Processor,
    Router, RoutingErr, Runtime,
};

/// Copies port 0 to port 1 for every component (silence where the input is absent),
/// and records what it saw.
#[derive(Default)]
struct Copier {
    absent_inputs: Vec<usize>,
    seen_inputs: Vec<(usize, Vec<f32>)>,
    batches: Vec<Vec<u32>>,
    calls: Vec<usize>,
}

impl Processor<f32, u32> for Copier {
    fn process(
        &mut self,
        ctx: &Context<u32>,
        inputs: &Vec<Option<&Vec<f32>>>,
        outputs: &mut Vec<Vec<f32>>,
        _state: &mut Vec<f32>,
    ) {
        let c = ctx.handle.component_id;
        self.calls.push(c);
        self.batches.push(ctx.get_events().clone());
        assert!(inputs[1].is_none());
        match inputs[0] {
            Some(buf) => {
                self.seen_inputs.push((c, buf.clone()));
                outputs[1] = buf.clone();
            }
            None => {
                self.absent_inputs.push(c);
                outputs[1] = vec![0.0; ctx.buffer_size()];
            }
        }
    }
}

/// Adds 1 to its state slot each block and writes the count out.
struct Counter;

impl Processor<f32, u32> for Counter {
    fn process(
        &mut self,
        _ctx: &Context<u32>,
        _inputs: &Vec<Option<&Vec<f32>>>,
        outputs: &mut Vec<Vec<f32>>,
        state: &mut Vec<f32>,
    ) {
        state[0] += 1.0;
        outputs[0] = vec![state[0]];
    }
}

fn copier_graph(names: &[&str], block: usize) -> (Runtime<f32, u32>, Router<u32>, Vec<usize>) {
    let mut b = Builder::new();
    b.buffer_length(block);
    let mut ids = Vec::new();
    for n in names {
        ids.push(b.add_component(n.to_string(), vec![PortType::Input, PortType::Output], 0).unwrap());
    }
    let (rt, router) = b.build(0.0f32);
    (rt, router, ids)
}

fn inp(c: usize) -> PortHandle {
    PortHandle::new(c, 0)
}

fn out(c: usize) -> PortHandle {
    PortHandle::new(c, 1)
}

#[test]
fn pass_through_copies_input_to_output() {
    let (mut rt, mut router, ids) = copier_graph(&["p"], 3);
    let p = ids[0];
    assert_eq!(router.route(input(), inp(p)), Ok(()));
    assert_eq!(router.route(out(p), output()), Ok(()));
    rt.set_input(&vec![1.0, 2.0, 3.0]);
    let mut proc = Copier::default();
    rt.run_block(&mut proc);
    assert_eq!(rt.output(), Some(&vec![1.0, 2.0, 3.0]));
    assert_eq!(proc.calls, vec![p]);
}

#[test]
fn unconnected_input_is_absent() {
    let (mut rt, _router, ids) = copier_graph(&["p"], 4);
    let mut proc = Copier::default();
    rt.run_block(&mut proc);
    assert_eq!(proc.absent_inputs, vec![ids[0]]);
    assert_eq!(rt.output(), None);
}

#[test]
fn routed_input_sees_what_its_source_wrote() {
    let (mut rt, mut router, ids) = copier_graph(&["a", "b"], 2);
    let (a, b) = (ids[0], ids[1]);
    // route b first so that a runs before b only because of the route
    router.route(out(b), output()).unwrap();
    router.route(out(a), inp(b)).unwrap();
    router.route(input(), inp(a)).unwrap();
    rt.set_input(&vec![5.0, 6.0]);
    let mut proc = Copier::default();
    rt.run_block(&mut proc);
    assert_eq!(proc.calls, vec![a, b]);
    assert_eq!(proc.seen_inputs, vec![(a, vec![5.0, 6.0]), (b, vec![5.0, 6.0])]);
    assert_eq!(rt.output(), Some(&vec![5.0, 6.0]));
}

#[test]
fn fan_out_delivers_identical_data() {
    let (mut rt, mut router, ids) = copier_graph(&["a", "b", "c"], 3);
    let (a, b, c) = (ids[0], ids[1], ids[2]);
    router.route(input(), inp(a)).unwrap();
    router.route(out(a), inp(b)).unwrap();
    router.route(out(a), inp(c)).unwrap();
    rt.set_input(&vec![0.5, -0.5, 0.25]);
    let mut proc = Copier::default();
    rt.run_block(&mut proc);
    let seen_b = proc.seen_inputs.iter().find(|(x, _)| *x == b).unwrap().1.clone();
    let seen_c = proc.seen_inputs.iter().find(|(x, _)| *x == c).unwrap().1.clone();
    assert_eq!(seen_b, vec![0.5, -0.5, 0.25]);
    assert_eq!(seen_b, seen_c);
}

#[test]
fn events_arrive_once_in_order_then_clear() {
    let (mut rt, mut router, _ids) = copier_graph(&["p"], 1);
    router.send_event(7).unwrap();
    router.send_event(8).unwrap();
    router.send_event(9).unwrap();
    let mut proc = Copier::default();
    rt.run_block(&mut proc);
    assert_eq!(rt.engine.events, vec![7, 8, 9]);
    rt.run_block(&mut proc);
    assert!(rt.engine.events.is_empty());
    router.send_event(10).unwrap();
    rt.run_block(&mut proc);
    assert_eq!(proc.batches, vec![vec![7, 8, 9], vec![], vec![10]]);
}

#[test]
fn queued_updates_apply_the_latest() {
    let (mut rt, mut router, ids) = copier_graph(&["a", "b"], 1);
    let (a, b) = (ids[0], ids[1]);
    router.route(out(a), output()).unwrap();
    router.route(out(b), output()).unwrap();
    let mut proc = Copier::default();
    rt.run_block(&mut proc);
    assert_eq!(rt.engine.table, router.graph.buffer_table());
    assert_eq!(rt.engine.order, router.graph.order);
    assert_eq!(rt.engine.table[1][0], Some(router.graph.components[b].first_port + 1));
}

#[test]
fn cycle_leaves_runtime_executable() {
    let (mut rt, mut router, ids) = copier_graph(&["a", "b", "c"], 2);
    let (a, b, c) = (ids[0], ids[1], ids[2]);
    assert_eq!(router.route(out(a), inp(b)), Ok(()));
    assert_eq!(router.route(out(b), inp(c)), Ok(()));
    assert_eq!(router.route(out(c), inp(a)), Err(RoutingErr::CycleDetected));
    router.route(input(), inp(a)).unwrap();
    router.route(out(c), output()).unwrap();
    rt.set_input(&vec![4.0, 2.0]);
    let mut proc = Copier::default();
    rt.run_block(&mut proc);
    assert_eq!(proc.calls, vec![a, b, c]);
    assert_eq!(rt.output(), Some(&vec![4.0, 2.0]));
}

#[test]
fn state_persists_across_blocks() {
    let mut b = Builder::new();
    b.buffer_length(1);
    let id = b.add_component("count".to_string(), vec![PortType::Output], 1).unwrap();
    let (mut rt, mut router): (Runtime<f32, u32>, Router<u32>) = b.build(0.0f32);
    router.route(PortHandle::new(id, 0), output()).unwrap();
    let mut proc = Counter;
    rt.run_block(&mut proc);
    rt.run_block(&mut proc);
    rt.run_block(&mut proc);
    assert_eq!(rt.output(), Some(&vec![3.0]));
    assert_eq!(rt.engine.states, vec![3.0]);
}

#[test]
fn closed_channels_are_reported() {
    let (rt, mut router, ids) = copier_graph(&["p"], 1);
    drop(rt);
    assert_eq!(router.send_event(42), Err(42));
    assert_eq!(router.route(input(), inp(ids[0])), Err(RoutingErr::ChannelClosed));
    assert_eq!(router.route(inp(ids[0]), inp(ids[0])), Err(RoutingErr::FromPortIsInput));
}

#[test]
fn build_applies_initial_topology() {
    let (rt, _router, ids) = copier_graph(&["p"], 8);
    assert_eq!(rt.engine.order.len(), 3);
    assert_eq!(rt.engine.buffers.len(), 4);
    assert!(rt.engine.buffers.iter().all(|b| b == &vec![0.0f32; 8]));
    assert_eq!(rt.engine.table[ids[0]], vec![None, Some(3)]);
    assert_eq!(rt.engine.block_len, 8);
}

#[test]
fn context_accessors() {
    let events = vec![1u32, 2];
    let ctx = Context {
        handle: ContextHandle { component_id: 2, buffer_ids_start: BufferIdx(2), slot_ids_start: 0 },
        block_len: 64,
        events: &events,
    };
    assert_eq!(ctx.buffer_size(), 64);
    assert_eq!(ctx.get_events(), &vec![1, 2]);
    assert_eq!(BufferIdx(2).add(3), BufferIdx(5));
}

/// Writes a single sample, whatever the block length.
struct Short;

impl Processor<f32, u32> for Short {
    fn process(
        &mut self,
        _ctx: &Context<u32>,
        _inputs: &Vec<Option<&Vec<f32>>>,
        outputs: &mut Vec<Vec<f32>>,
        _state: &mut Vec<f32>,
    ) {
        outputs[0] = vec![9.0];
    }
}

#[test]
fn buffers_keep_the_block_length() {
    let mut b = Builder::new();
    b.buffer_length(3);
    let id = b.add_component("short".to_string(), vec![PortType::Output], 0).unwrap();
    let (mut rt, mut router): (Runtime<f32, u32>, Router<u32>) = b.build(0.0f32);
    router.route(PortHandle::new(id, 0), output()).unwrap();
    rt.run_block(&mut Short);
    assert_eq!(rt.output(), Some(&vec![9.0, 0.0, 0.0]));
    rt.set_input(&vec![1.0, 2.0, 3.0, 4.0]);
    assert_eq!(rt.engine.buffers[0], vec![1.0, 2.0, 3.0]);
}
