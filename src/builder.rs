use vstd::prelude::*;
use crate::channel::spsc_channel;
use crate::graph::{Graph, opt_int, resolve};
use crate::router::Router;
use crate::runtime::{Engine, Runtime, Update};
use crate::types::{BuildErr, ComponentKind, PortHandle, PortType, is_source};

verus! {

/// Collects the components and the block length, then makes the runtime and its router.
pub struct Builder {
    pub graph: Graph,
    pub block_len: usize,
}

impl Builder {
    /// A builder with the boundary source and sink registered and blocks of 512 samples.
    pub fn new() -> (b: Builder)
        ensures
            b.graph.wf(),
            b.graph.n() == 2,
            b.graph.routes@.len() == 0,
            b.graph.port_total == 2,
            b.graph.slot_total == 0,
            b.graph.components@[0].kind == ComponentKind::Boundary,
            b.graph.components@[0].ports@ == seq![PortType::SystemInput],
            b.graph.components@[1].kind == ComponentKind::Boundary,
            b.graph.components@[1].ports@ == seq![PortType::SystemOutput],
            b.block_len == 512,
    {
        Builder { graph: Graph::new(), block_len: 512 }
    }

    /// Registers a user component with its ports in field order and its state slots.
    pub fn add_component(&mut self, instance_name: String, port_types: Vec<PortType>, slot_count: usize) -> (r: Result<usize, BuildErr>)
        requires
            old(self).graph.wf(),
        ensures
            final(self).graph.wf(),
            final(self).block_len == old(self).block_len,
            (r == Err::<usize, BuildErr>(BuildErr::DuplicateName)) <==> exists|c: int|
                0 <= c < old(self).graph.n() && (#[trigger] old(self).graph.components@[c]).kind == ComponentKind::User
                    && old(self).graph.components@[c].name@ == instance_name@,
            (r == Err::<usize, BuildErr>(BuildErr::TooLarge)) <==> (!(exists|c: int|
                0 <= c < old(self).graph.n() && (#[trigger] old(self).graph.components@[c]).kind == ComponentKind::User
                    && old(self).graph.components@[c].name@ == instance_name@) && (old(self).graph.port_total
                + port_types@.len() > usize::MAX || old(self).graph.slot_total + slot_count > usize::MAX)),
            r is Err ==> final(self).graph == old(self).graph,
            r is Ok ==> {
                &&& r->Ok_0 == old(self).graph.n()
                &&& final(self).graph.n() == old(self).graph.n() + 1
                &&& final(self).graph.components@.drop_last() == old(self).graph.components@
                &&& final(self).graph.components@.last().kind == ComponentKind::User
                &&& final(self).graph.components@.last().name@ == instance_name@
                &&& final(self).graph.components@.last().ports@ == port_types@
                &&& final(self).graph.components@.last().slot_count == slot_count
                &&& final(self).graph.components@.last().first_port == old(self).graph.port_total
                &&& final(self).graph.components@.last().slot_start == old(self).graph.slot_total
                &&& final(self).graph.port_total == old(self).graph.port_total + port_types@.len()
                &&& final(self).graph.slot_total == old(self).graph.slot_total + slot_count
                &&& final(self).graph.routes@ == old(self).graph.routes@
            },
    {
        self.graph.register(ComponentKind::User, instance_name, port_types, slot_count)
    }

    /// Sets the number of samples in every buffer.
    pub fn buffer_length(&mut self, length: usize)
        ensures
            final(self).block_len == length,
            final(self).graph == old(self).graph,
    {
        self.block_len = length;
    }

    /// Allocates every buffer and state slot filled with `silence`, applies the initial
    /// topology, and links the runtime to its router by the two channels.
    pub fn build<S: Copy, E>(self, silence: S) -> (r: (Runtime<S, E>, Router<E>))
        requires
            self.graph.wf(),
        ensures
            r.0.engine.wf(),
            r.1.graph == self.graph,
            r.0.engine.block_len == self.block_len,
            r.0.engine.buffers@.len() == self.graph.port_total,
            r.0.engine.states@.len() == self.graph.slot_total,
            r.0.engine.order@ == self.graph.order@,
            r.0.engine.events@.len() == 0,
            r.0.engine.states@ == Seq::new(self.graph.slot_total as nat, |i: int| silence),
            forall|b: int| 0 <= b < self.graph.port_total ==> (#[trigger] r.0.engine.buffers@[b])@ == Seq::new(
                self.block_len as nat, |i: int| silence),
            r.0.engine.layout@.len() == self.graph.n(),
            forall|c: int| 0 <= c < self.graph.n() ==> {
                let a = #[trigger] r.0.engine.layout@[c];
                let g = self.graph.components@[c];
                &&& a.kind == g.kind
                &&& a.ports@ == g.ports@
                &&& a.first_port == g.first_port
                &&& a.slot_start == g.slot_start
                &&& a.slot_count == g.slot_count
            },
            forall|c: int| 0 <= c < self.graph.n() ==> (#[trigger] r.0.engine.table@[c])@.len()
                == self.graph.components@[c].ports@.len(),
            forall|c: int, p: int|
                0 <= c < self.graph.n() && 0 <= p < self.graph.components@[c].ports@.len() ==> opt_int(
                    #[trigger] r.0.engine.table@[c]@[p],
                ) == resolve(self.graph.components@, self.graph.route_view(), PortHandle { component: c as usize, field_idx: p as usize }),
    {
        let graph = self.graph;
        let layout = graph.layout();
        let ghost lay = layout@;
        proof {
            let l = layout@;
            let comps = graph.components@;
            assert forall|c: int| 0 <= c < l.len() implies #[trigger] l[c].first_port + l[c].ports@.len() <= graph.port_total
                && l[c].slot_start + l[c].slot_count <= graph.slot_total by {
                assert(comps[c].first_port + comps[c].ports@.len() <= graph.port_total);
            }
            assert forall|c1: int, c2: int| 0 <= c1 < c2 < l.len() implies #[trigger] l[c1].first_port + l[c1].ports@.len()
                <= #[trigger] l[c2].first_port by {
                assert(comps[c1].first_port + comps[c1].ports@.len() <= comps[c2].first_port);
            }
            assert forall|c1: int, c2: int| 0 <= c1 < c2 < l.len() implies #[trigger] l[c1].slot_start + l[c1].slot_count
                <= #[trigger] l[c2].slot_start by {
                assert(comps[c1].slot_start + comps[c1].slot_count <= comps[c2].slot_start);
            }
        }
        let mut engine: Engine<S, E> = Engine::new(layout, graph.port_total, graph.slot_total, self.block_len, silence);
        let initial: Update = graph.snapshot();
        let n_comps = graph.components.len();
        proof {
            let l = engine.layout@;
            assert(graph.components@.len() == n_comps);
            assert forall|c: int, p: int|
                0 <= c < initial.table@.len() && 0 <= p < initial.table@[c]@.len() implies (#[trigger] initial.table@[c]@[p] matches Some(s) ==> s < graph.port_total) by {
                crate::graph::lemma_resolved_slot_in_range(&graph, c, p);
            }
            assert forall|i: int| 0 <= i < initial.order@.len() implies #[trigger] initial.order@[i] < l.len() by {}
            assert forall|c: int, p: int|
                0 <= c < initial.table@.len() && 0 <= p < initial.table@[c]@.len() && is_source(l[c].ports@[p]) implies #[trigger] initial.table@[c]@[p]
                    == Some((l[c].first_port + p) as usize) by {
                let h = PortHandle { component: c as usize, field_idx: p as usize };
                assert(h.component as int == c && h.field_idx as int == p);
                assert(graph.components@[c].first_port + graph.components@[c].ports@.len() <= graph.port_total);
                assert(opt_int(initial.table@[c]@[p]) == resolve(graph.components@, graph.route_view(), h));
                assert(lay[c].ports@ == graph.components@[c].ports@);
                assert(lay[c].first_port == graph.components@[c].first_port);
                assert(crate::graph::port_type(graph.components@, h) == l[c].ports@[p]);
                assert(resolve(graph.components@, graph.route_view(), h) == Some(l[c].first_port + p));
            }
        }
        engine.begin_block(Some(initial), Vec::new());
        let (update_tx, update_rx) = spsc_channel();
        let (event_tx, event_rx) = spsc_channel();
        let runtime = Runtime { engine, updates: update_rx, events: event_rx };
        let router = Router { graph, updates: update_tx, events: event_tx };
        (runtime, router)
    }
}

} // verus!
