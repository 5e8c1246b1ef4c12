use vstd::prelude::*;
use lockfree::channel::spsc::Sender;
use crate::channel::spsc_send;
use crate::graph::{Graph, connect_error, routes_after};
use crate::runtime::Update;
use crate::types::{PortHandle, RoutingErr};

verus! {

/// The control plane: validates and records routes, and hands each new topology and
/// each event to the runtime without waiting for it.
#[verifier::reject_recursive_types(E)]
pub struct Router<E> {
    pub graph: Graph,
    pub updates: Sender<Update>,
    pub events: Sender<E>,
}

impl<E> Router<E> {
    /// Connects a source port to a sink port. On a routing error nothing changes. On
    /// success the new topology is sent to the runtime; if the runtime is gone the route
    /// stays recorded and `ChannelClosed` is reported.
    pub fn route(&mut self, from: PortHandle, to: PortHandle) -> (r: Result<(), RoutingErr>)
        requires
            old(self).graph.wf(),
        ensures
            final(self).graph.wf(),
            final(self).events == old(self).events,
            match connect_error(old(self).graph.components@, old(self).graph.route_view(), from, to) {
                Some(e) => {
                    &&& r == Err::<(), RoutingErr>(e)
                    &&& final(self).graph == old(self).graph
                    &&& final(self).updates == old(self).updates
                },
                None => {
                    &&& (r is Ok || r == Err::<(), RoutingErr>(RoutingErr::ChannelClosed))
                    &&& final(self).graph.components@ == old(self).graph.components@
                    &&& final(self).graph.route_view() == routes_after(old(self).graph.route_view(), from, to)
                },
            },
    {
        match self.graph.connect(from, to) {
            Err(e) => Err(e),
            Ok(()) => {
                let update = self.graph.snapshot();
                match spsc_send(&mut self.updates, update) {
                    Ok(()) => Ok(()),
                    Err(_) => Err(RoutingErr::ChannelClosed),
                }
            },
        }
    }

    /// Queues an event for the next block. If the runtime is gone the event comes back.
    pub fn send_event(&mut self, event: E) -> (r: Result<(), E>)
        ensures
            r matches Err(e) ==> e == event,
            final(self).graph == old(self).graph,
            final(self).updates == old(self).updates,
    {
        spsc_send(&mut self.events, event)
    }
}

} // verus!
