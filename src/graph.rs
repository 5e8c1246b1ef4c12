use vstd::prelude::*;
use crate::runtime::{ComponentLayout, Update};
use crate::types::{
    BuildErr, ComponentKind, PortHandle, PortType, Route, RoutingErr, is_sink, is_source,
    port_is_sink, port_is_source,
};
use crate::reach::{
    acyclic, canon_order, canonical_order, is_permutation, is_topological, lemma_closing_route_cycles,
    lemma_reaches_step, lemma_topological_acyclic, partition_order, reachable_from, reaches,
    route_set, routes_within,
};

verus! {

/// A registered component: its identity, its ports in field order, and where its
/// buffers and state slots start in the runtime's tables.
pub struct ComponentInfo {
    pub kind: ComponentKind,
    pub name: String,
    pub ports: Vec<PortType>,
    pub first_port: usize,
    pub slot_start: usize,
    pub slot_count: usize,
}

/// The component registry together with the route set and the execution order.
pub struct Graph {
    pub components: Vec<ComponentInfo>,
    pub routes: Vec<Route>,
    /// Components in execution order.
    pub order: Vec<usize>,
    /// Each component's place in `order`.
    pub pos: Vec<usize>,
    /// Number of ports over all components: the size of the physical buffer table.
    pub port_total: usize,
    /// Number of persistent state slots over all components.
    pub slot_total: usize,
}

pub open spec fn port_exists(comps: Seq<ComponentInfo>, p: PortHandle) -> bool {
    p.component < comps.len() && p.field_idx < comps[p.component as int].ports@.len()
}

pub open spec fn port_type(comps: Seq<ComponentInfo>, p: PortHandle) -> PortType {
    comps[p.component as int].ports@[p.field_idx as int]
}

/// A route from an existing source port to an existing sink port.
pub open spec fn route_ok(comps: Seq<ComponentInfo>, r: Route) -> bool {
    &&& port_exists(comps, r.from)
    &&& port_exists(comps, r.to)
    &&& is_source(port_type(comps, r.from))
    &&& is_sink(port_type(comps, r.to))
}

/// The physical buffer that backs a port: each port owns the slot at its global index.
pub open spec fn slot_of(comps: Seq<ComponentInfo>, p: PortHandle) -> int {
    comps[p.component as int].first_port + p.field_idx
}

/// The routes that do not end at `to`.
pub open spec fn without_dest(rs: Set<Route>, to: PortHandle) -> Set<Route> {
    Set::new(|r: Route| rs.contains(r) && r.to != to)
}

/// The route set after `from -> to` is recorded: a new route into an input replaces
/// the one it had.
pub open spec fn routes_after(rs: Set<Route>, from: PortHandle, to: PortHandle) -> Set<Route> {
    without_dest(rs, to).insert(Route { from, to })
}

/// The ports exist and have the right directions.
pub open spec fn well_typed(comps: Seq<ComponentInfo>, from: PortHandle, to: PortHandle) -> bool {
    route_ok(comps, Route { from, to })
}

/// The error that `connect(from, to)` reports, if any, in the order the checks are made.
pub open spec fn connect_error(comps: Seq<ComponentInfo>, rs: Set<Route>, from: PortHandle, to: PortHandle) -> Option<RoutingErr> {
    if !(from.component < comps.len() && to.component < comps.len()) {
        Some(RoutingErr::ComponentNotFound)
    } else if !(port_exists(comps, from) && port_exists(comps, to)) {
        Some(RoutingErr::PortNotFound)
    } else if !is_source(port_type(comps, from)) {
        Some(RoutingErr::FromPortIsInput)
    } else if !is_sink(port_type(comps, to)) {
        Some(RoutingErr::ToPortIsOutput)
    } else if reaches(without_dest(rs, to), to.component as int, from.component as int) {
        Some(RoutingErr::CycleDetected)
    } else {
        None
    }
}

/// What a port reads or writes: a source its own slot; a sink the slot of the source
/// routed into it, or nothing.
pub open spec fn resolve(comps: Seq<ComponentInfo>, rs: Set<Route>, p: PortHandle) -> Option<int> {
    if is_source(port_type(comps, p)) {
        Some(slot_of(comps, p))
    } else if exists|q: PortHandle| rs.contains(Route { from: q, to: p }) {
        Some(slot_of(comps, choose|q: PortHandle| rs.contains(Route { from: q, to: p })))
    } else {
        None
    }
}

impl Graph {
    pub open spec fn n(&self) -> nat {
        self.components@.len()
    }

    pub open spec fn route_view(&self) -> Set<Route> {
        route_set(self.routes@)
    }

    /// Ports of distinct components occupy disjoint slot ranges inside the tables.
    pub open spec fn layout_ok(&self) -> bool {
        let comps = self.components@;
        &&& forall|c: int|
            0 <= c < comps.len() ==> #[trigger] comps[c].first_port + comps[c].ports@.len() <= self.port_total
                && comps[c].slot_start + comps[c].slot_count <= self.slot_total
        &&& forall|c1: int, c2: int|
            0 <= c1 < c2 < comps.len() ==> #[trigger] comps[c1].first_port + comps[c1].ports@.len()
                <= #[trigger] comps[c2].first_port
        &&& forall|c1: int, c2: int|
            0 <= c1 < c2 < comps.len() ==> #[trigger] comps[c1].slot_start + comps[c1].slot_count
                <= #[trigger] comps[c2].slot_start
    }

    /// Well formed, and the execution order is the one the route set determines.
    pub open spec fn wf(&self) -> bool {
        &&& self.wf_except_order()
        &&& self.order@ == canon_order(self.route_view(), self.n(), self.n() as int)
    }

    /// The registry, the routes and a topological order agree.
    pub open spec fn wf_except_order(&self) -> bool {
        &&& self.layout_ok()
        &&& is_topological(self.order@, self.pos@, self.n(), self.route_view())
        &&& forall|r: Route| #[trigger] self.route_view().contains(r) ==> route_ok(self.components@, r)
        &&& forall|k1: int, k2: int|
            0 <= k1 < self.routes@.len() && 0 <= k2 < self.routes@.len() && #[trigger] self.routes@[k1].to
                == #[trigger] self.routes@[k2].to ==> k1 == k2
    }

    /// A graph holding only the boundary source (component 0) and sink (component 1).
    pub fn new() -> (g: Graph)
        ensures
            g.wf(),
            g.n() == 2,
            g.routes@.len() == 0,
            g.port_total == 2,
            g.slot_total == 0,
            g.components@[0].kind == ComponentKind::Boundary,
            g.components@[0].ports@ == seq![PortType::SystemInput],
            g.components@[1].kind == ComponentKind::Boundary,
            g.components@[1].ports@ == seq![PortType::SystemOutput],
    {
        let mut g = Graph {
            components: Vec::new(),
            routes: Vec::new(),
            order: Vec::new(),
            pos: Vec::new(),
            port_total: 0,
            slot_total: 0,
        };
        let mut input_ports: Vec<PortType> = Vec::new();
        input_ports.push(PortType::SystemInput);
        let mut output_ports: Vec<PortType> = Vec::new();
        output_ports.push(PortType::SystemOutput);
        g.push_component(ComponentKind::Boundary, "__system_input__".to_owned(), input_ports, 0);
        g.push_component(ComponentKind::Boundary, "__system_output__".to_owned(), output_ports, 0);
        g.reorder();
        g
    }

    fn push_component(&mut self, kind: ComponentKind, name: String, ports: Vec<PortType>, slot_count: usize)
        requires
            old(self).wf_except_order(),
            old(self).port_total + ports@.len() <= usize::MAX,
            old(self).slot_total + slot_count <= usize::MAX,
        ensures
            final(self).wf_except_order(),
            final(self).components@ == old(self).components@.push(
                ComponentInfo {
                    kind,
                    name,
                    ports,
                    first_port: old(self).port_total,
                    slot_start: old(self).slot_total,
                    slot_count,
                },
            ),
            final(self).routes@ == old(self).routes@,
            final(self).order@ == old(self).order@.push(old(self).n() as usize),
            final(self).port_total == old(self).port_total + ports@.len(),
            final(self).slot_total == old(self).slot_total + slot_count,
    {
        let n = self.components.len();
        let np = ports.len();
        let info = ComponentInfo {
            kind,
            name,
            ports,
            first_port: self.port_total,
            slot_start: self.slot_total,
            slot_count,
        };
        self.components.push(info);
        self.order.push(n);
        self.pos.push(n);
        self.port_total = self.port_total + np;
        self.slot_total = self.slot_total + slot_count;
        proof {
            let rs = self.route_view();
            assert forall|r: Route| #[trigger] rs.contains(r) implies route_ok(self.components@, r) by {
                assert(old(self).route_view().contains(r));
            }
            let comps = self.components@;
            assert forall|c1: int, c2: int| 0 <= c1 < c2 < comps.len() implies #[trigger] comps[c1].slot_start + comps[c1].slot_count
                <= #[trigger] comps[c2].slot_start by {
                if c2 == n {
                    assert(old(self).components@[c1].first_port + old(self).components@[c1].ports@.len() <= old(self).port_total);
                    assert(old(self).components@[c1].slot_start + old(self).components@[c1].slot_count <= old(self).slot_total);
                }
            }
            assert forall|c1: int, c2: int| 0 <= c1 < c2 < comps.len() implies #[trigger] comps[c1].first_port + comps[c1].ports@.len()
                <= #[trigger] comps[c2].first_port by {
                if c2 == n {
                    assert(old(self).components@[c1].first_port + old(self).components@[c1].ports@.len() <= old(self).port_total);
                }
            }
            assert forall|c: int| 0 <= c < n + 1 implies #[trigger] self.pos@[c] < n + 1 && self.order@[self.pos@[c] as int] == c by {
                if c < n {
                    assert(old(self).pos@[c] < n);
                }
            }
            assert forall|r: Route| #[trigger] rs.contains(r) implies self.pos@[r.from.component as int]
                < self.pos@[r.to.component as int] by {
                assert(old(self).route_view().contains(r));
                assert(route_ok(old(self).components@, r));
            }
        }
    }

    /// Replaces the execution order by the one the route set determines.
    fn reorder(&mut self)
        requires
            old(self).wf_except_order(),
        ensures
            final(self).wf(),
            final(self).components@ == old(self).components@,
            final(self).routes@ == old(self).routes@,
            final(self).port_total == old(self).port_total,
            final(self).slot_total == old(self).slot_total,
    {
        let n = self.components.len();
        proof {
            assert(routes_within(self.route_view(), n as nat)) by {
                assert forall|q: Route| #[trigger] self.route_view().contains(q) implies q.from.component < n && q.to.component < n by {
                    assert(route_ok(self.components@, q));
                }
            }
            lemma_topological_acyclic(self.order@, self.pos@, n as nat, self.route_view());
        }
        let (order, pos) = canonical_order(&self.routes, n);
        self.order = order;
        self.pos = pos;
    }

    /// Registers a component with `port_types` in field order and `slot_count` state slots.
    pub fn register(&mut self, kind: ComponentKind, name: String, port_types: Vec<PortType>, slot_count: usize) -> (r: Result<usize, BuildErr>)
        requires
            old(self).wf(),
        ensures
            final(self).wf(),
            (r == Err::<usize, BuildErr>(BuildErr::DuplicateName)) <==> exists|c: int|
                0 <= c < old(self).n() && (#[trigger] old(self).components@[c]).kind == kind
                    && old(self).components@[c].name@ == name@,
            r == Err::<usize, BuildErr>(BuildErr::TooLarge) <==> (
                !(exists|c: int|
                0 <= c < old(self).n() && (#[trigger] old(self).components@[c]).kind == kind
                    && old(self).components@[c].name@ == name@)
                && (old(self).port_total + port_types@.len() > usize::MAX || old(self).slot_total + slot_count > usize::MAX)),
            r is Err ==> *final(self) == *old(self),
            r is Ok ==> {
                &&& r->Ok_0 == old(self).n()
                &&& final(self).n() == old(self).n() + 1
                &&& final(self).components@.last().kind == kind
                &&& final(self).components@.last().name@ == name@
                &&& final(self).components@.last().ports@ == port_types@
                &&& final(self).components@.last().slot_count == slot_count
                &&& final(self).components@.drop_last() == old(self).components@
                &&& final(self).components@.last().first_port == old(self).port_total
                &&& final(self).components@.last().slot_start == old(self).slot_total
                &&& final(self).port_total == old(self).port_total + port_types@.len()
                &&& final(self).slot_total == old(self).slot_total + slot_count
                &&& final(self).routes@ == old(self).routes@
            },
    {
        let n = self.components.len();
        let mut i: usize = 0;
        while i < n
            invariant
                n == self.components@.len(),
                self.wf(),
                i <= n,
                forall|c: int| 0 <= c < i ==> !((#[trigger] self.components@[c]).kind == kind && self.components@[c].name@ == name@),
            decreases n - i,
        {
            if self.components[i].kind == kind && self.components[i].name == name {
                return Err(BuildErr::DuplicateName);
            }
            i = i + 1;
        }
        if port_types.len() > usize::MAX - self.port_total || slot_count > usize::MAX - self.slot_total {
            return Err(BuildErr::TooLarge);
        }
        self.push_component(kind, name, port_types, slot_count);
        self.reorder();
        proof {
            assert(self.components@.drop_last() =~= old(self).components@);
        }
        Ok(n)
    }

    /// The routes that do not end at `to`, in their recorded order.
    fn routes_without(&self, to: PortHandle) -> (kept: Vec<Route>)
        requires
            self.wf(),
        ensures
            route_set(kept@) == without_dest(self.route_view(), to),
            forall|k1: int, k2: int|
                0 <= k1 < kept@.len() && 0 <= k2 < kept@.len() && #[trigger] kept@[k1].to
                    == #[trigger] kept@[k2].to ==> k1 == k2,
            forall|k: int| 0 <= k < kept@.len() ==> (#[trigger] kept@[k]).to != to,
    {
        let mut kept: Vec<Route> = Vec::new();
        let ghost mut idx: Seq<int> = Seq::empty();
        let mut i: usize = 0;
        while i < self.routes.len()
            invariant
                self.wf(),
                i <= self.routes@.len(),
                idx.len() == kept@.len(),
                forall|k: int| 0 <= k < kept@.len() ==> 0 <= #[trigger] idx[k] < i && self.routes@[idx[k]] == kept@[k],
                forall|k1: int, k2: int| 0 <= k1 < k2 < kept@.len() ==> #[trigger] idx[k1] < #[trigger] idx[k2],
                forall|k: int| 0 <= k < kept@.len() ==> (#[trigger] kept@[k]).to != to,
                forall|j: int| 0 <= j < i && (#[trigger] self.routes@[j]).to != to ==> kept@.contains(self.routes@[j]),
            decreases self.routes@.len() - i,
        {
            let r = self.routes[i];
            if r.to != to {
                let ghost prev = kept@;
                proof {
                    idx = idx.push(i as int);
                }
                kept.push(r);
                proof {
                    assert forall|j: int| 0 <= j < i + 1 && (#[trigger] self.routes@[j]).to != to implies kept@.contains(self.routes@[j]) by {
                        if j == i {
                            assert(kept@[kept@.len() - 1] == r);
                        } else {
                            assert(prev.contains(self.routes@[j]));
                            let k = choose|k: int| 0 <= k < prev.len() && prev[k] == self.routes@[j];
                            assert(kept@[k] == self.routes@[j]);
                        }
                    }
                }
            }
            i = i + 1;
        }
        proof {
            let rs = self.route_view();
            assert forall|r: Route| route_set(kept@).contains(r) <==> without_dest(rs, to).contains(r) by {
                if route_set(kept@).contains(r) {
                    let k = choose|k: int| 0 <= k < kept@.len() && kept@[k] == r;
                    assert(self.routes@[idx[k]] == r);
                }
                if without_dest(rs, to).contains(r) {
                    let j = choose|j: int| 0 <= j < self.routes@.len() && self.routes@[j] == r;
                    assert(self.routes@[j].to != to);
                }
            }
            assert(route_set(kept@) =~= without_dest(rs, to));
            assert forall|k1: int, k2: int|
                0 <= k1 < kept@.len() && 0 <= k2 < kept@.len() && #[trigger] kept@[k1].to
                    == #[trigger] kept@[k2].to implies k1 == k2 by {
                assert(self.routes@[idx[k1]].to == self.routes@[idx[k2]].to);
                if k1 < k2 {
                    assert(idx[k1] < idx[k2]);
                } else if k2 < k1 {
                    assert(idx[k2] < idx[k1]);
                }
            }
        }
        kept
    }

    /// Records the route `from -> to` (replacing any route into `to`), recomputes the
    /// execution order, or reports why the route cannot be made. On error nothing changes.
    pub fn connect(&mut self, from: PortHandle, to: PortHandle) -> (r: Result<(), RoutingErr>)
        requires
            old(self).wf(),
        ensures
            final(self).wf(),
            r == match connect_error(old(self).components@, old(self).route_view(), from, to) {
                Some(e) => Err(e),
                None => Ok(()),
            },
            (r == Err::<(), RoutingErr>(RoutingErr::CycleDetected)) <==> (well_typed(old(self).components@, from, to)
                && !acyclic(routes_after(old(self).route_view(), from, to))),
            r is Err ==> *final(self) == *old(self),
            r is Ok ==> {
                &&& final(self).components@ == old(self).components@
                &&& final(self).port_total == old(self).port_total
                &&& final(self).slot_total == old(self).slot_total
                &&& final(self).route_view() == routes_after(old(self).route_view(), from, to)
            },
    {
        let n = self.components.len();
        if from.component >= n || to.component >= n {
            return Err(RoutingErr::ComponentNotFound);
        }
        if from.field_idx >= self.components[from.component].ports.len()
            || to.field_idx >= self.components[to.component].ports.len() {
            return Err(RoutingErr::PortNotFound);
        }
        if !port_is_source(self.components[from.component].ports[from.field_idx]) {
            return Err(RoutingErr::FromPortIsInput);
        }
        if !port_is_sink(self.components[to.component].ports[to.field_idx]) {
            return Err(RoutingErr::ToPortIsOutput);
        }
        let ghost rs = self.route_view();
        let ghost kept_set = without_dest(rs, to);
        let ghost new_route = Route { from, to };
        let mut kept = self.routes_without(to);
        proof {
            assert forall|q: Route| #[trigger] kept_set.contains(q) implies q.from.component < n && q.to.component < n by {
                assert(rs.contains(q));
                assert(route_ok(self.components@, q));
            }
            assert(routes_within(route_set(kept@), n as nat));
        }
        let marks = reachable_from(&kept, n, to.component);
        if marks[from.component] {
            proof {
                lemma_closing_route_cycles(kept_set, new_route);
                assert(kept_set.insert(new_route) == routes_after(rs, from, to));
            }
            return Err(RoutingErr::CycleDetected);
        }
        proof {
            assert(is_permutation(self.order@, self.pos@, n as nat));
        }
        let (order, pos) = partition_order(&self.order, &self.pos, &marks);
        let ghost old_kept = kept@;
        kept.push(Route { from, to });
        self.routes = kept;
        self.order = order;
        self.pos = pos;
        proof {
            let ns = self.route_view();
            assert forall|q: Route| ns.contains(q) <==> routes_after(rs, from, to).contains(q) by {
                if ns.contains(q) {
                    let k = choose|k: int| 0 <= k < self.routes@.len() && self.routes@[k] == q;
                    if k < old_kept.len() {
                        assert(old_kept[k] == q);
                        assert(route_set(old_kept).contains(q));
                    }
                }
                if routes_after(rs, from, to).contains(q) {
                    if q != new_route {
                        assert(route_set(old_kept).contains(q));
                        let k = choose|k: int| 0 <= k < old_kept.len() && old_kept[k] == q;
                        assert(self.routes@[k] == q);
                    } else {
                        assert(self.routes@[old_kept.len() as int] == q);
                    }
                }
            }
            assert(ns =~= routes_after(rs, from, to));
            assert forall|q: Route| #[trigger] ns.contains(q) implies route_ok(self.components@, q) by {
                if q != new_route {
                    assert(rs.contains(q));
                }
            }
            assert forall|q: Route| #[trigger] ns.contains(q) implies self.pos@[q.from.component as int]
                < self.pos@[q.to.component as int] by {
                let u = q.from.component as int;
                let v = q.to.component as int;
                if q != new_route {
                    assert(rs.contains(q));
                    assert(kept_set.contains(q));
                    assert(old(self).pos@[u] < old(self).pos@[v]);
                    if marks@[u] {
                        lemma_reaches_step(kept_set, to.component as int, q);
                    }
                    assert(marks@[u] ==> marks@[v]);
                } else {
                    crate::reach::lemma_reaches_refl(kept_set, to.component as int);
                    assert(marks@[v]);
                }
            }
            assert forall|k1: int, k2: int|
                0 <= k1 < self.routes@.len() && 0 <= k2 < self.routes@.len() && #[trigger] self.routes@[k1].to
                    == #[trigger] self.routes@[k2].to implies k1 == k2 by {
                if k1 < old_kept.len() && k2 < old_kept.len() {
                    assert(old_kept[k1].to == old_kept[k2].to);
                }
            }
            assert(routes_within(ns, n as nat)) by {
                assert forall|q: Route| #[trigger] ns.contains(q) implies q.from.component < n && q.to.component < n by {
                    assert(route_ok(self.components@, q));
                }
            }
            lemma_topological_acyclic(self.order@, self.pos@, n as nat, ns);
        }
        self.reorder();
        Ok(())
    }

    /// The applied form of the current topology: the buffer table and the execution order.
    pub fn snapshot(&self) -> (u: Update)
        requires
            self.wf(),
        ensures
            u.order@ == self.order@,
            u.table@.len() == self.n(),
            forall|c: int| 0 <= c < self.n() ==> (#[trigger] u.table@[c])@.len() == self.components@[c].ports@.len(),
            forall|c: int, p: int|
                0 <= c < self.n() && 0 <= p < self.components@[c].ports@.len() ==> opt_int(#[trigger] u.table@[c]@[p])
                    == resolve(self.components@, self.route_view(), PortHandle { component: c as usize, field_idx: p as usize }),
    {
        let table = self.buffer_table();
        let mut order: Vec<usize> = Vec::new();
        let mut i: usize = 0;
        while i < self.order.len()
            invariant
                i <= self.order@.len(),
                order@ == self.order@.subrange(0, i as int),
            decreases self.order@.len() - i,
        {
            order.push(self.order[i]);
            proof {
                assert(order@ =~= self.order@.subrange(0, i + 1));
            }
            i = i + 1;
        }
        proof {
            assert(order@ =~= self.order@);
        }
        Update { table, order }
    }

    /// What the runtime needs to know of each component.
    pub fn layout(&self) -> (l: Vec<ComponentLayout>)
        requires
            self.wf(),
        ensures
            l@.len() == self.n(),
            forall|c: int| 0 <= c < self.n() ==> {
                let a = #[trigger] l@[c];
                let b = self.components@[c];
                &&& a.kind == b.kind
                &&& a.ports@ == b.ports@
                &&& a.first_port == b.first_port
                &&& a.slot_start == b.slot_start
                &&& a.slot_count == b.slot_count
            },
    {
        let mut l: Vec<ComponentLayout> = Vec::new();
        let mut c: usize = 0;
        while c < self.components.len()
            invariant
                c <= self.n(),
                l@.len() == c,
                forall|c2: int| 0 <= c2 < c ==> {
                    let a = #[trigger] l@[c2];
                    let b = self.components@[c2];
                    &&& a.kind == b.kind
                    &&& a.ports@ == b.ports@
                    &&& a.first_port == b.first_port
                    &&& a.slot_start == b.slot_start
                    &&& a.slot_count == b.slot_count
                },
            decreases self.n() - c,
        {
            let info = &self.components[c];
            let mut ports: Vec<PortType> = Vec::new();
            let mut p: usize = 0;
            while p < info.ports.len()
                invariant
                    p <= info.ports@.len(),
                    ports@ == info.ports@.subrange(0, p as int),
                decreases info.ports@.len() - p,
            {
                ports.push(info.ports[p]);
                proof {
                    assert(ports@ =~= info.ports@.subrange(0, p + 1));
                }
                p = p + 1;
            }
            proof {
                assert(ports@ =~= info.ports@);
            }
            l.push(ComponentLayout {
                kind: info.kind,
                ports,
                first_port: info.first_port,
                slot_start: info.slot_start,
                slot_count: info.slot_count,
            });
            c = c + 1;
        }
        l
    }

    /// For each component and field, the physical slot the port is resolved to.
    pub fn buffer_table(&self) -> (t: Vec<Vec<Option<usize>>>)
        requires
            self.wf(),
        ensures
            t@.len() == self.n(),
            forall|c: int| 0 <= c < self.n() ==> (#[trigger] t@[c])@.len() == self.components@[c].ports@.len(),
            forall|c: int, p: int|
                0 <= c < self.n() && 0 <= p < self.components@[c].ports@.len() ==> opt_int(#[trigger] t@[c]@[p])
                    == resolve(self.components@, self.route_view(), PortHandle { component: c as usize, field_idx: p as usize }),
    {
        let mut t: Vec<Vec<Option<usize>>> = Vec::new();
        let mut c: usize = 0;
        while c < self.components.len()
            invariant
                self.wf(),
                c <= self.n(),
                t@.len() == c,
                forall|c2: int| 0 <= c2 < c ==> (#[trigger] t@[c2])@.len() == self.components@[c2].ports@.len(),
                forall|c2: int, p: int|
                    0 <= c2 < c && 0 <= p < self.components@[c2].ports@.len() ==> opt_int(#[trigger] t@[c2]@[p])
                        == resolve(self.components@, self.route_view(), PortHandle { component: c2 as usize, field_idx: p as usize }),
            decreases self.n() - c,
        {
            let mut row: Vec<Option<usize>> = Vec::new();
            let mut p: usize = 0;
            while p < self.components[c].ports.len()
                invariant
                    self.wf(),
                    c < self.n(),
                    p <= self.components@[c as int].ports@.len(),
                    row@.len() == p,
                    forall|p2: int| 0 <= p2 < p ==> opt_int(#[trigger] row@[p2])
                        == resolve(self.components@, self.route_view(), PortHandle { component: c, field_idx: p2 as usize }),
                decreases self.components@[c as int].ports@.len() - p,
            {
                let h = PortHandle { component: c, field_idx: p };
                let slot = self.resolve_port(h);
                row.push(slot);
                p = p + 1;
            }
            t.push(row);
            c = c + 1;
        }
        t
    }

    /// The physical slot behind one port.
    pub fn resolve_port(&self, h: PortHandle) -> (slot: Option<usize>)
        requires
            self.wf(),
            port_exists(self.components@, h),
        ensures
            opt_int(slot) == resolve(self.components@, self.route_view(), h),
    {
        let ghost comps = self.components@;
        let ghost rs = self.route_view();
        proof {
            assert(comps[h.component as int].first_port + comps[h.component as int].ports@.len() <= self.port_total);
        }
        if port_is_source(self.components[h.component].ports[h.field_idx]) {
            return Some(self.components[h.component].first_port + h.field_idx);
        }
        let mut k: usize = 0;
        while k < self.routes.len()
            invariant
                self.wf(),
                comps == self.components@,
                rs == self.route_view(),
                port_exists(comps, h),
                k <= self.routes@.len(),
                forall|j: int| 0 <= j < k ==> (#[trigger] self.routes@[j]).to != h,
            decreases self.routes@.len() - k,
        {
            let r = self.routes[k];
            if r.to == h {
                proof {
                    assert(rs.contains(r));
                    assert(route_ok(comps, r));
                    let q = choose|q: PortHandle| rs.contains(Route { from: q, to: h });
                    let k2 = choose|k2: int| 0 <= k2 < self.routes@.len() && self.routes@[k2] == Route { from: q, to: h };
                    assert(self.routes@[k2].to == self.routes@[k as int].to);
                    assert(comps[r.from.component as int].first_port + comps[r.from.component as int].ports@.len() <= self.port_total);
                }
                return Some(self.components[r.from.component].first_port + r.from.field_idx);
            }
            k = k + 1;
        }
        proof {
            assert forall|q: PortHandle| !rs.contains(Route { from: q, to: h }) by {
                if rs.contains(Route { from: q, to: h }) {
                    let k2 = choose|k2: int| 0 <= k2 < self.routes@.len() && self.routes@[k2] == Route { from: q, to: h };
                    assert(self.routes@[k2].to == h);
                }
            }
        }
        None
    }
}

pub open spec fn opt_int(o: Option<usize>) -> Option<int> {
    match o {
        Some(v) => Some(v as int),
        None => None,
    }
}

/// In a well-formed graph the execution order runs every route forwards: the source's
/// component comes before the destination's.
pub proof fn lemma_execution_order_respects_routes(g: &Graph, r: Route)
    requires
        g.wf(),
        g.route_view().contains(r),
    ensures
        g.pos@[r.from.component as int] < g.pos@[r.to.component as int],
        g.order@[g.pos@[r.from.component as int] as int] == r.from.component,
        g.order@[g.pos@[r.to.component as int] as int] == r.to.component,
        acyclic(g.route_view()),
{
    assert(route_ok(g.components@, r));
    assert(routes_within(g.route_view(), g.n())) by {
        assert forall|q: Route| #[trigger] g.route_view().contains(q) implies q.from.component < g.n() && q.to.component < g.n() by {
            assert(route_ok(g.components@, q));
        }
    }
    lemma_topological_acyclic(g.order@, g.pos@, g.n(), g.route_view());
}

/// The execution order is a function of the number of components and the route set:
/// the calls that led there, and their order, do not matter.
pub proof fn lemma_order_depends_only_on_routes(g1: &Graph, g2: &Graph)
    requires
        g1.wf(),
        g2.wf(),
        g1.n() == g2.n(),
        g1.route_view() == g2.route_view(),
    ensures
        g1.order@ == g2.order@,
{
}

/// A route that starts at a sink port is refused as `FromPortIsInput`, and one from a
/// source port to another source port as `ToPortIsOutput`, whatever the components.
pub proof fn lemma_direction_errors(comps: Seq<ComponentInfo>, rs: Set<Route>, from: PortHandle, to: PortHandle)
    requires
        port_exists(comps, from),
        port_exists(comps, to),
    ensures
        is_sink(port_type(comps, from)) ==> connect_error(comps, rs, from, to) == Some(RoutingErr::FromPortIsInput),
        is_source(port_type(comps, from)) && is_source(port_type(comps, to)) ==> connect_error(comps, rs, from, to)
            == Some(RoutingErr::ToPortIsOutput),
{
}

/// A sink port with no route into it resolves to no buffer.
pub proof fn lemma_unrouted_input_is_absent(g: &Graph, p: PortHandle)
    requires
        g.wf(),
        port_exists(g.components@, p),
        is_sink(port_type(g.components@, p)),
        forall|q: PortHandle| !g.route_view().contains(Route { from: q, to: p }),
    ensures
        resolve(g.components@, g.route_view(), p) is None,
{
}

/// A sink port with a route into it resolves to the very buffer its source writes.
pub proof fn lemma_routed_input_reads_source(g: &Graph, r: Route)
    requires
        g.wf(),
        g.route_view().contains(r),
    ensures
        resolve(g.components@, g.route_view(), r.to) == Some(slot_of(g.components@, r.from)),
        resolve(g.components@, g.route_view(), r.from) == Some(slot_of(g.components@, r.from)),
{
    lemma_single_route_into(g, r);
}

/// Two routes out of one source port give their two destinations the same buffer.
pub proof fn lemma_fan_out_shares_buffer(g: &Graph, r1: Route, r2: Route)
    requires
        g.wf(),
        g.route_view().contains(r1),
        g.route_view().contains(r2),
        r1.from == r2.from,
    ensures
        resolve(g.components@, g.route_view(), r1.to) == resolve(g.components@, g.route_view(), r2.to),
{
    lemma_routed_input_reads_source(g, r1);
    lemma_routed_input_reads_source(g, r2);
}

/// Distinct ports own distinct physical buffers, so each buffer has at most one writer.
pub proof fn lemma_one_writer_per_buffer(g: &Graph, p1: PortHandle, p2: PortHandle)
    requires
        g.wf(),
        port_exists(g.components@, p1),
        port_exists(g.components@, p2),
        p1 != p2,
    ensures
        slot_of(g.components@, p1) != slot_of(g.components@, p2),
{
    let comps = g.components@;
    let c1 = p1.component as int;
    let c2 = p2.component as int;
    if c1 < c2 {
        assert(comps[c1].first_port + comps[c1].ports@.len() <= comps[c2].first_port);
    } else if c2 < c1 {
        assert(comps[c2].first_port + comps[c2].ports@.len() <= comps[c1].first_port);
    }
}

proof fn lemma_single_route_into(g: &Graph, r: Route)
    requires
        g.wf(),
        g.route_view().contains(r),
    ensures
        forall|q: PortHandle| #[trigger] g.route_view().contains(Route { from: q, to: r.to }) ==> q == r.from,
{
    assert forall|q: PortHandle| #[trigger] g.route_view().contains(Route { from: q, to: r.to }) implies q == r.from by {
        let k1 = choose|k: int| 0 <= k < g.routes@.len() && g.routes@[k] == r;
        let k2 = choose|k: int| 0 <= k < g.routes@.len() && g.routes@[k] == Route { from: q, to: r.to };
        assert(g.routes@[k1].to == g.routes@[k2].to);
    }
    assert(route_ok(g.components@, r));
}

/// A resolved port names a buffer inside the table of `port_total` buffers.
pub proof fn lemma_resolved_slot_in_range(g: &Graph, c: int, p: int)
    requires
        g.wf(),
        0 <= c < g.n(),
        0 <= p < g.components@[c].ports@.len(),
    ensures
        resolve(g.components@, g.route_view(), PortHandle { component: c as usize, field_idx: p as usize }) matches Some(s)
            ==> 0 <= s < g.port_total,
{
    let h = PortHandle { component: c as usize, field_idx: p as usize };
    let comps = g.components@;
    let rs = g.route_view();
    if !is_source(port_type(comps, h)) && exists|q: PortHandle| rs.contains(Route { from: q, to: h }) {
        let q = choose|q: PortHandle| rs.contains(Route { from: q, to: h });
        assert(route_ok(comps, Route { from: q, to: h }));
        assert(comps[q.component as int].first_port + comps[q.component as int].ports@.len() <= g.port_total);
    } else {
        assert(comps[c].first_port + comps[c].ports@.len() <= g.port_total);
    }
}

} // verus!
