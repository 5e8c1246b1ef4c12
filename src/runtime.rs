use vstd::prelude::*;
use lockfree::channel::spsc::Receiver;
use crate::channel::spsc_try_recv;
use crate::types::{BufferIdx, ComponentKind, ContextHandle, PortType, is_source, port_is_source};

verus! {

/// What the runtime needs to know of a component to run it.
pub struct ComponentLayout {
    pub kind: ComponentKind,
    pub ports: Vec<PortType>,
    pub first_port: usize,
    pub slot_start: usize,
    pub slot_count: usize,
}

/// A new topology: the physical slot of every port (`table[c][p]`) and the order in
/// which components run.
pub struct Update {
    pub table: Vec<Vec<Option<usize>>>,
    pub order: Vec<usize>,
}

/// What a component sees of the runtime while it runs.
pub struct Context<'a, E> {
    pub handle: ContextHandle,
    pub block_len: usize,
    pub events: &'a Vec<E>,
}

impl<'a, E> Context<'a, E> {
    /// Number of samples in each buffer of this block.
    pub fn buffer_size(&self) -> (r: usize)
        ensures
            r == self.block_len,
    {
        self.block_len
    }

    /// The events delivered in this block, in submission order.
    pub fn get_events(&self) -> (r: &Vec<E>)
        ensures
            r@ == self.events@,
    {
        self.events
    }
}

/// The entry points of the user components: one implementation serves every user
/// component and tells them apart by `ctx.handle.component_id`. `process` is called
/// once per block for each user component, in execution order. A component's
/// persistent state is a run of slots of the sample type, kept from block to block. `inputs[p]` is the buffer routed into
/// port `p`, or `None` where `p` is unconnected or not an input; `outputs[p]` is the
/// buffer that output port `p` writes; `state` holds the component's state slots.
pub trait Processor<S, E> {
    fn process(
        &mut self,
        ctx: &Context<E>,
        inputs: &Vec<Option<&Vec<S>>>,
        outputs: &mut Vec<Vec<S>>,
        state: &mut Vec<S>,
    );
}

/// Each component's ports own the buffers `first_port ..` and its state the slots
/// `slot_start ..`, inside the storage and without overlap between components.
pub open spec fn layout_fits(layout: Seq<ComponentLayout>, n_buffers: nat, n_states: nat) -> bool {
    &&& forall|c: int|
        0 <= c < layout.len() ==> #[trigger] layout[c].first_port + layout[c].ports@.len() <= n_buffers
            && layout[c].slot_start + layout[c].slot_count <= n_states
    &&& forall|c: int|
        0 <= c < layout.len() ==> #[trigger] layout[c].slot_start + layout[c].slot_count <= n_states
    &&& forall|c1: int, c2: int|
        0 <= c1 < c2 < layout.len() ==> #[trigger] layout[c1].first_port + layout[c1].ports@.len()
            <= #[trigger] layout[c2].first_port
    &&& forall|c1: int, c2: int|
        0 <= c1 < c2 < layout.len() ==> #[trigger] layout[c1].slot_start + layout[c1].slot_count
            <= #[trigger] layout[c2].slot_start
}

/// The table has one row per component and one entry per port; each source port maps
/// to the buffer it owns, and each sink port to an existing buffer or to nothing. The
/// order names only existing components.
pub open spec fn topology_fits(layout: Seq<ComponentLayout>, n_buffers: nat, table: Seq<Vec<Option<usize>>>, order: Seq<usize>) -> bool {
    &&& table.len() == layout.len()
    &&& forall|c: int| 0 <= c < layout.len() ==> (#[trigger] table[c])@.len() == layout[c].ports@.len()
    &&& forall|c: int, p: int|
        0 <= c < table.len() && 0 <= p < table[c]@.len() ==> (#[trigger] table[c]@[p] matches Some(s) ==> s < n_buffers)
    &&& forall|c: int, p: int|
        0 <= c < table.len() && 0 <= p < table[c]@.len() && is_source(layout[c].ports@[p]) ==> #[trigger] table[c]@[p]
            == Some((layout[c].first_port + p) as usize)
    &&& forall|i: int| 0 <= i < order.len() ==> #[trigger] order[i] < layout.len()
}

/// `old` with its first samples replaced by those of `new`; the length stays.
pub open spec fn overwrite<S>(old: Seq<S>, new: Seq<S>) -> Seq<S> {
    Seq::new(old.len(), |i: int| if i < new.len() { new[i] } else { old[i] })
}

/// Buffer storage, state storage, the applied topology and the current event batch.
pub struct Engine<S, E> {
    pub layout: Vec<ComponentLayout>,
    pub buffers: Vec<Vec<S>>,
    pub states: Vec<S>,
    pub table: Vec<Vec<Option<usize>>>,
    pub order: Vec<usize>,
    pub events: Vec<E>,
    pub block_len: usize,
}

impl<S: Copy, E> Engine<S, E> {
    pub open spec fn wf(&self) -> bool {
        &&& self.buffers@.len() <= usize::MAX
        &&& self.states@.len() <= usize::MAX
        &&& layout_fits(self.layout@, self.buffers@.len(), self.states@.len())
        &&& topology_fits(self.layout@, self.buffers@.len(), self.table@, self.order@)
        &&& forall|b: int| 0 <= b < self.buffers@.len() ==> (#[trigger] self.buffers@[b])@.len() == self.block_len
    }

    /// Buffer `b` belongs to a source port of user component `c`.
    pub open spec fn owned_by(&self, c: int, b: int) -> bool {
        &&& 0 <= c < self.layout@.len()
        &&& self.layout@[c].kind == ComponentKind::User
        &&& self.layout@[c].first_port <= b < self.layout@[c].first_port + self.layout@[c].ports@.len()
        &&& is_source(self.layout@[c].ports@[b - self.layout@[c].first_port])
    }

    /// State slot `k` belongs to user component `c`.
    pub open spec fn state_owned_by(&self, c: int, k: int) -> bool {
        &&& 0 <= c < self.layout@.len()
        &&& self.layout@[c].kind == ComponentKind::User
        &&& self.layout@[c].slot_start <= k < self.layout@[c].slot_start + self.layout@[c].slot_count
    }

    /// Storage for `n_buffers` buffers of `block_len` samples and `n_states` state slots,
    /// all holding `silence`. Each source port maps to its own buffer; no sink is routed.
    pub fn new(layout: Vec<ComponentLayout>, n_buffers: usize, n_states: usize, block_len: usize, silence: S) -> (e: Self)
        requires
            layout_fits(layout@, n_buffers as nat, n_states as nat),
        ensures
            e.wf(),
            e.layout@ == layout@,
            e.buffers@.len() == n_buffers,
            forall|b: int| 0 <= b < n_buffers ==> (#[trigger] e.buffers@[b])@ == Seq::new(block_len as nat, |i: int| silence),
            e.states@ == Seq::new(n_states as nat, |i: int| silence),
            e.order@.len() == 0,
            e.events@.len() == 0,
            e.block_len == block_len,
    {
        let mut buffers: Vec<Vec<S>> = Vec::new();
        let mut b: usize = 0;
        while b < n_buffers
            invariant
                b <= n_buffers,
                buffers@.len() == b,
                forall|j: int| 0 <= j < b ==> (#[trigger] buffers@[j])@ == Seq::new(block_len as nat, |i: int| silence),
            decreases n_buffers - b,
        {
            let buf = filled(block_len, silence);
            buffers.push(buf);
            b = b + 1;
        }
        let states = filled(n_states, silence);
        let mut table: Vec<Vec<Option<usize>>> = Vec::new();
        let mut c: usize = 0;
        while c < layout.len()
            invariant
                layout_fits(layout@, n_buffers as nat, n_states as nat),
                c <= layout@.len(),
                table@.len() == c,
                forall|c2: int| 0 <= c2 < c ==> (#[trigger] table@[c2])@.len() == layout@[c2].ports@.len(),
                forall|c2: int, p: int| 0 <= c2 < c && 0 <= p < table@[c2]@.len() ==> #[trigger] table@[c2]@[p]
                    == if is_source(layout@[c2].ports@[p]) { Some((layout@[c2].first_port + p) as usize) } else { None },
            decreases layout@.len() - c,
        {
            let mut row: Vec<Option<usize>> = Vec::new();
            let mut p: usize = 0;
            proof {
                assert(layout@[c as int].first_port + layout@[c as int].ports@.len() <= n_buffers);
            }
            while p < layout[c].ports.len()
                invariant
                    c < layout@.len(),
                    layout@[c as int].first_port + layout@[c as int].ports@.len() <= n_buffers,
                    p <= layout@[c as int].ports@.len(),
                    row@.len() == p,
                    forall|p2: int| 0 <= p2 < p ==> #[trigger] row@[p2] == if is_source(layout@[c as int].ports@[p2]) {
                        Some((layout@[c as int].first_port + p2) as usize)
                    } else {
                        None
                    },
                decreases layout@[c as int].ports@.len() - p,
            {
                if port_is_source(layout[c].ports[p]) {
                    row.push(Some(layout[c].first_port + p));
                } else {
                    row.push(None);
                }
                p = p + 1;
            }
            table.push(row);
            c = c + 1;
        }
        Engine { layout, buffers, states, table, order: Vec::new(), events: Vec::new(), block_len }
    }

    /// Whether `u` can be applied to this storage.
    pub fn fits(&self, u: &Update) -> (r: bool)
        requires
            self.wf(),
        ensures
            r == topology_fits(self.layout@, self.buffers@.len(), u.table@, u.order@),
    {
        if u.table.len() != self.layout.len() {
            return false;
        }
        let mut c: usize = 0;
        while c < u.table.len()
            invariant
                self.wf(),
                u.table@.len() == self.layout@.len(),
                c <= u.table@.len(),
                forall|c2: int| 0 <= c2 < c ==> (#[trigger] u.table@[c2])@.len() == self.layout@[c2].ports@.len(),
                forall|c2: int, p: int|
                    0 <= c2 < c && 0 <= p < u.table@[c2]@.len() ==> (#[trigger] u.table@[c2]@[p] matches Some(s) ==> s < self.buffers@.len()),
                forall|c2: int, p: int|
                    0 <= c2 < c && 0 <= p < u.table@[c2]@.len() && is_source(self.layout@[c2].ports@[p]) ==> #[trigger] u.table@[c2]@[p]
                        == Some((self.layout@[c2].first_port + p) as usize),
            decreases u.table@.len() - c,
        {
            if u.table[c].len() != self.layout[c].ports.len() {
                return false;
            }
            proof {
                assert(self.layout@[c as int].first_port + self.layout@[c as int].ports@.len() <= self.buffers@.len());
            }
            let mut p: usize = 0;
            while p < u.table[c].len()
                invariant
                    self.wf(),
                    c < u.table@.len(),
                    u.table@.len() == self.layout@.len(),
                    u.table@[c as int]@.len() == self.layout@[c as int].ports@.len(),
                    self.layout@[c as int].first_port + self.layout@[c as int].ports@.len() <= self.buffers@.len(),
                    p <= u.table@[c as int]@.len(),
                    forall|p2: int| 0 <= p2 < p ==> (#[trigger] u.table@[c as int]@[p2] matches Some(s) ==> s < self.buffers@.len()),
                    forall|p2: int| 0 <= p2 < p && is_source(self.layout@[c as int].ports@[p2]) ==> #[trigger] u.table@[c as int]@[p2]
                        == Some((self.layout@[c as int].first_port + p2) as usize),
                decreases u.table@[c as int]@.len() - p,
            {
                let entry = u.table[c][p];
                if let Some(s) = entry {
                    if s >= self.buffers.len() {
                        return false;
                    }
                }
                if port_is_source(self.layout[c].ports[p]) {
                    let own = self.layout[c].first_port + p;
                    match entry {
                        Some(s) => {
                            if s != own {
                                return false;
                            }
                        },
                        None => {
                            return false;
                        },
                    }
                }
                p = p + 1;
            }
            c = c + 1;
        }
        let mut i: usize = 0;
        while i < u.order.len()
            invariant
                i <= u.order@.len(),
                forall|j: int| 0 <= j < i ==> #[trigger] u.order@[j] < self.layout@.len(),
            decreases u.order@.len() - i,
        {
            if u.order[i] >= self.layout.len() {
                return false;
            }
            i = i + 1;
        }
        true
    }

    /// The start of a block: applies `update` if one came and it fits, and makes `events`
    /// the block's batch, replacing the previous one.
    pub fn begin_block(&mut self, update: Option<Update>, events: Vec<E>)
        requires
            old(self).wf(),
        ensures
            final(self).wf(),
            final(self).events@ == events@,
            final(self).buffers@ == old(self).buffers@,
            final(self).states@ == old(self).states@,
            final(self).layout@ == old(self).layout@,
            final(self).block_len == old(self).block_len,
            match update {
                Some(u) => if topology_fits(old(self).layout@, old(self).buffers@.len(), u.table@, u.order@) {
                    final(self).table@ == u.table@ && final(self).order@ == u.order@
                } else {
                    final(self).table@ == old(self).table@ && final(self).order@ == old(self).order@
                },
                None => final(self).table@ == old(self).table@ && final(self).order@ == old(self).order@,
            },
    {
        if let Some(u) = update {
            if self.fits(&u) {
                self.table = u.table;
                self.order = u.order;
            }
        }
        self.events = events;
    }

    /// Writes external audio into the boundary source's buffer (the first buffer of
    /// component 0), as far as the block length allows.
    pub fn set_input(&mut self, samples: &Vec<S>)
        requires
            old(self).wf(),
        ensures
            final(self).wf(),
            final(self).table@ == old(self).table@,
            final(self).order@ == old(self).order@,
            final(self).states@ == old(self).states@,
            final(self).events@ == old(self).events@,
            final(self).layout@ == old(self).layout@,
            final(self).block_len == old(self).block_len,
            final(self).buffers@.len() == old(self).buffers@.len(),
            ({
                let ok = old(self).layout@.len() > 0 && old(self).layout@[0].ports@.len() > 0;
                let slot = old(self).layout@[0].first_port as int;
                &&& ok ==> final(self).buffers@[slot]@ == overwrite(old(self).buffers@[slot]@, samples@)
                &&& forall|b: int| 0 <= b < old(self).buffers@.len() && !(ok && b == slot) ==> #[trigger] final(self).buffers@[b]
                    == old(self).buffers@[b]
            }),
    {
        if self.layout.len() > 0 && self.layout[0].ports.len() > 0 {
            let slot = self.layout[0].first_port;
            proof {
                assert(self.layout@[0].first_port + self.layout@[0].ports@.len() <= self.buffers@.len());
            }
            copy_into(&mut self.buffers[slot], samples);
        }
    }

    /// The buffer that port `p` of component `c` reads or writes in the current topology.
    pub fn port_buffer(&self, c: usize, p: usize) -> (r: Option<&Vec<S>>)
        requires
            self.wf(),
        ensures
            r == self.port_buffer_spec(c as int, p as int),
    {
        if c < self.table.len() && p < self.table[c].len() {
            match self.table[c][p] {
                Some(s) => Some(&self.buffers[s]),
                None => None,
            }
        } else {
            None
        }
    }

    /// The buffer that reaches the boundary sink, if anything is routed to it.
    pub fn output(&self) -> (r: Option<&Vec<S>>)
        requires
            self.wf(),
        ensures
            r == self.port_buffer_spec(1, 0),
    {
        self.port_buffer(1, 0)
    }

    pub open spec fn port_buffer_spec(&self, c: int, p: int) -> Option<&Vec<S>> {
        if 0 <= c < self.table@.len() && 0 <= p < self.table@[c]@.len() {
            match self.table@[c]@[p] {
                Some(s) => Some(&self.buffers@[s as int]),
                None => None,
            }
        } else {
            None
        }
    }

    /// The read-only views handed to component `c`: for each sink port the buffer the
    /// table routes to it, or nothing where it is unconnected; nothing for source ports.
    pub fn gather_inputs(&self, c: usize) -> (r: Vec<Option<&Vec<S>>>)
        requires
            self.wf(),
            c < self.layout@.len(),
        ensures
            r@.len() == self.layout@[c as int].ports@.len(),
            forall|p: int|
                0 <= p < r@.len() ==> #[trigger] r@[p] == if is_source(self.layout@[c as int].ports@[p]) {
                    None
                } else {
                    self.port_buffer_spec(c as int, p)
                },
    {
        let n_ports = self.layout[c].ports.len();
        let mut inputs: Vec<Option<&Vec<S>>> = Vec::new();
        let mut q: usize = 0;
        while q < n_ports
            invariant
                self.wf(),
                c < self.layout@.len(),
                n_ports == self.layout@[c as int].ports@.len(),
                q <= n_ports,
                inputs@.len() == q,
                forall|p: int|
                    0 <= p < q ==> #[trigger] inputs@[p] == if is_source(self.layout@[c as int].ports@[p]) {
                        None
                    } else {
                        self.port_buffer_spec(c as int, p)
                    },
            decreases n_ports - q,
        {
            let mut view: Option<&Vec<S>> = None;
            if !port_is_source(self.layout[c].ports[q]) {
                if let Some(s) = self.table[c][q] {
                    view = Some(&self.buffers[s]);
                }
            }
            inputs.push(view);
            q = q + 1;
        }
        inputs
    }

    /// Copies of the buffers component `c` writes: for each source port the contents of
    /// the buffer it owns, an empty buffer for other ports.
    pub fn lend_outputs(&self, c: usize) -> (r: Vec<Vec<S>>)
        requires
            self.wf(),
            c < self.layout@.len(),
        ensures
            r@.len() == self.layout@[c as int].ports@.len(),
            forall|p: int|
                0 <= p < r@.len() ==> (#[trigger] r@[p])@ == if is_source(self.layout@[c as int].ports@[p]) {
                    self.buffers@[self.layout@[c as int].first_port + p]@
                } else {
                    Seq::<S>::empty()
                },
    {
        let n_ports = self.layout[c].ports.len();
        let first = self.layout[c].first_port;
        proof {
            assert(self.layout@[c as int].first_port + n_ports <= self.buffers@.len());
        }
        let mut outs: Vec<Vec<S>> = Vec::new();
        let mut p: usize = 0;
        while p < n_ports
            invariant
                self.wf(),
                c < self.layout@.len(),
                n_ports == self.layout@[c as int].ports@.len(),
                first == self.layout@[c as int].first_port,
                first + n_ports <= self.buffers@.len(),
                p <= n_ports,
                outs@.len() == p,
                forall|q: int|
                    0 <= q < p ==> (#[trigger] outs@[q])@ == if is_source(self.layout@[c as int].ports@[q]) {
                        self.buffers@[first + q]@
                    } else {
                        Seq::<S>::empty()
                    },
            decreases n_ports - p,
        {
            if port_is_source(self.layout[c].ports[p]) {
                outs.push(copy_of(&self.buffers[first + p]));
            } else {
                outs.push(Vec::new());
            }
            p = p + 1;
        }
        outs
    }

    /// A copy of component `c`'s state slots.
    pub fn state_of(&self, c: usize) -> (r: Vec<S>)
        requires
            self.wf(),
            c < self.layout@.len(),
        ensures
            r@ == self.states@.subrange(
                self.layout@[c as int].slot_start as int,
                self.layout@[c as int].slot_start + self.layout@[c as int].slot_count,
            ),
    {
        let start = self.layout[c].slot_start;
        let count = self.layout[c].slot_count;
        proof {
            assert(start + count <= self.states@.len());
        }
        let mut state: Vec<S> = Vec::new();
        let mut k: usize = 0;
        while k < count
            invariant
                start + count <= self.states@.len(),
                self.states@.len() <= usize::MAX,
                k <= count,
                state@ == self.states@.subrange(start as int, start + k),
            decreases count - k,
        {
            state.push(self.states[start + k]);
            proof {
                assert(state@ =~= self.states@.subrange(start as int, start + k + 1));
            }
            k = k + 1;
        }
        state
    }

    /// What component `c` sees of the runtime: where its buffers and state start, the
    /// block length and the block's events.
    pub fn context_for(&self, c: usize) -> (r: Context<'_, E>)
        requires
            c < self.layout@.len(),
        ensures
            r.handle == (ContextHandle {
                component_id: c,
                buffer_ids_start: BufferIdx(self.layout@[c as int].first_port),
                slot_ids_start: self.layout@[c as int].slot_start,
            }),
            r.block_len == self.block_len,
            r.events@ == self.events@,
    {
        let handle = ContextHandle {
            component_id: c,
            buffer_ids_start: BufferIdx(self.layout[c].first_port),
            slot_ids_start: self.layout[c].slot_start,
        };
        Context { handle, block_len: self.block_len, events: &self.events }
    }

    /// Writes what component `c` left in `outs` into the buffers its source ports own.
    /// Each buffer keeps the block length; no other buffer changes.
    pub fn store_outputs(&mut self, c: usize, outs: &Vec<Vec<S>>)
        requires
            old(self).wf(),
            c < old(self).layout@.len(),
        ensures
            final(self).wf(),
            final(self).table@ == old(self).table@,
            final(self).order@ == old(self).order@,
            final(self).events@ == old(self).events@,
            final(self).layout@ == old(self).layout@,
            final(self).states@ == old(self).states@,
            final(self).block_len == old(self).block_len,
            final(self).buffers@.len() == old(self).buffers@.len(),
            forall|p: int|
                0 <= p < old(self).layout@[c as int].ports@.len() && is_source(old(self).layout@[c as int].ports@[p])
                    ==> (#[trigger] final(self).buffers@[old(self).layout@[c as int].first_port + p])@ == if p < outs@.len() {
                    overwrite(old(self).buffers@[old(self).layout@[c as int].first_port + p]@, outs@[p]@)
                } else {
                    old(self).buffers@[old(self).layout@[c as int].first_port + p]@
                },
            forall|b: int|
                0 <= b < old(self).buffers@.len() && !(old(self).layout@[c as int].first_port <= b
                    < old(self).layout@[c as int].first_port + old(self).layout@[c as int].ports@.len() && is_source(
                    old(self).layout@[c as int].ports@[b - old(self).layout@[c as int].first_port],
                )) ==> #[trigger] final(self).buffers@[b] == old(self).buffers@[b],
    {
        let n_ports = self.layout[c].ports.len();
        let first = self.layout[c].first_port;
        proof {
            assert(first + n_ports <= self.buffers@.len());
        }
        let mut p: usize = 0;
        while p < n_ports
            invariant
                self.wf(),
                c < self.layout@.len(),
                n_ports == self.layout@[c as int].ports@.len(),
                first == self.layout@[c as int].first_port,
                first + n_ports <= self.buffers@.len(),
                p <= n_ports,
                self.table@ == old(self).table@,
                self.order@ == old(self).order@,
                self.events@ == old(self).events@,
                self.layout@ == old(self).layout@,
                self.states@ == old(self).states@,
                self.block_len == old(self).block_len,
                self.buffers@.len() == old(self).buffers@.len(),
                forall|q: int|
                    0 <= q < p && is_source(self.layout@[c as int].ports@[q]) ==> (#[trigger] self.buffers@[first + q])@
                        == if q < outs@.len() {
                        overwrite(old(self).buffers@[first + q]@, outs@[q]@)
                    } else {
                        old(self).buffers@[first + q]@
                    },
                forall|b: int|
                    0 <= b < self.buffers@.len() && !(first <= b < first + p && is_source(
                        self.layout@[c as int].ports@[b - first],
                    )) ==> #[trigger] self.buffers@[b] == old(self).buffers@[b],
            decreases n_ports - p,
        {
            if port_is_source(self.layout[c].ports[p]) && p < outs.len() {
                copy_into(&mut self.buffers[first + p], &outs[p]);
            }
            p = p + 1;
        }
    }

    /// Writes `state` back into component `c`'s state slots, as far as they reach; no
    /// other slot changes.
    pub fn store_state(&mut self, c: usize, state: &Vec<S>)
        requires
            old(self).wf(),
            c < old(self).layout@.len(),
        ensures
            final(self).wf(),
            final(self).table@ == old(self).table@,
            final(self).order@ == old(self).order@,
            final(self).events@ == old(self).events@,
            final(self).layout@ == old(self).layout@,
            final(self).buffers@ == old(self).buffers@,
            final(self).block_len == old(self).block_len,
            final(self).states@ == old(self).states@.subrange(0, old(self).layout@[c as int].slot_start as int) + overwrite(
                old(self).states@.subrange(
                    old(self).layout@[c as int].slot_start as int,
                    old(self).layout@[c as int].slot_start + old(self).layout@[c as int].slot_count,
                ),
                state@,
            ) + old(self).states@.subrange(
                old(self).layout@[c as int].slot_start + old(self).layout@[c as int].slot_count,
                old(self).states@.len() as int,
            ),
    {
        let start = self.layout[c].slot_start;
        let count = self.layout[c].slot_count;
        proof {
            assert(start + count <= self.states@.len());
        }
        let mut k: usize = 0;
        while k < count && k < state.len()
            invariant
                self.wf(),
                c < self.layout@.len(),
                start == self.layout@[c as int].slot_start,
                count == self.layout@[c as int].slot_count,
                start + count <= self.states@.len(),
                k <= count,
                k <= state@.len(),
                self.table@ == old(self).table@,
                self.order@ == old(self).order@,
                self.events@ == old(self).events@,
                self.layout@ == old(self).layout@,
                self.buffers@ == old(self).buffers@,
                self.block_len == old(self).block_len,
                self.states@.len() == old(self).states@.len(),
                forall|j: int| 0 <= j < self.states@.len() ==> #[trigger] self.states@[j] == if start <= j < start + k {
                    state@[j - start]
                } else {
                    old(self).states@[j]
                },
            decreases count - k,
        {
            self.states.set(start + k, state[k]);
            k = k + 1;
        }
        proof {
            let lhs = self.states@;
            let rhs = old(self).states@.subrange(0, start as int) + overwrite(
                old(self).states@.subrange(start as int, start + count),
                state@,
            ) + old(self).states@.subrange(start + count, old(self).states@.len() as int);
            assert forall|j: int| 0 <= j < lhs.len() implies lhs[j] == rhs[j] by {
                if j < start {
                } else if j < start + count {
                    assert(rhs[j] == overwrite(old(self).states@.subrange(start as int, start + count), state@)[j - start]);
                } else {
                }
            }
            assert(lhs =~= rhs);
        }
    }

    /// Runs component `c` once: it gets its inputs, copies of its output buffers, a copy
    /// of its state and its context; then its outputs and state are stored back.
    pub fn run_component<P: Processor<S, E>>(&mut self, c: usize, proc: &mut P)
        requires
            old(self).wf(),
            c < old(self).layout@.len(),
        ensures
            final(self).wf(),
            final(self).table@ == old(self).table@,
            final(self).order@ == old(self).order@,
            final(self).events@ == old(self).events@,
            final(self).layout@ == old(self).layout@,
            final(self).buffers@.len() == old(self).buffers@.len(),
            final(self).states@.len() == old(self).states@.len(),
            final(self).block_len == old(self).block_len,
            forall|b: int|
                0 <= b < old(self).buffers@.len() && !(old(self).layout@[c as int].first_port <= b
                    < old(self).layout@[c as int].first_port + old(self).layout@[c as int].ports@.len() && is_source(
                    old(self).layout@[c as int].ports@[b - old(self).layout@[c as int].first_port],
                )) ==> #[trigger] final(self).buffers@[b] == old(self).buffers@[b],
            forall|k: int|
                0 <= k < old(self).states@.len() && !(old(self).layout@[c as int].slot_start <= k
                    < old(self).layout@[c as int].slot_start + old(self).layout@[c as int].slot_count)
                    ==> #[trigger] final(self).states@[k] == old(self).states@[k],
    {
        let mut outs = self.lend_outputs(c);
        let mut state = self.state_of(c);
        {
            let inputs = self.gather_inputs(c);
            let ctx = self.context_for(c);
            proc.process(&ctx, &inputs, &mut outs, &mut state);
        }
        self.store_outputs(c, &outs);
        let ghost mid = self.states@;
        self.store_state(c, &state);
        proof {
            let start = self.layout@[c as int].slot_start as int;
            let count = self.layout@[c as int].slot_count as int;
            assert forall|k: int| 0 <= k < mid.len() && !(start <= k < start + count) implies #[trigger] self.states@[k] == mid[k] by {
                if k < start {
                    assert(self.states@[k] == mid.subrange(0, start)[k]);
                } else {
                    let pre = mid.subrange(0, start) + overwrite(mid.subrange(start, start + count), state@);
                    assert(self.states@[k] == mid.subrange(start + count, mid.len() as int)[k - pre.len()]);
                }
            }
        }
    }

    /// Runs every user component once, in execution order. Boundary components have no
    /// entry point and are passed over. Only buffers owned by source ports of user
    /// components and state slots of user components can change.
    pub fn execute<P: Processor<S, E>>(&mut self, proc: &mut P)
        requires
            old(self).wf(),
        ensures
            final(self).wf(),
            final(self).table@ == old(self).table@,
            final(self).order@ == old(self).order@,
            final(self).events@ == old(self).events@,
            final(self).layout@ == old(self).layout@,
            final(self).buffers@.len() == old(self).buffers@.len(),
            final(self).states@.len() == old(self).states@.len(),
            final(self).block_len == old(self).block_len,
            forall|b: int|
                0 <= b < old(self).buffers@.len() && !(exists|c: int| #[trigger] old(self).owned_by(c, b))
                    ==> #[trigger] final(self).buffers@[b] == old(self).buffers@[b],
            forall|k: int|
                0 <= k < old(self).states@.len() && !(exists|c: int| #[trigger] old(self).state_owned_by(c, k))
                    ==> #[trigger] final(self).states@[k] == old(self).states@[k],
    {
        let mut i: usize = 0;
        while i < self.order.len()
            invariant
                self.wf(),
                i <= self.order@.len(),
                self.table@ == old(self).table@,
                self.order@ == old(self).order@,
                self.events@ == old(self).events@,
                self.layout@ == old(self).layout@,
                self.buffers@.len() == old(self).buffers@.len(),
                self.states@.len() == old(self).states@.len(),
                self.block_len == old(self).block_len,
                forall|b: int|
                    0 <= b < old(self).buffers@.len() && !(exists|c: int| #[trigger] old(self).owned_by(c, b))
                        ==> #[trigger] self.buffers@[b] == old(self).buffers@[b],
                forall|k: int|
                    0 <= k < old(self).states@.len() && !(exists|c: int| #[trigger] old(self).state_owned_by(c, k))
                        ==> #[trigger] self.states@[k] == old(self).states@[k],
            decreases self.order@.len() - i,
        {
            let c = self.order[i];
            if self.layout[c].kind == ComponentKind::User {
                let ghost before = *self;
                self.run_component(c, proc);
                proof {
                    assert forall|b: int|
                        0 <= b < old(self).buffers@.len() && !(exists|c2: int| #[trigger] old(self).owned_by(c2, b))
                            implies #[trigger] self.buffers@[b] == old(self).buffers@[b] by {
                        assert(!old(self).owned_by(c as int, b));
                        assert(before.buffers@[b] == old(self).buffers@[b]);
                    }
                    assert forall|k: int|
                        0 <= k < old(self).states@.len() && !(exists|c2: int| #[trigger] old(self).state_owned_by(c2, k))
                            implies #[trigger] self.states@[k] == old(self).states@[k] by {
                        assert(!old(self).state_owned_by(c as int, k));
                        assert(before.states@[k] == old(self).states@[k]);
                    }
                }
            }
            i = i + 1;
        }
    }
}

/// A copy of `v`.
pub fn copy_of<S: Copy>(v: &Vec<S>) -> (r: Vec<S>)
    ensures
        r@ == v@,
{
    let mut r: Vec<S> = Vec::new();
    let mut i: usize = 0;
    while i < v.len()
        invariant
            i <= v@.len(),
            r@ == v@.subrange(0, i as int),
        decreases v@.len() - i,
    {
        r.push(v[i]);
        proof {
            assert(r@ =~= v@.subrange(0, i + 1));
        }
        i = i + 1;
    }
    proof {
        assert(r@ =~= v@);
    }
    r
}

/// Overwrites the first samples of `dst` with those of `src`, keeping `dst`'s length.
pub fn copy_into<S: Copy>(dst: &mut Vec<S>, src: &Vec<S>)
    ensures
        final(dst)@ == overwrite(old(dst)@, src@),
{
    let mut i: usize = 0;
    while i < dst.len() && i < src.len()
        invariant
            dst@.len() == old(dst)@.len(),
            i <= dst@.len(),
            i <= src@.len(),
            forall|j: int| 0 <= j < dst@.len() ==> #[trigger] dst@[j] == if j < i { src@[j] } else { old(dst)@[j] },
        decreases dst@.len() - i,
    {
        dst.set(i, src[i]);
        i = i + 1;
    }
    proof {
        assert(dst@ =~= overwrite(old(dst)@, src@));
    }
}

/// A buffer of `len` copies of `v`.
pub fn filled<S: Copy>(len: usize, v: S) -> (r: Vec<S>)
    ensures
        r@ == Seq::new(len as nat, |i: int| v),
{
    let mut r: Vec<S> = Vec::new();
    let mut i: usize = 0;
    while i < len
        invariant
            i <= len,
            r@ == Seq::new(i as nat, |j: int| v),
        decreases len - i,
    {
        r.push(v);
        proof {
            assert(r@ =~= Seq::new((i + 1) as nat, |j: int| v));
        }
        i = i + 1;
    }
    r
}

/// What one block takes from the channels: the newest pending update, if any, and the
/// pending events in arrival order.
pub struct Drained<E> {
    pub latest: Option<Update>,
    pub events: Vec<E>,
}

impl<E> Drained<E> {
    pub fn new() -> (d: Self)
        ensures
            d.latest is None,
            d.events@.len() == 0,
    {
        Drained { latest: None, events: Vec::new() }
    }

    /// A newer update replaces any older one: only the latest topology matters.
    pub fn take_update(&mut self, u: Update)
        ensures
            final(self).latest == Some(u),
            final(self).events@ == old(self).events@,
    {
        self.latest = Some(u);
    }

    /// Events are kept, each once, in the order they arrive.
    pub fn take_event(&mut self, e: E)
        ensures
            final(self).events@ == old(self).events@.push(e),
            final(self).latest == old(self).latest,
    {
        self.events.push(e);
    }
}

/// The execution side: the engine plus the receiving ends of the reconfiguration and
/// event channels.
#[verifier::reject_recursive_types(E)]
pub struct Runtime<S, E> {
    pub engine: Engine<S, E>,
    pub updates: Receiver<Update>,
    pub events: Receiver<E>,
}

impl<S: Copy, E> Runtime<S, E> {
    /// Takes everything pending on both channels without waiting.
    pub fn poll(&mut self) -> (r: Drained<E>)
        ensures
            final(self).engine == old(self).engine,
    {
        let mut d: Drained<E> = Drained::new();
        let mut more = true;
        let mut taken: usize = 0;
        while more && taken < usize::MAX
            invariant
                self.engine == old(self).engine,
            decreases usize::MAX - taken,
        {
            match spsc_try_recv(&mut self.updates) {
                Some(u) => d.take_update(u),
                None => {
                    more = false;
                },
            }
            taken = taken + 1;
        }
        let mut more = true;
        while more && d.events.len() < usize::MAX
            invariant
                self.engine == old(self).engine,
            decreases usize::MAX - d.events@.len(), if more { 1nat } else { 0nat },
        {
            match spsc_try_recv(&mut self.events) {
                Some(e) => d.take_event(e),
                None => {
                    more = false;
                },
            }
        }
        d
    }

    /// Runs one block on what was drained: applies its update if it fits, makes its
    /// events the block's batch, then runs every user component in execution order.
    pub fn run_drained<P: Processor<S, E>>(&mut self, d: Drained<E>, proc: &mut P)
        requires
            old(self).engine.wf(),
        ensures
            final(self).engine.wf(),
            final(self).engine.events@ == d.events@,
            final(self).engine.layout@ == old(self).engine.layout@,
            final(self).engine.buffers@.len() == old(self).engine.buffers@.len(),
            final(self).engine.states@.len() == old(self).engine.states@.len(),
            final(self).engine.block_len == old(self).engine.block_len,
            match d.latest {
                Some(u) => if topology_fits(old(self).engine.layout@, old(self).engine.buffers@.len(), u.table@, u.order@) {
                    final(self).engine.table@ == u.table@ && final(self).engine.order@ == u.order@
                } else {
                    final(self).engine.table@ == old(self).engine.table@ && final(self).engine.order@ == old(self).engine.order@
                },
                None => final(self).engine.table@ == old(self).engine.table@ && final(self).engine.order@ == old(
                    self,
                ).engine.order@,
            },
    {
        self.engine.begin_block(d.latest, d.events);
        self.engine.execute(proc);
    }

    /// Runs one block: drains both channels, then `run_drained`. Whatever arrived, the
    /// applied topology is the old one or one that fits the storage.
    pub fn run_block<P: Processor<S, E>>(&mut self, proc: &mut P)
        requires
            old(self).engine.wf(),
        ensures
            final(self).engine.wf(),
            final(self).engine.layout@ == old(self).engine.layout@,
            final(self).engine.buffers@.len() == old(self).engine.buffers@.len(),
            final(self).engine.states@.len() == old(self).engine.states@.len(),
            final(self).engine.block_len == old(self).engine.block_len,
            (final(self).engine.table@ == old(self).engine.table@ && final(self).engine.order@ == old(self).engine.order@)
                || topology_fits(old(self).engine.layout@, old(self).engine.buffers@.len(), final(self).engine.table@, final(self).engine.order@),
    {
        let d = self.poll();
        self.run_drained(d, proc);
    }

    /// Writes external audio into the boundary source's buffer for the next block.
    pub fn set_input(&mut self, samples: &Vec<S>)
        requires
            old(self).engine.wf(),
        ensures
            final(self).engine.wf(),
            final(self).engine.table@ == old(self).engine.table@,
            final(self).engine.order@ == old(self).engine.order@,
            final(self).engine.states@ == old(self).engine.states@,
            final(self).engine.events@ == old(self).engine.events@,
            final(self).engine.layout@ == old(self).engine.layout@,
            final(self).engine.block_len == old(self).engine.block_len,
            final(self).engine.buffers@.len() == old(self).engine.buffers@.len(),
            ({
                let e = old(self).engine;
                let ok = e.layout@.len() > 0 && e.layout@[0].ports@.len() > 0;
                let slot = e.layout@[0].first_port as int;
                &&& ok ==> final(self).engine.buffers@[slot]@ == overwrite(e.buffers@[slot]@, samples@)
                &&& forall|b: int| 0 <= b < e.buffers@.len() && !(ok && b == slot) ==> #[trigger] final(self).engine.buffers@[b]
                    == e.buffers@[b]
            }),
    {
        self.engine.set_input(samples);
    }

    /// The buffer routed to the boundary sink, if any.
    pub fn output(&self) -> (r: Option<&Vec<S>>)
        requires
            self.engine.wf(),
        ensures
            r == self.engine.port_buffer_spec(1, 0),
    {
        self.engine.output()
    }
}

} // verus!
