use vstd::prelude::*;

verus! {

/// The direction and capability of a port, fixed when its component is registered.
#[derive(Clone, Copy, Debug, PartialEq, Eq, Structural)]
pub enum PortType {
    /// The single port of the boundary source: external audio enters here.
    SystemInput,
    /// The single port of the boundary sink: processed audio leaves here.
    SystemOutput,
    Input,
    Output,
}

/// A port that can be the start of a route.
pub open spec fn is_source(t: PortType) -> bool {
    t == PortType::Output || t == PortType::SystemInput
}

/// A port that can be the end of a route.
pub open spec fn is_sink(t: PortType) -> bool {
    t == PortType::Input || t == PortType::SystemOutput
}

/// Whether a port can start a route.
pub fn port_is_source(t: PortType) -> (r: bool)
    ensures
        r == is_source(t),
{
    match t {
        PortType::Output | PortType::SystemInput => true,
        _ => false,
    }
}

/// Whether a port can end a route.
pub fn port_is_sink(t: PortType) -> (r: bool)
    ensures
        r == is_sink(t),
{
    match t {
        PortType::Input | PortType::SystemOutput => true,
        _ => false,
    }
}

/// The two fixed-function components and the user-supplied ones.
#[derive(Clone, Copy, Debug, PartialEq, Eq, Structural)]
pub enum ComponentKind {
    Boundary,
    User,
}

/// A port, identified by its component and the index of the field on that component.
#[derive(Clone, Copy, Debug, PartialEq, Eq, Structural)]
pub struct PortHandle {
    pub component: usize,
    pub field_idx: usize,
}

impl PortHandle {
    pub fn new(component: usize, field_idx: usize) -> (r: PortHandle)
        ensures
            r.component == component,
            r.field_idx == field_idx,
    {
        PortHandle { component, field_idx }
    }
}

/// A directed edge from a source port to a sink port.
#[derive(Clone, Copy, Debug, PartialEq, Eq, Structural)]
pub struct Route {
    pub from: PortHandle,
    pub to: PortHandle,
}

/// Why a connection request was refused.
#[derive(Clone, Copy, Debug, PartialEq, Eq, Structural)]
pub enum RoutingErr {
    CycleDetected,
    ComponentNotFound,
    PortNotFound,
    FromPortIsInput,
    ToPortIsOutput,
    /// The runtime end of the reconfiguration channel is gone.
    ChannelClosed,
}

/// The text that describes each routing error.
pub open spec fn routing_message(e: RoutingErr) -> Seq<char> {
    match e {
        RoutingErr::CycleDetected => "Cycle detected in routing graph"@,
        RoutingErr::ComponentNotFound => "Component not found"@,
        RoutingErr::PortNotFound => "Buffer not found"@,
        RoutingErr::FromPortIsInput => "\"from\" must be an Output port"@,
        RoutingErr::ToPortIsOutput => "\"to\" must be an Input port"@,
        RoutingErr::ChannelClosed => "Runtime is no longer receiving"@,
    }
}

impl RoutingErr {
    /// A sentence describing the error, for reports to the caller of `connect`.
    pub fn message(&self) -> (r: &'static str)
        ensures
            r@ == routing_message(*self),
    {
        match self {
            RoutingErr::CycleDetected => "Cycle detected in routing graph",
            RoutingErr::ComponentNotFound => "Component not found",
            RoutingErr::PortNotFound => "Buffer not found",
            RoutingErr::FromPortIsInput => "\"from\" must be an Output port",
            RoutingErr::ToPortIsOutput => "\"to\" must be an Input port",
            RoutingErr::ChannelClosed => "Runtime is no longer receiving",
        }
    }
}

/// Why a component could not be registered.
#[derive(Clone, Copy, Debug, PartialEq, Eq, Structural)]
pub enum BuildErr {
    DuplicateName,
    /// The port or state tables would outgrow the address space.
    TooLarge,
}

/// An index into the runtime's physical buffer table.
#[derive(Clone, Copy, Debug, PartialEq, Eq, Structural)]
pub struct BufferIdx(pub usize);

impl BufferIdx {
    pub fn add(self, rhs: usize) -> (r: BufferIdx)
        requires
            self.0 + rhs <= usize::MAX,
        ensures
            r.0 == self.0 + rhs,
    {
        BufferIdx(self.0 + rhs)
    }
}

/// Where a component's buffers and persistent state start in the runtime's tables.
#[derive(Clone, Copy, Debug, PartialEq, Eq, Structural)]
pub struct ContextHandle {
    pub component_id: usize,
    pub buffer_ids_start: BufferIdx,
    pub slot_ids_start: usize,
}

/// The port through which external audio enters: the boundary source's only port.
pub fn input() -> (r: PortHandle)
    ensures
        r.component == 0,
        r.field_idx == 0,
{
    PortHandle::new(0, 0)
}

/// The port through which processed audio leaves: the boundary sink's only port.
pub fn output() -> (r: PortHandle)
    ensures
        r.component == 1,
        r.field_idx == 0,
{
    PortHandle::new(1, 0)
}

/// A kind of port field, identified by its direction.
pub trait Port {
    fn port_type() -> PortType;
}

/// The boundary source's port.
pub struct SystemInput;

/// The boundary sink's port.
pub struct SystemOutput;

impl Port for SystemInput {
    fn port_type() -> PortType {
        PortType::SystemInput
    }
}

impl Port for SystemOutput {
    fn port_type() -> PortType {
        PortType::SystemOutput
    }
}

} // verus!
