pub mod types;
pub mod reach;
pub mod graph;
pub mod channel;
pub mod runtime;
pub mod router;
pub mod builder;

pub use builder::Builder;
pub use graph::Graph;
pub use router::Router;
pub use runtime::{Context, Engine, Processor, Runtime, Update};
pub use types::{
    BufferIdx, BuildErr, ComponentKind, ContextHandle, Port, PortHandle, PortType, RoutingErr,
    SystemInput, SystemOutput, input, output,
};
