//! A small service directory: services register instances of themselves
//! under a name and an environment, clients resolve them, services send
//! heartbeats, and entries are removed by deregistration.

pub mod guarantees;
pub mod in_memory_registry;
pub mod service_address;
pub mod service_registry;

pub use in_memory_registry::InMemoryRegistry;
pub use service_address::ServiceAddress;
pub use service_registry::{
    now, EntryView, HealthStatus, RegistryError, ServiceEntry, ServiceRegistry,
};
