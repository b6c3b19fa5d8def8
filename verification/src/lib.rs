//! Host-side runtime for native plugin modules: a registry of loaded
//! plugins, the lifecycle state machine that governs them, and an event
//! bus that routes named events to the plugins that subscribed to them.

pub mod bus;
pub mod errors;
pub mod loader;
pub mod manager;
pub mod state;

pub use bus::EventBus;
pub use errors::PluginError;
pub use loader::has_module_extension;
pub use manager::{Event, PluginEntry, PluginManager};
pub use state::PluginState;
