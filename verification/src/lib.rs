//! The registry and loader core of a status panel: plugins are registered
//! under their names, started in order of priority once their dependencies
//! are known to be present, and their visual elements are grouped by the zone
//! of the panel that each of them asks for. The panel's clock is the one
//! plugin that comes with the loader.

pub mod clock;
pub mod laws;
pub mod loader;
pub mod metadata;
pub mod order;
pub mod plugin;
pub mod registry;
pub mod schedule;
pub mod text;
pub mod zones;

pub use clock::ClockPlugin;
pub use loader::{init_plugins, PluginLoader};
pub use metadata::{AppendMethod, MetadataView, PanelPosition, PluginMetadata};
pub use plugin::Plugin;
pub use registry::{PluginRegistry, RegistryView};
pub use zones::ZoneMap;
