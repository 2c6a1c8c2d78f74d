//! A layered configuration resolver for named provider/model entries.
//!
//! A built-in default registry ships with the binary; zero or more external
//! JSON sources, discovered in a fixed precedence order, are folded over an
//! empty map with last-source-wins semantics at whole-entry granularity.

pub mod errors;
pub mod json;
pub mod loader;
pub mod provider_map;

pub use errors::ConfigError;
pub use loader::ConfigLoader;
pub use loader::Source;
pub use provider_map::ProviderMap;
