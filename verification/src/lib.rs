//! Selection and bundling of polyfills for a user agent.
//!
//! The library decides which polyfills a request needs (following aliases
//! and dependencies until nothing changes), orders them by dependency and
//! lays out the bundle text. Reading the polyfill store, writing the HTTP
//! body and parsing the configuration files are done by the caller, which
//! hands the library plain values and runs its request/reply loops.
pub mod text;
pub mod flags;
pub mod strmap;
pub mod names;
pub mod features;
pub mod params;
pub mod range;
pub mod ua;
pub mod selection;
pub mod store;
pub mod aliases;
pub mod toposort;
pub mod bundle;
