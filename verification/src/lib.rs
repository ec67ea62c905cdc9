//! Collects declarations tagged with marker attributes into per-category
//! target sets, one state per source file, and synthesises the plugin
//! function that registers every collected target.
//!
//! The stages, leaves first:
//!
//! - [`text`]: canonical rendering and ordering of paths;
//! - [`attribute`]: the categories and their marker attributes;
//! - [`target`] and [`target_set`]: target specifications and sorted sets of them;
//! - [`scanner`]: which declarations of a scope carry which markers;
//! - [`resolver`]: the targets that a marker stands for;
//! - [`store`] and [`file_state`]: the state kept per source file, as a
//!   mathematical model with its laws and as the map that implements it;
//! - [`generate`]: the text of the plugin function;
//! - [`plugin`]: synthesis for a whole scope, and for a finalised source file;
//! - [`diagnostics`]: the report on source files that were never finalised.
//!
//! The state is an explicit value: whoever holds the `&mut FileStateMap` has
//! exclusive access to it, so the calls for one source file never interleave.

pub mod attribute;
pub mod context;
pub mod diagnostics;
pub mod file_state;
pub mod generate;
pub mod path_syntax;
pub mod plugin;
pub mod resolver;
pub mod scanner;
pub mod store;
pub mod target;
pub mod target_set;
pub mod text;

pub use attribute::AutoPluginAttribute;
pub use context::AutoPluginContext;
pub use generate::{
    generate_add_events, generate_add_systems, generate_auto_names, generate_init_resources,
    generate_init_states, generate_register_state_types, generate_register_types,
};
pub use target::{AddSystemSerializedParams, TargetData};
