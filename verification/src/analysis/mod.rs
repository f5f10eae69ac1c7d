//! The walkers that recover tables from a memory image.

pub mod analyze;
pub mod buttons;
pub mod convars;
pub mod dyn_offsets;
pub mod entities;
pub mod entity_anchor;
pub mod entity_list;
pub mod gameevents;
pub mod global_anchor;
pub mod interfaces;
pub mod module_data;
pub mod offsets;
pub mod pe;
pub mod protobufs;
pub mod read;
pub mod schema_anchor;
pub mod schema_flags;
pub mod schemas;
pub mod static_fields;
pub mod view_matrix;
pub mod vtables;
pub mod weapons;
pub mod wire;
