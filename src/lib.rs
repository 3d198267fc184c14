//! A verified model of the runtime session of a hot-reloadable module, as a host
//! sees it. The session holds the module's struct instances itself, with their
//! layouts, the module's exported signatures, a root set and an epoch counter.
//! On top of it stand reflective field access, transient and rooted struct
//! handles, a checked invocation protocol whose module side is run by the caller,
//! and a reload cycle that carries every instance over to a new layout.
pub mod types;
pub mod layout;
pub mod session;
pub mod laws;
pub mod marshal;
