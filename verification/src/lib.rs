//! Cordis host runtime core: reversible effects, coeffect keys, the
//! reference lifecycle interpreter and the orchestration algorithms around it.

pub mod symbol;
pub mod keyset;

pub use keyset::KeySet;
pub use symbol::Symbol;
pub mod fiber;
pub mod interp_model;
pub mod interp;
pub mod value;
pub mod store;
pub mod notify;
pub mod effect;
pub mod env;
pub mod runtime;
pub mod component;
pub mod context;
pub mod loader;
pub mod hmr;
pub mod events;
pub mod async_core;
