//! Registries and decision logic of a status-handler interception layer.
//!
//! A host process loads code modules and lets each of them install status
//! handlers. This crate keeps track of the address range of each module and
//! of the overrides that consumers register per module, status kind and
//! sub-script, and decides for each installation whether an override takes
//! the place of the incoming handler. It performs no hooking itself: the
//! caller feeds it events and carries out what it decides.

pub mod handlers;
pub mod laws;
pub mod loader;
pub mod ranges;
pub mod shim;
pub mod text;

pub use handlers::{call_original, replace_status_func, HandlerEntry, HandlerRegistry, OriginalCall};
pub use loader::{LoadAction, LoadObserver};
pub use ranges::{ModuleRange, ModuleRanges};
pub use shim::{intercept, intercept_tagged, Interception};
