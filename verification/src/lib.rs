//! A window-state registry with a reflection-driven dynamic inspector.
//!
//! Independently authored editor window modules register typed state into one
//! shared store; a companion engine enumerates the data-record types a host
//! type registry knows, lets a user search them by display name, and attaches
//! a freshly default-constructed instance of a chosen type onto a live object,
//! purely through descriptors.

pub mod catalog;
pub mod editor;
pub mod editor_window;
pub mod inspector;
pub mod lookup;
pub mod reflect;
pub mod text;
pub mod window_state;
