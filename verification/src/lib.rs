//! An optimistic-update engine for list-shaped data backed by a remote,
//! fallible, asynchronous store.
//!
//! The caller mutates a local collection immediately while the authoritative
//! write travels to the backing store; the engine correlates each eventual
//! success or failure with the speculative state it produced, rolls back on
//! terminal errors, and derives the visible, ordered projection through a
//! filter-and-sort pipeline that stays stable while entries are in flight.
//!
//! The engine itself is synchronous: every storage operation it decides on is
//! returned to the caller as a correlated request, and the caller hands the
//! store's answer back as a correlated response. Rendering, the concrete
//! store, and the scheduling of the asynchronous calls live outside.

pub mod task;

pub mod pending;

pub mod task_list;

pub mod async_list;

pub mod pipeline;

pub mod laws;
