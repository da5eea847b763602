//! Verified core of a small split mechanical keyboard firmware.
//!
//! The crate turns raw electrical switch state into a boot-protocol USB
//! keyboard report: coordinate mapping from the wired matrix to the logical
//! grid, per-cell debounce filtering, a layered key-action state machine with
//! press-time bindings, report assembly, and the fixed-period scheduler
//! decisions that drive the pipeline.  Board bring-up, GPIO access and the
//! USB transport live outside the library and hand it plain values.

pub mod coord;
pub mod debounce;
pub mod engine;
pub mod grid;
pub mod keyboard;
pub mod keymap;
pub mod report;
