//! Reactive property cells and the device-control engine for a live USB
//! camera viewer.
//!
//! The crate has two cores. The binding graph (`property`) keeps UI controls
//! and device parameters synchronized: a cell holds a validated value and an
//! ordered observer list, and a cell can be re-pointed to delegate its storage
//! to another cell while its observers survive the rebind. The device worker
//! (`worker`) is a connection state machine that multiplexes user commands,
//! hardware events and hotplug notifications, and post-processes every pulled
//! frame before hand-off (`camera`).

pub mod camera;
pub mod config;
pub mod property;
pub mod ui;
pub mod worker;
