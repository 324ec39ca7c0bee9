//! UI-facing pieces of the core: layout direction, widget interaction state,
//! the slider payload with its validator, and the simple observable cell that
//! widgets publish their values through.
//!
//! Screen geometry and rendering are the renderer's business and stay outside
//! the library.

pub mod geometry;
pub mod property;
pub mod widget;

pub use geometry::Direction;
pub use widget::SliderPosition;
pub use widget::State;
