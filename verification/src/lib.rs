//! Selection-expression evaluation over bit-packed element masks.
//!
//! A caller composes a [`selection::SelectionExpr`] tree out of the five
//! primitive set operations and registered custom operations, then lowers it
//! with [`selection::SelectionBundle::evaluate`] into a linear sequence of
//! buffer copies and compute dispatches targeting bit-packed mask buffers.
//! The recorded commands are plain data: a surrounding GPU layer replays them
//! on a device, while [`selection::SelectionBundle::submit`] runs them on the
//! host-side mask store, which serves as the verified model of what the
//! replayed dispatches compute.

pub mod bits;
pub mod buffer;
pub mod command;
pub mod error;
pub mod selection;
pub mod shader;

pub use buffer::MaskStore;
pub use buffer::SelectionBuffer;
pub use command::Command;
pub use command::CommandEncoder;
pub use command::CustomProgram;
pub use error::Error;
pub use selection::SelectionBundle;
pub use selection::SelectionExpr;
