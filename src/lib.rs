//! Control logic of a progressive, multithreaded path tracer: the sampling
//! grid of the image plane, its partition into horizontal bands, the order in
//! which each worker visits its pixels, the accumulator that merges what the
//! workers report, and the rules that pick the nearest hit and encode a
//! channel for display.

pub mod accumulator;
pub mod band;
pub mod color;
pub mod grid;
pub mod protocol;
pub mod schedule;
pub mod tracer;

pub use accumulator::{Accumulator, Action, PixelInfo, ProtocolError};
pub use band::{band_bounds, band_of_image_row};
pub use color::channel_byte;
pub use grid::{isqrt, ViewGrid};
pub use schedule::{PixelJob, WorkStep, WorkerSchedule};
pub use tracer::{nearest_hit, workers_for, SimpleTracer};
