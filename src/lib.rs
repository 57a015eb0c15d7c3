//! A layered raster image engine: integer rectangles, RGBA layers with
//! drawing primitives and dirty-region tracking, stacked images that
//! composite their layers, and a linear undo/redo history of snapshots.
pub mod brush;
pub mod canvas;
pub mod codec;
pub mod color;
pub mod fill;
pub mod geometry;
pub mod history;
pub mod label;
pub mod layer;
pub mod selector;

pub use canvas::Image;
pub use codec::ImageIoError;
pub use color::Color;
pub use geometry::{ImageRect, Point, Rect};
pub use history::ImageHistory;
pub use layer::Layer;
pub use selector::{ColorSelector, ToolSelector};
