//! Turns a raster image into pointer strokes on an external canvas that offers
//! a small fixed palette.
//!
//! - `color`, `palette`: colours and nearest-colour search over an ordered
//!   palette.
//! - `grid`: rectangular grids of colours.
//! - `quantize`: resampling an image and reducing it to the palette, with or
//!   without error diffusion.
//! - `strokes`: cutting a grid into same-colour runs along columns or rows
//!   and keeping the orientation that needs fewer strokes; `bands` holds
//!   what follows for a grid with a single row of colour.
//! - `executor`: laying the strokes out in palette order and handing them
//!   out one by one until the job is done or cancelled.
//! - `store`: the text form of the recorded swatch positions.
//! - `controller`: what the picking overlay does with pointer input.

pub mod bands;
pub mod color;
pub mod controller;
pub mod executor;
pub mod grid;
pub mod palette;
pub mod quantize;
pub mod store;
pub mod strokes;
