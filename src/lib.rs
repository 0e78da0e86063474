//! The discrete core of a path tracer: axes and their order keys, the shape
//! of the bounding-volume hierarchy and the walk through it, closest-hit
//! selection, the Perlin lattice hash, the checker parity rule, image pixel
//! lookup and the plain-text image encoding.
pub mod axis;
pub mod bvh;
pub mod checker;
pub mod image;
pub mod nearest;
pub mod perlin;
pub mod ppm;
mod random;

pub use axis::{longest_axis, AxisKeys, Dim};
pub use bvh::{Bvh, BvhNode};
pub use checker::is_even_cell;
pub use image::Image;
pub use nearest::{nearest, offer, search_bound, Hit};
pub use perlin::{PerlinHash, POINT_COUNT};
pub use ppm::{encode_ppm, pixel_line, raster_order, Rgb};
