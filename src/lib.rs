//! Signed distance fields from binary images: a pyramid of block summaries
//! over the image and a best-first branch-and-bound search per pixel.

mod arith;
pub mod bitmap;
pub mod pyramid;
pub mod sdf_task;
pub mod search;
pub mod quantize;
