//! Greedy approximation of a raster image by semi-transparent rectangular
//! patches.
//!
//! A canvas is brought closer to a target image generation by generation:
//! random patches of one colour are proposed, each is scored against the
//! canvas as it stands, and each that lowers the mean colour distance of its
//! region is composited into the canvas at once.
//!
//! All arithmetic is exact fixed-point integer arithmetic: colour channels are
//! bytes (255 stands for 1.0), distances are counted in units of
//! `1 / DISTANCE_ONE`, and rectangle coordinates in units of
//! `1 / SUBPIXEL` of a pixel.
//!
//! - [`color`]: pixels, their distance and their overlay;
//! - [`image`]: image buffers;
//! - [`rect`]: rectangles with sub-pixel coordinates;
//! - [`draw`]: compositing a patch into a region;
//! - [`score`]: the distance of a region, present and projected;
//! - [`shape`]: candidate patches and their random proposal;
//! - [`engine`]: the accept test and the generations;
//! - [`arith`]: integer square roots and means.

pub mod arith;
pub mod color;
pub mod draw;
pub mod engine;
pub mod image;
pub mod rect;
pub mod score;
pub mod shape;
