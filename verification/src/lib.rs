//! Quadtrees over images: an image is split into quads whose quarters have
//! about the same mean colour, and the quads are drawn as outlines, as filled
//! squares or as tiles of a fill image.
pub mod args;
pub mod drawing;
pub mod pipeline;
pub mod quad;
pub mod raster;
pub mod utils;
