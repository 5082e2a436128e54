//! Rendering of two-lane Julia/Fatou escape-time fractals: the anchor
//! colors of the gradient, the reading of image dimensions, the
//! escape-time loop, the division of the image into row bands for
//! parallel workers, and the filling of each band's pixel buffer.
pub mod band;
pub mod colors;
pub mod escape;
pub mod pair;
pub mod render;
pub mod text;
