//! Pixel sorting and unsorting of RGBA images.
//!
//! A coordinate grid records, for every place of an image, from where a
//! stable sort of its row or column by a colour key takes the pixel for
//! that place. Gathering an image through its grid sorts it; scattering an
//! image through the grid of another undoes that sort on it.

pub mod art;
pub mod laws;
pub mod matrix;
pub mod order;
pub mod pixel;
pub mod raster;
pub mod stable;
