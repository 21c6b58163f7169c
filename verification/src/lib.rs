//! Decoding of LibSerpix frames: byte payloads drawn as columns of pixels
//! at the top-left of a game window, read back from screen captures.

pub mod pixel;
pub mod payload;
pub mod raster;
pub mod column_frame;
pub mod strip_frame;
pub mod window;
pub mod probe;
pub mod capture;
