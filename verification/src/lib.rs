//! A sub-pixel terminal rasterizer.
//!
//! A framebuffer packs two logical rows of colored cells into one printable
//! terminal row; repeated writes into a cell blend by running color
//! averaging. A line rasterizer enumerates the cells of a straight segment
//! between two normalized positions and writes each of them. Terminal I/O
//! itself (geometry queries, ANSI emission) is left to the caller: `draw`
//! hands back the color pairs to paint, in scan order.

pub mod color;
pub mod frame;
pub mod raster;

pub use color::Col;
pub use color::Pixel;
pub use frame::Frac;
pub use frame::TermDraw;
