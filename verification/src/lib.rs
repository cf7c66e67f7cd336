//! The logic of a live viewer for Coin612-family USB thermal cameras.
//!
//! The camera streams line-pairs, one line of raw Y16 samples and one of camera-processed UYVY
//! samples, without any frame markers. The library finds the frames in the stream, splits them
//! into planes, maps the levels to colors, and draws what is displayed, saved and recorded. It holds
//! no device, window or file: it takes bytes, times and keys, and gives back what to do.
//!
//! - The stream: [`frame`], [`sync`] with [`boundary`], [`reader`] and [`usb`]; [`alignment`],
//!   [`detection`] and [`evidence`] state what alignment guarantees and what it goes by.
//! - The picture: [`palette`], [`render`], [`osd`], [`display`] and [`pixels`]; [`levels`] and
//!   [`histogram`] state what the display transform guarantees, and [`lettering`] what drawn texts
//!   and markers look like.
//! - The program: [`viewer`], [`options`], [`timing`], [`recorder`], [`screenshot`], [`events`] and
//!   [`text`].
//! - Arithmetic: [`float`] computes the IEEE 754 formats binary32 and binary64 on integers, over
//!   the rounding of [`rounding`]; [`double`] adds what binary64 formulas need, and [`nearest`]
//!   states what the operations guarantee.

pub mod alignment;
pub mod boundary;
pub mod detection;
pub mod display;
pub mod double;
pub mod events;
pub mod evidence;
pub mod float;
pub mod frame;
pub mod histogram;
pub mod lettering;
pub mod levels;
pub mod nearest;
pub mod options;
pub mod osd;
pub mod palette;
pub mod pixels;
pub mod reader;
pub mod recorder;
pub mod render;
pub mod rounding;
pub mod screenshot;
pub mod sync;
pub mod text;
pub mod timing;
pub mod usb;
pub mod viewer;
