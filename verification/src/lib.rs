//! The logic of a sender and visualiser for GRBL controllers.
//!
//! - [`gcode`] reads G-code: its words, the toolpath, and the lines that are streamed.
//! - [`grbl`] is the controller's side: what it says, what is sent to it, the job and its marks,
//!   the passes of the tool, and the height map.
//! - [`material`] is the stock that a simulated job is cut out of, and [`cutting`] says which of its
//!   cells a move cuts.
//! - [`ui`] is what the display shows and what its buttons do.
//! - [`arith`] holds numbers in floating notation, [`measure`] says what they are worth, and
//!   [`geometry`] what holds of points; [`text`] and [`lines`] take texts apart.
pub mod arith;
pub mod cutting;
pub mod gcode;
pub mod geometry;
pub mod grbl;
pub mod lines;
pub mod material;
pub mod measure;
pub mod text;
pub mod ui;
