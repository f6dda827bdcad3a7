//! A tiny animation language. A program is a sequence of `travel` blocks;
//! each block declares a number of frames and a body of statements, and every
//! frame is a canvas of 200 by 200 pixels that one run of the body draws on.
//!
//! - [`syntax`] is the concrete syntax tree that a grammar engine makes of
//!   the source text.
//! - [`parser`] lowers such a tree into the syntax model of [`ast`].
//! - [`eval`] gives expressions their value at a frame index.
//! - [`canvas`] draws circles, and [`render`] runs a program frame by frame.
//! - [`encode`] turns the rendered frames into the palette and indices that
//!   a GIF encoder writes.
//! - [`text`] compares strings and reads number literals, and [`error`]
//!   holds the failures.
//!
//! Every function comes with a contract over the mathematical value of its
//! arguments. The contracts are proved, but for the one call into the `gif`
//! crate in [`encode`], whose contract is taken on trust.

pub mod ast;
pub mod canvas;
pub mod encode;
pub mod error;
pub mod eval;
pub mod parser;
pub mod render;
pub mod syntax;
pub mod text;
