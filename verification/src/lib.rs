//! A two-dimensional, stack-based esoteric language interpreter.
//!
//! Source code lives on a fixed 80 x 25 grid of byte cells. A program
//! counter walks the grid in one of four cardinal directions, wrapping
//! around the edges (torus topology), and each cell is dispatched as a
//! single instruction acting on a byte-valued operand stack, the grid
//! itself, or the byte input/output channels.
//!
//! Settled design choices, all visible in the contracts:
//!
//! - Stack cells are bytes: addition, subtraction and multiplication
//!   wrap modulo 256.
//! - Division and remainder by zero push 0 rather than faulting.
//! - Popping an empty stack yields 0; it is never an error.
//! - Loading truncates silently: rows beyond the grid's height and
//!   columns beyond its width are discarded.
//! - Reading a raw byte at end of input pushes the sentinel 255, which
//!   deliberately collides with the valid byte value 255.
//! - Grid reads with out-of-range coordinates yield 0; such writes
//!   change nothing.

pub mod consts;
pub mod pc;
pub mod program;
pub mod state;

pub use pc::{Pc, Point};
