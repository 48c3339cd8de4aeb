//! A verified core for a panel-based screen editor.
//!
//! The crate owns the three pieces of an interactive editor that are worth
//! proving: the text buffer with its cursor and scroll viewport, the
//! split-layout engine that turns a container tree into pixel rectangles, and
//! the focus router that maps pointer presses to panels.  Window creation,
//! font rendering and file access stay outside, in the surrounding
//! application, which talks to this crate through plain values.

pub mod layout;
pub mod lines;
pub mod panels;
pub mod text;
