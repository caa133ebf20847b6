//! A dice-rolling calculator library.
//!
//! Dice-notation strings such as `2d6+3` or `4dF` are parsed into a
//! [`notation::DieSpec`], rolls are simulated (with optional exploding dice
//! and keep/drop selection) in [`rolling`], expected values are computed
//! exactly in [`average`], and results are rendered as plain text in
//! [`render`].

pub mod average;
pub mod notation;
pub mod render;
pub mod rolling;
pub mod sorting;
