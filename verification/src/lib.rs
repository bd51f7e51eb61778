//! A maze game in a space of up to nine axes, each eight cells wide.
//!
//! The maze is carved by Kruskal's algorithm over a random wall order, the
//! player walks it cell by cell, and notes can be left in cells.

pub mod grid;
pub mod flood;
pub mod maze;
pub mod game;
pub mod labels;
pub mod lock;
