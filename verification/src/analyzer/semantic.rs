//! The checks that run on parsed nodes.
pub mod attribute;
pub mod element;
pub mod ownership;
