//! Exact area that a tethered animal can graze around a regular polygonal fence.

pub mod circle;
pub mod grazing;
pub mod rational;
