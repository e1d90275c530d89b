//! Shamir secret sharing over a prime field.

pub mod field;
pub mod poly;
pub mod lagrange;
pub mod sharing;
pub mod laws;
pub mod config;
