//! Two per-frame simulators for visual motion: a scroll position that eases
//! toward its target, and a field of particles held by springs and pushed by
//! the pointer.
//!
//! Every number is an IEEE 754 binary32 number, carried as its bit pattern.
//! `single` holds the type and its order, `value` what a pattern stands for.
//! `rounding` and `nearest` round exact values to the format; `sum`,
//! `product`, `quotient`, `root`, `floor` and `whole` build the arithmetic on
//! that, and `identities` and `bounds` state what the engines need of it.
//! `sine` holds the one operation that an outside crate computes. `scroll`,
//! `seed` and `field` are the engines.

pub mod bounds;
pub mod field;
pub mod floor;
pub mod identities;
pub mod nearest;
pub mod product;
pub mod quotient;
pub mod root;
pub mod rounding;
pub mod scroll;
pub mod seed;
pub mod sine;
pub mod single;
pub mod sum;
pub mod value;
pub mod whole;
