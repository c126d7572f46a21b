//! Structural differences between configuration trees, and a quorum-based
//! common base for several of them.
//!
//! A configuration is a [`Value`]: a scalar, an array of values or a mapping
//! from text keys to values. Every contract in this crate is stated over the
//! mathematical form of a value, its [`Tree`].
//!
//! - [`compute_diff`] gives what in a candidate departs from a baseline.
//! - [`diff_and_common_multiple`] splits several values into a base, on which
//!   a [`Quorum`] of them agrees, and what each of them adds to it.
//! - [`compute_diff_bounded`] and [`diff_and_common_multiple_bounded`] do the
//!   same for values from outside, and refuse those that are nested too
//!   deeply to be walked safely.
//! - [`deep_equal`] is the structural equality that both rest on.

pub mod depth;
pub mod diff;
pub mod error;
pub mod mapping;
pub mod quorum;
pub mod reduce;
pub mod slots;
pub mod tree;
pub mod value;

pub use depth::{compute_diff_bounded, diff_and_common_multiple_bounded};
pub use diff::compute_diff;
pub use error::DiffError;
pub use mapping::Mapping;
pub use quorum::Quorum;
pub use reduce::diff_and_common_multiple;
pub use tree::{Kind, Tree};
pub use value::{deep_equal, Value};
