//! Verified codec for the fixed-length binary frames of a controller-area
//! network, driven by a static schema of named bit-field signals.
//!
//! - [`bits`] holds the bit-level model of a frame and the lemmas behind
//!   every contract;
//! - [`codec`] holds the extraction and insertion algorithms for each
//!   signal layout, proved bit-exact against that model;
//! - [`signal`] selects a signal's storage type, classifies its layout and
//!   decodes or encodes a single signal;
//! - [`message`] resolves a message against the schema, selects its
//!   signals, and drives the composite decode and encode;
//! - [`table`] emits named constants from a signal's value table.
//!
//! Scale/offset conversion into engineering units is 32-bit floating-point
//! arithmetic and stays outside the verified core: a scaled signal's field
//! carries the raw container value.

pub mod bits;
pub mod codec;
pub mod message;
pub mod signal;
pub mod table;
