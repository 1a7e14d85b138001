//! Archive synchronization engine: bulk transfer between an object store
//! and a single-file tape-style archive container.
//!
//! The crate has four layers:
//! - [`codec`]: reads and writes the archive container format (a sequence
//!   of fixed-layout 512-byte headers, each followed by a block-aligned
//!   payload, terminated by zero blocks), as a pure transformation on
//!   bytes, with a proved encode/decode round-trip.
//! - [`store`]: the object-store capability the orchestrators are written
//!   against, plus a verified in-memory store usable as a test double.
//! - [`sync`]: the dump and populate orchestrators that move every object
//!   of a bucket into or out of one archive, continuing past per-object
//!   failures.
//! - [`laws`]: the engine's cross-function guarantees — round-trip, order
//!   preservation, failure isolation, idempotent re-populate — stated and
//!   proved over the models the contracts speak of.
pub mod codec;
pub mod laws;
pub mod store;
pub mod sync;
