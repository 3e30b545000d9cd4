//! Tessera Slate: a seqlock-protected table of latest-value byte slots in shared memory.
//!
//! A writer overwrites slot `N` in place; readers poll slot `N` for its current value. There
//! is no history: a reader converges to the latest bytes. Slots are statically addressed
//! and rewritten continuously, one writer per slot, any number of lock-free readers. A slot
//! holds caller-owned bytes; typing and field layout live above.
//!
//! The library decides; it does not touch the system. [`Slate`] and [`SlateReader`] turn a
//! request into operations ([`host::HostOp`], [`memory::MemoryOp`]) that whoever holds the
//! mapping performs, and the replies into results:
//!
//! - opening a region is the state machine [`region::RegionOpen`];
//! - a write is a checked [`slate::SlotWrite`], its load and the operations that publish it;
//! - a read is the state machine [`slate::SlotRead`], with bounded retry.
//!
//! What holds of the table is proved in four places. [`laws`] follows whole requests with
//! nobody else at work: what is read back of a write, what a write leaves alone, who may
//! attach. [`seqlock`] follows a slot's writer, its readers and everybody else step by step:
//! a reader never sees a torn payload, and converges. [`ordering`] shows that the fences and
//! orderings of the operations are enough for that on machines that reorder accesses.
//! [`scenarios`] runs openings, writes and reads from a configuration on, and tells what
//! comes out by numbers and offsets.

pub mod byte_order;
pub mod clock;
pub mod error;
pub mod header;
pub mod host;
pub mod laws;
pub mod memory;
pub mod namespace;
pub mod ordering;
pub mod region;
pub mod scenarios;
pub mod seqlock;
pub mod slate;
pub mod text;
pub mod worker;

pub use error::TesseraSlateError;
pub use namespace::NamespaceHandle;
pub use slate::{HeaderSnapshot, ReadResult, Slate, SlateConfig, SlateReader};
