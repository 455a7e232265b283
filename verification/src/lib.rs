//! A verified page-cache layer for a disk-backed storage engine.
//!
//! The crate has two components, in dependency order:
//!
//! - [`disk`]: the page store. It owns the backing heap-file bytes,
//!   translates a page identifier into a byte offset, performs exact
//!   fixed-size page reads and writes, and allocates fresh page
//!   identifiers. Opening and persisting the heap file itself is plain
//!   file I/O and is left to the embedding program; the store works on
//!   the file's bytes.
//! - [`buffer`]: the buffer pool manager. It owns a fixed-capacity
//!   array of frames plus a page-table mapping cached page identifiers
//!   to frame indices; on a cache miss it chooses a victim frame by a
//!   clock sweep, writes the victim back through the page store if it
//!   is dirty, and loads the requested page in its place.

pub mod buffer;
pub mod disk;
