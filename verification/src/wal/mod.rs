//! The write-ahead log of block transactions.
//!
//! Taking and giving back blocks cannot be replayed, so a logged operation is not a command
//! but a block with a polarity and a status. An `Alloc` entry names a block that becomes an
//! orphan if the transaction is abandoned, a `Dealloc` entry one that becomes an orphan if it
//! is committed. Completion reclaims exactly the orphans, and marks each entry `Complete`
//! before it gives the block back, so that no block is given back twice.
pub mod block;
pub mod entry;
pub mod recover;
pub mod twice;
pub mod held;
pub mod reduce;
