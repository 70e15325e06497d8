//! A signed, append-only record ledger. Records are signed and gathered
//! into blocks; the ledger validates a block, hashes its canonical bytes,
//! assigns it the next contiguous range of row positions, and appends its
//! rows and its digest row to a storage backend as one transactional unit.

pub mod blockchain;
pub mod codec;
pub mod errs;
pub mod gen;
pub mod io;
pub mod node;
pub mod utils;
