use vstd::prelude::*;

verus! {

/// Every failure the ledger, the signature capability and the storage
/// capability can surface. All errors are returned as values; no operation
/// of the library panics on malformed input.
#[derive(Debug, Clone, Copy, PartialEq, Eq, Structural)]
pub enum CustomErrs {
    /// A public key that the signature backend does not accept.
    InvalidPublicKey,
    /// A private key that the signature backend does not accept.
    InvalidPrivateKey,
    /// A block holding at least one signed record that does not verify.
    InvalidBlock,
    /// A well-formed signature that does not match the record and key.
    VerificationDoesNotMatch,
    /// A placeholder kind kept for callers that match on it.
    Default,
    /// A row of the records table could not be written.
    CouldNotInsertRecordsIntoDatabase,
    /// A row of the hash table could not be written.
    CouldNotInsertHashIntoDatabase,
    /// The storage backend could not be reached at all.
    CannotEstablishDatabaseConnection,
    /// A table that a read expected is absent.
    NoSuchTableInDatabase,
    /// Signature bytes that are structurally malformed.
    InvalidSignature,
    /// A push of a block with no records.
    EmptyBlocksNotAllowed,
    /// The storage backend refused a transaction boundary.
    NoDatabaseConnected,
    /// The storage backend refused to create a table.
    CannotCreateSuchTable,
}

} // verus!
