use vstd::prelude::*;

verus! {

/// The error kinds surfaced by the storage engine. Decoding errors are not
/// recovered locally: they travel up to the caller, which reports them and
/// stops. No partial result is kept once an error has been detected.
#[derive(Clone, Copy, Debug, PartialEq, Eq, Structural)]
pub enum Error {
    /// A read from the underlying file failed.
    IoError,
    /// A page number points past the end of the database file.
    OutOfRange,
    /// The data ended in the middle of a value.
    Truncated,
    /// A page's bytes do not form a well-formed page.
    CorruptPage,
    /// A record's bytes do not form a well-formed record.
    CorruptRecord,
    /// The database uses a feature this engine does not handle
    /// (overflow pages, an unrecognised page kind, a reserved serial type).
    Unsupported,
    /// An interior page announced an entry that no leaf contains.
    InconsistentBtree,
    /// The tree structure is malformed (for instance, it contains a cycle).
    CorruptBtree,
    /// No table of the requested name exists in the schema.
    UnknownTable,
    /// A requested column is not part of the table.
    UnknownColumn,
    /// The query shape is not one of the supported forms.
    UnsupportedQuery,
}

} // verus!
