use vstd::prelude::*;

verus! {

/// Error taxonomy of the scanner.
///
/// The first group comes from the DER and CT binary decoders on untrusted
/// input; `UnsupportedLeaf` / `UnknownEntryType` are leaf-structure policy
/// violations; `EmptyBatch`, `Http` and `Transport` come from the ranged
/// downloader (the latter two raised by the transport the caller supplies);
/// `CacheIo` / `CacheMissing` from the entry cache; `UnknownLog` /
/// `DirectoryFetch` from the log directory resolver; `TailClient` is the
/// opaque error of the external live-stream collaborator.
#[derive(Clone, Copy, Debug, PartialEq, Eq, Structural)]
pub enum Error {
    MalformedDer,
    UnexpectedTag,
    Truncated,
    OverlongField,
    UnsupportedLeaf,
    UnknownEntryType(u16),
    EmptyBatch,
    Http(u16),
    Transport,
    CacheIo,
    CacheMissing(u64),
    UnknownLog,
    DirectoryFetch,
    TailClient,
}

} // verus!
