//! In-memory binary assets and the raw-storage pass-through record.
use vstd::prelude::*;

verus! {

/// An asset's stored bytes in their on-disk form plus the scheme they
/// were stored under (`"zip-deflate"`, `"zip-stored"`, …).
#[derive(Debug)]
pub struct RawStorage<'a> {
    /// Canonical scheme identifier.
    pub scheme: &'a str,
    /// Bytes as stored under `scheme` (may be compressed).
    pub bytes: &'a [u8],
    /// Decoded length when the scheme records it.
    pub uncompressed_size: Option<u64>,
}

/// Trivial in-memory asset backed by an owned byte vector.
#[derive(Clone, Debug)]
pub struct InMemoryAsset {
    pub mime: Option<String>,
    pub bytes: Vec<u8>,
}

impl InMemoryAsset {
    /// Build from MIME + owned byte vector.
    pub fn new(mime: Option<String>, bytes: Vec<u8>) -> (a: Self)
        ensures
            a.mime == mime,
            a.bytes@ == bytes@,
    {
        InMemoryAsset { mime, bytes }
    }

    /// MIME hint, if known.
    pub fn mime(&self) -> (m: Option<&str>)
        ensures
            match self.mime {
                Some(s) => m matches Some(t) && t@ == s@,
                None => m is None,
            },
    {
        match &self.mime {
            Some(s) => Some(s.as_str()),
            None => None,
        }
    }

    /// Total size in bytes, always known for an in-memory payload.
    pub fn size_hint(&self) -> (n: Option<u64>)
        ensures
            n == Some(self.bytes@.len() as u64),
    {
        Some(self.bytes.len() as u64)
    }

    /// In-memory assets carry no container scheme to pass through.
    pub fn raw_storage(&self) -> (r: Option<RawStorage<'_>>)
        ensures
            r is None,
    {
        None
    }
}

} // verus!
