//! Block request records and the payload buffer that completed blocks carry.
use bytes::BytesMut;
use vstd::prelude::*;

verus! {

#[verifier::external_type_specification]
#[verifier::external_body]
pub struct ExBytesMut(BytesMut);

/// The bytes held by a `BytesMut` buffer.
pub uninterp spec fn buffer_bytes(b: BytesMut) -> Seq<u8>;

/// Relies on `<BytesMut as AsRef<[u8]>>::as_ref`: a view of exactly the
/// buffer's initialized bytes.
#[verifier::external_body]
pub(crate) fn buffer_slice(b: &BytesMut) -> (r: &[u8])
    ensures
        r@ == buffer_bytes(*b),
{
    b.as_ref()
}

/// A request for the byte range `[offset, offset + size)` of a piece that has
/// been sent but not yet answered.
#[derive(Clone, Copy, Debug, PartialEq, Eq, Structural)]
pub struct PendingBlockRequest {
    pub offset: u32,
    pub size: u32,
}

impl PendingBlockRequest {
    pub fn new(offset: u32, len: u32) -> (r: Self)
        ensures
            r.offset == offset,
            r.size == len,
    {
        Self { offset, size: len }
    }
}

/// A received block: its range within the piece and its payload.
#[derive(Debug)]
pub struct CompletedBlockRequest {
    pub offset: u32,
    pub size: u32,
    pub bytes: BytesMut,
}

impl CompletedBlockRequest {
    pub fn new(offset: u32, len: u32, data: BytesMut) -> (r: Self)
        ensures
            r.offset == offset,
            r.size == len,
            r.bytes == data,
    {
        Self { offset, size: len, bytes: data }
    }

    /// The payload of this block.
    pub open spec fn payload(&self) -> Seq<u8> {
        buffer_bytes(self.bytes)
    }
}

/// No two blocks of `s` start at the same offset.
pub open spec fn distinct_offsets(s: Seq<CompletedBlockRequest>) -> bool {
    forall|i: int, j: int|
        #![trigger s[i], s[j]]
        0 <= i < s.len() && 0 <= j < s.len() && i != j ==> s[i].offset != s[j].offset
}

} // verus!
