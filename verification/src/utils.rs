//! Small values shared by the passes: document spans and the FNV-1a hash.

use vstd::prelude::*;

verus! {

/// A byte range with an explicit start and end.
#[derive(Clone, Copy, Debug, PartialEq, Eq, Structural)]
pub struct ByteRange {
    pub start: usize,
    pub end: usize,
}

impl ByteRange {
    /// First byte of the range.
    pub fn start(&self) -> (r: usize)
        ensures
            r == self.start,
    {
        self.start
    }

    /// One past the last byte of the range.
    pub fn end(&self) -> (r: usize)
        ensures
            r == self.end,
    {
        self.end
    }
}

/// A byte range inside the document that a URI names.
#[derive(Clone, Debug, PartialEq, Eq)]
pub struct Span {
    pub uri: String,
    pub range: ByteRange,
}

/// Why a span could not be made.
#[derive(Clone, Copy, Debug, PartialEq, Eq, Structural)]
pub enum SpanError {
    /// The range ends before it starts.
    Reversed { start: usize, end: usize },
}

impl Span {
    /// The span of `start..end` in the document `uri`.
    pub fn new_uri(uri: String, start: usize, end: usize) -> (r: Result<Span, SpanError>)
        ensures
            match r {
                Ok(span) => start <= end && span.uri@ == uri@ && span.range == (ByteRange {
                    start,
                    end,
                }),
                Err(error) => start > end && error == (SpanError::Reversed { start, end }),
            },
    {
        if start > end {
            Err(SpanError::Reversed { start, end })
        } else {
            Ok(Span { uri, range: ByteRange { start, end } })
        }
    }

    /// The empty span at `at` in the document `uri`.
    pub fn point(uri: String, at: usize) -> (r: Result<Span, SpanError>)
        ensures
            r is Ok,
            r->Ok_0.uri@ == uri@,
            r->Ok_0.range == (ByteRange { start: at, end: at }),
    {
        Self::new_uri(uri, at, at)
    }
}

/// The FNV-1a offset basis.
pub const FNV_OFFSET: u64 = 0xcbf2_9ce4_8422_2325;

/// The FNV-1a prime.
pub const FNV_PRIME: u64 = 0x0000_0100_0000_01b3;

/// One FNV-1a step: mix in one byte.
pub open spec fn fnv_step(hash: u64, byte: u8) -> u64 {
    (hash ^ (byte as u64)).wrapping_mul(FNV_PRIME)
}

/// The FNV-1a hash of `bytes`, started from `hash`.
pub open spec fn fnv1a_from(hash: u64, bytes: Seq<u8>) -> u64
    decreases bytes.len(),
{
    if bytes.len() == 0 {
        hash
    } else {
        fnv_step(fnv1a_from(hash, bytes.drop_last()), bytes.last())
    }
}

/// The FNV-1a hash of `bytes`.
pub open spec fn fnv1a(bytes: Seq<u8>) -> u64 {
    fnv1a_from(FNV_OFFSET, bytes)
}

/// Continues an FNV-1a hash over `bytes`.
pub fn fnv64_from(start: u64, bytes: &[u8]) -> (hash: u64)
    ensures
        hash == fnv1a_from(start, bytes@),
{
    let mut hash: u64 = start;
    let mut index: usize = 0;
    while index < bytes.len()
        invariant
            index <= bytes.len(),
            hash == fnv1a_from(start, bytes@.take(index as int)),
        decreases bytes.len() - index,
    {
        proof {
            assert(bytes@.take(index as int + 1).drop_last() =~= bytes@.take(index as int));
        }
        hash = (hash ^ (bytes[index] as u64)).wrapping_mul(FNV_PRIME);
        index += 1;
    }
    proof {
        assert(bytes@.take(bytes@.len() as int) =~= bytes@);
    }
    hash
}

/// The 64-bit FNV-1a hash of `bytes`.
pub fn fnv64(bytes: &[u8]) -> (hash: u64)
    ensures
        hash == fnv1a(bytes@),
{
    fnv64_from(FNV_OFFSET, bytes)
}

} // verus!
