//! A cursor over the bytes of a text.

use std::sync::Arc;
use vstd::prelude::*;
use vstd::utf8::*;

use crate::text::{
    lemma_prefix_lengths, rope_byte_slice, rope_byte_to_char, rope_bytes, rope_chars,
    rope_chunk_at_char, rope_len_bytes,
};

verus! {

/// A cursor over the bytes of a text, which reads it chunk by chunk.
pub struct RopeCursor {
    rope: Arc<ropey::Rope>,
}

impl View for RopeCursor {
    type V = Seq<u8>;

    closed spec fn view(&self) -> Seq<u8> {
        rope_bytes(*self.rope)
    }
}

/// A chunk holds the bytes of the text from a place on.
pub open spec fn is_chunk(bytes: Seq<u8>, chunk: Seq<u8>, start: int) -> bool {
    0 <= start && start + chunk.len() <= bytes.len() && chunk == bytes.subrange(
        start,
        start + chunk.len(),
    )
}

impl RopeCursor {
    spec fn chars(&self) -> Seq<char> {
        rope_chars(*self.rope)
    }

    pub fn new(rope: Arc<ropey::Rope>) -> (r: Self)
        ensures
            r@ == rope_bytes(*rope),
    {
        RopeCursor { rope }
    }

    /// The number of bytes.
    pub fn len_bytes(&self) -> (r: usize)
        ensures
            r == self@.len(),
    {
        rope_len_bytes(&self.rope)
    }

    /// Whether there is no text.
    pub fn is_empty(&self) -> (r: bool)
        ensures
            r == (self@.len() == 0),
    {
        self.len_bytes() == 0
    }

    /// The text between two boundaries.
    pub fn slice_range(&self, start: usize, end: usize) -> (r: String)
        requires
            start <= end,
            is_char_boundary(self@, start as int),
            is_char_boundary(self@, end as int),
        ensures
            encode_utf8(r@) == self@.subrange(start as int, end as int),
    {
        rope_byte_slice(&self.rope, start, end)
    }

    /// The byte at an offset.
    pub fn byte_at(&self, offset: usize) -> (r: Option<u8>)
        ensures
            r == if offset < self@.len() {
                Some(self@[offset as int])
            } else {
                None
            },
    {
        if offset >= self.len_bytes() {
            return None;
        }
        let (chunk, start) = self.chunk_containing(offset);
        let bytes = chunk.as_bytes();
        let at: usize = offset - start;
        assert(bytes@[at as int] == self@.subrange(start as int, start + bytes@.len())[at as int]);
        Some(bytes[at])
    }

    /// The chunk of the text that holds the byte at an offset, and where it
    /// starts.
    pub fn chunk_containing(&self, offset: usize) -> (r: (&str, usize))
        requires
            offset < self@.len(),
        ensures
            is_chunk(self@, encode_utf8(r.0@), r.1 as int),
            r.1 <= offset < r.1 + encode_utf8(r.0@).len(),
    {
        let index: usize = rope_byte_to_char(&self.rope, offset);
        let (chunk, start, first) = rope_chunk_at_char(&self.rope, index);
        proof {
            let chars = self.chars();
            let last = first as int + chunk@.len();
            assert(index < chars.len());
            lemma_prefix_lengths(chars, first as int, last);
            lemma_prefix_lengths(chars, first as int, index as int);
            lemma_prefix_lengths(chars, index as int + 1, last);
            assert(self@ == encode_utf8(chars.take(last)) + encode_utf8(chars.skip(last)));
            assert(encode_utf8(chunk@) =~= self@.subrange(
                start as int,
                start + encode_utf8(chunk@).len(),
            ));
        }
        (chunk, start)
    }

    /// The text.
    pub fn rope(&self) -> (r: &ropey::Rope)
        ensures
            rope_bytes(*r) == self@,
    {
        &self.rope
    }
}

} // verus!
