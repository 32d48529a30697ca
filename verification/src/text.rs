//! Document text: ropes measured in bytes and in characters.
//!
//! A rope is described by the characters it holds. Byte offsets into it are
//! offsets into the UTF-8 encoding of those characters.

use vstd::prelude::*;
use vstd::utf8::*;

verus! {

#[verifier::external_type_specification]
#[verifier::external_body]
pub struct ExRope(ropey::Rope);

/// The characters that a rope holds, in order.
pub uninterp spec fn rope_chars(rope: ropey::Rope) -> Seq<char>;

/// The UTF-8 bytes that a rope holds.
pub open spec fn rope_bytes(rope: ropey::Rope) -> Seq<u8> {
    encode_utf8(rope_chars(rope))
}

/// `index` is the character that byte `at` of the encoding of `chars` belongs
/// to, or one past the last character where `at` is one past the last byte.
pub open spec fn char_holding_byte(chars: Seq<char>, at: int, index: int) -> bool {
    &&& 0 <= index <= chars.len()
    &&& encode_utf8(chars.take(index)).len() <= at
    &&& if index == chars.len() {
        at == encode_utf8(chars).len()
    } else {
        at < encode_utf8(chars.take(index + 1)).len()
    }
}

/// `ropey::Rope::new`: a rope without text.
#[verifier::external_body]
pub(crate) fn rope_new() -> (r: ropey::Rope)
    ensures
        rope_chars(r) == Seq::<char>::empty(),
{
    ropey::Rope::new()
}

/// `ropey::Rope`'s `Clone`: a rope with the same text.
#[verifier::external_body]
pub(crate) fn rope_clone(rope: &ropey::Rope) -> (r: ropey::Rope)
    ensures
        rope_chars(r) == rope_chars(*rope),
{
    rope.clone()
}

/// `ropey::Rope::len_bytes`: the number of UTF-8 bytes.
#[verifier::external_body]
pub(crate) fn rope_len_bytes(rope: &ropey::Rope) -> (r: usize)
    ensures
        r == rope_bytes(*rope).len(),
{
    rope.len_bytes()
}

/// `ropey::Rope::byte_to_char`: the character that a byte belongs to. It
/// panics past the end, which `requires` rules out.
#[verifier::external_body]
pub(crate) fn rope_byte_to_char(rope: &ropey::Rope, at: usize) -> (r: usize)
    requires
        at <= rope_bytes(*rope).len(),
    ensures
        char_holding_byte(rope_chars(*rope), at as int, r as int),
{
    rope.byte_to_char(at)
}

/// `ropey::Rope::char_to_byte`: the byte at which a character starts. It
/// panics past the end, which `requires` rules out.
#[verifier::external_body]
pub(crate) fn rope_char_to_byte(rope: &ropey::Rope, index: usize) -> (r: usize)
    requires
        index <= rope_chars(*rope).len(),
    ensures
        r == encode_utf8(rope_chars(*rope).take(index as int)).len(),
{
    rope.char_to_byte(index)
}

/// `ropey::Rope::remove`: the characters of a range are taken out. It panics
/// on a range that is reversed or past the end, which `requires` rules out.
#[verifier::external_body]
pub(crate) fn rope_remove(rope: &mut ropey::Rope, start: usize, end: usize)
    requires
        start <= end <= rope_chars(*old(rope)).len(),
    ensures
        rope_chars(*final(rope)) == rope_chars(*old(rope)).take(start as int) + rope_chars(
            *old(rope),
        ).skip(end as int),
{
    rope.remove(start..end)
}

/// `ropey::Rope::insert`: the text is put in before a character. It panics
/// past the end, which `requires` rules out.
#[verifier::external_body]
pub(crate) fn rope_insert(rope: &mut ropey::Rope, index: usize, text: &str)
    requires
        index <= rope_chars(*old(rope)).len(),
    ensures
        rope_chars(*final(rope)) == rope_chars(*old(rope)).take(index as int) + text@
            + rope_chars(*old(rope)).skip(index as int),
{
    rope.insert(index, text)
}

/// `ropey::Rope::slice` with `to_string`: the characters of a range. It panics
/// on a range that is reversed or past the end, which `requires` rules out.
#[verifier::external_body]
pub(crate) fn rope_slice(rope: &ropey::Rope, start: usize, end: usize) -> (r: String)
    requires
        start <= end <= rope_chars(*rope).len(),
    ensures
        r@ == rope_chars(*rope).subrange(start as int, end as int),
{
    rope.slice(start..end).to_string()
}

/// `ropey::Rope::chunk_at_char`: the chunk that holds a character, with the
/// byte and the character at which the chunk starts. It panics past the end;
/// for the place one past the last character it gives the last chunk, which
/// `requires` leaves out.
#[verifier::external_body]
pub(crate) fn rope_chunk_at_char(rope: &ropey::Rope, index: usize) -> (r: (&str, usize, usize))
    requires
        index < rope_chars(*rope).len(),
    ensures
        r.2 <= index < r.2 + r.0@.len() <= rope_chars(*rope).len(),
        r.0@ == rope_chars(*rope).subrange(r.2 as int, r.2 + r.0@.len()),
        r.1 == encode_utf8(rope_chars(*rope).take(r.2 as int)).len(),
{
    let (chunk, byte, first, _) = rope.chunk_at_char(index);
    (chunk, byte, first)
}

/// `ropey::Rope`'s `PartialEq`: two ropes are equal where their texts are.
#[verifier::external_body]
pub(crate) fn rope_eq(a: &ropey::Rope, b: &ropey::Rope) -> (r: bool)
    ensures
        r == (rope_chars(*a) == rope_chars(*b)),
{
    a == b
}

/// `ropey::Rope`'s `Display` through `to_string`: all of its characters.
#[verifier::external_body]
pub(crate) fn rope_to_string(rope: &ropey::Rope) -> (r: String)
    ensures
        r@ == rope_chars(*rope),
{
    rope.to_string()
}

/// The encoding of a concatenation is the concatenation of the encodings.
pub proof fn lemma_encode_concat(a: Seq<char>, b: Seq<char>)
    ensures
        encode_utf8(a + b) == encode_utf8(a) + encode_utf8(b),
    decreases a.len(),
{
    if a.len() == 0 {
        assert(a + b =~= b);
        assert(encode_utf8(a) =~= Seq::<u8>::empty());
        assert(encode_utf8(a) + encode_utf8(b) =~= encode_utf8(b));
    } else {
        lemma_encode_concat(a.drop_first(), b);
        assert((a + b).drop_first() =~= a.drop_first() + b);
        assert((a + b)[0] == a[0]);
        assert(encode_utf8(a + b) =~= encode_utf8(a) + encode_utf8(b));
    }
}

/// Every character takes at least one byte, so longer prefixes encode longer.
pub proof fn lemma_prefix_lengths(chars: Seq<char>, i: int, j: int)
    requires
        0 <= i <= j <= chars.len(),
    ensures
        encode_utf8(chars.take(i)).len() + (j - i) <= encode_utf8(chars.take(j)).len(),
        encode_utf8(chars.take(j)) == encode_utf8(chars.take(i)) + encode_utf8(
            chars.subrange(i, j),
        ),
        encode_utf8(chars) == encode_utf8(chars.take(j)) + encode_utf8(chars.skip(j)),
    decreases j - i,
{
    assert(chars.take(j) =~= chars.take(i) + chars.subrange(i, j));
    lemma_encode_concat(chars.take(i), chars.subrange(i, j));
    assert(chars =~= chars.take(j) + chars.skip(j));
    lemma_encode_concat(chars.take(j), chars.skip(j));
    if i < j {
        lemma_prefix_lengths(chars, i, j - 1);
        let last = seq![chars[j - 1]];
        assert(chars.take(j) =~= chars.take(j - 1) + last);
        lemma_encode_concat(chars.take(j - 1), last);
        encode_utf8_first_scalar(last);
        assert(encode_utf8(last).len() >= 1);
    }
}

/// The byte at which a character starts is a character boundary.
pub proof fn lemma_boundary_at_char(chars: Seq<char>, index: int)
    requires
        0 <= index <= chars.len(),
    ensures
        is_char_boundary(encode_utf8(chars), encode_utf8(chars.take(index)).len() as int),
    decreases index,
{
    encode_utf8_valid_utf8(chars);
    if index == 0 {
        assert(chars.take(0) =~= Seq::<char>::empty());
    } else {
        let rest = chars.drop_first();
        lemma_boundary_at_char(rest, index - 1);
        encode_utf8_first_scalar(chars);
        assert(pop_first_scalar(encode_utf8(chars)) =~= encode_utf8(rest));
        assert(chars.take(index).drop_first() =~= rest.take(index - 1));
        assert(chars.take(index)[0] == chars[0]);
        assert(encode_utf8(chars.take(index)).len() == encode_scalar(chars[0] as u32).len()
            + encode_utf8(rest.take(index - 1)).len());
        lemma_prefix_lengths(chars, index, chars.len() as int);
        assert(chars.take(chars.len() as int) =~= chars);
    }
}

/// Every character boundary is the byte at which some character starts.
pub proof fn lemma_char_at_boundary(chars: Seq<char>, at: int) -> (index: int)
    requires
        is_char_boundary(encode_utf8(chars), at),
    ensures
        0 <= index <= chars.len(),
        encode_utf8(chars.take(index)).len() == at,
    decreases chars.len(),
{
    encode_utf8_valid_utf8(chars);
    if at == 0 {
        assert(chars.take(0) =~= Seq::<char>::empty());
        0
    } else {
        assert(chars.len() > 0);
        let rest = chars.drop_first();
        encode_utf8_first_scalar(chars);
        assert(pop_first_scalar(encode_utf8(chars)) =~= encode_utf8(rest));
        let width = encode_scalar(chars[0] as u32).len() as int;
        let index = lemma_char_at_boundary(rest, at - width);
        assert(chars.take(index + 1).drop_first() =~= rest.take(index));
        assert(chars.take(index + 1)[0] == chars[0]);
        index + 1
    }
}

/// Texts that share a prefix share the boundaries inside it.
pub proof fn lemma_shared_prefix_boundary(a: Seq<char>, b: Seq<char>, shared: int, at: int)
    requires
        0 <= shared <= a.len(),
        shared <= b.len(),
        a.take(shared) == b.take(shared),
        0 <= at <= encode_utf8(a.take(shared)).len(),
    ensures
        is_char_boundary(encode_utf8(a), at) ==> is_char_boundary(encode_utf8(b), at),
{
    if is_char_boundary(encode_utf8(a), at) {
        let index = lemma_char_at_boundary(a, at);
        if index > shared {
            lemma_prefix_lengths(a, shared, index);
        }
        assert(a.take(index) =~= a.take(shared).take(index));
        assert(b.take(index) =~= b.take(shared).take(index));
        lemma_boundary_at_char(b, index);
    }
}

/// True where `offset` is a UTF-8 boundary of the rope's text.
pub fn is_rope_char_boundary(source: &ropey::Rope, offset: usize) -> (r: bool)
    ensures
        r == is_char_boundary(rope_bytes(*source), offset as int),
{
    proof {
        encode_utf8_valid_utf8(rope_chars(*source));
    }
    if offset > rope_len_bytes(source) {
        return false;
    }
    let index: usize = rope_byte_to_char(source, offset);
    let start: usize = rope_char_to_byte(source, index);
    proof {
        let chars = rope_chars(*source);
        if start == offset {
            lemma_boundary_at_char(chars, index as int);
        } else if is_char_boundary(rope_bytes(*source), offset as int) {
            let other = lemma_char_at_boundary(chars, offset as int);
            if other <= index {
                lemma_prefix_lengths(chars, other, index as int);
            } else {
                lemma_prefix_lengths(chars, index as int + 1, other);
            }
            assert(chars.take(chars.len() as int) =~= chars);
        }
    }
    start == offset
}

/// The character that starts at the boundary `offset`.
fn rope_char_at(source: &ropey::Rope, offset: usize) -> (index: usize)
    requires
        is_char_boundary(rope_bytes(*source), offset as int),
    ensures
        index <= rope_chars(*source).len(),
        encode_utf8(rope_chars(*source).take(index as int)).len() == offset,
        encode_utf8(rope_chars(*source).take(index as int)) == rope_bytes(*source).take(
            offset as int,
        ),
        encode_utf8(rope_chars(*source).skip(index as int)) == rope_bytes(*source).skip(
            offset as int,
        ),
{
    proof {
        encode_utf8_valid_utf8(rope_chars(*source));
        let other = lemma_char_at_boundary(rope_chars(*source), offset as int);
        lemma_prefix_lengths(rope_chars(*source), other, rope_chars(*source).len() as int);
        assert(rope_chars(*source).take(rope_chars(*source).len() as int) =~= rope_chars(*source));
    }
    let index: usize = rope_byte_to_char(source, offset);
    proof {
        let chars = rope_chars(*source);
        let other = lemma_char_at_boundary(chars, offset as int);
        if other <= index {
            lemma_prefix_lengths(chars, other, index as int);
        } else {
            lemma_prefix_lengths(chars, index as int + 1, other);
        }
        assert(chars.take(chars.len() as int) =~= chars);
        lemma_prefix_lengths(chars, 0, index as int);
        assert(rope_bytes(*source).take(offset as int) =~= encode_utf8(chars.take(index as int)));
        assert(rope_bytes(*source).skip(offset as int) =~= encode_utf8(chars.skip(index as int)));
    }
    index
}

/// The text between two byte boundaries.
pub fn rope_byte_slice(source: &ropey::Rope, start: usize, end: usize) -> (r: String)
    requires
        start <= end,
        is_char_boundary(rope_bytes(*source), start as int),
        is_char_boundary(rope_bytes(*source), end as int),
    ensures
        encode_utf8(r@) == rope_bytes(*source).subrange(start as int, end as int),
{
    let first: usize = rope_char_at(source, start);
    let last: usize = rope_char_at(source, end);
    proof {
        let chars = rope_chars(*source);
        if last < first {
            lemma_prefix_lengths(chars, last as int, first as int);
        }
        lemma_prefix_lengths(chars, first as int, last as int);
        let bytes = rope_bytes(*source);
        assert(bytes.take(end as int) =~= bytes.take(start as int) + bytes.subrange(
            start as int,
            end as int,
        ));
        lemma_prefix_lengths(chars, last as int, chars.len() as int);
        assert(chars.take(chars.len() as int) =~= chars);
        assert(encode_utf8(chars.subrange(first as int, last as int)) =~= bytes.subrange(
            start as int,
            end as int,
        ));
    }
    rope_slice(source, first, last)
}

/// Replaces the bytes between two boundaries with `text`.
pub fn rope_replace(source: &mut ropey::Rope, start: usize, end: usize, text: &str)
    requires
        start <= end,
        is_char_boundary(rope_bytes(*old(source)), start as int),
        is_char_boundary(rope_bytes(*old(source)), end as int),
    ensures
        rope_bytes(*final(source)) == rope_bytes(*old(source)).take(start as int) + encode_utf8(
            text@,
        ) + rope_bytes(*old(source)).skip(end as int),
        forall|at: int|
            0 <= at <= start ==> #[trigger] is_char_boundary(rope_bytes(*final(source)), at)
                == is_char_boundary(rope_bytes(*old(source)), at),
{
    let ghost before = rope_chars(*source);
    let ghost bytes = rope_bytes(*source);
    let first: usize = rope_char_at(source, start);
    let last: usize = rope_char_at(source, end);
    proof {
        if last < first {
            lemma_prefix_lengths(before, last as int, first as int);
        }
    }
    rope_remove(source, first, last);
    if !text.is_empty() {
        rope_insert(source, first, text);
    }
    proof {
        let head = before.take(first as int);
        let tail = before.skip(last as int);
        assert((head + tail).take(first as int) =~= head);
        assert((head + tail).skip(first as int) =~= tail);
        assert(head + text@ + tail =~= rope_chars(*source));
        assert(rope_chars(*source).take(first as int) =~= head);
        lemma_encode_concat(head + text@, tail);
        lemma_encode_concat(head, text@);
        assert forall|at: int| 0 <= at <= start implies #[trigger] is_char_boundary(
            rope_bytes(*source),
            at,
        ) == is_char_boundary(bytes, at) by {
            lemma_shared_prefix_boundary(before, rope_chars(*source), first as int, at);
            lemma_shared_prefix_boundary(rope_chars(*source), before, first as int, at);
        }
    }
}

} // verus!
