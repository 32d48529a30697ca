//! The commands by which source documents are edited and loaded.

use std::ops::Range;
use vstd::prelude::*;
use vstd::string::*;
use vstd::utf8::*;

use crate::framework::source::{
    in_order, in_place, lemma_in_order_push, lemma_spliced_len, lemma_spliced_prefix, shift_after,
    spliced, SourceEdit, TextSplice,
};
use crate::text::lemma_encode_concat;

verus! {

/// One exact replacement between the text before a command and the text
/// after it, with the text that went and the text that came.
#[derive(Debug)]
pub struct SourceSplice {
    pub old_range: Range<usize>,
    pub new_range: Range<usize>,
    pub removed: String,
    pub inserted: String,
}

/// The exact sparse delta that produced the current text of a document.
#[derive(Debug)]
pub struct SourceDelta {
    pub splices: Vec<SourceSplice>,
}

/// Why a batch of edits was refused.
#[derive(Debug, Clone, Copy, PartialEq, Eq, Structural)]
pub enum EditRefusal {
    /// The edits of one batch name different documents.
    MixedDocuments,
    /// The edit names another document than the one it was given to.
    OtherDocument,
    /// An offset beyond the end of the text.
    PastEnd { offset: usize, length: usize },
    /// An offset inside a character.
    OffBoundary { offset: usize },
    /// A deletion that ends before it starts.
    Reversed,
}

/// A byte of an edited text, and where the text before had it. A byte that an
/// edit put in has no origin.
pub ghost struct Cell {
    pub byte: u8,
    pub origin: Option<int>,
}

/// The cells of a text that was not edited.
pub open spec fn kept_cells(bytes: Seq<u8>, start: int, end: int) -> Seq<Cell> {
    Seq::new(
        (end - start) as nat,
        |k: int| Cell { byte: bytes[start + k], origin: Some(start + k) },
    )
}

/// The cells of a text that was put in.
pub open spec fn fresh_cells(bytes: Seq<u8>) -> Seq<Cell> {
    Seq::new(bytes.len(), |k: int| Cell { byte: bytes[k], origin: None })
}

/// The bytes of an edited text.
pub open spec fn cell_bytes(cells: Seq<Cell>) -> Seq<u8> {
    Seq::new(cells.len(), |k: int| cells[k].byte)
}

/// Why an offset into a text is refused.
pub open spec fn offset_refusal(bytes: Seq<u8>, offset: usize) -> Option<EditRefusal> {
    if offset > bytes.len() {
        Some(EditRefusal::PastEnd { offset, length: bytes.len() as usize })
    } else if !is_char_boundary(bytes, offset as int) {
        Some(EditRefusal::OffBoundary { offset })
    } else {
        None
    }
}

/// Why an edit of a text is refused.
pub open spec fn edit_refusal(bytes: Seq<u8>, edit: SourceEdit) -> Option<EditRefusal> {
    match edit {
        SourceEdit::Insert { key, .. } => offset_refusal(bytes, key.range.start),
        SourceEdit::Delete { key } => if offset_refusal(bytes, key.range.start) is Some {
            offset_refusal(bytes, key.range.start)
        } else if offset_refusal(bytes, key.range.end) is Some {
            offset_refusal(bytes, key.range.end)
        } else if key.range.end < key.range.start {
            Some(EditRefusal::Reversed)
        } else {
            None
        },
    }
}

/// The cells of a text once an edit was made.
pub open spec fn edited_cells(cells: Seq<Cell>, edit: SourceEdit) -> Seq<Cell> {
    cells.take(edit.at()) + fresh_cells(encode_utf8(edit.text())) + cells.skip(edit.until())
}

/// The cells of a text once the edits were made one after the other, or why
/// the first bad one is refused.
pub open spec fn edited_all(cells: Seq<Cell>, edits: Seq<SourceEdit>) -> Result<
    Seq<Cell>,
    EditRefusal,
>
    decreases edits.len(),
{
    if edits.len() == 0 {
        Ok(cells)
    } else {
        match edited_all(cells, edits.drop_last()) {
            Err(refusal) => Err(refusal),
            Ok(before) => match edit_refusal(cell_bytes(before), edits.last()) {
                Some(refusal) => Err(refusal),
                None => Ok(edited_cells(before, edits.last())),
            },
        }
    }
}

/// The byte of the old text is still there.
pub open spec fn is_kept(cells: Seq<Cell>, at: int) -> bool {
    exists|p: int| 0 <= p < cells.len() && (#[trigger] cells[p]).origin == Some(at)
}

/// A splice takes the old byte out.
pub open spec fn in_old(list: Seq<TextSplice>, at: int) -> bool {
    exists|k: int| 0 <= k < list.len() && (#[trigger] list[k]).old_start <= at < list[k].old_end
}

/// A splice puts the new byte in.
pub open spec fn in_new(list: Seq<TextSplice>, at: int) -> bool {
    exists|k: int| 0 <= k < list.len() && (#[trigger] list[k]).new_start <= at < list[k].new_end
}

/// The splices are what happened to the old text: they lie in order with text
/// between them that stayed, none is idle, they lead from the old text to the
/// new one, they take out exactly the bytes that are gone and put in exactly
/// those that came.
pub open spec fn describes(old_bytes: Seq<u8>, cells: Seq<Cell>, list: Seq<TextSplice>) -> bool {
    &&& in_order(list, old_bytes.len() as int)
    &&& spliced(old_bytes, list) == cell_bytes(cells)
    &&& forall|k: int|
        0 <= k < list.len() ==> (#[trigger] list[k]).old_start < list[k].old_end
            || list[k].new_start < list[k].new_end
    &&& forall|k: int, m: int|
        0 <= k < m < list.len() ==> (#[trigger] list[k]).old_end < (#[trigger] list[m]).old_start
    &&& forall|p: int|
        0 <= p < cells.len() ==> ((#[trigger] cells[p]).origin is None <==> in_new(list, p))
    &&& forall|at: int|
        0 <= at < old_bytes.len() ==> (#[trigger] is_kept(cells, at) <==> !in_old(list, at))
    &&& forall|p: int|
        0 <= p < cells.len() && (#[trigger] cells[p]).origin is Some ==> 0
            <= cells[p].origin->Some_0 < old_bytes.len()
}

impl SourceSplice {
    /// The splice as positions and text.
    pub open spec fn as_text(self) -> TextSplice {
        TextSplice {
            old_start: self.old_range.start as int,
            old_end: self.old_range.end as int,
            new_start: self.new_range.start as int,
            new_end: self.new_range.end as int,
            text: self.inserted@,
        }
    }
}

/// The splices of a delta as positions and texts.
pub open spec fn splice_texts(splices: Seq<SourceSplice>) -> Seq<TextSplice> {
    Seq::new(splices.len(), |k: int| splices[k].as_text())
}

/// Every splice carries the old text that it takes out.
pub open spec fn removed_texts(old_bytes: Seq<u8>, splices: Seq<SourceSplice>) -> bool {
    forall|k: int|
        0 <= k < splices.len() ==> encode_utf8((#[trigger] splices[k]).removed@)
            == old_bytes.subrange(
            splices[k].old_range.start as int,
            splices[k].old_range.end as int,
        )
}

// ---------------------------------------------------------------------------
// Pieces

/// A part of an edited text: a range of the old text, or text that was put
/// in.
#[derive(Debug)]
pub enum Piece {
    Original { start: usize, end: usize },
    Inserted(String),
}

/// The cells of one piece.
pub open spec fn piece_cells(old_bytes: Seq<u8>, piece: Piece) -> Seq<Cell> {
    match piece {
        Piece::Original { start, end } => kept_cells(old_bytes, start as int, end as int),
        Piece::Inserted(text) => fresh_cells(encode_utf8(text@)),
    }
}

/// The cells of the pieces, one after the other.
pub open spec fn all_cells(old_bytes: Seq<u8>, pieces: Seq<Piece>) -> Seq<Cell>
    decreases pieces.len(),
{
    if pieces.len() == 0 {
        Seq::empty()
    } else {
        all_cells(old_bytes, pieces.drop_last()) + piece_cells(old_bytes, pieces.last())
    }
}

/// A piece is not empty, and one of the old text lies on its boundaries.
pub open spec fn piece_stands(old_bytes: Seq<u8>, piece: Piece) -> bool {
    match piece {
        Piece::Original { start, end } => start < end <= old_bytes.len() && is_char_boundary(
            old_bytes,
            start as int,
        ) && is_char_boundary(old_bytes, end as int),
        Piece::Inserted(text) => encode_utf8(text@).len() > 0,
    }
}

/// The pieces stand, and those of the old text are in its order.
pub open spec fn pieces_stand(old_bytes: Seq<u8>, pieces: Seq<Piece>) -> bool {
    &&& forall|i: int| 0 <= i < pieces.len() ==> piece_stands(old_bytes, #[trigger] pieces[i])
    &&& forall|i: int, j: int|
        0 <= i < j < pieces.len() && (#[trigger] pieces[i]) is Original && (
        #[trigger] pieces[j]) is Original ==> pieces[i]->Original_end <= pieces[j]->Original_start
}

proof fn lemma_all_cells_push(old_bytes: Seq<u8>, pieces: Seq<Piece>, piece: Piece)
    ensures
        all_cells(old_bytes, pieces.push(piece)) == all_cells(old_bytes, pieces) + piece_cells(
            old_bytes,
            piece,
        ),
{
    assert(pieces.push(piece).drop_last() =~= pieces);
}

proof fn lemma_all_cells_join(old_bytes: Seq<u8>, a: Seq<Piece>, b: Seq<Piece>)
    ensures
        all_cells(old_bytes, a + b) == all_cells(old_bytes, a) + all_cells(old_bytes, b),
    decreases b.len(),
{
    if b.len() == 0 {
        assert(a + b =~= a);
        assert(all_cells(old_bytes, a) + all_cells(old_bytes, b) =~= all_cells(old_bytes, a));
    } else {
        lemma_all_cells_join(old_bytes, a, b.drop_last());
        assert((a + b).drop_last() =~= a + b.drop_last());
        assert(all_cells(old_bytes, a) + all_cells(old_bytes, b.drop_last()) + piece_cells(
            old_bytes,
            b.last(),
        ) =~= all_cells(old_bytes, a) + (all_cells(old_bytes, b.drop_last()) + piece_cells(
            old_bytes,
            b.last(),
        )));
    }
}

impl Piece {
    /// How many bytes the piece has.
    fn len(&self) -> (r: usize)
        requires
            self matches Piece::Original { start, end } ==> *start <= *end,
        ensures
            r == piece_len(*self),
    {
        match self {
            Piece::Original { start, end } => *end - *start,
            Piece::Inserted(text) => text.as_str().as_bytes().len(),
        }
    }

    fn copied(&self) -> (r: Self)
        ensures
            r == *self,
    {
        match self {
            Piece::Original { start, end } => Piece::Original { start: *start, end: *end },
            Piece::Inserted(text) => Piece::Inserted(text.clone()),
        }
    }
}

/// A place inside a piece is a boundary of the text that the piece is of
/// where it is one of the whole text.
proof fn lemma_boundary_inside(whole: Seq<u8>, part: Seq<u8>, shift: int, at: int)
    requires
        valid_utf8(whole),
        valid_utf8(part),
        0 < at < part.len(),
        0 <= shift + at < whole.len(),
        whole[shift + at] == part[at],
        0 < shift + at,
        is_char_boundary(whole, shift + at),
    ensures
        is_char_boundary(part, at),
{
    is_char_boundary_iff_not_is_continuation_byte(whole, shift + at);
    is_char_boundary_iff_not_is_continuation_byte(part, at);
}

/// How many bytes a piece has.
pub open spec fn piece_len(piece: Piece) -> int {
    match piece {
        Piece::Original { start, end } => end - start,
        Piece::Inserted(text) => encode_utf8(text@).len() as int,
    }
}

/// How many bytes pieces have.
pub open spec fn pieces_len(pieces: Seq<Piece>) -> int
    decreases pieces.len(),
{
    if pieces.len() == 0 {
        0
    } else {
        pieces_len(pieces.drop_last()) + piece_len(pieces.last())
    }
}

/// No piece of the old text ends before it starts.
pub open spec fn pieces_run_on(pieces: Seq<Piece>) -> bool {
    forall|i: int|
        0 <= i < pieces.len() && (#[trigger] pieces[i]) is Original ==> pieces[i]->Original_start
            <= pieces[i]->Original_end
}

/// Why pieces cannot be cut.
#[derive(Debug, Clone, Copy, PartialEq, Eq, Structural)]
pub enum SplitRefusal {
    /// The place is behind the last piece.
    PastEnd,
    /// The place is inside a character that was put in.
    InsideCharacter,
}

/// A place is strictly inside a piece.
pub open spec fn is_inside(pieces: Seq<Piece>, k: int, offset: int) -> bool {
    &&& 0 <= k < pieces.len()
    &&& 0 < offset - pieces_len(pieces.take(k)) < piece_len(pieces[k])
}

/// A place is inside a character of a piece that was put in.
pub open spec fn is_inside_character(pieces: Seq<Piece>, k: int, offset: int) -> bool {
    &&& is_inside(pieces, k, offset)
    &&& pieces[k] is Inserted
    &&& !is_char_boundary(
        encode_utf8(pieces[k]->Inserted_0@),
        offset - pieces_len(pieces.take(k)),
    )
}

/// Why pieces cannot be cut at a place.
pub open spec fn split_refusal(pieces: Seq<Piece>, offset: int) -> Option<SplitRefusal> {
    if offset > pieces_len(pieces) {
        Some(SplitRefusal::PastEnd)
    } else if exists|k: int| is_inside_character(pieces, k, offset) {
        Some(SplitRefusal::InsideCharacter)
    } else {
        None
    }
}

/// A piece was cut in two.
pub open spec fn cut_in_two(piece: Piece, local: int, first: Piece, second: Piece) -> bool {
    match piece {
        Piece::Original { start, end } => {
            &&& first == Piece::Original { start, end: (start + local) as usize }
            &&& second == Piece::Original { start: (start + local) as usize, end }
        },
        Piece::Inserted(text) => {
            &&& first matches Piece::Inserted(head)
            &&& second matches Piece::Inserted(tail)
            &&& encode_utf8(head@) == encode_utf8(text@).take(local)
            &&& encode_utf8(tail@) == encode_utf8(text@).skip(local)
        },
    }
}

/// Pieces were cut at a place: no piece changes, or the one around the place is
/// cut in two.
pub open spec fn split_into(before: Seq<Piece>, offset: int, after: Seq<Piece>, index: int) -> bool {
    &&& 0 <= index <= after.len()
    &&& pieces_len(after.take(index)) == offset
    &&& {
        ||| after == before
        ||| {
            &&& is_inside(before, index - 1, offset)
            &&& after.len() == before.len() + 1
            &&& after == before.update(index - 1, after[index - 1]).insert(index, after[index])
            &&& cut_in_two(
                before[index - 1],
                offset - pieces_len(before.take(index - 1)),
                after[index - 1],
                after[index],
            )
        }
    }
}

proof fn lemma_pieces_len_step(pieces: Seq<Piece>, i: int)
    requires
        0 <= i < pieces.len(),
    ensures
        pieces_len(pieces.take(i + 1)) == pieces_len(pieces.take(i)) + piece_len(pieces[i]),
{
    assert(pieces.take(i + 1).drop_last() =~= pieces.take(i));
}

proof fn lemma_pieces_len_grows(pieces: Seq<Piece>, a: int, b: int)
    requires
        pieces_run_on(pieces),
        0 <= a <= b <= pieces.len(),
    ensures
        pieces_len(pieces.take(a)) <= pieces_len(pieces.take(b)),
    decreases b - a,
{
    if a < b {
        lemma_pieces_len_step(pieces, b - 1);
        lemma_pieces_len_grows(pieces, a, b - 1);
    }
}

/// At most one piece is around a place.
proof fn lemma_inside_once(pieces: Seq<Piece>, a: int, b: int, offset: int)
    requires
        pieces_run_on(pieces),
        is_inside(pieces, a, offset),
        is_inside(pieces, b, offset),
    ensures
        a == b,
{
    lemma_pieces_len_step(pieces, a);
    lemma_pieces_len_step(pieces, b);
    if a < b {
        lemma_pieces_len_grows(pieces, a + 1, b);
    } else if b < a {
        lemma_pieces_len_grows(pieces, b + 1, a);
    }
}

/// A place between two pieces is inside none.
proof fn lemma_between(pieces: Seq<Piece>, index: int)
    requires
        pieces_run_on(pieces),
        0 <= index <= pieces.len(),
    ensures
        pieces_len(pieces.take(index)) <= pieces_len(pieces),
        forall|k: int| !is_inside(pieces, k, pieces_len(pieces.take(index))),
{
    assert(pieces.take(pieces.len() as int) =~= pieces);
    lemma_pieces_len_grows(pieces, index, pieces.len() as int);
    assert forall|k: int| !is_inside(pieces, k, pieces_len(pieces.take(index))) by {
        if 0 <= k < pieces.len() {
            lemma_pieces_len_step(pieces, k);
            if k < index {
                lemma_pieces_len_grows(pieces, k + 1, index);
            } else {
                lemma_pieces_len_grows(pieces, index, k);
            }
        }
    }
}

/// Cuts pieces at a place, and tells how many lie before it. Where they cannot
/// be cut there, they stay as they are.
pub fn split_piece_at(pieces: &mut Vec<Piece>, offset: usize) -> (r: Result<usize, SplitRefusal>)
    requires
        pieces_run_on(old(pieces)@),
    ensures
        match r {
            Ok(index) => split_refusal(old(pieces)@, offset as int) is None && split_into(
                old(pieces)@,
                offset as int,
                final(pieces)@,
                index as int,
            ),
            Err(refusal) => split_refusal(old(pieces)@, offset as int) == Some(refusal)
                && final(pieces)@ == old(pieces)@,
        },
{
    let ghost v = pieces@;
    let mut rest: usize = offset;
    let mut index: usize = 0;
    assert(v.take(0) =~= Seq::empty());
    while index < pieces.len()
        invariant
            pieces@ == v,
            v == old(pieces)@,
            pieces_run_on(v),
            index <= v.len(),
            rest + pieces_len(v.take(index as int)) == offset,
        decreases v.len() - index,
    {
        if rest == 0 {
            proof {
                lemma_between(v, index as int);
            }
            return Ok(index);
        }
        let len = pieces[index].len();
        proof {
            lemma_pieces_len_step(v, index as int);
        }
        if rest < len {
            proof {
                assert(is_inside(v, index as int, offset as int));
                assert forall|k: int| is_inside_character(v, k, offset as int) implies k
                    == index by {
                    lemma_inside_once(v, k, index as int, offset as int);
                }
                assert(v.take(v.len() as int) =~= v);
                lemma_pieces_len_grows(v, index + 1, v.len() as int);
            }
            let (first, second) = match &pieces[index] {
                Piece::Original { start, end } => (
                    Piece::Original { start: *start, end: *start + rest },
                    Piece::Original { start: *start + rest, end: *end },
                ),
                Piece::Inserted(text) => {
                    if !text.as_str().is_char_boundary(rest) {
                        assert(is_inside_character(v, index as int, offset as int));
                        return Err(SplitRefusal::InsideCharacter);
                    }
                    let (head, tail) = text.as_str().split_at(rest);
                    (Piece::Inserted(head.to_owned()), Piece::Inserted(tail.to_owned()))
                },
            };
            pieces.set(index, first);
            pieces.insert(index + 1, second);
            proof {
                let w = pieces@;
                assert(cut_in_two(v[index as int], rest as int, first, second));
                assert(w.take(index + 1).drop_last() =~= v.take(index as int));
                assert(w.take(index + 1).last() == first);
                assert(split_into(v, offset as int, w, index + 1));
            }
            return Ok(index + 1);
        }
        rest = rest - len;
        index += 1;
    }
    proof {
        assert(v.take(index as int) =~= v);
        lemma_between(v, index as int);
    }
    if rest == 0 {
        Ok(index)
    } else {
        Err(SplitRefusal::PastEnd)
    }
}

proof fn lemma_cell_bytes_take(cells: Seq<Cell>, n: int)
    requires
        0 <= n <= cells.len(),
    ensures
        cell_bytes(cells.take(n)) == cell_bytes(cells).take(n),
        cell_bytes(cells.skip(n)) == cell_bytes(cells).skip(n),
{
    assert(cell_bytes(cells.take(n)) =~= cell_bytes(cells).take(n));
    assert(cell_bytes(cells.skip(n)) =~= cell_bytes(cells).skip(n));
}

proof fn lemma_pieces_cells(old_bytes: Seq<u8>, pieces: Seq<Piece>)
    requires
        pieces_run_on(pieces),
    ensures
        all_cells(old_bytes, pieces).len() == pieces_len(pieces),
    decreases pieces.len(),
{
    if pieces.len() > 0 {
        let rest = pieces.drop_last();
        assert forall|i: int| 0 <= i < rest.len() && (#[trigger] rest[i]) is Original implies rest[i]->Original_start
            <= rest[i]->Original_end by {
            assert(rest[i] == pieces[i]);
        }
        lemma_pieces_cells(old_bytes, rest);
        assert(pieces[pieces.len() - 1] == pieces.last());
    }
}

/// The cells before a piece and those of the pieces up to it are the first ones.
proof fn lemma_cells_take(old_bytes: Seq<u8>, pieces: Seq<Piece>, i: int)
    requires
        pieces_run_on(pieces),
        0 <= i <= pieces.len(),
    ensures
        all_cells(old_bytes, pieces.take(i)) == all_cells(old_bytes, pieces).take(
            pieces_len(pieces.take(i)),
        ),
        all_cells(old_bytes, pieces.skip(i)) == all_cells(old_bytes, pieces).skip(
            pieces_len(pieces.take(i)),
        ),
        0 <= pieces_len(pieces.take(i)) <= all_cells(old_bytes, pieces).len(),
{
    let front = pieces.take(i);
    assert forall|k: int| 0 <= k < front.len() && (#[trigger] front[k]) is Original implies front[k]->Original_start
        <= front[k]->Original_end by {
        assert(front[k] == pieces[k]);
    }
    lemma_pieces_cells(old_bytes, front);
    assert(pieces =~= front + pieces.skip(i));
    lemma_all_cells_join(old_bytes, front, pieces.skip(i));
    assert(all_cells(old_bytes, front) =~= all_cells(old_bytes, pieces).take(pieces_len(front)));
    assert(all_cells(old_bytes, pieces.skip(i)) =~= all_cells(old_bytes, pieces).skip(
        pieces_len(front),
    ));
}

/// A boundary of the whole text that is inside a piece is one of the text that
/// the piece is of.
proof fn lemma_inside_boundary(old_bytes: Seq<u8>, pieces: Seq<Piece>, k: int, offset: int)
    requires
        valid_utf8(old_bytes),
        pieces_stand(old_bytes, pieces),
        valid_utf8(cell_bytes(all_cells(old_bytes, pieces))),
        is_char_boundary(cell_bytes(all_cells(old_bytes, pieces)), offset),
        is_inside(pieces, k, offset),
    ensures
        ({
            let local = offset - pieces_len(pieces.take(k));
            match pieces[k] {
                Piece::Original { start, end } => is_char_boundary(old_bytes, start + local),
                Piece::Inserted(text) => is_char_boundary(encode_utf8(text@), local),
            }
        }),
{
    let whole = cell_bytes(all_cells(old_bytes, pieces));
    let at = pieces_len(pieces.take(k));
    let local = offset - at;
    lemma_cells_take(old_bytes, pieces, k);
    lemma_cells_take(old_bytes, pieces, k + 1);
    assert(piece_stands(old_bytes, pieces[k]));
    assert(pieces.take(k + 1) =~= pieces.take(k).push(pieces[k]));
    lemma_all_cells_push(old_bytes, pieces.take(k), pieces[k]);
    lemma_pieces_len_step(pieces, k);
    let upto = all_cells(old_bytes, pieces.take(k + 1));
    assert(upto[offset] == piece_cells(old_bytes, pieces[k])[local]);
    assert(upto[offset] == all_cells(old_bytes, pieces)[offset]);
    assert(whole[offset] == piece_cells(old_bytes, pieces[k])[local].byte);
    match pieces[k] {
        Piece::Original { start, end } => {
            lemma_boundary_inside(whole, old_bytes, at - start, start + local);
        },
        Piece::Inserted(text) => {
            encode_utf8_valid_utf8(text@);
            lemma_boundary_inside(whole, encode_utf8(text@), at, local);
        },
    }
}

/// Pieces can be cut at every boundary of their text.
proof fn lemma_boundary_splits(old_bytes: Seq<u8>, pieces: Seq<Piece>, offset: int)
    requires
        valid_utf8(old_bytes),
        pieces_stand(old_bytes, pieces),
        valid_utf8(cell_bytes(all_cells(old_bytes, pieces))),
        offset <= all_cells(old_bytes, pieces).len(),
        is_char_boundary(cell_bytes(all_cells(old_bytes, pieces)), offset),
    ensures
        pieces_run_on(pieces),
        split_refusal(pieces, offset) is None,
{
    lemma_pieces_cells(old_bytes, pieces);
    assert forall|k: int| !is_inside_character(pieces, k, offset) by {
        if is_inside_character(pieces, k, offset) {
            lemma_inside_boundary(old_bytes, pieces, k, offset);
        }
    }
}

/// Pieces that were cut at a boundary of their text stand, and hold the text
/// that they held.
proof fn lemma_split_stands(
    old_bytes: Seq<u8>,
    before: Seq<Piece>,
    offset: int,
    after: Seq<Piece>,
    index: int,
)
    requires
        valid_utf8(old_bytes),
        pieces_stand(old_bytes, before),
        valid_utf8(cell_bytes(all_cells(old_bytes, before))),
        offset <= all_cells(old_bytes, before).len(),
        is_char_boundary(cell_bytes(all_cells(old_bytes, before)), offset),
        split_into(before, offset, after, index),
    ensures
        pieces_stand(old_bytes, after),
        all_cells(old_bytes, after) == all_cells(old_bytes, before),
{
    if after != before {
        let k = index - 1;
        let local = offset - pieces_len(before.take(k));
        let first = after[k];
        let second = after[index];
        let front = before.take(k);
        let rest = before.skip(k + 1);
        lemma_inside_boundary(old_bytes, before, k, offset);
        assert(piece_stands(old_bytes, before[k]));
        assert(after =~= front.push(first).push(second) + rest);
        assert(before =~= front.push(before[k]) + rest);
        lemma_all_cells_push(old_bytes, front, first);
        lemma_all_cells_push(old_bytes, front.push(first), second);
        lemma_all_cells_push(old_bytes, front, before[k]);
        lemma_all_cells_join(old_bytes, front.push(first).push(second), rest);
        lemma_all_cells_join(old_bytes, front.push(before[k]), rest);
        assert(piece_cells(old_bytes, before[k]) =~= piece_cells(old_bytes, first) + piece_cells(
            old_bytes,
            second,
        ));
        assert(all_cells(old_bytes, after) =~= all_cells(old_bytes, before));
        assert(piece_stands(old_bytes, first) && piece_stands(old_bytes, second));
        assert forall|i: int| 0 <= i < after.len() implies piece_stands(
            old_bytes,
            #[trigger] after[i],
        ) by {
            if i < k {
                assert(after[i] == before[i]);
            } else if i > index {
                assert(after[i] == before[i - 1]);
            }
        }
        assert forall|i: int, j: int|
            0 <= i < j < after.len() && (#[trigger] after[i]) is Original && (
            #[trigger] after[j]) is Original implies after[i]->Original_end
            <= after[j]->Original_start by {
            let a = if i <= k {
                i
            } else {
                i - 1
            };
            let b = if j <= k {
                j
            } else {
                j - 1
            };
            assert(before[a] is Original && before[b] is Original);
            assert(a < k ==> after[i] == before[a]);
            assert(a > k ==> after[i] == before[a]);
            assert(b < k ==> after[j] == before[b]);
            assert(b > k ==> after[j] == before[b]);
        }
    }
}

proof fn lemma_pieces_parts(old_bytes: Seq<u8>, a: Seq<Piece>, b: Seq<Piece>)
    requires
        pieces_stand(old_bytes, a + b),
    ensures
        pieces_stand(old_bytes, a),
        pieces_stand(old_bytes, b),
{
    assert forall|i: int| 0 <= i < a.len() implies piece_stands(old_bytes, #[trigger] a[i]) by {
        assert(a[i] == (a + b)[i]);
    }
    assert forall|i: int| 0 <= i < b.len() implies piece_stands(old_bytes, #[trigger] b[i]) by {
        assert(b[i] == (a + b)[a.len() + i]);
    }
    assert forall|i: int, j: int|
        0 <= i < j < a.len() && (#[trigger] a[i]) is Original && (
        #[trigger] a[j]) is Original implies a[i]->Original_end <= a[j]->Original_start by {
        assert(a[i] == (a + b)[i] && a[j] == (a + b)[j]);
    }
    assert forall|i: int, j: int|
        0 <= i < j < b.len() && (#[trigger] b[i]) is Original && (
        #[trigger] b[j]) is Original implies b[i]->Original_end <= b[j]->Original_start by {
        assert(b[i] == (a + b)[a.len() + i] && b[j] == (a + b)[a.len() + j]);
    }
}

/// Cutting pieces once more, at a place that is not before the first one, keeps
/// the pieces before that.
proof fn lemma_second_split(
    once: Seq<Piece>,
    start: int,
    first: int,
    end: int,
    twice: Seq<Piece>,
    last: int,
)
    requires
        pieces_run_on(once),
        0 <= first <= once.len(),
        pieces_len(once.take(first)) == start,
        start <= end,
        split_into(once, end, twice, last),
    ensures
        first <= twice.len(),
        pieces_len(twice.take(first)) == start,
{
    if twice != once {
        let k = last - 1;
        lemma_pieces_len_step(once, k);
        if first > k {
            lemma_pieces_len_grows(once, k + 1, first);
        }
        assert(twice.take(first) =~= once.take(first));
    }
}

/// Of two places between pieces that stand, the one that has fewer bytes before
/// it has fewer pieces before it.
proof fn lemma_pieces_in_order(old_bytes: Seq<u8>, pieces: Seq<Piece>, a: int, b: int)
    requires
        pieces_stand(old_bytes, pieces),
        0 <= a <= pieces.len(),
        0 <= b <= pieces.len(),
        pieces_len(pieces.take(a)) <= pieces_len(pieces.take(b)),
    ensures
        a <= b,
{
    if b < a {
        assert(piece_stands(old_bytes, pieces[b]));
        assert forall|i: int| 0 <= i < pieces.len() && (#[trigger] pieces[i]) is Original implies pieces[i]->Original_start
            <= pieces[i]->Original_end by {
            assert(piece_stands(old_bytes, pieces[i]));
        }
        lemma_pieces_len_step(pieces, b);
        lemma_pieces_len_grows(pieces, b + 1, a);
    }
}

/// Puts text in place of a range of an edited text.
fn replace_piece_range(
    pieces: Vec<Piece>,
    start: usize,
    end: usize,
    inserted: &str,
    Ghost(old_bytes): Ghost<Seq<u8>>,
) -> (r: Vec<Piece>)
    requires
        valid_utf8(old_bytes),
        pieces_stand(old_bytes, pieces@),
        valid_utf8(cell_bytes(all_cells(old_bytes, pieces@))),
        start <= end <= all_cells(old_bytes, pieces@).len(),
        is_char_boundary(cell_bytes(all_cells(old_bytes, pieces@)), start as int),
        is_char_boundary(cell_bytes(all_cells(old_bytes, pieces@)), end as int),
    ensures
        pieces_stand(old_bytes, r@),
        all_cells(old_bytes, r@) == all_cells(old_bytes, pieces@).take(start as int) + fresh_cells(
            encode_utf8(inserted@),
        ) + all_cells(old_bytes, pieces@).skip(end as int),
{
    let ghost given = pieces@;
    let ghost all = all_cells(old_bytes, pieces@);
    let mut out = pieces;
    proof {
        lemma_boundary_splits(old_bytes, given, start as int);
    }
    let first: usize = match split_piece_at(&mut out, start) {
        Ok(first) => first,
        Err(_) => 0,
    };
    let ghost once = out@;
    proof {
        lemma_split_stands(old_bytes, given, start as int, once, first as int);
        lemma_boundary_splits(old_bytes, once, end as int);
    }
    let last: usize = match split_piece_at(&mut out, end) {
        Ok(last) => last,
        Err(_) => 0,
    };
    let ghost twice = out@;
    proof {
        lemma_split_stands(old_bytes, once, end as int, twice, last as int);
        lemma_boundary_splits(old_bytes, twice, end as int);
        lemma_second_split(once, start as int, first as int, end as int, twice, last as int);
        lemma_pieces_in_order(old_bytes, twice, first as int, last as int);
        lemma_cells_take(old_bytes, twice, first as int);
        lemma_cells_take(old_bytes, twice, last as int);
    }
    let mut tail = out.split_off(last);
    let _ = out.split_off(first);
    let ghost upto = out@;
    let ghost from = tail@;
    proof {
        assert(upto =~= twice.take(first as int));
        assert(from =~= twice.skip(last as int));
        assert(twice =~= upto + twice.skip(first as int));
        lemma_pieces_parts(old_bytes, upto, twice.skip(first as int));
        assert(twice =~= twice.take(last as int) + from);
        lemma_pieces_parts(old_bytes, twice.take(last as int), from);
        assert forall|i: int, j: int|
            0 <= i < upto.len() && 0 <= j < from.len() && (#[trigger] upto[i]) is Original && (
            #[trigger] from[j]) is Original implies upto[i]->Original_end
            <= from[j]->Original_start by {
            assert(upto[i] == twice[i] && from[j] == twice[last + j]);
        }
    }
    if !inserted.is_empty() {
        out.push(Piece::Inserted(inserted.to_owned()));
        proof {
            lemma_all_cells_push(old_bytes, upto, out@.last());
            encode_utf8_first_scalar(inserted@);
            assert(encode_utf8(inserted@).len() > 0);
        }
    } else {
        assert(inserted@ =~= Seq::empty());
        assert(encode_utf8(inserted@) =~= Seq::<u8>::empty());
        assert(fresh_cells(encode_utf8(inserted@)) =~= Seq::empty());
        assert(all_cells(old_bytes, out@) + fresh_cells(encode_utf8(inserted@)) =~= all_cells(
            old_bytes,
            out@,
        ));
    }
    let ghost middle = out@;
    proof {
        assert(pieces_stand(old_bytes, middle));
        lemma_all_cells_join(old_bytes, middle, from);
        assert(pieces_stand(old_bytes, middle + from)) by {
            lemma_pieces_joined(old_bytes, middle, from);
        }
    }
    out.append(&mut tail);
    assert(out@ =~= middle + from);
    out
}

proof fn lemma_pieces_joined(old_bytes: Seq<u8>, a: Seq<Piece>, b: Seq<Piece>)
    requires
        pieces_stand(old_bytes, a),
        pieces_stand(old_bytes, b),
        forall|i: int, j: int|
            0 <= i < a.len() && 0 <= j < b.len() && (#[trigger] a[i]) is Original && (
            #[trigger] b[j]) is Original ==> a[i]->Original_end <= b[j]->Original_start,
    ensures
        pieces_stand(old_bytes, a + b),
{
}

// ---------------------------------------------------------------------------
// Normalization

/// The splices describe the text up to a place behind which all bytes are
/// new.
spec fn swept(
    old_bytes: Seq<u8>,
    cells: Seq<Cell>,
    list: Seq<TextSplice>,
    old_at: int,
    new_at: int,
) -> bool {
    &&& 0 <= old_at <= old_bytes.len()
    &&& 0 <= new_at <= cells.len()
    &&& describes(old_bytes.take(old_at), cells.take(new_at), list)
    &&& list.len() > 0 ==> list.last().old_end < old_at
    &&& forall|p: int| new_at <= p < cells.len() ==> (#[trigger] cells[p]).origin is None
}

/// One more splice describes the pending text.
proof fn lemma_emit(
    old_bytes: Seq<u8>,
    cells: Seq<Cell>,
    list: Seq<TextSplice>,
    old_at: int,
    new_at: int,
    until: int,
    text: Seq<char>,
)
    requires
        swept(old_bytes, cells, list, old_at, new_at),
        old_at <= until <= old_bytes.len(),
        old_at < until || new_at < cells.len(),
        encode_utf8(text) == cell_bytes(cells).skip(new_at),
    ensures
        describes(
            old_bytes.take(until),
            cells,
            list.push(
                TextSplice {
                    old_start: old_at,
                    old_end: until,
                    new_start: new_at,
                    new_end: cells.len() as int,
                    text,
                },
            ),
        ),
{
    let item = TextSplice {
        old_start: old_at,
        old_end: until,
        new_start: new_at,
        new_end: cells.len() as int,
        text,
    };
    let next = list.push(item);
    let old_part = old_bytes.take(old_at);
    let old_now = old_bytes.take(until);
    let done = cells.take(new_at);
    lemma_spliced_len(old_part, list);
    assert(cell_bytes(done).len() == new_at);
    assert(shift_after(list) == new_at - old_at);
    assert(in_order(list, until)) by {
        assert forall|i: int| 0 <= i < list.len() implies #[trigger] in_place(list, i, until) by {
            assert(in_place(list, i, old_at));
        }
    }
    if list.len() > 0 {
        assert(in_place(list, list.len() - 1, old_at));
    }
    lemma_in_order_push(list, item, until);
    assert(next.drop_last() =~= list);
    assert(old_now.take(old_at) =~= old_part);
    assert(old_now.skip(until) =~= Seq::empty());
    lemma_cell_bytes_take(cells, new_at);
    assert(spliced(old_now, next) =~= cell_bytes(cells)) by {
        assert(spliced(old_now, next) == spliced(old_part, list) + encode_utf8(text)
            + old_now.skip(until));
        assert(cell_bytes(cells) =~= cell_bytes(cells).take(new_at) + cell_bytes(cells).skip(
            new_at,
        ));
    }
    assert forall|k: int| 0 <= k < next.len() implies (#[trigger] next[k]).old_start
        < next[k].old_end || next[k].new_start < next[k].new_end by {
        if k < list.len() {
            assert(next[k] == list[k]);
        }
    }
    assert forall|k: int, m: int| 0 <= k < m < next.len() implies (#[trigger] next[k]).old_end < (
    #[trigger] next[m]).old_start by {
        assert(next[k] == list[k]);
        if m < list.len() {
            assert(next[m] == list[m]);
        } else if k < list.len() - 1 {
            assert(list[k].old_end < list[list.len() - 1].old_start);
            assert(in_place(list, list.len() - 1, old_at));
        }
    }
    assert forall|q: int| #[trigger] in_new(next, q) <==> in_new(list, q) || new_at <= q
        < cells.len() by {
        if in_new(list, q) {
            let k = choose|k: int|
                0 <= k < list.len() && (#[trigger] list[k]).new_start <= q < list[k].new_end;
            assert(next[k] == list[k]);
        }
        if new_at <= q < cells.len() {
            assert(next[list.len() as int] == item);
        }
        if in_new(next, q) {
            let k = choose|k: int|
                0 <= k < next.len() && (#[trigger] next[k]).new_start <= q < next[k].new_end;
            if k < list.len() {
                assert(next[k] == list[k]);
            }
        }
    }
    assert forall|q: int| #[trigger] in_old(next, q) <==> in_old(list, q) || old_at <= q
        < until by {
        if in_old(list, q) {
            let k = choose|k: int|
                0 <= k < list.len() && (#[trigger] list[k]).old_start <= q < list[k].old_end;
            assert(next[k] == list[k]);
        }
        if old_at <= q < until {
            assert(next[list.len() as int] == item);
        }
        if in_old(next, q) {
            let k = choose|k: int|
                0 <= k < next.len() && (#[trigger] next[k]).old_start <= q < next[k].old_end;
            if k < list.len() {
                assert(next[k] == list[k]);
            }
        }
    }
    assert forall|q: int| #[trigger] in_new(list, q) implies q < new_at by {
        let k = choose|k: int|
            0 <= k < list.len() && (#[trigger] list[k]).new_start <= q < list[k].new_end;
        lemma_new_ends(old_part, list, k);
    }
    assert forall|p: int| 0 <= p < cells.len() implies ((#[trigger] cells[p]).origin is None
        <==> in_new(next, p)) by {
        if p < new_at {
            assert(done[p] == cells[p]);
        }
    }
    assert forall|at: int| 0 <= at < until implies (#[trigger] is_kept(cells, at) <==> !in_old(
        next,
        at,
    )) by {
        if is_kept(cells, at) {
            let p = choose|p: int| 0 <= p < cells.len() && (#[trigger] cells[p]).origin == Some(at);
            assert(p < new_at);
            assert(done[p] == cells[p]);
            assert(is_kept(done, at));
        }
        if at < old_at && is_kept(done, at) {
            let p = choose|p: int| 0 <= p < done.len() && (#[trigger] done[p]).origin == Some(at);
            assert(cells[p].origin == Some(at));
        }
        if at < old_at {
            assert(is_kept(done, at) <==> !in_old(list, at));
        }
    }
    assert forall|p: int| 0 <= p < cells.len() && (
    #[trigger] cells[p]).origin is Some implies 0 <= cells[p].origin->Some_0 < until by {
        assert(done[p] == cells[p]);
    }
}

/// A splice ends in the new text before the splices are done.
proof fn lemma_new_ends(old_bytes: Seq<u8>, list: Seq<TextSplice>, k: int)
    requires
        in_order(list, old_bytes.len() as int),
        0 <= k < list.len(),
    ensures
        list[k].new_end <= spliced(old_bytes, list).len(),
    decreases list.len(),
{
    lemma_spliced_len(old_bytes, list);
    let last = list.last();
    assert(in_place(list, list.len() - 1, old_bytes.len() as int));
    if k < list.len() - 1 {
        let before = list.drop_last();
        crate::framework::source::lemma_in_order_prefix(list, old_bytes.len() as int);
        lemma_new_ends(old_bytes.take(last.old_start), before, k);
        lemma_spliced_len(old_bytes.take(last.old_start), before);
        assert(list.take(list.len() - 1) =~= before);
        assert(before[k] == list[k]);
    }
}

/// Text that stays needs no splice.
proof fn lemma_keep(
    old_bytes: Seq<u8>,
    cells: Seq<Cell>,
    list: Seq<TextSplice>,
    start: int,
    end: int,
)
    requires
        0 <= start < end <= old_bytes.len(),
        describes(old_bytes.take(start), cells, list),
    ensures
        describes(old_bytes.take(end), cells + kept_cells(old_bytes, start, end), list),
        list.len() > 0 ==> list.last().old_end < end,
{
    let more = kept_cells(old_bytes, start, end);
    let all = cells + more;
    let old_part = old_bytes.take(start);
    let old_now = old_bytes.take(end);
    assert(in_order(list, end)) by {
        assert forall|i: int| 0 <= i < list.len() implies #[trigger] in_place(list, i, end) by {
            assert(in_place(list, i, start));
        }
    }
    if list.len() > 0 {
        assert(in_place(list, list.len() - 1, start));
    }
    lemma_spliced_prefix(old_now, list, start);
    assert(old_now.take(start) =~= old_part);
    assert(cell_bytes(all) =~= cell_bytes(cells) + old_now.skip(start));
    assert forall|q: int| #[trigger] in_new(list, q) implies q < cells.len() by {
        let k = choose|k: int|
            0 <= k < list.len() && (#[trigger] list[k]).new_start <= q < list[k].new_end;
        lemma_new_ends(old_part, list, k);
        assert(cell_bytes(cells).len() == cells.len());
    }
    assert forall|q: int| #[trigger] in_old(list, q) implies q < start by {
        let k = choose|k: int|
            0 <= k < list.len() && (#[trigger] list[k]).old_start <= q < list[k].old_end;
        assert(in_place(list, k, start));
    }
    assert forall|p: int| 0 <= p < all.len() implies ((#[trigger] all[p]).origin is None <==> in_new(
        list,
        p,
    )) by {
        if p < cells.len() {
            assert(all[p] == cells[p]);
        } else {
            assert(all[p] == more[p - cells.len()]);
        }
    }
    assert forall|at: int| 0 <= at < end implies (#[trigger] is_kept(all, at) <==> !in_old(
        list,
        at,
    )) by {
        if at < start {
            assert(is_kept(cells, at) <==> !in_old(list, at));
            if is_kept(cells, at) {
                let p = choose|p: int|
                    0 <= p < cells.len() && (#[trigger] cells[p]).origin == Some(at);
                assert(all[p].origin == Some(at));
            }
            if is_kept(all, at) {
                let p = choose|p: int| 0 <= p < all.len() && (#[trigger] all[p]).origin == Some(at);
                if p >= cells.len() {
                    assert(all[p] == more[p - cells.len()]);
                } else {
                    assert(cells[p].origin == Some(at));
                }
            }
        } else {
            assert(more[at - start].origin == Some(at));
            assert(all[cells.len() + at - start].origin == Some(at));
        }
    }
    assert forall|p: int| 0 <= p < all.len() && (#[trigger] all[p]).origin is Some implies 0
        <= all[p].origin->Some_0 < end by {
        if p < cells.len() {
            assert(all[p] == cells[p]);
        } else {
            assert(all[p] == more[p - cells.len()]);
        }
    }
}

/// The part of a text between two of its boundaries.
fn slice_text(text: &str, start: usize, end: usize) -> (r: String)
    requires
        start <= end <= encode_utf8(text@).len(),
        is_char_boundary(encode_utf8(text@), start as int),
        is_char_boundary(encode_utf8(text@), end as int),
    ensures
        encode_utf8(r@) == encode_utf8(text@).subrange(start as int, end as int),
{
    let ghost bytes = encode_utf8(text@);
    let (head, _) = text.split_at(end);
    proof {
        encode_utf8_valid_utf8(text@);
        encode_utf8_valid_utf8(head@);
        assert(encode_utf8(head@) == bytes.subrange(0, end as int));
        if start == end {
            is_char_boundary_start_end_of_seq(encode_utf8(head@));
        } else if start == 0 {
            is_char_boundary_start_end_of_seq(encode_utf8(head@));
        } else {
            lemma_boundary_inside(bytes, encode_utf8(head@), 0, start as int);
        }
    }
    let (_, tail) = head.split_at(start);
    proof {
        assert(encode_utf8(tail@) =~= bytes.subrange(start as int, end as int));
    }
    tail.to_owned()
}

/// The splices between the old text and the text that the pieces are.
#[verifier::rlimit(40)]
fn normalize_splices(original: &str, pieces: &Vec<Piece>) -> (r: Vec<SourceSplice>)
    requires
        pieces_stand(encode_utf8(original@), pieces@),
        all_cells(encode_utf8(original@), pieces@).len() <= usize::MAX,
    ensures
        describes(
            encode_utf8(original@),
            all_cells(encode_utf8(original@), pieces@),
            splice_texts(r@),
        ),
        removed_texts(encode_utf8(original@), r@),
{
    let ghost old_bytes = encode_utf8(original@);
    let ghost all = all_cells(old_bytes, pieces@);
    let length: usize = original.as_bytes().len();
    let mut splices: Vec<SourceSplice> = Vec::new();
    let mut inserted = String::new();
    let mut old_cursor: usize = 0;
    let mut new_cursor: usize = 0;
    let mut i: usize = 0;
    proof {
        encode_utf8_valid_utf8(original@);
        is_char_boundary_start_end_of_seq(old_bytes);
        assert(pieces@.take(0) =~= Seq::empty());
        assert(splice_texts(splices@) =~= Seq::empty());
        assert(inserted@ =~= Seq::empty());
        assert(encode_utf8(inserted@) =~= Seq::<u8>::empty());
        let none = all_cells(old_bytes, pieces@.take(0));
        assert(none =~= Seq::empty());
        assert(cell_bytes(none.take(0)) =~= old_bytes.take(0));
        assert(cell_bytes(none).skip(0) =~= Seq::<u8>::empty());
    }
    while i < pieces.len()
        invariant
            i <= pieces@.len(),
            old_bytes == encode_utf8(original@),
            valid_utf8(old_bytes),
            all == all_cells(old_bytes, pieces@),
            all.len() <= usize::MAX,
            pieces_stand(old_bytes, pieces@),
            is_char_boundary(old_bytes, old_cursor as int),
            forall|b: int|
                i <= b < pieces@.len() && (#[trigger] pieces@[b]) is Original ==> old_cursor
                    <= pieces@[b]->Original_start,
            swept(
                old_bytes,
                all_cells(old_bytes, pieces@.take(i as int)),
                splice_texts(splices@),
                old_cursor as int,
                new_cursor as int,
            ),
            removed_texts(old_bytes, splices@),
            encode_utf8(inserted@) == cell_bytes(
                all_cells(old_bytes, pieces@.take(i as int)),
            ).skip(new_cursor as int),
        decreases pieces@.len() - i,
    {
        let ghost done = pieces@.take(i as int);
        let ghost next = pieces@.take(i + 1);
        let ghost cells = all_cells(old_bytes, done);
        let ghost now = all_cells(old_bytes, next);
        let ghost list = splice_texts(splices@);
        proof {
            assert(next =~= done.push(pieces@[i as int]));
            lemma_all_cells_push(old_bytes, done, pieces@[i as int]);
            assert(pieces@ =~= next + pieces@.skip(i + 1));
            lemma_all_cells_join(old_bytes, next, pieces@.skip(i + 1));
            assert(piece_stands(old_bytes, pieces@[i as int]));
            assert(now.len() <= all.len());
        }
        match &pieces[i] {
            Piece::Inserted(text) => {
                let ghost before = inserted@;
                inserted.append(text.as_str());
                proof {
                    lemma_encode_concat(before, text@);
                    let fresh = fresh_cells(encode_utf8(text@));
                    assert(now == cells + fresh);
                    assert(cell_bytes(now).skip(new_cursor as int) =~= cell_bytes(cells).skip(
                        new_cursor as int,
                    ) + encode_utf8(text@));
                    assert(now.take(new_cursor as int) =~= cells.take(new_cursor as int));
                    assert forall|p: int| new_cursor <= p < now.len() implies (
                    #[trigger] now[p]).origin is None by {
                        if p < cells.len() {
                            assert(now[p] == cells[p]);
                        } else {
                            assert(now[p] == fresh[p - cells.len()]);
                        }
                    }
                }
            },
            Piece::Original { start, end } => {
                let count: usize = inserted.as_str().as_bytes().len();
                let new_end: usize = new_cursor + count;
                proof {
                    assert(cells.take(cells.len() as int) =~= cells);
                    assert(new_end == cells.len());
                }
                if old_cursor != *start || count > 0 {
                    let ghost text = inserted@;
                    proof {
                        lemma_emit(
                            old_bytes,
                            cells,
                            list,
                            old_cursor as int,
                            new_cursor as int,
                            *start as int,
                            text,
                        );
                    }
                    let removed = slice_text(original, old_cursor, *start);
                    let ghost held = splices@;
                    let splice = SourceSplice {
                        old_range: old_cursor..*start,
                        new_range: new_cursor..new_end,
                        removed,
                        inserted,
                    };
                    let ghost one = splice;
                    splices.push(splice);
                    inserted = String::new();
                    proof {
                        assert(splice_texts(splices@) =~= list.push(one.as_text()));
                        assert forall|k: int| 0 <= k < splices@.len() implies encode_utf8(
                            (#[trigger] splices@[k]).removed@,
                        ) == old_bytes.subrange(
                            splices@[k].old_range.start as int,
                            splices@[k].old_range.end as int,
                        ) by {
                            if k < held.len() {
                                assert(splices@[k] == held[k]);
                            }
                        }
                        assert(describes(
                            old_bytes.take(*start as int),
                            cells,
                            splice_texts(splices@),
                        ));
                    }
                } else {
                    assert(cells.take(new_cursor as int) =~= cells);
                    assert(describes(old_bytes.take(*start as int), cells, splice_texts(splices@)));
                }
                proof {
                    lemma_keep(
                        old_bytes,
                        cells,
                        splice_texts(splices@),
                        *start as int,
                        *end as int,
                    );
                    assert(now == cells + kept_cells(old_bytes, *start as int, *end as int));
                    assert(now.take(now.len() as int) =~= now);
                    assert(inserted@ =~= Seq::empty());
                    assert(encode_utf8(inserted@) =~= Seq::<u8>::empty());
                    assert(cell_bytes(now).skip(now.len() as int) =~= Seq::<u8>::empty());
                }
                old_cursor = *end;
                new_cursor = new_end + (*end - *start);
                proof {
                    assert forall|b: int| i + 1 <= b < pieces@.len() && (
                    #[trigger] pieces@[b]) is Original implies old_cursor
                        <= pieces@[b]->Original_start by {
                        assert(pieces@[i as int] is Original);
                    }
                }
            },
        }
        i += 1;
    }
    proof {
        assert(pieces@.take(i as int) =~= pieces@);
        assert(all.take(all.len() as int) =~= all);
        assert(old_bytes.take(old_bytes.len() as int) =~= old_bytes);
    }
    let count: usize = inserted.as_str().as_bytes().len();
    if old_cursor != length || count > 0 {
        let ghost list = splice_texts(splices@);
        let ghost held = splices@;
        proof {
            assert(count == all.len() - new_cursor);
            lemma_emit(
                old_bytes,
                all,
                list,
                old_cursor as int,
                new_cursor as int,
                length as int,
                inserted@,
            );
        }
        let removed = slice_text(original, old_cursor, length);
        let splice = SourceSplice {
            old_range: old_cursor..length,
            new_range: new_cursor..new_cursor + count,
            removed,
            inserted,
        };
        let ghost one = splice;
        splices.push(splice);
        proof {
            assert(splice_texts(splices@) =~= list.push(one.as_text()));
            assert forall|k: int| 0 <= k < splices@.len() implies encode_utf8(
                (#[trigger] splices@[k]).removed@,
            ) == old_bytes.subrange(
                splices@[k].old_range.start as int,
                splices@[k].old_range.end as int,
            ) by {
                if k < held.len() {
                    assert(splices@[k] == held[k]);
                }
            }
        }
    }
    splices
}

// ---------------------------------------------------------------------------
// Edits

/// Checks that an offset is a boundary of the text.
fn checked_boundary(text: &str, offset: usize) -> (r: Result<usize, EditRefusal>)
    ensures
        match r {
            Ok(at) => at == offset && offset_refusal(encode_utf8(text@), offset) is None,
            Err(refusal) => offset_refusal(encode_utf8(text@), offset) == Some(refusal),
        },
{
    let length: usize = text.as_bytes().len();
    if offset > length {
        return Err(EditRefusal::PastEnd { offset, length });
    }
    if !text.is_char_boundary(offset) {
        return Err(EditRefusal::OffBoundary { offset });
    }
    Ok(offset)
}

/// Makes one edit of a text, and gives the range that it replaced.
fn apply_edit(text: &mut String, edit: &SourceEdit) -> (r: Result<(usize, usize), EditRefusal>)
    ensures
        match r {
            Ok((start, end)) => {
                &&& edit_refusal(encode_utf8(old(text)@), *edit) is None
                &&& start == edit.at()
                &&& end == edit.until()
                &&& start <= end <= encode_utf8(old(text)@).len()
                &&& is_char_boundary(encode_utf8(old(text)@), start as int)
                &&& is_char_boundary(encode_utf8(old(text)@), end as int)
                &&& encode_utf8(final(text)@) == encode_utf8(old(text)@).take(start as int)
                    + encode_utf8(edit.text()) + encode_utf8(old(text)@).skip(end as int)
            },
            Err(refusal) => edit_refusal(encode_utf8(old(text)@), *edit) == Some(refusal)
                && final(text)@ == old(text)@,
        },
{
    let start: usize = match checked_boundary(text.as_str(), edit.span().range.start()) {
        Ok(at) => at,
        Err(refusal) => {
            return Err(refusal);
        },
    };
    let ghost bytes = encode_utf8(text@);
    match edit {
        SourceEdit::Insert { value, .. } => {
            let (head, tail) = text.as_str().split_at(start);
            let mut out = head.to_owned();
            let rest = tail.to_owned();
            let ghost first = out@;
            out.append(value.as_str());
            out.append(rest.as_str());
            proof {
                lemma_encode_concat(first, value@);
                lemma_encode_concat(first + value@, rest@);
                assert(bytes.subrange(0, start as int) =~= bytes.take(start as int));
                assert(bytes.subrange(start as int, bytes.len() as int) =~= bytes.skip(
                    start as int,
                ));
            }
            *text = out;
            Ok((start, start))
        },
        SourceEdit::Delete { key } => {
            let end: usize = match checked_boundary(text.as_str(), key.range.end()) {
                Ok(at) => at,
                Err(refusal) => {
                    return Err(refusal);
                },
            };
            if end < start {
                return Err(EditRefusal::Reversed);
            }
            let (head, _) = text.as_str().split_at(start);
            let mut out = head.to_owned();
            let (_, tail) = text.as_str().split_at(end);
            let rest = tail.to_owned();
            let ghost first = out@;
            out.append(rest.as_str());
            proof {
                lemma_encode_concat(first, rest@);
                assert(encode_utf8(edit.text()) =~= Seq::<u8>::empty());
                assert(bytes.subrange(0, start as int) =~= bytes.take(start as int));
                assert(bytes.subrange(end as int, bytes.len() as int) =~= bytes.skip(end as int));
                assert(encode_utf8(out@) =~= bytes.take(start as int) + encode_utf8(edit.text())
                    + bytes.skip(end as int));
            }
            *text = out;
            Ok((start, end))
        },
    }
}

/// The text of a document after a command, and the delta that led to it.
#[derive(Debug)]
pub struct DocumentChange {
    pub uri: String,
    pub text: String,
    pub delta: SourceDelta,
}

/// Applies one edit to a document.
#[derive(Debug)]
pub struct ApplySourceEdit {
    pub edit: SourceEdit,
}

/// Applies a sequence of edits to one document, all or none.
#[derive(Debug)]
pub struct ApplySourceEdits {
    pub edits: Vec<SourceEdit>,
}

/// Makes a document that is empty.
#[derive(Debug)]
pub struct LoadSource {
    pub uri: String,
}

/// Makes a document with a text that was loaded.
#[derive(Debug)]
pub struct LoadSourceText {
    pub uri: String,
    pub text: String,
}

/// The commands that source documents take.
#[derive(Debug, Clone, Copy, PartialEq, Eq, Structural)]
pub struct SourceInput;

/// The edits name one document.
pub open spec fn one_document(edits: Seq<SourceEdit>) -> bool {
    forall|i: int|
        0 <= i < edits.len() ==> (#[trigger] edits[i]).spec_span().uri@
            == edits[0].spec_span().uri@
}

/// The bytes of a document that may not be there.
pub open spec fn text_bytes(previous: Option<&str>) -> Seq<u8> {
    match previous {
        Some(text) => encode_utf8(text@),
        None => Seq::empty(),
    }
}

/// What a batch of edits does to a document.
pub open spec fn applied(
    previous: Option<&str>,
    edits: Seq<SourceEdit>,
    r: Result<Option<DocumentChange>, EditRefusal>,
) -> bool {
    let old_bytes = text_bytes(previous);
    let cells = kept_cells(old_bytes, 0, old_bytes.len() as int);
    if edits.len() == 0 {
        r matches Ok(None)
    } else if !one_document(edits) {
        r == Err::<Option<DocumentChange>, EditRefusal>(EditRefusal::MixedDocuments)
    } else {
        match edited_all(cells, edits) {
            Err(refusal) => r == Err::<Option<DocumentChange>, EditRefusal>(refusal),
            Ok(after) => {
                &&& r matches Ok(Some(change))
                &&& change.uri@ == edits[0].spec_span().uri@
                &&& encode_utf8(change.text@) == cell_bytes(after)
                &&& describes(old_bytes, after, splice_texts(change.delta.splices@))
                &&& removed_texts(old_bytes, change.delta.splices@)
            },
        }
    }
}

/// A batch with one bad edit is refused as that edit is.
proof fn lemma_refused_early(cells: Seq<Cell>, edits: Seq<SourceEdit>, n: int)
    requires
        0 <= n <= edits.len(),
        edited_all(cells, edits.take(n)) is Err,
    ensures
        edited_all(cells, edits) == edited_all(cells, edits.take(n)),
    decreases edits.len() - n,
{
    if n < edits.len() {
        assert(edits.take(n + 1).drop_last() =~= edits.take(n));
        lemma_refused_early(cells, edits, n + 1);
    } else {
        assert(edits.take(n) =~= edits);
    }
}

impl ApplySourceEdits {
    /// The document after the edits, each against the text that the ones
    /// before it left.
    #[verifier::rlimit(40)]
    pub fn apply(&self, previous: Option<&str>) -> (r: Result<Option<DocumentChange>, EditRefusal>)
        ensures
            applied(previous, self.edits@, r),
    {
        let ghost edits = self.edits@;
        if self.edits.len() == 0 {
            return Ok(None);
        }
        let uri = self.edits[0].span().uri.clone();
        let mut i: usize = 0;
        while i < self.edits.len()
            invariant
                i <= self.edits@.len(),
                edits == self.edits@,
                edits.len() > 0,
                uri@ == edits[0].spec_span().uri@,
                forall|j: int|
                    0 <= j < i ==> (#[trigger] edits[j]).spec_span().uri@
                        == edits[0].spec_span().uri@,
            decreases self.edits@.len() - i,
        {
            if self.edits[i].span().uri != uri {
                assert(edits[i as int].spec_span().uri@ != edits[0].spec_span().uri@);
                return Err(EditRefusal::MixedDocuments);
            }
            i += 1;
        }
        let original = match previous {
            Some(text) => text.to_owned(),
            None => String::new(),
        };
        let ghost old_bytes = text_bytes(previous);
        proof {
            if previous is None {
                assert(original@ =~= Seq::empty());
                assert(encode_utf8(original@) =~= old_bytes);
            }
        }
        let length: usize = original.as_str().as_bytes().len();
        let mut text = original.clone();
        let mut pieces: Vec<Piece> = Vec::new();
        let ghost cells = kept_cells(old_bytes, 0, old_bytes.len() as int);
        if length > 0 {
            pieces.push(Piece::Original { start: 0, end: length });
        }
        proof {
            encode_utf8_valid_utf8(original@);
            is_char_boundary_start_end_of_seq(old_bytes);
            if length > 0 {
                assert(pieces@.drop_last() =~= Seq::empty());
                assert(all_cells(old_bytes, pieces@.drop_last()) =~= Seq::empty());
                assert(piece_cells(old_bytes, pieces@.last()) =~= cells);
                assert(all_cells(old_bytes, pieces@) =~= cells);
            } else {
                assert(all_cells(old_bytes, pieces@) =~= cells);
            }
            assert(cell_bytes(cells) =~= old_bytes);
            assert(edits.take(0) =~= Seq::empty());
        }
        let mut k: usize = 0;
        while k < self.edits.len()
            invariant
                k <= self.edits@.len(),
                edits == self.edits@,
                edits.len() > 0,
                one_document(edits),
                uri@ == edits[0].spec_span().uri@,
                old_bytes == text_bytes(previous),
                old_bytes == encode_utf8(original@),
                valid_utf8(old_bytes),
                cells == kept_cells(old_bytes, 0, old_bytes.len() as int),
                pieces_stand(old_bytes, pieces@),
                edited_all(cells, edits.take(k as int)) == Ok::<Seq<Cell>, EditRefusal>(
                    all_cells(old_bytes, pieces@),
                ),
                cell_bytes(all_cells(old_bytes, pieces@)) == encode_utf8(text@),
            decreases self.edits@.len() - k,
        {
            let ghost before = all_cells(old_bytes, pieces@);
            proof {
                assert(edits.take(k + 1).drop_last() =~= edits.take(k as int));
                encode_utf8_valid_utf8(text@);
                assert(before.len() == encode_utf8(text@).len());
            }
            let edit = &self.edits[k];
            let (start, end) = match apply_edit(&mut text, edit) {
                Ok(range) => range,
                Err(refusal) => {
                    proof {
                        lemma_refused_early(cells, edits, k + 1);
                    }
                    return Err(refusal);
                },
            };
            let empty = String::new();
            let value: &str = match edit {
                SourceEdit::Insert { value, .. } => value.as_str(),
                SourceEdit::Delete { .. } => empty.as_str(),
            };
            assert(value@ =~= edit.text());
            pieces = replace_piece_range(pieces, start, end, value, Ghost(old_bytes));
            proof {
                let after = all_cells(old_bytes, pieces@);
                lemma_cell_bytes_take(before, start as int);
                lemma_cell_bytes_take(before, end as int);
                assert(after == edited_cells(before, *edit));
                assert(cell_bytes(after) =~= encode_utf8(text@));
            }
            k += 1;
        }
        proof {
            assert(edits.take(k as int) =~= edits);
        }
        let new_length: usize = text.as_str().as_bytes().len();
        assert(all_cells(old_bytes, pieces@).len() == new_length);
        let splices = normalize_splices(original.as_str(), &pieces);
        Ok(Some(DocumentChange { uri, text, delta: SourceDelta { splices } }))
    }
}

impl ApplySourceEdit {
    /// The document after the edit.
    pub fn apply(self, previous: Option<&str>) -> (r: Result<Option<DocumentChange>, EditRefusal>)
        ensures
            applied(previous, seq![self.edit], r),
    {
        let mut edits: Vec<SourceEdit> = Vec::new();
        edits.push(self.edit);
        assert(edits@ =~= seq![self.edit]);
        ApplySourceEdits { edits }.apply(previous)
    }
}

impl LoadSource {
    /// The empty document, where none is there.
    pub fn apply(self, previous: Option<&str>) -> (r: Option<DocumentChange>)
        ensures
            r is Some <==> previous is None,
            r matches Some(change) ==> change.uri@ == self.uri@ && change.text@ == Seq::<
                char,
            >::empty() && change.delta.splices@.len() == 0,
    {
        if previous.is_some() {
            return None;
        }
        Some(
            DocumentChange {
                uri: self.uri,
                text: String::new(),
                delta: SourceDelta { splices: Vec::new() },
            },
        )
    }
}

impl LoadSourceText {
    /// The document with the loaded text, where none is there. A document
    /// that was edited into existence keeps its text.
    pub fn apply(self, previous: Option<&str>) -> (r: Option<DocumentChange>)
        ensures
            r is Some <==> previous is None,
            r matches Some(change) ==> {
                &&& change.uri@ == self.uri@
                &&& change.text@ == self.text@
                &&& change.delta.splices@.len() == 1
                &&& change.delta.splices@[0].old_range == (0..0usize)
                &&& change.delta.splices@[0].new_range.start == 0
                &&& change.delta.splices@[0].new_range.end == encode_utf8(self.text@).len()
                &&& change.delta.splices@[0].removed@ == Seq::<char>::empty()
                &&& change.delta.splices@[0].inserted@ == self.text@
            },
    {
        if previous.is_some() {
            return None;
        }
        let length: usize = self.text.as_str().as_bytes().len();
        let mut splices: Vec<SourceSplice> = Vec::new();
        splices.push(
            SourceSplice {
                old_range: 0..0,
                new_range: 0..length,
                removed: String::new(),
                inserted: self.text.clone(),
            },
        );
        Some(DocumentChange { uri: self.uri, text: self.text, delta: SourceDelta { splices } })
    }
}

impl SourceInput {
    /// The command that makes one edit.
    pub fn apply(edit: SourceEdit) -> (r: ApplySourceEdit)
        ensures
            r.edit == edit,
    {
        ApplySourceEdit { edit }
    }

    /// The command that makes a batch of edits, so that nothing sees the text
    /// between them.
    pub fn apply_all(edits: Vec<SourceEdit>) -> (r: ApplySourceEdits)
        ensures
            r.edits@ == edits@,
    {
        ApplySourceEdits { edits }
    }

    /// The command that makes an empty document.
    pub fn load(uri: String) -> (r: LoadSource)
        ensures
            r.uri@ == uri@,
    {
        LoadSource { uri }
    }

    /// The command that makes a document with a loaded text.
    pub fn load_text(uri: String, text: String) -> (r: LoadSourceText)
        ensures
            r.uri@ == uri@,
            r.text@ == text@,
    {
        LoadSourceText { uri, text }
    }
}

} // verus!
