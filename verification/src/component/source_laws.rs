//! What edits do to a text, one at a time and in batches.

use vstd::prelude::*;
use vstd::utf8::encode_utf8;

use crate::component::source::{
    applied, cell_bytes, edit_refusal, edited_all, edited_cells, fresh_cells, kept_cells,
    text_bytes, Cell, DocumentChange, EditRefusal,
};
use crate::framework::source::SourceEdit;

verus! {

/// What an edit does to the bytes of a text: an insertion puts its text in at its
/// place, and a deletion takes out what lies between its ends.
pub open spec fn bytes_after(bytes: Seq<u8>, edit: SourceEdit) -> Seq<u8> {
    match edit {
        SourceEdit::Insert { key, value } => bytes.take(key.range.start as int) + encode_utf8(
            value@,
        ) + bytes.skip(key.range.start as int),
        SourceEdit::Delete { key } => bytes.take(key.range.start as int) + bytes.skip(
            key.range.end as int,
        ),
    }
}

proof fn lemma_edited_bytes(cells: Seq<Cell>, edit: SourceEdit)
    requires
        edit_refusal(cell_bytes(cells), edit) is None,
    ensures
        cell_bytes(edited_cells(cells, edit)) == bytes_after(cell_bytes(cells), edit),
{
    let bytes = cell_bytes(cells);
    let after = edited_cells(cells, edit);
    let put = encode_utf8(edit.text());
    assert(cell_bytes(fresh_cells(put)) =~= put);
    assert(cell_bytes(after) =~= bytes.take(edit.at()) + put + bytes.skip(edit.until()));
    if let SourceEdit::Delete { key } = edit {
        assert(edit.text() =~= Seq::<char>::empty());
        assert(put =~= Seq::<u8>::empty());
        assert(bytes.take(edit.at()) + put + bytes.skip(edit.until()) =~= bytes_after(
            bytes,
            edit,
        ));
    }
}

/// One edit that is not refused leaves the text with the insertion put in, or the
/// deletion taken out, and nothing else changed.
pub proof fn lemma_one_edit(
    previous: Option<&str>,
    edit: SourceEdit,
    r: Result<Option<DocumentChange>, EditRefusal>,
)
    requires
        applied(previous, seq![edit], r),
        r is Ok,
    ensures
        r->Ok_0 matches Some(change) && encode_utf8(change.text@) == bytes_after(
            text_bytes(previous),
            edit,
        ),
{
    let old_bytes = text_bytes(previous);
    let cells = kept_cells(old_bytes, 0, old_bytes.len() as int);
    let edits = seq![edit];
    assert(edits.drop_last() =~= Seq::<SourceEdit>::empty());
    assert(edited_all(cells, edits.drop_last()) == Ok::<Seq<Cell>, EditRefusal>(cells));
    assert(cell_bytes(cells) =~= old_bytes);
    lemma_edited_bytes(cells, edit);
}

/// A batch is its edits one after the other: the text after it is the text that
/// its last edit makes of what the others leave, and it is refused where one of
/// them is.
pub proof fn lemma_batch_is_one_by_one(
    previous: Option<&str>,
    edits: Seq<SourceEdit>,
    last: SourceEdit,
    first: Result<Option<DocumentChange>, EditRefusal>,
    whole: Result<Option<DocumentChange>, EditRefusal>,
)
    requires
        edits.len() > 0,
        crate::component::source::one_document(edits.push(last)),
        applied(previous, edits, first),
        applied(previous, edits.push(last), whole),
    ensures
        match first {
            Err(refusal) => whole matches Err(other) && other == refusal,
            Ok(None) => true,
            Ok(Some(change)) => match edit_refusal(encode_utf8(change.text@), last) {
                Some(refusal) => whole matches Err(other) && other == refusal,
                None => whole matches Ok(Some(after)) && encode_utf8(after.text@) == bytes_after(
                    encode_utf8(change.text@),
                    last,
                ),
            },
        },
{
    let old_bytes = text_bytes(previous);
    let cells = kept_cells(old_bytes, 0, old_bytes.len() as int);
    let all = edits.push(last);
    assert(all.drop_last() =~= edits);
    assert(crate::component::source::one_document(edits)) by {
        assert forall|i: int| 0 <= i < edits.len() implies (#[trigger] edits[i]).spec_span().uri@
            == edits[0].spec_span().uri@ by {
            assert(all[i] == edits[i]);
            assert(all[0] == edits[0]);
        }
    }
    if let Ok(before) = edited_all(cells, edits) {
        if edit_refusal(cell_bytes(before), last) is None {
            lemma_edited_bytes(before, last);
        }
    }
}

} // verus!
