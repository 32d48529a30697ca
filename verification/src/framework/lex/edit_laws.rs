//! What the splices of a command do to the text, one after the other.

use vstd::prelude::*;

use crate::framework::lex::derive::{
    added_before, delta_fits, evolving, fits_at, put_in, removed_before, with_bytes,
};
use crate::framework::source::SourceSplice;

verus! {

/// Where the old text goes on behind the splices before one.
pub open spec fn old_from(splices: Seq<SourceSplice>, i: int) -> int {
    if i > 0 {
        splices[i - 1].old_range.end as int
    } else {
        0
    }
}

/// Where the new text goes on behind the splices before one.
pub open spec fn new_from(splices: Seq<SourceSplice>, i: int) -> int {
    if i > 0 {
        splices[i - 1].new_range.end as int
    } else {
        0
    }
}

/// Two texts are the same between a splice and the one before it.
pub open spec fn same_before(
    old_bytes: Seq<u8>,
    new_bytes: Seq<u8>,
    splices: Seq<SourceSplice>,
    i: int,
) -> bool {
    old_bytes.subrange(old_from(splices, i), splices[i].old_range.start as int)
        == new_bytes.subrange(new_from(splices, i), splices[i].new_range.start as int)
}

/// Two texts differ only where the splices are.
pub open spec fn differ_in_splices(
    old_bytes: Seq<u8>,
    new_bytes: Seq<u8>,
    splices: Seq<SourceSplice>,
) -> bool {
    &&& delta_fits(old_bytes, new_bytes, splices)
    &&& forall|i: int|
        0 <= i < splices.len() ==> #[trigger] same_before(old_bytes, new_bytes, splices, i)
    &&& old_bytes.skip(old_from(splices, splices.len() as int)) == new_bytes.skip(
        new_from(splices, splices.len() as int),
    )
}

/// One splice was made in a text: what it puts in took the place of what is
/// there.
pub open spec fn splice_made(
    texts: Seq<Seq<u8>>,
    new_bytes: Seq<u8>,
    splices: Seq<SourceSplice>,
    i: int,
) -> bool {
    texts[i + 1] == with_bytes(
        texts[i],
        evolving(splices, i).old_range.start as int,
        evolving(splices, i).old_range.end as int,
        put_in(new_bytes, splices, i),
    )
}

proof fn lemma_splices_so_far(
    old_bytes: Seq<u8>,
    new_bytes: Seq<u8>,
    splices: Seq<SourceSplice>,
    texts: Seq<Seq<u8>>,
    i: int,
)
    requires
        differ_in_splices(old_bytes, new_bytes, splices),
        old_bytes.len() <= usize::MAX,
        new_bytes.len() <= usize::MAX,
        forall|k: int| 0 <= k < texts.len() ==> (#[trigger] texts[k]).len() <= usize::MAX,
        texts.len() == splices.len() + 1,
        texts[0] == old_bytes,
        forall|k: int|
            0 <= k < splices.len() ==> #[trigger] splice_made(texts, new_bytes, splices, k),
        0 <= i <= splices.len(),
    ensures
        0 <= old_from(splices, i) <= old_bytes.len(),
        0 <= new_from(splices, i) <= new_bytes.len(),
        added_before(splices, i) - removed_before(splices, i) == new_from(splices, i) - old_from(
            splices,
            i,
        ),
        texts[i] == new_bytes.take(new_from(splices, i)) + old_bytes.skip(old_from(splices, i)),
        i < splices.len() ==> {
            let place = evolving(splices, i);
            &&& place.new_range == splices[i].new_range
            &&& place.old_range.start == splices[i].new_range.start
            &&& place.old_range.end - place.old_range.start == splices[i].old_range.end
                - splices[i].old_range.start
            &&& place.old_range.end <= texts[i].len()
        },
    decreases i,
{
    let of = old_from(splices, i);
    let nf = new_from(splices, i);
    if i == 0 {
        assert(texts[0] =~= new_bytes.take(0) + old_bytes.skip(0));
    } else {
        let k = i - 1;
        lemma_splices_so_far(old_bytes, new_bytes, splices, texts, k);
        assert(fits_at(old_bytes, new_bytes, splices, k));
        assert(same_before(old_bytes, new_bytes, splices, k));
        assert(splice_made(texts, new_bytes, splices, k));
        let before = texts[k];
        let pof = old_from(splices, k);
        let pnf = new_from(splices, k);
        let os = splices[k].old_range.start as int;
        let ns = splices[k].new_range.start as int;
        let place = evolving(splices, k);
        assert(old_bytes.subrange(pof, os).len() == new_bytes.subrange(pnf, ns).len());
        assert(before.take(ns) =~= new_bytes.take(ns)) by {
            assert forall|x: int| 0 <= x < ns implies before[x] == new_bytes[x] by {
                if x >= pnf {
                    assert(before[x] == old_bytes[pof + (x - pnf)]);
                    assert(old_bytes.subrange(pof, os)[x - pnf] == new_bytes.subrange(
                        pnf,
                        ns,
                    )[x - pnf]);
                }
            }
        }
        assert(before.skip(place.old_range.end as int) =~= old_bytes.skip(of));
        assert(texts[i] =~= new_bytes.take(nf) + old_bytes.skip(of));
    }
    if i < splices.len() {
        assert(fits_at(old_bytes, new_bytes, splices, i));
        assert(same_before(old_bytes, new_bytes, splices, i));
        let os = splices[i].old_range.start as int;
        let ns = splices[i].new_range.start as int;
        assert(old_bytes.subrange(of, os).len() == new_bytes.subrange(nf, ns).len());
        let place = evolving(splices, i);
        assert(place.old_range.start == splices[i].new_range.start);
        assert(texts[i].len() == nf + old_bytes.len() - of);
        assert(splices[i].old_range.end <= old_bytes.len());
        assert(splices[i].old_range.end + nf - of <= texts[i].len());
        assert(place.new_range.end == splices[i].new_range.end);
    }
}

/// Where two texts differ only in the splices of a command, making these one
/// after the other leads from the one to the other.
pub proof fn lemma_splices_lead_to_the_new_text(
    old_bytes: Seq<u8>,
    new_bytes: Seq<u8>,
    splices: Seq<SourceSplice>,
    texts: Seq<Seq<u8>>,
)
    requires
        differ_in_splices(old_bytes, new_bytes, splices),
        old_bytes.len() <= usize::MAX,
        new_bytes.len() <= usize::MAX,
        forall|k: int| 0 <= k < texts.len() ==> (#[trigger] texts[k]).len() <= usize::MAX,
        texts.len() == splices.len() + 1,
        texts[0] == old_bytes,
        forall|k: int|
            0 <= k < splices.len() ==> #[trigger] splice_made(texts, new_bytes, splices, k),
    ensures
        texts.last() == new_bytes,
        forall|i: int|
            0 <= i < splices.len() ==> (#[trigger] evolving(splices, i)).new_range
                == splices[i].new_range,
{
    let n = splices.len() as int;
    lemma_splices_so_far(old_bytes, new_bytes, splices, texts, n);
    let nf = new_from(splices, n);
    assert(new_bytes.take(nf) + new_bytes.skip(nf) =~= new_bytes);
    assert forall|i: int| 0 <= i < splices.len() implies (#[trigger] evolving(
        splices,
        i,
    )).new_range == splices[i].new_range by {
        lemma_splices_so_far(old_bytes, new_bytes, splices, texts, i);
    }
}

} // verus!
