use vstd::prelude::*;

use crate::contents::{
    contents, law_contents_join, law_contents_len, law_single_stretch, lemma_stored_grows,
};
use crate::entry::{stored_len, total_len, EntryIo};
use crate::sparse::{add_stretch, fits, law_stretch_is_placed, SparseView};

verus! {

proof fn lemma_pads_are_zeros(d: Seq<u8>, pos: int, pads: Seq<EntryIo>)
    requires
        0 <= pos <= d.len(),
        forall|i: int| 0 <= i < pads.len() ==> pads[i] is Pad,
    ensures
        contents(d, pos, pads).len() == total_len(pads),
        stored_len(pads) == 0,
        forall|i: int| 0 <= i < total_len(pads) ==> contents(d, pos, pads)[i] == 0,
    decreases pads.len(),
{
    if pads.len() > 0 {
        let front = pads.drop_last();
        lemma_pads_are_zeros(d, pos, front);
        let last = seq![pads.last()];
        assert(pads =~= front + last);
        let n = pads.last()->Pad_0;
        law_single_stretch(d, pos, n);
        law_contents_join(d, pos, front, last);
    }
}

/// What a stored stretch adds to what a sparse file expands to: its bytes stand
/// at its offset, there are zeros between what was there before and that, and
/// what was there before stays as it is.
pub proof fn law_stretch_bytes(d: Seq<u8>, pos: int, map: SparseView, off: u64, len: u64)
    requires
        fits(map),
        add_stretch(map, off, len) is Ok,
        0 <= pos,
        pos + stored_len(map.data) + len <= d.len(),
    ensures
        ({
            let before = contents(d, pos, map.data);
            let after = contents(d, pos, add_stretch(map, off, len)->Ok_0.data);
            &&& after.len() == off + len
            &&& before.len() <= off
            &&& forall|i: int| 0 <= i < before.len() ==> after[i] == before[i]
            &&& forall|i: int| before.len() <= i < off ==> after[i] == 0
            &&& forall|i: int|
                off <= i < off + len ==> after[i] == d[pos + stored_len(map.data) + (i - off)]
        }),
{
    let data = add_stretch(map, off, len)->Ok_0.data;
    law_stretch_is_placed(map, off, len);
    lemma_stored_grows(map.data);
    let front = data.drop_last();
    let pads = front.skip(map.data.len() as int);
    let stored = stored_len(map.data);
    let last = seq![EntryIo::Data(len)];
    assert(map.data =~= front.subrange(0, map.data.len() as int));
    assert(front =~= map.data + pads);
    assert(data =~= front + last);
    lemma_pads_are_zeros(d, pos + stored, pads);
    law_contents_join(d, pos, map.data, pads);
    law_single_stretch(d, pos + stored, len);
    law_contents_join(d, pos, front, last);
    law_contents_len(d, pos, map.data);
}

} // verus!
