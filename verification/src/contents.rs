use vstd::prelude::*;

use crate::entry::{stored_len, total_len, EntryFields, EntryIo, EntryView};
use crate::grammar::window;

verus! {

/// `n` zeros.
pub open spec fn zeros(n: int) -> Seq<u8> {
    Seq::new(n as nat, |i: int| 0u8)
}

/// What the stretches `data` hold, where what is stored of them stands in `d`
/// from `pos` on. A stretch that `d` lacks the end of holds what is there.
pub open spec fn contents(d: Seq<u8>, pos: int, data: Seq<EntryIo>) -> Seq<u8>
    decreases data.len(),
{
    if data.len() == 0 {
        Seq::empty()
    } else {
        match data[0] {
            EntryIo::Pad(n) => zeros(n as int) + contents(d, pos, data.skip(1)),
            EntryIo::Data(n) => {
                let w = window(d, pos, n as int);
                w + contents(d, pos + w.len(), data.skip(1))
            },
        }
    }
}

/// How an entry's contents go on.
#[derive(Clone, Copy, Debug, PartialEq, Eq, Structural)]
pub enum Piece {
    /// With this many zeros.
    Zeros(usize),
    /// With what stands next in the archive, at most this many bytes.
    Read(usize),
    /// Not at all.
    End,
}

/// The stretches `data` without those at the start that are empty.
pub open spec fn without_empty(data: Seq<EntryIo>) -> Seq<EntryIo>
    decreases data.len(),
{
    if data.len() > 0 && (data[0] == EntryIo::Pad(0) || data[0] == EntryIo::Data(0)) {
        without_empty(data.skip(1))
    } else {
        data
    }
}

/// How many bytes a stretch holds.
pub open spec fn stretch_len(stretch: EntryIo) -> u64 {
    match stretch {
        EntryIo::Pad(n) => n,
        EntryIo::Data(n) => n,
    }
}

/// `n`, or `room` where that is less.
pub open spec fn within_room(n: u64, room: usize) -> usize {
    if n < room {
        n as usize
    } else {
        room
    }
}

/// How the contents in the stretches `data` go on, where there is room for
/// `room` bytes.
pub open spec fn first_piece(data: Seq<EntryIo>, room: usize) -> Piece {
    let left = without_empty(data);
    if left.len() == 0 {
        Piece::End
    } else {
        match left[0] {
            EntryIo::Pad(n) => Piece::Zeros(within_room(n, room)),
            EntryIo::Data(n) => Piece::Read(within_room(n, room)),
        }
    }
}

/// What is left of the stretches `data` once the piece was asked for: zeros are
/// given at once, and bytes that are to be read are still to come.
pub open spec fn after_piece(data: Seq<EntryIo>, room: usize) -> Seq<EntryIo> {
    let left = without_empty(data);
    match first_piece(data, room) {
        Piece::Zeros(n) => left.update(0, EntryIo::Pad((stretch_len(left[0]) - n) as u64)),
        _ => left,
    }
}

/// What is left of the stretches `data` once `n` bytes of the first of them were
/// read. Nothing more comes of a stretch of which none were read.
pub open spec fn after_read(data: Seq<EntryIo>, n: int) -> Seq<EntryIo> {
    if n == 0 {
        data.skip(1)
    } else {
        data.update(0, EntryIo::Data((stretch_len(data[0]) - n) as u64))
    }
}

impl EntryFields {
    /// Tells how the entry's contents go on, where there is room for `room`
    /// bytes. Zeros count as read; what is to be read from the archive counts
    /// once that is told.
    pub fn next_piece(&mut self, room: usize) -> (piece: Piece)
        ensures
            piece == first_piece(old(self).data@, room),
            final(self)@ == (EntryView { data: after_piece(old(self).data@, room), ..old(self)@ }),
    {
        while self.data.len() > 0 && (self.data[0] == EntryIo::Pad(0) || self.data[0]
            == EntryIo::Data(0))
            invariant
                without_empty(self.data@) == without_empty(old(self).data@),
                self@ == (EntryView { data: self.data@, ..old(self)@ }),
            decreases self.data@.len(),
        {
            let ghost before = self.data@;
            self.data.remove(0);
            assert(self.data@ =~= before.skip(1));
        }
        if self.data.len() == 0 {
            return Piece::End;
        }
        match self.data[0] {
            EntryIo::Pad(left) => {
                let n: usize = if left < room as u64 {
                    left as usize
                } else {
                    room
                };
                self.data.set(0, EntryIo::Pad(left - n as u64));
                Piece::Zeros(n)
            },
            EntryIo::Data(left) => {
                let n: usize = if left < room as u64 {
                    left as usize
                } else {
                    room
                };
                Piece::Read(n)
            },
        }
    }

    /// Takes note that `n` bytes were read of what [`EntryFields::next_piece`]
    /// said is to be read.
    pub fn note_read(&mut self, n: usize)
        requires
            old(self).data@.len() > 0,
            old(self).data@[0] matches EntryIo::Data(left) && n <= left,
        ensures
            final(self)@ == (EntryView { data: after_read(old(self).data@, n as int), ..old(self)@ }),
    {
        if n == 0 {
            self.data.remove(0);
            assert(self.data@ =~= old(self).data@.skip(1));
        } else if let EntryIo::Data(left) = self.data[0] {
            self.data.set(0, EntryIo::Data(left - n as u64));
        }
    }
}

proof fn lemma_lens_from_front(data: Seq<EntryIo>)
    requires
        data.len() > 0,
    ensures
        total_len(data) == stretch_len(data[0]) + total_len(data.skip(1)),
        stored_len(data) == stored_part(data[0]) + stored_len(data.skip(1)),
    decreases data.len(),
{
    let rest = data.skip(1);
    if data.len() == 1 {
        assert(data.drop_last() =~= Seq::empty());
        assert(rest =~= Seq::empty());
        assert(total_len(data.drop_last()) == 0);
        assert(stored_len(data.drop_last()) == 0);
        assert(total_len(rest) == 0);
        assert(stored_len(rest) == 0);
    } else {
        lemma_lens_from_front(data.drop_last());
        assert(data.drop_last().skip(1) =~= rest.drop_last());
        assert(rest.last() == data.last());
    }
}

/// How many bytes of a stretch the archive stores.
pub open spec fn stored_part(stretch: EntryIo) -> u64 {
    match stretch {
        EntryIo::Pad(_) => 0,
        EntryIo::Data(n) => n,
    }
}

proof fn lemma_without_empty(d: Seq<u8>, pos: int, data: Seq<EntryIo>)
    requires
        0 <= pos,
    ensures
        contents(d, pos, without_empty(data)) == contents(d, pos, data),
        stored_len(without_empty(data)) == stored_len(data),
        total_len(without_empty(data)) == total_len(data),
        without_empty(data).len() > 0 ==> stretch_len(without_empty(data)[0]) > 0,
    decreases data.len(),
{
    if data.len() > 0 && (data[0] == EntryIo::Pad(0) || data[0] == EntryIo::Data(0)) {
        lemma_without_empty(d, pos, data.skip(1));
        lemma_lens_from_front(data);
        assert(window(d, pos, 0) =~= Seq::empty());
        assert(zeros(0) =~= Seq::empty());
        assert(Seq::<u8>::empty() + contents(d, pos, data.skip(1)) =~= contents(d, pos, data.skip(1)));
    }
}

pub(crate) proof fn lemma_stored_grows(data: Seq<EntryIo>)
    ensures
        0 <= stored_len(data) <= total_len(data),
    decreases data.len(),
{
    if data.len() > 0 {
        lemma_stored_grows(data.drop_last());
    }
}

/// The pieces that an entry's contents are asked for make up those contents, in
/// order: zeros come in front of what is left, and where nothing more comes,
/// nothing is left. A piece takes up all the room that there is, unless its
/// stretch has less left. Asking takes nothing away of what is still to be read,
/// and where there is room, no piece is empty.
pub proof fn law_pieces_make_up_contents(d: Seq<u8>, pos: int, data: Seq<EntryIo>, room: usize)
    requires
        0 <= pos,
    ensures
        ({
            let after = after_piece(data, room);
            &&& match first_piece(data, room) {
                Piece::Zeros(n) => {
                    &&& contents(d, pos, data) == zeros(n as int) + contents(d, pos, after)
                    &&& n == room || n < room && after[0] == EntryIo::Pad(0)
                    &&& room > 0 ==> n > 0
                },
                Piece::Read(n) => {
                    &&& contents(d, pos, data) == contents(d, pos, after)
                    &&& after.len() > 0 && after[0] is Data && n <= stretch_len(after[0])
                    &&& n == room || n < room && after[0] == EntryIo::Data(n as u64)
                    &&& room > 0 ==> n > 0
                },
                Piece::End => contents(d, pos, data) == Seq::<u8>::empty() && stored_len(data) == 0,
            }
            &&& stored_len(after) == stored_len(data)
        }),
{
    lemma_without_empty(d, pos, data);
    let left = without_empty(data);
    let after = after_piece(data, room);
    if left.len() > 0 {
        lemma_lens_from_front(left);
        lemma_lens_from_front(after);
        assert(after.skip(1) =~= left.skip(1));
        if let Piece::Zeros(n) = first_piece(data, room) {
            let m = stretch_len(left[0]);
            let rest = contents(d, pos, left.skip(1));
            assert(zeros(m as int) + rest =~= zeros(n as int) + (zeros(m - n) + rest));
        }
    }
}

/// The bytes that are read for an entry stand in front of what is left of its
/// contents, and count as read. Where the archive ends, nothing more comes of
/// the stretch that is read.
pub proof fn law_bytes_read_make_up_contents(d: Seq<u8>, pos: int, data: Seq<EntryIo>, n: int)
    requires
        0 <= pos,
        0 <= n,
        data.len() > 0,
        data[0] matches EntryIo::Data(left) && n <= left,
        window(d, pos, n).len() == n,
        n == 0 ==> pos >= d.len(),
    ensures
        contents(d, pos, data) == window(d, pos, n) + contents(d, pos + n, after_read(data, n)),
        stored_len(after_read(data, n)) <= stored_len(data) - n,
{
    let after = after_read(data, n);
    lemma_lens_from_front(data);
    if n == 0 {
        let w = window(d, pos, stretch_len(data[0]) as int);
        assert(w =~= Seq::empty());
        assert(window(d, pos, 0) =~= Seq::empty());
    } else {
        lemma_lens_from_front(after);
        assert(after.skip(1) =~= data.skip(1));
        let left = stretch_len(data[0]) as int;
        let w = window(d, pos, left);
        let rest = window(d, pos + n, left - n);
        assert(w =~= window(d, pos, n) + rest);
        let tail = contents(d, pos + w.len(), data.skip(1));
        assert(w + tail =~= window(d, pos, n) + (rest + tail));
    }
}

/// Where the archive holds all that is stored of an entry, the entry's contents
/// come to the entry's size.
pub proof fn law_contents_len(d: Seq<u8>, pos: int, data: Seq<EntryIo>)
    requires
        0 <= pos,
        pos + stored_len(data) <= d.len(),
    ensures
        contents(d, pos, data).len() == total_len(data),
    decreases data.len(),
{
    if data.len() > 0 {
        lemma_lens_from_front(data);
        lemma_stored_grows(data.skip(1));
        law_contents_len(d, pos + stored_part(data[0]), data.skip(1));
    }
}

/// The contents of an entry in one stored stretch are the bytes that stand in
/// the archive.
pub proof fn law_plain_contents(d: Seq<u8>, pos: int, size: u64)
    requires
        0 <= pos,
    ensures
        contents(d, pos, seq![EntryIo::Data(size)]) == window(d, pos, size as int),
{
    let data = seq![EntryIo::Data(size)];
    assert(data.skip(1) =~= Seq::empty());
    let w = window(d, pos, size as int);
    assert(data[0] == EntryIo::Data(size));
    assert(contents(d, pos + w.len(), data.skip(1)) =~= Seq::<u8>::empty());
    assert(w + Seq::<u8>::empty() =~= w);
}

/// The contents of stretches that follow one another follow one another, and so
/// do the places from which what is stored of them is read; their lengths add
/// up.
pub proof fn law_contents_join(d: Seq<u8>, pos: int, a: Seq<EntryIo>, b: Seq<EntryIo>)
    requires
        0 <= pos,
        pos + stored_len(a) + stored_len(b) <= d.len(),
    ensures
        contents(d, pos, a + b) == contents(d, pos, a) + contents(d, pos + stored_len(a), b),
        total_len(a + b) == total_len(a) + total_len(b),
        stored_len(a + b) == stored_len(a) + stored_len(b),
    decreases a.len(),
{
    lemma_stored_grows(b);
    if a.len() == 0 {
        assert(a + b =~= b);
        assert(Seq::<u8>::empty() + contents(d, pos, b) =~= contents(d, pos, b));
    } else {
        let rest = a.skip(1);
        let both = a + b;
        lemma_lens_from_front(a);
        lemma_lens_from_front(both);
        lemma_stored_grows(rest);
        assert(both.skip(1) =~= rest + b);
        assert(both[0] == a[0]);
        let n = stored_part(a[0]) as int;
        law_contents_join(d, pos + n, rest, b);
        let tail = contents(d, pos + n, rest);
        let more = contents(d, pos + stored_len(a), b);
        let first = match a[0] {
            EntryIo::Pad(m) => zeros(m as int),
            EntryIo::Data(m) => window(d, pos, m as int),
        };
        assert(contents(d, pos, both) == first + contents(d, pos + n, rest + b));
        assert(first + (tail + more) =~= (first + tail) + more);
    }
}

/// One stretch of zeros holds that many zeros, and takes nothing from the
/// archive; one stored stretch holds the bytes that stand there, and takes them.
pub proof fn law_single_stretch(d: Seq<u8>, pos: int, n: u64)
    requires
        0 <= pos,
    ensures
        contents(d, pos, seq![EntryIo::Pad(n)]).len() == n,
        forall|i: int| 0 <= i < n ==> contents(d, pos, seq![EntryIo::Pad(n)])[i] == 0,
        pos + n <= d.len() ==> contents(d, pos, seq![EntryIo::Data(n)]) == d.subrange(pos, pos + n),
        total_len(seq![EntryIo::Pad(n)]) == n,
        total_len(seq![EntryIo::Data(n)]) == n,
        stored_len(seq![EntryIo::Pad(n)]) == 0,
        stored_len(seq![EntryIo::Data(n)]) == n,
{
    let pad = seq![EntryIo::Pad(n)];
    let data = seq![EntryIo::Data(n)];
    lemma_lens_from_front(pad);
    lemma_lens_from_front(data);
    assert(pad.skip(1) =~= Seq::empty());
    assert(data.skip(1) =~= Seq::empty());
    assert(total_len(Seq::<EntryIo>::empty()) == 0);
    assert(stored_len(Seq::<EntryIo>::empty()) == 0);
    assert(contents(d, pos, pad.skip(1)) =~= Seq::<u8>::empty());
    assert(contents(d, pos, pad) =~= zeros(n as int));
    law_plain_contents(d, pos, n);
}

} // verus!
