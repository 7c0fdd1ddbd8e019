use vstd::prelude::*;
use vstd::slice::slice_subrange;

use crate::entry::{stored_len, total_len, EntryIo};
use crate::error::{other, Error};
use crate::number::{field_number, not_a_number, number_from};

verus! {

/// The stretches of a sparse file that were found so far.
pub struct SparseMap {
    /// How many bytes the archive stores for the file.
    pub size: u64,
    /// Where in the file the next stretch starts.
    pub cur: u64,
    /// How many stored bytes belong to no stretch yet.
    pub remaining: u64,
    /// The stretches.
    pub data: Vec<EntryIo>,
}

/// What a [`SparseMap`] stands for.
#[verifier::ext_equal]
pub struct SparseView {
    pub size: u64,
    pub cur: u64,
    pub remaining: u64,
    pub data: Seq<EntryIo>,
}

impl View for SparseMap {
    type V = SparseView;

    open spec fn view(&self) -> SparseView {
        SparseView { size: self.size, cur: self.cur, remaining: self.remaining, data: self.data@ }
    }
}

/// The map of a sparse file for which the archive stores `size` bytes, before
/// any stretch of it is known.
pub open spec fn empty_map(size: u64) -> SparseView {
    SparseView { size, cur: 0, remaining: size, data: Seq::empty() }
}

/// The stretches `data` with zeros that reach from `cur` to `off`.
pub open spec fn padded(data: Seq<EntryIo>, cur: u64, off: u64) -> Seq<EntryIo> {
    if cur < off {
        data.push(EntryIo::Pad((off - cur) as u64))
    } else {
        data
    }
}

/// The map `map` with the stored stretch that reaches from `off` over `len`
/// bytes, or why it cannot have it.
pub open spec fn add_stretch(map: SparseView, off: u64, len: u64) -> Result<SparseView, Seq<char>> {
    if len != 0 && (map.size - map.remaining) % 512 != 0 {
        Err("previous block in sparse file was not aligned to 512-byte boundary"@)
    } else if off < map.cur {
        Err("out of order or overlapping sparse blocks"@)
    } else if off + len > u64::MAX {
        Err("more bytes listed in sparse file than u64 can hold"@)
    } else if len > map.remaining {
        Err("sparse file consumed more data than the header listed"@)
    } else {
        Ok(
            SparseView {
                size: map.size,
                cur: (off + len) as u64,
                remaining: (map.remaining - len) as u64,
                data: padded(map.data, map.cur, off).push(EntryIo::Data(len)),
            },
        )
    }
}

/// The map `map` with the stretch that the sparse header `field` describes. A
/// sparse header whose offset or length starts with a zero byte is not in use.
pub open spec fn add_header(map: SparseView, field: Seq<u8>) -> Result<SparseView, Seq<char>> {
    if field[0] == 0 || field[12] == 0 {
        Ok(map)
    } else {
        match (field_number(field.subrange(0, 12)), field_number(field.subrange(12, 24))) {
            (Some(off), Some(len)) => add_stretch(map, off, len),
            _ => Err(not_a_number()),
        }
    }
}

/// The map `map` with the stretches that the first `n` sparse headers of
/// `table` describe.
pub open spec fn add_headers(map: SparseView, table: Seq<u8>, n: int) -> Result<SparseView, Seq<char>>
    decreases n,
{
    if n <= 0 {
        Ok(map)
    } else {
        match add_headers(map, table, n - 1) {
            Ok(before) => add_header(before, table.subrange(24 * (n - 1), 24 * n)),
            Err(message) => Err(message),
        }
    }
}

/// Whether `result` is what `expected` says of it.
pub open spec fn map_is(result: Result<SparseMap, Error>, expected: Result<SparseView, Seq<char>>) -> bool {
    match (result, expected) {
        (Ok(map), Ok(view)) => map@ == view,
        (Err(error), Err(message)) => error@ == message,
        _ => false,
    }
}

impl SparseMap {
    /// A map counts no more bytes as left than there are.
    pub open spec fn wf(&self) -> bool {
        self.remaining <= self.size
    }

    /// The map of a file for which the archive stores `size` bytes.
    pub fn new(size: u64) -> (map: SparseMap)
        ensures
            map@ == empty_map(size),
            map.wf(),
    {
        let map = SparseMap { size, cur: 0, remaining: size, data: Vec::new() };
        assert(map@ =~= empty_map(size));
        map
    }

    /// Adds the stored stretch that reaches from `off` over `len` bytes.
    pub fn add_block(self, off: u64, len: u64) -> (result: Result<SparseMap, Error>)
        requires
            self.wf(),
        ensures
            map_is(result, add_stretch(self@, off, len)),
            result is Ok ==> result->Ok_0.wf(),
    {
        let SparseMap { size, cur, remaining, mut data } = self;
        if len != 0 && (size - remaining) % 512 != 0 {
            return Err(other("previous block in sparse file was not aligned to 512-byte boundary"));
        } else if off < cur {
            return Err(other("out of order or overlapping sparse blocks"));
        } else if cur < off {
            data.push(EntryIo::Pad(off - cur));
        }
        let end = match off.checked_add(len) {
            Some(end) => end,
            None => {
                return Err(other("more bytes listed in sparse file than u64 can hold"));
            },
        };
        let left = match remaining.checked_sub(len) {
            Some(left) => left,
            None => {
                return Err(other("sparse file consumed more data than the header listed"));
            },
        };
        data.push(EntryIo::Data(len));
        Ok(SparseMap { size, cur: end, remaining: left, data })
    }

    /// Adds the stretch that the sparse header `field` describes.
    pub fn add_header(self, field: &[u8]) -> (result: Result<SparseMap, Error>)
        requires
            self.wf(),
            field@.len() == 24,
        ensures
            map_is(result, add_header(self@, field@)),
            result is Ok ==> result->Ok_0.wf(),
    {
        if field[0] == 0 || field[12] == 0 {
            return Ok(self);
        }
        let off = match number_from(slice_subrange(field, 0, 12)) {
            Ok(off) => off,
            Err(e) => {
                return Err(e);
            },
        };
        let len = match number_from(slice_subrange(field, 12, 24)) {
            Ok(len) => len,
            Err(e) => {
                return Err(e);
            },
        };
        self.add_block(off, len)
    }

    /// Adds the stretches that the sparse headers of `table` describe.
    pub fn add_headers(self, table: &[u8]) -> (result: Result<SparseMap, Error>)
        requires
            self.wf(),
            table@.len() % 24 == 0,
        ensures
            map_is(result, add_headers(self@, table@, table@.len() as int / 24)),
            result is Ok ==> result->Ok_0.wf(),
    {
        let n: usize = table.len() / 24;
        let ghost start = self@;
        let mut map = self;
        let mut i: usize = 0;
        assert(table@.len() <= usize::MAX);
        while i < n
            invariant
                i <= n,
                n == table@.len() as int / 24,
                24 * n <= table@.len() <= usize::MAX,
                start == self@,
                map.wf(),
                add_headers(start, table@, i as int) == Ok::<SparseView, Seq<char>>(map@),
            decreases n - i,
        {
            let step = map.add_header(slice_subrange(table, 24 * i, 24 * i + 24));
            i += 1;
            match step {
                Ok(next) => {
                    map = next;
                },
                Err(e) => {
                    proof {
                        lemma_add_headers_error(start, table@, i as int, n as int);
                    }
                    return Err(e);
                },
            }
        }
        Ok(map)
    }
}

proof fn lemma_add_headers_error(map: SparseView, table: Seq<u8>, i: int, n: int)
    requires
        0 <= i <= n,
        add_headers(map, table, i) is Err,
    ensures
        add_headers(map, table, n) == add_headers(map, table, i),
    decreases n,
{
    if i < n {
        lemma_add_headers_error(map, table, i, n - 1);
    }
}

/// Whether the stretches of `map` fit together: they add up to where the next
/// one starts, the stored ones add up to what is not left, and each stored one
/// that is not empty starts at a block of the archive.
pub open spec fn fits(map: SparseView) -> bool {
    &&& map.cur == total_len(map.data)
    &&& map.size - map.remaining == stored_len(map.data)
    &&& map.remaining <= map.size
    &&& forall|i: int|
        0 <= i < map.data.len() && map.data[i] is Data && map.data[i] != EntryIo::Data(0)
            ==> stored_len(#[trigger] map.data.take(i)) % 512 == 0
}

proof fn lemma_add_stretch_fits(map: SparseView, off: u64, len: u64)
    requires
        fits(map),
        add_stretch(map, off, len) is Ok,
    ensures
        fits(add_stretch(map, off, len)->Ok_0),
{
    let middle = padded(map.data, map.cur, off);
    let after = add_stretch(map, off, len)->Ok_0;
    if map.cur < off {
        assert(middle.drop_last() =~= map.data);
    }
    assert(after.data.drop_last() =~= middle);
    assert(total_len(middle) == off);
    assert(stored_len(middle) == map.size - map.remaining);
    assert forall|i: int|
        0 <= i < after.data.len() && after.data[i] is Data && after.data[i] != EntryIo::Data(0) implies stored_len(
        #[trigger] after.data.take(i),
    ) % 512 == 0 by {
        if i < map.data.len() {
            assert(after.data[i] == map.data[i]);
            assert(after.data.take(i) =~= map.data.take(i));
        } else {
            assert(i == after.data.len() - 1);
            assert(after.data.take(i) =~= middle);
        }
    }
}

/// The stretches that the sparse headers of a table describe fit together.
pub proof fn law_stretches_fit(map: SparseView, table: Seq<u8>, n: int)
    requires
        fits(map),
        add_headers(map, table, n) is Ok,
    ensures
        fits(add_headers(map, table, n)->Ok_0),
        add_headers(map, table, n)->Ok_0.size == map.size,
    decreases n,
{
    if n > 0 {
        law_stretches_fit(map, table, n - 1);
        let before = add_headers(map, table, n - 1)->Ok_0;
        let field = table.subrange(24 * (n - 1), 24 * n);
        if field[0] != 0 && field[12] != 0 {
            let off = field_number(field.subrange(0, 12))->Some_0;
            let len = field_number(field.subrange(12, 24))->Some_0;
            lemma_add_stretch_fits(before, off, len);
        }
    }
}

/// A stretch is taken where, and only where, it starts at a block of what is
/// stored or is empty, does not reach back into the stretches before it, ends
/// where a `u64` can tell, and is no longer than what is left of the stored
/// bytes.
pub proof fn law_stretch_is_taken(map: SparseView, off: u64, len: u64)
    requires
        fits(map),
    ensures
        add_stretch(map, off, len) is Ok <==> (len == 0 || stored_len(map.data) % 512 == 0) && total_len(
            map.data,
        ) <= off && off + len <= u64::MAX && stored_len(map.data) + len <= map.size,
{
}

/// Why a stretch cannot be taken. Where there is more than one reason, the first
/// of them is told.
pub proof fn law_why_stretch_is_refused(map: SparseView, off: u64, len: u64)
    requires
        fits(map),
    ensures
        add_stretch(map, off, len) matches Err(message) ==> {
            let unaligned = len != 0 && stored_len(map.data) % 512 != 0;
            let overlaps = off < total_len(map.data);
            let too_far = off + len > u64::MAX;
            &&& unaligned ==> message
                == "previous block in sparse file was not aligned to 512-byte boundary"@
            &&& !unaligned && overlaps ==> message == "out of order or overlapping sparse blocks"@
            &&& !unaligned && !overlaps && too_far ==> message
                == "more bytes listed in sparse file than u64 can hold"@
            &&& !unaligned && !overlaps && !too_far ==> message
                == "sparse file consumed more data than the header listed"@
        },
{
}

/// A stretch that is taken stands last, right where it says: behind the
/// stretches before it, which stay as they are, and behind nothing but zeros
/// that reach up to it.
pub proof fn law_stretch_is_placed(map: SparseView, off: u64, len: u64)
    requires
        fits(map),
        add_stretch(map, off, len) is Ok,
    ensures
        ({
            let after = add_stretch(map, off, len)->Ok_0;
            let front = after.data.drop_last();
            &&& after.data.len() > 0 && after.data.last() == EntryIo::Data(len)
            &&& map.data.is_prefix_of(front)
            &&& forall|i: int| map.data.len() <= i < front.len() ==> front[i] is Pad
            &&& total_len(front) == off
            &&& stored_len(front) == stored_len(map.data)
            &&& total_len(after.data) == off + len
            &&& stored_len(after.data) == stored_len(map.data) + len
            &&& after.size == map.size
        }),
{
    let middle = padded(map.data, map.cur, off);
    let after = add_stretch(map, off, len)->Ok_0;
    if map.cur < off {
        assert(middle.drop_last() =~= map.data);
        assert(middle.last() == EntryIo::Pad((off - map.cur) as u64));
    }
    assert(after.data.drop_last() =~= middle);
    assert(after.data.last() == EntryIo::Data(len));
    assert(total_len(middle) == off);
    assert(stored_len(middle) == stored_len(map.data));
    assert(map.data =~= middle.subrange(0, map.data.len() as int));
    assert(map.data.is_prefix_of(middle));
}

/// Whether a stored stretch of `len` bytes stands at `off` in what the stretches
/// `data` expand to.
pub open spec fn placed(data: Seq<EntryIo>, off: u64, len: u64) -> bool {
    exists|i: int|
        0 <= i < data.len() && data[i] == EntryIo::Data(len) && total_len(#[trigger] data.take(i)) == off
}

pub(crate) proof fn lemma_placed_stays(short: Seq<EntryIo>, long: Seq<EntryIo>, off: u64, len: u64)
    requires
        short.is_prefix_of(long),
        placed(short, off, len),
    ensures
        placed(long, off, len),
{
    let i = choose|i: int|
        0 <= i < short.len() && short[i] == EntryIo::Data(len) && total_len(#[trigger] short.take(i)) == off;
    assert(short =~= long.subrange(0, short.len() as int));
    assert(long.take(i) =~= short.take(i));
}

/// Whether the sparse header that stands in `t` from `p` on is in use.
pub open spec fn in_use(t: Seq<u8>, p: int) -> bool {
    t[p] != 0 && t[p + 12] != 0
}

/// Whether the sparse header number `i` of those that stand in `t` from `start`
/// on, if it is in use, is heeded: it gives an offset in its first twelve bytes
/// and a length in the next twelve, and the stretches `data` have a stored
/// stretch of that length at that offset.
pub open spec fn heeded(t: Seq<u8>, start: int, i: int, data: Seq<EntryIo>) -> bool {
    let p = start + 24 * i;
    in_use(t, p) ==> {
        &&& field_number(t.subrange(p, p + 12)) is Some
        &&& field_number(t.subrange(p + 12, p + 24)) is Some
        &&& placed(
            data,
            field_number(t.subrange(p, p + 12))->Some_0,
            field_number(t.subrange(p + 12, p + 24))->Some_0,
        )
    }
}

pub(crate) proof fn lemma_heeded_stays(
    t: Seq<u8>,
    start: int,
    i: int,
    short: Seq<EntryIo>,
    long: Seq<EntryIo>,
)
    requires
        heeded(t, start, i, short),
        short.is_prefix_of(long),
    ensures
        heeded(t, start, i, long),
{
    let p = start + 24 * i;
    if in_use(t, p) {
        lemma_placed_stays(
            short,
            long,
            field_number(t.subrange(p, p + 12))->Some_0,
            field_number(t.subrange(p + 12, p + 24))->Some_0,
        );
    }
}

pub(crate) proof fn lemma_heeded_in_part(
    t: Seq<u8>,
    from: int,
    to: int,
    i: int,
    data: Seq<EntryIo>,
)
    requires
        0 <= from <= to <= t.len(),
        0 <= i,
        24 * (i + 1) <= to - from,
        heeded(t.subrange(from, to), 0, i, data),
    ensures
        heeded(t, from, i, data),
{
    let part = t.subrange(from, to);
    let p = 24 * i;
    assert(part[p] == t[from + p] && part[p + 12] == t[from + p + 12]);
    assert(part.subrange(p, p + 12) =~= t.subrange(from + p, from + p + 12));
    assert(part.subrange(p + 12, p + 24) =~= t.subrange(from + p + 12, from + p + 24));
}

/// Every sparse header of a table that is in use has its stretch at its place,
/// and the stretches before stay as they are.
pub proof fn law_headers_are_heeded(map: SparseView, table: Seq<u8>, n: int)
    requires
        fits(map),
        0 <= n,
        24 * n <= table.len(),
        add_headers(map, table, n) is Ok,
    ensures
        map.data.is_prefix_of(add_headers(map, table, n)->Ok_0.data),
        forall|i: int|
            0 <= i < n ==> #[trigger] heeded(table, 0, i, add_headers(map, table, n)->Ok_0.data),
    decreases n,
{
    if n > 0 {
        let before = add_headers(map, table, n - 1)->Ok_0;
        let after = add_headers(map, table, n)->Ok_0;
        let field = table.subrange(24 * (n - 1), 24 * n);
        law_headers_are_heeded(map, table, n - 1);
        law_stretches_fit(map, table, n - 1);
        let p = 24 * (n - 1);
        assert(field[0] == table[p] && field[12] == table[p + 12]);
        assert(field.subrange(0, 12) =~= table.subrange(p, p + 12));
        assert(field.subrange(12, 24) =~= table.subrange(p + 12, p + 24));
        if in_use(table, p) {
            let off = field_number(field.subrange(0, 12))->Some_0;
            let len = field_number(field.subrange(12, 24))->Some_0;
            law_stretch_is_placed(before, off, len);
            let front = after.data.drop_last();
            assert(before.data =~= front.subrange(0, before.data.len() as int));
            assert(before.data =~= after.data.subrange(0, before.data.len() as int));
            assert(after.data.take(after.data.len() - 1) =~= front);
            assert(placed(after.data, off, len));
        } else {
            assert(after == before);
            assert(before.data =~= after.data.subrange(0, before.data.len() as int));
        }
        assert(map.data =~= after.data.subrange(0, map.data.len() as int)) by {
            assert(map.data =~= before.data.subrange(0, map.data.len() as int));
        }
        assert forall|i: int| 0 <= i < n implies #[trigger] heeded(table, 0, i, after.data) by {
            if i < n - 1 {
                assert(heeded(table, 0, i, before.data));
                lemma_heeded_stays(table, 0, i, before.data, after.data);
            }
        }
    } else {
        assert(map.data =~= map.data.subrange(0, map.data.len() as int));
    }
}

/// A sparse header is an offset and then a length, twelve bytes each. One of
/// which either field starts with a zero byte is passed over; of any other, both
/// fields must hold numbers, and its stretch is added.
pub proof fn law_header_is_added(map: SparseView, offset: Seq<u8>, length: Seq<u8>)
    requires
        offset.len() == 12,
        length.len() == 12,
    ensures
        offset[0] == 0 || length[0] == 0 ==> add_header(map, offset + length) == Ok::<
            SparseView,
            Seq<char>,
        >(map),
        offset[0] != 0 && length[0] != 0 && field_number(offset) is Some && field_number(length) is Some
            ==> add_header(map, offset + length) == add_stretch(
            map,
            field_number(offset)->Some_0,
            field_number(length)->Some_0,
        ),
        offset[0] != 0 && length[0] != 0 && (field_number(offset) is None || field_number(length) is None)
            ==> add_header(map, offset + length) == Err::<SparseView, Seq<char>>(
            "numeric field was not a number"@,
        ),
{
    let field = offset + length;
    assert(field[0] == offset[0] && field[12] == length[0]);
    assert(field.subrange(0, 12) =~= offset);
    assert(field.subrange(12, 24) =~= length);
}

proof fn lemma_add_headers_of_front(map: SparseView, a: Seq<u8>, b: Seq<u8>, n: int)
    requires
        0 <= n,
        24 * n <= a.len(),
    ensures
        add_headers(map, a + b, n) == add_headers(map, a, n),
    decreases n,
{
    if n > 0 {
        lemma_add_headers_of_front(map, a, b, n - 1);
        assert((a + b).subrange(24 * (n - 1), 24 * n) =~= a.subrange(24 * (n - 1), 24 * n));
    }
}

/// The sparse headers of a table are added one by one, in order, until one cannot
/// be.
pub proof fn law_headers_are_added_in_order(map: SparseView, table: Seq<u8>, field: Seq<u8>, n: int)
    requires
        0 <= n,
        table.len() == 24 * n,
        field.len() == 24,
    ensures
        add_headers(map, table, 0) == Ok::<SparseView, Seq<char>>(map),
        add_headers(map, table + field, n + 1) == match add_headers(map, table, n) {
            Ok(before) => add_header(before, field),
            Err(message) => Err(message),
        },
{
    lemma_add_headers_of_front(map, table, field, n);
    assert((table + field).subrange(24 * n, 24 * (n + 1)) =~= field);
}

/// Before any stretch of a sparse file is known, it has none, and all that is
/// stored of it is left.
pub proof fn law_empty_map(size: u64)
    ensures
        fits(empty_map(size)),
        empty_map(size).data.len() == 0,
        empty_map(size).size == size,
        empty_map(size).remaining == size,
        total_len(empty_map(size).data) == 0,
{
}

} // verus!
