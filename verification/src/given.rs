use vstd::prelude::*;

use crate::entries::{blank, blank_extension, sparse_read, with_description, Config, EntriesView, BLOCK};
use crate::entry::{stored_len, total_len, EntryIo, EntryView};
use crate::entry_type::EntryType;
use crate::grammar::{
    answer_of, clipped, extension_answer, header_answer, plain_answer, search, window, Answer,
};
use crate::header::{
    all_zero, checksum, is_extended, is_gnu, put, stated_checksum, stated_real_size, stated_size,
    stated_type,
};
use crate::laws::lemma_whole;
use crate::member::{blocks_len, member_size, read_member, role_of, with_owner, Member, Role};
use crate::sparse::{
    add_headers, empty_map, fits, heeded, law_headers_are_heeded, law_stretches_fit, lemma_heeded_in_part,
    lemma_heeded_stays, SparseView,
};

verus! {

/// The block that stands at `p` in `d`, with zeros for what `d` lacks of it.
pub open spec fn block_at(d: Seq<u8>, p: int) -> Seq<u8> {
    put(blank(), 0, window(d, p, 512))
}

/// Whether `entry` is an entry with the header block that stands at its
/// position in `d`: that block is not blank, its checksum is right, and the
/// entry's header differs from it at most in the owner and the group that the
/// extension in front of it gives.
pub open spec fn headed(d: Seq<u8>, entry: EntryView) -> bool {
    let h = block_at(d, entry.header_pos as int);
    &&& entry.header_pos < d.len()
    &&& entry.file_pos == entry.header_pos + BLOCK
    &&& !all_zero(h)
    &&& stated_checksum(h) is Some && stated_checksum(h)->Some_0 == checksum(h)
    &&& stated_size(h) is Some
    &&& entry.header == with_owner(h, entry.pax_extensions)
}

/// How many bytes the archive `d` stores for `entry`.
pub open spec fn stored_size(d: Seq<u8>, entry: EntryView) -> u64 {
    member_size(
        stated_size(block_at(d, entry.header_pos as int))->Some_0,
        entry.pax_extensions,
    )
}

/// Whether the contents of `entry` are laid out as the archive `d` tells, where
/// the archive was read up to `pos` and the next header stands at `next`. A
/// sparse file may have blocks with sparse headers in front of its contents,
/// and its stretches come to the size that its header states for it.
pub open spec fn laid_out(d: Seq<u8>, entry: EntryView, next: u64, pos: int, raw: bool) -> bool {
    let stored = stored_size(d, entry);
    &&& total_len(entry.data) == entry.size
    &&& stored_len(entry.data) == stored
    &&& pos + stored <= next
    &&& if raw || stated_type(entry.header) != EntryType::GNUSparse {
        &&& entry.size == stored
        &&& entry.data == seq![EntryIo::Data(stored)]
        &&& next == entry.file_pos + blocks_len(stored as int)
        &&& pos == clipped(d, entry.file_pos as int)
    } else {
        &&& is_gnu(entry.header)
        &&& stated_real_size(entry.header) == Some(entry.size)
        &&& next >= entry.file_pos + blocks_len(stored as int)
        &&& (next - entry.file_pos) % 512 == 0
        &&& all_heeded(d, entry.header, entry.file_pos as int, entry.data)
    }
}

/// Whether a block with sparse headers stands in `d` as number `k` of those from
/// `start` on: each one before it says that one follows, and none of it is cut
/// off.
pub open spec fn chained(d: Seq<u8>, start: int, k: int) -> bool {
    &&& 0 <= k
    &&& start + 512 * (k + 1) <= d.len()
    &&& forall|j: int| 0 <= j < k ==> d[#[trigger] flag_at(start, j)] == 1
}

/// Where block number `j` of those from `start` on says whether one follows it.
pub open spec fn flag_at(start: int, j: int) -> int {
    start + 512 * j + 504
}

/// Whether the sparse header number `i` in block number `k` of those from
/// `start` on is heeded.
pub open spec fn block_heeded(d: Seq<u8>, start: int, k: int, i: int, data: Seq<EntryIo>) -> bool {
    heeded(d, start + 512 * k, i, data)
}

/// Whether all sparse headers of a file that are in use are heeded: the four in
/// its header, and, where that says so, the twenty-one in each block that
/// follows it from `start` on.
pub open spec fn all_heeded(d: Seq<u8>, header: Seq<u8>, start: int, data: Seq<EntryIo>) -> bool {
    &&& forall|i: int| 0 <= i < 4 ==> #[trigger] heeded(header, 386, i, data)
    &&& is_extended(header) ==> forall|k: int, i: int|
        chained(d, start, k) && 0 <= i < 21 ==> #[trigger] block_heeded(d, start, k, i, data)
}

/// Whether `a` gives an entry only where the archive `d` holds that entry behind
/// `next`, a whole number of blocks further on.
pub open spec fn faithful(d: Seq<u8>, next: u64, raw: bool, config: Config, a: Answer) -> bool {
    a matches Answer::Entry { entry, next: after, pos } ==> {
        &&& next <= entry.header_pos
        &&& (entry.header_pos - next) % 512 == 0
        &&& (after - next) % 512 == 0
        &&& entry.options == config.options
        &&& headed(d, entry)
        &&& laid_out(d, entry, after, pos, raw)
        &&& raw ==> entry.long_pathname is None && entry.long_linkname is None && entry.pax_extensions is None
    }
}

proof fn lemma_blocks_len(size: int)
    requires
        0 <= size,
    ensures
        size <= blocks_len(size) < size + 512,
        blocks_len(size) % 512 == 0,
{
}

/// Whether `entry` was just read with the header at `header_pos`, for the
/// iteration `s`.
spec fn fresh(d: Seq<u8>, s: EntriesView, header_pos: u64, entry: EntryView, config: Config) -> bool {
    let h = block_at(d, header_pos as int);
    &&& header_pos < d.len()
    &&& entry.header_pos == header_pos
    &&& entry.file_pos == header_pos + BLOCK
    &&& !all_zero(h)
    &&& stated_checksum(h) is Some && stated_checksum(h)->Some_0 == checksum(h)
    &&& stated_size(h) is Some
    &&& entry.header == with_owner(h, s.pax)
    &&& entry.size == member_size(stated_size(h)->Some_0, s.pax)
    &&& entry.data == seq![EntryIo::Data(entry.size)]
    &&& entry.options == config.options
}

proof fn lemma_sparse_read(
    d: Seq<u8>,
    s: EntriesView,
    header_pos: u64,
    pos: int,
    entry: EntryView,
    map: SparseView,
    config: Config,
)
    requires
        fresh(d, s, header_pos, entry, config),
        !s.raw,
        stated_type(entry.header) == EntryType::GNUSparse,
        is_gnu(entry.header),
        fits(map),
        map.size == entry.size,
        pos + map.size <= s.next,
        s.next >= entry.file_pos + blocks_len(entry.size as int),
        (s.next - entry.file_pos) % 512 == 0,
        all_heeded(d, entry.header, entry.file_pos as int, map.data),
    ensures
        faithful(d, header_pos, false, config, answer_of(sparse_read(s, entry, map), pos)),
{
}

/// Whether the sparse headers in the first `k` blocks from `start` on are heeded.
spec fn heeded_up_to(d: Seq<u8>, start: int, k: int, data: Seq<EntryIo>) -> bool {
    forall|m: int, i: int|
        m < k && chained(d, start, m) && 0 <= i < 21 ==> #[trigger] block_heeded(d, start, m, i, data)
}

proof fn lemma_block_heeded(
    d: Seq<u8>,
    entry: EntryView,
    k: int,
    map: SparseView,
    block: Seq<u8>,
    w: Seq<u8>,
)
    requires
        fits(map),
        0 <= k,
        block.len() == 512,
        w == window(d, clipped(d, entry.file_pos + 512 * k), 512),
        add_headers(map, put(block, 0, w).subrange(0, 504), 21) is Ok,
        forall|i: int| 0 <= i < 4 ==> #[trigger] heeded(entry.header, 386, i, map.data),
        heeded_up_to(d, entry.file_pos as int, k, map.data),
    ensures
        ({
            let longer = add_headers(map, put(block, 0, w).subrange(0, 504), 21)->Ok_0;
            &&& forall|i: int| 0 <= i < 4 ==> #[trigger] heeded(entry.header, 386, i, longer.data)
            &&& heeded_up_to(d, entry.file_pos as int, k + 1, longer.data)
        }),
{
    let start = entry.file_pos as int;
    let table = put(block, 0, w).subrange(0, 504);
    let longer = add_headers(map, table, 21)->Ok_0;
    law_headers_are_heeded(map, table, 21);
    assert forall|i: int| 0 <= i < 4 implies #[trigger] heeded(entry.header, 386, i, longer.data) by {
        lemma_heeded_stays(entry.header, 386, i, map.data, longer.data);
    }
    assert forall|m: int, i: int|
        m < k + 1 && chained(d, start, m) && 0 <= i < 21 implies #[trigger] block_heeded(
        d,
        start,
        m,
        i,
        longer.data,
    ) by {
        if m < k {
            assert(block_heeded(d, start, m, i, map.data));
            lemma_heeded_stays(d, start + 512 * m, i, map.data, longer.data);
        } else {
            let p = start + 512 * k;
            assert(table =~= d.subrange(p, p + 504));
            assert(heeded(table, 0, i, longer.data));
            lemma_heeded_in_part(d, p, p + 504, i, longer.data);
        }
    }
}

proof fn lemma_extension_answer(
    d: Seq<u8>,
    s: EntriesView,
    header_pos: u64,
    pos: int,
    entry: EntryView,
    map: SparseView,
    block: Seq<u8>,
    k: int,
    config: Config,
)
    requires
        fresh(d, s, header_pos, entry, config),
        !s.raw,
        stated_type(entry.header) == EntryType::GNUSparse,
        is_gnu(entry.header),
        block.len() == 512,
        fits(map),
        map.size == entry.size,
        0 <= pos,
        pos + map.size <= s.next,
        s.next >= entry.file_pos + blocks_len(entry.size as int),
        (s.next - entry.file_pos) % 512 == 0,
        0 <= k,
        pos == clipped(d, entry.file_pos + 512 * k),
        forall|i: int| 0 <= i < 4 ==> #[trigger] heeded(entry.header, 386, i, map.data),
        heeded_up_to(d, entry.file_pos as int, k, map.data),
    ensures
        faithful(d, header_pos, false, config, extension_answer(d, s, pos, entry, map, block, 0)),
    decreases u64::MAX - s.next,
{
    reveal(extension_answer);
    let w = window(d, pos, 512);
    let read = put(block, 0, w);
    let end = pos + w.len();
    let table = read.subrange(0, 504);
    let start = entry.file_pos as int;
    if s.next + BLOCK <= u64::MAX && add_headers(map, table, 21) is Ok {
        let behind = EntriesView { next: (s.next + BLOCK) as u64, ..s };
        let longer = add_headers(map, table, 21)->Ok_0;
        law_stretches_fit(map, table, 21);
        lemma_block_heeded(d, entry, k, map, block, w);
        assert(end == clipped(d, start + 512 * (k + 1)));
        if read[504] == 1 {
            lemma_extension_answer(d, behind, header_pos, end, entry, longer, read, k + 1, config);
        } else {
            assert forall|m: int, i: int|
                chained(d, start, m) && 0 <= i < 21 implies #[trigger] block_heeded(
                d,
                start,
                m,
                i,
                longer.data,
            ) by {
                if m > k {
                    assert(d[flag_at(start, k)] == 1);
                    assert(read[504] == w[504]);
                    assert(w[504] == d[pos + 504]);
                }
            }
            lemma_sparse_read(d, behind, header_pos, end, entry, longer, config);
        }
    }
}

proof fn lemma_plain_answer(
    d: Seq<u8>,
    s: EntriesView,
    header_pos: u64,
    pos: int,
    entry: EntryView,
    config: Config,
)
    requires
        fresh(d, s, header_pos, entry, config),
        !s.raw,
        0 <= pos,
        pos == clipped(d, entry.file_pos as int),
        s.next == entry.file_pos + blocks_len(entry.size as int),
    ensures
        faithful(d, header_pos, false, config, plain_answer(d, s, pos, entry)),
{
    lemma_whole(entry.size);
    lemma_blocks_len(entry.size as int);
    if stated_type(entry.header) == EntryType::GNUSparse {
        let start = empty_map(entry.size);
        let table = entry.header.subrange(386, 482);
        assert(fits(start));
        if is_gnu(entry.header) && add_headers(start, table, 4) is Ok {
            let map = add_headers(start, table, 4)->Ok_0;
            law_stretches_fit(start, table, 4);
            law_headers_are_heeded(start, table, 4);
            assert forall|i: int| 0 <= i < 4 implies #[trigger] heeded(entry.header, 386, i, map.data) by {
                assert(heeded(table, 0, i, map.data));
                lemma_heeded_in_part(entry.header, 386, 482, i, map.data);
            }
            if is_extended(entry.header) {
                lemma_extension_answer(
                    d,
                    s,
                    header_pos,
                    pos,
                    entry,
                    map,
                    blank_extension(),
                    0,
                    config,
                );
            } else {
                lemma_sparse_read(d, s, header_pos, pos, entry, map, config);
            }
        }
    }
}

proof fn lemma_further(d: Seq<u8>, near: u64, far: u64, raw: bool, config: Config, a: Answer)
    requires
        near <= far,
        (far - near) % 512 == 0,
        faithful(d, far, raw, config, a),
    ensures
        faithful(d, near, raw, config, a),
{
}

proof fn lemma_fresh(d: Seq<u8>, s: EntriesView, member: Member, pax: Option<Seq<u8>>, config: Config)
    requires
        s.next < d.len(),
        s.next + BLOCK <= u64::MAX,
        !all_zero(block_at(d, s.next as int)),
        pax == (if s.raw {
            None
        } else {
            s.pax
        }),
        read_member(
            block_at(d, s.next as int),
            s.next,
            (s.next + BLOCK) as u64,
            pax,
            config.options,
        ) == Ok::<Member, Seq<char>>(member),
    ensures
        !s.raw ==> fresh(d, s, s.next, member.entry, config),
        s.raw ==> faithful(
            d,
            s.next,
            true,
            config,
            Answer::Entry {
                entry: member.entry,
                next: member.next,
                pos: clipped(d, s.next + BLOCK),
            },
        ),
        member.next == s.next + BLOCK + blocks_len(member.entry.size as int),
        member.next >= s.next + BLOCK,
        (member.next - s.next) % 512 == 0,
        member.entry.file_pos == s.next + BLOCK,
{
    lemma_blocks_len(member.entry.size as int);
    lemma_whole(member.entry.size);
}

proof fn lemma_member_answer(d: Seq<u8>, s: EntriesView, filled: int, config: Config)
    requires
        0 < filled,
        s.next < d.len(),
        s.next + BLOCK <= u64::MAX,
        !all_zero(block_at(d, s.next as int)),
    ensures
        faithful(
            d,
            s.next,
            s.raw,
            config,
            header_answer(d, s, clipped(d, s.next + BLOCK), block_at(d, s.next as int), filled, config),
        ),
    decreases u64::MAX - s.next, 0int,
{
    reveal(search);
    reveal(header_answer);
    let h = block_at(d, s.next as int);
    let pos = clipped(d, s.next + BLOCK);
    let pax = if s.raw {
        None
    } else {
        s.pax
    };
    if let Ok(member) = read_member(h, s.next, (s.next + BLOCK) as u64, pax, config.options) {
        let after = EntriesView { next: member.next, ..s };
        lemma_fresh(d, s, member, pax, config);
        if !s.raw {
            match role_of(member.entry) {
                Ok(Role::Plain) => {
                    lemma_plain_answer(d, after, s.next, pos, member.entry, config);
                },
                Ok(role) => {
                    let bytes = window(d, pos, member.entry.size as int);
                    let described = with_description(EntriesView { described: true, ..after }, role, bytes);
                    law_entries_are_faithful(d, described, pos + bytes.len(), config);
                    lemma_further(
                        d,
                        s.next,
                        member.next,
                        s.raw,
                        config,
                        search(d, described, pos + bytes.len(), config),
                    );
                },
                Err(_) => {},
            }
        }
    }
}

/// Every entry that an archive gives is one that it holds: the entry's header
/// stands in the archive at the position that the entry tells, a whole number
/// of blocks behind where the search began, with the right checksum; the
/// entry's stretches come to its size, and those that are stored lie in front
/// of the next header; and the entry carries the archive's options. Raw entries
/// have the header just as it stands in the archive, and nothing else.
pub proof fn law_entries_are_faithful(d: Seq<u8>, s: EntriesView, pos: int, config: Config)
    ensures
        faithful(d, s.next, s.raw, config, search(d, s, pos, config)),
    decreases u64::MAX - s.next, 1int,
{
    reveal(search);
    reveal(header_answer);
    let w = window(d, s.next as int, 512);
    let h = block_at(d, s.next as int);
    let end = s.next + w.len();
    if w.len() > 0 && s.next + BLOCK <= u64::MAX {
        assert(end == clipped(d, s.next + BLOCK));
        if all_zero(h) {
            let behind = EntriesView { next: (s.next + BLOCK) as u64, ..s };
            law_entries_are_faithful(d, behind, end, config);
            lemma_further(d, s.next, behind.next, s.raw, config, search(d, behind, end, config));
        } else {
            lemma_member_answer(d, s, w.len() as int, config);
        }
    }
}

} // verus!
