use vstd::prelude::*;

use crate::entries::{blank, blank_extension, Config, EntriesView, BLOCK};
use crate::entry::{stored_len, total_len, EntryView};
use crate::entry_type::EntryType;
use crate::grammar::{extension_answer, header_answer, search, window, Answer};
use crate::header::{all_zero, is_extended, is_gnu, is_ustar, put, stated_real_size, stated_type};
use crate::member::{law_member_is_read, law_roles, read_member, Member};
use crate::numeral::run_of;
use crate::sparse::{add_headers, empty_map, fits, law_stretches_fit, SparseView};

verus! {

/// A window shows the bytes that stand there, all that are asked for where there
/// are that many, and else those up to the end.
pub proof fn law_window_shows_what_is_there(d: Seq<u8>, p: int, n: int)
    requires
        0 <= p,
        0 <= n,
    ensures
        p + n <= d.len() ==> window(d, p, n) == d.subrange(p, p + n),
        p <= d.len() < p + n ==> window(d, p, n) == d.skip(p),
        p > d.len() ==> window(d, p, n) == Seq::<u8>::empty(),
{
    if p <= d.len() < p + n {
        assert(window(d, p, n) =~= d.skip(p));
    }
    if p > d.len() {
        assert(window(d, p, n) =~= Seq::<u8>::empty());
    }
}

/// Whether the block of the archive `d` at which the iteration `s` looks next is
/// all there and not blank, and can be come to from `pos`.
pub open spec fn looks_at_header(d: Seq<u8>, s: EntriesView, pos: int) -> bool {
    &&& s.next + BLOCK <= d.len() <= u64::MAX
    &&& s.seekable ==> s.next - pos <= i64::MAX
    &&& !all_zero(d.subrange(s.next as int, s.next + 512))
}

/// What a member's header says of it, where it is what the iteration `s` over `d`
/// looks at next.
pub open spec fn member_at(d: Seq<u8>, s: EntriesView, config: Config) -> Result<Member, Seq<char>> {
    read_member(
        d.subrange(s.next as int, s.next + 512),
        s.next,
        (s.next + BLOCK) as u64,
        if s.raw {
            None
        } else {
            s.pax
        },
        config.options,
    )
}

proof fn lemma_header_block(d: Seq<u8>, s: EntriesView, pos: int, config: Config)
    requires
        looks_at_header(d, s, pos),
    ensures
        search(d, s, pos, config) == header_answer(
            d,
            s,
            s.next + 512,
            d.subrange(s.next as int, s.next + 512),
            512,
            config,
        ),
{
    reveal(search);
    reveal(header_answer);
    let w = window(d, s.next as int, 512);
    assert(w =~= d.subrange(s.next as int, s.next + 512));
    assert(put(blank(), 0, w) =~= w);
}

/// A header that no member can be read from is an error.
pub proof fn law_bad_header_is_an_error(d: Seq<u8>, s: EntriesView, pos: int, config: Config)
    requires
        looks_at_header(d, s, pos),
        member_at(d, s, config) is Err,
    ensures
        search(d, s, pos, config) == (Answer::Error {
            message: member_at(d, s, config)->Err_0,
            pos: s.next + 512,
        }),
{
    lemma_header_block(d, s, pos, config);
    reveal(search);
    reveal(header_answer);
}

/// Where entries are raw, every member is given as an entry of its own, with
/// nothing but what its own header says.
pub proof fn law_raw_member_is_given(d: Seq<u8>, s: EntriesView, pos: int, config: Config)
    requires
        looks_at_header(d, s, pos),
        member_at(d, s, config) is Ok,
        s.raw,
    ensures
        search(d, s, pos, config) == (Answer::Entry {
            entry: member_at(d, s, config)->Ok_0.entry,
            next: member_at(d, s, config)->Ok_0.next,
            pos: s.next + 512,
        }),
{
    lemma_header_block(d, s, pos, config);
    reveal(search);
    reveal(header_answer);
}

/// The kind that the header at which `s` looks next states.
pub open spec fn kind_at(d: Seq<u8>, s: EntriesView) -> u8 {
    d[s.next + 156]
}

/// Whether the header at which `s` looks next is in one of the two formats in
/// which members can describe others.
pub open spec fn known_at(d: Seq<u8>, s: EntriesView) -> bool {
    let h = d.subrange(s.next as int, s.next + 512);
    is_gnu(h) || is_ustar(h)
}

proof fn lemma_role_at(d: Seq<u8>, s: EntriesView, pos: int, config: Config)
    requires
        looks_at_header(d, s, pos),
        member_at(d, s, config) is Ok,
    ensures
        ({
            let entry = member_at(d, s, config)->Ok_0.entry;
            &&& entry.header[156] == kind_at(d, s)
            &&& (is_gnu(entry.header) || is_ustar(entry.header)) == known_at(d, s)
            &&& is_gnu(entry.header) == is_gnu(d.subrange(s.next as int, s.next + 512))
            &&& entry.long_pathname is None && entry.long_linkname is None && entry.pax_extensions is None
        }),
{
    let h = d.subrange(s.next as int, s.next + 512);
    let pax = if s.raw {
        None
    } else {
        s.pax
    };
    law_member_is_read(h, s.next, (s.next + BLOCK) as u64, pax, config.options);
    let entry = member_at(d, s, config)->Ok_0.entry;
    assert(entry.header.subrange(257, 265) =~= h.subrange(257, 265)) by {
        assert forall|i: int| 257 <= i < 265 implies entry.header[i] == h[i] by {}
    }
}

/// A member that stands for itself is given as an entry, with the name, the link
/// name and the extensions that the members in front of it gave it, and nothing
/// of the archive but its header was read for it.
pub proof fn law_plain_member_is_given(d: Seq<u8>, s: EntriesView, pos: int, config: Config)
    requires
        looks_at_header(d, s, pos),
        member_at(d, s, config) is Ok,
        !s.raw,
        kind_at(d, s) != 83,
        !known_at(d, s) || !(kind_at(d, s) == 76 || kind_at(d, s) == 75 || kind_at(d, s) == 120),
    ensures
        search(d, s, pos, config) == (Answer::Entry {
            entry: EntryView {
                long_pathname: s.longname,
                long_linkname: s.longlink,
                pax_extensions: s.pax,
                ..member_at(d, s, config)->Ok_0.entry
            },
            next: member_at(d, s, config)->Ok_0.next,
            pos: s.next + 512,
        }),
{
    let entry = member_at(d, s, config)->Ok_0.entry;
    lemma_header_block(d, s, pos, config);
    lemma_role_at(d, s, pos, config);
    law_roles(entry);
    reveal(search);
    reveal(header_answer);
    assert(stated_type(entry.header) != EntryType::GNUSparse);
}

/// A member that describes the one behind it is taken in with all of its contents
/// and not given as an entry: what is given is what stands behind it, with those
/// contents as its name, its link name or its extensions.
pub proof fn law_description_is_taken_in(d: Seq<u8>, s: EntriesView, pos: int, config: Config)
    requires
        looks_at_header(d, s, pos),
        member_at(d, s, config) is Ok,
        !s.raw,
        known_at(d, s),
        s.next + 512 + member_at(d, s, config)->Ok_0.entry.size <= d.len(),
    ensures
        ({
            let member = member_at(d, s, config)->Ok_0;
            let end = s.next + 512 + member.entry.size;
            let bytes = d.subrange(s.next + 512, end);
            let behind = EntriesView { next: member.next, described: true, astray: false, ..s };
            &&& kind_at(d, s) == 76 ==> search(d, s, pos, config) == search(
                d,
                (EntriesView { longname: Some(bytes), ..behind }),
                end,
                config,
            )
            &&& kind_at(d, s) == 75 ==> search(d, s, pos, config) == search(
                d,
                (EntriesView { longlink: Some(bytes), ..behind }),
                end,
                config,
            )
            &&& kind_at(d, s) == 120 ==> search(d, s, pos, config) == search(
                d,
                (EntriesView { pax: Some(bytes), ..behind }),
                end,
                config,
            )
        }),
{
    let member = member_at(d, s, config)->Ok_0;
    lemma_header_block(d, s, pos, config);
    lemma_role_at(d, s, pos, config);
    law_roles(member.entry);
    law_window_shows_what_is_there(d, s.next + 512, member.entry.size as int);
    reveal(search);
    reveal(header_answer);
}

/// A sparse file in the GNU format whose sparse headers all stand in its header
/// is given as an entry where, and only where, its stretches can be put together,
/// come to the size that the header states for the expanded file, and use up all
/// that is stored of it. It then has those stretches, and that size.
pub proof fn law_sparse_member_is_given(d: Seq<u8>, s: EntriesView, pos: int, config: Config)
    requires
        looks_at_header(d, s, pos),
        member_at(d, s, config) is Ok,
        !s.raw,
        kind_at(d, s) == 83,
        is_gnu(d.subrange(s.next as int, s.next + 512)),
        !is_extended(member_at(d, s, config)->Ok_0.entry.header),
    ensures
        ({
            let member = member_at(d, s, config)->Ok_0;
            let h = member.entry.header;
            let stretches = add_headers(empty_map(member.entry.size), h.subrange(386, 482), 4);
            let a = search(d, s, pos, config);
            &&& a is Entry <==> stretches is Ok && stated_real_size(h) is Some && total_len(
                stretches->Ok_0.data,
            ) == stated_real_size(h)->Some_0 && stored_len(stretches->Ok_0.data) == member.entry.size
            &&& a is Entry ==> a == (Answer::Entry {
                entry: EntryView {
                    size: stated_real_size(h)->Some_0,
                    data: stretches->Ok_0.data,
                    long_pathname: s.longname,
                    long_linkname: s.longlink,
                    pax_extensions: s.pax,
                    ..member.entry
                },
                next: member.next,
                pos: s.next + 512,
            })
            &&& !(a is Entry) ==> a == (Answer::Error {
                message: match stretches {
                    Err(message) => message,
                    Ok(map) => if stated_real_size(h) is None {
                        "numeric field was not a number"@
                    } else if total_len(map.data) != stated_real_size(h)->Some_0 {
                        "mismatch in sparse file chunks and size in header"@
                    } else {
                        "mismatch in sparse file chunks and entry size in header"@
                    },
                },
                pos: s.next + 512,
            })
        }),
{
    let member = member_at(d, s, config)->Ok_0;
    let h = member.entry.header;
    let start = empty_map(member.entry.size);
    lemma_header_block(d, s, pos, config);
    lemma_role_at(d, s, pos, config);
    law_roles(member.entry);
    assert(fits(start));
    if add_headers(start, h.subrange(386, 482), 4) is Ok {
        law_stretches_fit(start, h.subrange(386, 482), 4);
    }
    reveal(search);
    reveal(header_answer);
    assert(stated_type(h) == EntryType::GNUSparse);
}

/// Where the archive ends, or a block of zeros stands that is not ignored, there
/// are no more entries; that is an error where the one that is looked for was
/// described, unless entries are raw.
pub proof fn law_no_more_entries(d: Seq<u8>, s: EntriesView, pos: int, config: Config)
    requires
        s.seekable ==> s.next - pos <= i64::MAX,
        d.len() <= u64::MAX,
        s.next == d.len() || (!config.ignore_zeros && s.next + BLOCK <= d.len() && all_zero(
            d.subrange(s.next as int, s.next + 512),
        )),
    ensures
        s.raw || !s.described ==> search(d, s, pos, config) is End,
        !s.raw && s.described ==> search(d, s, pos, config) == (Answer::Error {
            message: "members found describing a future member but no future member found"@,
            pos: if s.next == d.len() {
                d.len() as int
            } else {
                s.next + 512
            },
        }),
{
    reveal(search);
    reveal(header_answer);
    let w = window(d, s.next as int, 512);
    if s.next + BLOCK <= d.len() {
        assert(w =~= d.subrange(s.next as int, s.next + 512));
        assert(put(blank(), 0, w) =~= w);
    }
}

/// A header that the archive cannot be brought to is an error: one that lies
/// behind its end where it is read over, and one that lies too far off where it
/// is moved.
pub proof fn law_header_out_of_reach(d: Seq<u8>, s: EntriesView, pos: int, config: Config)
    ensures
        !s.seekable && s.next > d.len() ==> search(d, s, pos, config) == (Answer::Error {
            message: "unexpected EOF during skip"@,
            pos: d.len() as int,
        }),
        s.seekable && s.next - pos > i64::MAX ==> search(d, s, pos, config) == (Answer::Error {
            message: "seek position out of bounds"@,
            pos,
        }),
{
    reveal(search);
    reveal(header_answer);
}

/// The block of the archive `d` that starts at `start` and that the end of the
/// archive cuts off, with zeros for what is not there.
pub open spec fn cut_block(d: Seq<u8>, start: int) -> Seq<u8> {
    d.skip(start) + run_of(0, (start + 512 - d.len()) as nat)
}

/// A header that the end of the archive cuts off is read as if zeros followed.
pub proof fn law_header_that_is_cut_off(d: Seq<u8>, s: EntriesView, pos: int, config: Config)
    requires
        s.next < d.len() < s.next + 512,
        s.seekable ==> s.next - pos <= i64::MAX,
    ensures
        ({
            let block = cut_block(d, s.next as int);
            let answer = search(d, s, pos, config);
            let member = read_member(
                block,
                s.next,
                (s.next + BLOCK) as u64,
                if s.raw {
                    None
                } else {
                    s.pax
                },
                config.options,
            );
            &&& answer == header_answer(d, s, d.len() as int, block, d.len() - s.next, config)
            &&& !all_zero(block) && s.next + 512 <= u64::MAX ==> match member {
                Ok(m) => s.raw ==> answer == (Answer::Entry { entry: m.entry, next: m.next, pos: d.len() as int }),
                Err(message) => answer == (Answer::Error { message, pos: d.len() as int }),
            }
        }),
{
    reveal(search);
    reveal(header_answer);
    let w = window(d, s.next as int, 512);
    assert(w =~= d.skip(s.next as int));
    assert(put(blank(), 0, w) =~= cut_block(d, s.next as int));
}

/// A sparse file whose header says that more sparse headers follow has them in
/// the blocks behind it. As long as the first of these is not all there, it is
/// taken to say that another follows.
pub proof fn law_extended_sparse_member(d: Seq<u8>, s: EntriesView, pos: int, config: Config)
    requires
        looks_at_header(d, s, pos),
        member_at(d, s, config) is Ok,
        !s.raw,
        kind_at(d, s) == 83,
        is_gnu(d.subrange(s.next as int, s.next + 512)),
        is_extended(member_at(d, s, config)->Ok_0.entry.header),
    ensures
        ({
            let member = member_at(d, s, config)->Ok_0;
            let h = member.entry.header;
            match add_headers(empty_map(member.entry.size), h.subrange(386, 482), 4) {
                Ok(map) => search(d, s, pos, config) == extension_answer(
                    d,
                    (EntriesView { next: member.next, ..s }),
                    s.next + 512,
                    member.entry,
                    map,
                    run_of(0, 504).push(1) + run_of(0, 7),
                    0,
                ),
                Err(message) => search(d, s, pos, config) == (Answer::Error { message, pos: s.next + 512 }),
            }
        }),
{
    let member = member_at(d, s, config)->Ok_0;
    lemma_header_block(d, s, pos, config);
    lemma_role_at(d, s, pos, config);
    law_roles(member.entry);
    reveal(search);
    reveal(header_answer);
    reveal(extension_answer);
    assert(stated_type(member.entry.header) == EntryType::GNUSparse);
    assert(blank_extension() =~= run_of(0, 504).push(1) + run_of(0, 7));
}

/// A block with sparse headers holds twenty-one of them and says, in the byte
/// behind them, whether another such block follows. Where none does, the file is
/// given as an entry where, and only where, its stretches come to the size that
/// its header states and use up all that is stored of it.
pub proof fn law_block_of_sparse_headers(
    d: Seq<u8>,
    s: EntriesView,
    pos: int,
    entry: EntryView,
    map: SparseView,
    before: Seq<u8>,
)
    requires
        0 <= pos,
        pos + 512 <= d.len(),
        before.len() == 512,
        s.next + BLOCK <= u64::MAX,
        fits(map),
    ensures
        ({
            let a = extension_answer(d, s, pos, entry, map, before, 0);
            let behind = EntriesView { next: (s.next + BLOCK) as u64, ..s };
            match add_headers(map, d.subrange(pos, pos + 504), 21) {
                Err(message) => a == (Answer::Error { message, pos: pos + 512 }),
                Ok(longer) => if d[pos + 504] == 1 {
                    a == extension_answer(
                        d,
                        behind,
                        pos + 512,
                        entry,
                        longer,
                        d.subrange(pos, pos + 512),
                        0,
                    )
                } else {
                    &&& a is Entry <==> stated_real_size(entry.header) is Some && total_len(longer.data)
                        == stated_real_size(entry.header)->Some_0 && stored_len(longer.data) == map.size
                    &&& a matches Answer::Entry { entry: given, next, pos: end } ==> {
                        &&& given.data == longer.data
                        &&& given.size == total_len(longer.data)
                        &&& given.header == entry.header
                        &&& next == s.next + 512
                        &&& end == pos + 512
                        &&& given.long_pathname == s.longname
                        &&& given.long_linkname == s.longlink
                        &&& given.pax_extensions == s.pax
                        &&& given.header_pos == entry.header_pos
                        &&& given.file_pos == entry.file_pos
                        &&& given.options == entry.options
                    }
                    &&& !(a is Entry) ==> a == (Answer::Error {
                        message: if stated_real_size(entry.header) is None {
                            "numeric field was not a number"@
                        } else if total_len(longer.data) != stated_real_size(entry.header)->Some_0 {
                            "mismatch in sparse file chunks and size in header"@
                        } else {
                            "mismatch in sparse file chunks and entry size in header"@
                        },
                        pos: pos + 512,
                    })
                },
            }
        }),
{
    reveal(extension_answer);
    let w = window(d, pos, 512);
    let read = put(before, 0, w);
    assert(read =~= d.subrange(pos, pos + 512));
    assert(read.subrange(0, 504) =~= d.subrange(pos, pos + 504));
    if add_headers(map, read.subrange(0, 504), 21) is Ok {
        law_stretches_fit(map, read.subrange(0, 504), 21);
    }
}

/// A sparse file whose blocks with sparse headers the end of the archive cuts off
/// is not given as an entry.
pub proof fn law_sparse_headers_cut_off(
    d: Seq<u8>,
    s: EntriesView,
    pos: int,
    entry: EntryView,
    map: SparseView,
    before: Seq<u8>,
)
    requires
        0 <= pos,
        d.len() <= pos + 504,
        before.len() == 512,
        before[504] == 1,
    ensures
        extension_answer(d, s, pos, entry, map, before, 0) is Error,
        d.len() <= pos ==> extension_answer(d, s, pos, entry, map, before, 0) == (Answer::Error {
            message: "failed to read extension"@,
            pos,
        }),
    decreases d.len() - pos,
{
    reveal(extension_answer);
    let w = window(d, pos, 512);
    if pos < d.len() && s.next + BLOCK <= u64::MAX {
        let read = put(before, 0, w);
        let behind = EntriesView { next: (s.next + BLOCK) as u64, ..s };
        assert(read[504] == 1);
        if let Ok(longer) = add_headers(map, read.subrange(0, 504), 21) {
            law_sparse_headers_cut_off(d, behind, pos + w.len(), entry, longer, read);
        }
    }
}

/// A header behind which no `u64` can tell where the contents start is an error,
/// and so is a block with sparse headers behind which it cannot.
pub proof fn law_positions_run_out(
    d: Seq<u8>,
    s: EntriesView,
    pos: int,
    config: Config,
    entry: EntryView,
    map: SparseView,
    before: Seq<u8>,
)
    requires
        s.next + 512 > u64::MAX,
    ensures
        s.next < d.len() && (s.seekable ==> s.next - pos <= i64::MAX) && !all_zero(d.skip(s.next as int))
            && d.len() < s.next + 512 ==> search(d, s, pos, config) == (Answer::Error {
            message: "size overflow"@,
            pos: d.len() as int,
        }),
        0 <= pos < d.len() && pos + 512 <= d.len() ==> extension_answer(d, s, pos, entry, map, before, 0) == (
        Answer::Error { message: "size overflow"@, pos: pos + 512 }),
{
    reveal(extension_answer);
    if s.next < d.len() && (s.seekable ==> s.next - pos <= i64::MAX) && !all_zero(d.skip(s.next as int))
        && d.len() < s.next + 512 {
        law_header_that_is_cut_off(d, s, pos, config);
        reveal(header_answer);
        let rest = d.skip(s.next as int);
        let block = cut_block(d, s.next as int);
        let i = choose|i: int| 0 <= i < rest.len() && rest[i] != 0;
        assert(block[i] == rest[i]);
    }
}

/// A header that says that its member is a sparse file must be in the GNU format.
pub proof fn law_sparse_files_are_gnu(d: Seq<u8>, s: EntriesView, pos: int, config: Config)
    requires
        looks_at_header(d, s, pos),
        member_at(d, s, config) is Ok,
        !s.raw,
        kind_at(d, s) == 83,
        !is_gnu(d.subrange(s.next as int, s.next + 512)),
    ensures
        search(d, s, pos, config) == (Answer::Error {
            message: "sparse entry type listed but not GNU header"@,
            pos: s.next + 512,
        }),
{
    let entry = member_at(d, s, config)->Ok_0.entry;
    lemma_header_block(d, s, pos, config);
    lemma_role_at(d, s, pos, config);
    law_roles(entry);
    reveal(search);
    reveal(header_answer);
    assert(stated_type(entry.header) == EntryType::GNUSparse);
}

} // verus!
