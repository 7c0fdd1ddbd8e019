use vstd::prelude::*;

use crate::entries::{blank, blank_extension, run_out, with_description, Config, EntriesView, BLOCK};
use crate::entry::EntryView;
use crate::entry_type::EntryType;
use crate::given::law_entries_are_faithful;
use crate::grammar::{answer_of, extension_answer, header_answer, plain_answer, search, window, Answer};
use crate::header::{all_zero, is_extended, is_gnu, put, stated_type};
use crate::member::{read_member, role_of, Member, Role};
use crate::sparse::{add_headers, empty_map, SparseView};

verus! {

/// A block of zeros is passed over where zeros are ignored, and otherwise ends
/// the archive.
pub proof fn law_blank_block(d: Seq<u8>, s: EntriesView, pos: int, config: Config)
    requires
        s.next + BLOCK <= d.len() <= u64::MAX,
        s.seekable ==> s.next - pos <= i64::MAX,
        all_zero(window(d, s.next as int, 512)),
    ensures
        config.ignore_zeros ==> search(d, s, pos, config) == search(
            d,
            EntriesView { next: (s.next + BLOCK) as u64, ..s },
            s.next + BLOCK,
            config,
        ),
        !config.ignore_zeros ==> search(d, s, pos, config) == answer_of(run_out(s), s.next + BLOCK),
{
    reveal(search);
    reveal(header_answer);
    let w = window(d, s.next as int, 512);
    assert(put(blank(), 0, w) =~= w);
}

/// Where an archive ends at the place of a header, there are no more entries.
pub proof fn law_end_of_archive(d: Seq<u8>, s: EntriesView, pos: int, config: Config)
    requires
        s.next == d.len(),
        s.seekable ==> s.next - pos <= i64::MAX,
    ensures
        search(d, s, pos, config) == answer_of(run_out(s), d.len() as int),
{
    reveal(search);
    reveal(header_answer);
}

/// The iteration `s`, with or without seeking.
pub open spec fn with_seeking(s: EntriesView, seekable: bool) -> EntriesView {
    EntriesView { seekable, ..s }
}

proof fn lemma_extension_without_seeking(
    d: Seq<u8>,
    s: EntriesView,
    pos: int,
    entry: EntryView,
    map: SparseView,
    block: Seq<u8>,
    seekable: bool,
)
    ensures
        extension_answer(d, s, pos, entry, map, block, 0) == extension_answer(
            d,
            with_seeking(s, seekable),
            pos,
            entry,
            map,
            block,
            0,
        ),
    decreases u64::MAX - s.next,
{
    reveal(extension_answer);
    let w = window(d, pos, 512);
    let read = put(block, 0, w);
    let table = read.subrange(0, 504);
    if s.next + BLOCK <= u64::MAX && add_headers(map, table, 21) is Ok {
        let behind = EntriesView { next: (s.next + BLOCK) as u64, ..s };
        lemma_extension_without_seeking(
            d,
            behind,
            pos + w.len(),
            entry,
            add_headers(map, table, 21)->Ok_0,
            read,
            seekable,
        );
    }
}

proof fn lemma_plain_without_seeking(
    d: Seq<u8>,
    s: EntriesView,
    pos: int,
    entry: EntryView,
    seekable: bool,
)
    ensures
        plain_answer(d, s, pos, entry) == plain_answer(d, with_seeking(s, seekable), pos, entry),
{
    if let Ok(map) = add_headers(empty_map(entry.size), entry.header.subrange(386, 482), 4) {
        lemma_extension_without_seeking(d, s, pos, entry, map, blank_extension(), seekable);
    }
}

proof fn lemma_header_without_seeking(
    d: Seq<u8>,
    s: EntriesView,
    pos: int,
    block: Seq<u8>,
    filled: int,
    config: Config,
)
    requires
        d.len() <= i64::MAX,
        0 <= pos,
    ensures
        ({
            let plain = header_answer(d, with_seeking(s, false), pos, block, filled, config);
            let sought = header_answer(d, with_seeking(s, true), pos, block, filled, config);
            plain == sought || (!(sought is Entry) && plain == (Answer::Error {
                message: "unexpected EOF during skip"@,
                pos: d.len() as int,
            }))
        }),
    decreases u64::MAX - s.next, 0int,
{
    reveal(search);
    reveal(header_answer);
    if filled != 0 && s.next + BLOCK <= u64::MAX {
        let behind = EntriesView { next: (s.next + BLOCK) as u64, ..s };
        if all_zero(block) {
            law_seeking_finds_the_same(d, behind, pos, config);
        } else {
            let pax = if s.raw {
                None
            } else {
                s.pax
            };
            if let Ok(member) = read_member(block, s.next, behind.next, pax, config.options) {
                let after = EntriesView { next: member.next, ..s };
                if !s.raw {
                    match role_of(member.entry) {
                        Ok(Role::Plain) => {
                            lemma_plain_without_seeking(d, after, pos, member.entry, true);
                            lemma_plain_without_seeking(d, after, pos, member.entry, false);
                        },
                        Ok(role) => {
                            let bytes = window(d, pos, member.entry.size as int);
                            law_seeking_finds_the_same(
                                d,
                                with_description(EntriesView { described: true, ..after }, role, bytes),
                                pos + bytes.len(),
                                config,
                            );
                        },
                        Err(_) => {},
                    }
                }
            }
        }
    }
}

/// Seeking over the contents of members finds what reading over them finds. The
/// two differ only where the contents of the last member are cut off: reading
/// over them fails there, and seeking finds no entry either.
pub proof fn law_seeking_finds_the_same(d: Seq<u8>, s: EntriesView, pos: int, config: Config)
    requires
        d.len() <= i64::MAX,
        0 <= pos,
    ensures
        ({
            let plain = search(d, with_seeking(s, false), pos, config);
            let sought = search(d, with_seeking(s, true), pos, config);
            plain == sought || (!(sought is Entry) && plain == (Answer::Error {
                message: "unexpected EOF during skip"@,
                pos: d.len() as int,
            }))
        }),
    decreases u64::MAX - s.next, 1int,
{
    reveal(search);
    reveal(header_answer);
    let w = window(d, s.next as int, 512);
    if s.next <= d.len() {
        lemma_header_without_seeking(
            d,
            s,
            s.next + w.len(),
            put(blank(), 0, w),
            w.len() as int,
            config,
        );
    }
}

/// The iteration `s`, with the entry that is looked for described or not.
pub open spec fn with_describing(s: EntriesView, described: bool) -> EntriesView {
    EntriesView { described, ..s }
}

/// Whether two answers are the same as far as they give an entry.
pub open spec fn same_entry(a: Answer, b: Answer) -> bool {
    a == b || !(a is Entry) && !(b is Entry)
}

pub(crate) proof fn lemma_extension_described(
    d: Seq<u8>,
    s: EntriesView,
    pos: int,
    entry: EntryView,
    map: SparseView,
    block: Seq<u8>,
    filled: int,
    described: bool,
)
    ensures
        extension_answer(d, s, pos, entry, map, block, filled) == extension_answer(
            d,
            with_describing(s, described),
            pos,
            entry,
            map,
            block,
            filled,
        ),
    decreases u64::MAX - s.next,
{
    reveal(extension_answer);
    let w = window(d, pos, 512 - filled);
    let read = put(block, filled, w);
    let table = read.subrange(0, 504);
    if s.next + BLOCK <= u64::MAX && add_headers(map, table, 21) is Ok {
        let behind = EntriesView { next: (s.next + BLOCK) as u64, ..s };
        lemma_extension_described(
            d,
            behind,
            pos + w.len(),
            entry,
            add_headers(map, table, 21)->Ok_0,
            read,
            0,
            described,
        );
    }
}

proof fn lemma_plain_described(
    d: Seq<u8>,
    s: EntriesView,
    pos: int,
    entry: EntryView,
    described: bool,
)
    ensures
        plain_answer(d, s, pos, entry) == plain_answer(d, with_describing(s, described), pos, entry),
{
    if let Ok(map) = add_headers(empty_map(entry.size), entry.header.subrange(386, 482), 4) {
        lemma_extension_described(d, s, pos, entry, map, blank_extension(), 0, described);
    }
}

pub(crate) proof fn lemma_header_described(
    d: Seq<u8>,
    s: EntriesView,
    pos: int,
    block: Seq<u8>,
    filled: int,
    config: Config,
    described: bool,
)
    ensures
        same_entry(
            header_answer(d, s, pos, block, filled, config),
            header_answer(d, with_describing(s, described), pos, block, filled, config),
        ),
    decreases u64::MAX - s.next, 0int,
{
    reveal(search);
    reveal(header_answer);
    if filled != 0 && s.next + BLOCK <= u64::MAX {
        let behind = EntriesView { next: (s.next + BLOCK) as u64, ..s };
        if all_zero(block) {
            law_describing_finds_the_same(d, behind, pos, config, described);
        } else if !s.raw {
            if let Ok(member) = read_member(block, s.next, behind.next, s.pax, config.options) {
                let after = EntriesView { next: member.next, ..s };
                lemma_plain_described(d, after, pos, member.entry, described);
            }
        }
    }
}

/// Whether the entry that is looked for was described makes no difference to
/// which entry is found: only to whether it is an error that there is none.
pub proof fn law_describing_finds_the_same(
    d: Seq<u8>,
    s: EntriesView,
    pos: int,
    config: Config,
    described: bool,
)
    ensures
        same_entry(
            search(d, s, pos, config),
            search(d, with_describing(s, described), pos, config),
        ),
    decreases u64::MAX - s.next, 1int,
{
    reveal(search);
    reveal(header_answer);
    let w = window(d, s.next as int, 512);
    lemma_header_described(
        d,
        s,
        s.next + w.len(),
        put(blank(), 0, w),
        w.len() as int,
        config,
        described,
    );
}

proof fn lemma_window_of_front(a: Seq<u8>, b: Seq<u8>, p: int, n: int)
    requires
        0 <= p,
        0 <= n,
        p + n <= a.len(),
    ensures
        window(a + b, p, n) == window(a, p, n),
        window(a, p, n).len() == n,
{
    assert(window(a + b, p, n) =~= window(a, p, n));
}

proof fn lemma_extension_of_front(
    a: Seq<u8>,
    b: Seq<u8>,
    s: EntriesView,
    pos: int,
    entry: EntryView,
    map: SparseView,
    block: Seq<u8>,
)
    requires
        0 <= pos <= s.next,
        extension_answer(a, s, pos, entry, map, block, 0) matches Answer::Entry { next, .. } && next
            <= a.len(),
    ensures
        extension_answer(a + b, s, pos, entry, map, block, 0) == extension_answer(
            a,
            s,
            pos,
            entry,
            map,
            block,
            0,
        ),
        extension_answer(a, s, pos, entry, map, block, 0)->next >= s.next + BLOCK,
    decreases u64::MAX - s.next,
{
    reveal(extension_answer);
    let w = window(a, pos, 512);
    let read = put(block, 0, w);
    let table = read.subrange(0, 504);
    let behind = EntriesView { next: (s.next + BLOCK) as u64, ..s };
    if read[504] == 1 {
        lemma_extension_of_front(
            a,
            b,
            behind,
            pos + w.len(),
            entry,
            add_headers(map, table, 21)->Ok_0,
            read,
        );
    }
    lemma_window_of_front(a, b, pos, 512);
}

proof fn lemma_plain_of_front(a: Seq<u8>, b: Seq<u8>, s: EntriesView, pos: int, entry: EntryView)
    requires
        0 <= pos <= s.next,
        plain_answer(a, s, pos, entry) matches Answer::Entry { next, .. } && next <= a.len(),
    ensures
        plain_answer(a + b, s, pos, entry) == plain_answer(a, s, pos, entry),
        plain_answer(a, s, pos, entry)->next >= s.next,
{
    if let Ok(map) = add_headers(empty_map(entry.size), entry.header.subrange(386, 482), 4) {
        if stated_type(entry.header) == EntryType::GNUSparse && is_gnu(entry.header) && is_extended(
            entry.header,
        ) {
            lemma_extension_of_front(a, b, s, pos, entry, map, blank_extension());
        }
    }
}

proof fn lemma_header_of_front(
    a: Seq<u8>,
    b: Seq<u8>,
    s: EntriesView,
    pos: int,
    block: Seq<u8>,
    config: Config,
)
    requires
        pos == s.next + BLOCK <= a.len(),
        header_answer(a, s, pos, block, 512, config) matches Answer::Entry { next, .. } && next
            <= a.len(),
    ensures
        header_answer(a + b, s, pos, block, 512, config) == header_answer(
            a,
            s,
            pos,
            block,
            512,
            config,
        ),
    decreases u64::MAX - s.next, 0int,
{
    reveal(search);
    reveal(header_answer);
    let behind = EntriesView { next: (s.next + BLOCK) as u64, ..s };
    if all_zero(block) {
        law_rest_does_not_matter(a, b, behind, pos, config);
    } else {
        let pax = if s.raw {
            None
        } else {
            s.pax
        };
        if let Ok(member) = read_member(block, s.next, behind.next, pax, config.options) {
            let after = EntriesView { next: member.next, ..s };
            if !s.raw {
                match role_of(member.entry) {
                    Ok(Role::Plain) => {
                        lemma_plain_of_front(a, b, after, pos, member.entry);
                    },
                    Ok(role) => {
                        let bytes = window(a, pos, member.entry.size as int);
                        let described = with_description(EntriesView { described: true, ..after }, role, bytes);
                        law_entries_are_faithful(a, described, pos + bytes.len(), config);
                        law_rest_does_not_matter(a, b, described, pos + bytes.len(), config);
                        lemma_window_of_front(a, b, pos, member.entry.size as int);
                    },
                    Err(_) => {},
                }
            }
        }
    }
}

/// What follows an entry in the archive, and all that follows that, has no
/// effect on the entry.
pub proof fn law_rest_does_not_matter(
    a: Seq<u8>,
    b: Seq<u8>,
    s: EntriesView,
    pos: int,
    config: Config,
)
    requires
        search(a, s, pos, config) matches Answer::Entry { next, .. } && next <= a.len(),
    ensures
        search(a + b, s, pos, config) == search(a, s, pos, config),
    decreases u64::MAX - s.next, 1int,
{
    reveal(search);
    reveal(header_answer);
    law_entries_are_faithful(a, s, pos, config);
    let w = window(a, s.next as int, 512);
    lemma_window_of_front(a, b, s.next as int, 512);
    lemma_header_of_front(a, b, s, s.next + BLOCK, put(blank(), 0, w), config);
}

/// The entry `entry` of an archive, where `n` bytes stand in front of that
/// archive.
pub open spec fn moved_entry(entry: EntryView, n: int) -> EntryView {
    EntryView {
        header_pos: (entry.header_pos + n) as u64,
        file_pos: (entry.file_pos + n) as u64,
        ..entry
    }
}

/// The answer `a` of an archive, where `n` bytes stand in front of that archive.
pub open spec fn moved_answer(a: Answer, n: int) -> Answer {
    match a {
        Answer::Entry { entry, next, pos } => Answer::Entry {
            entry: moved_entry(entry, n),
            next: (next + n) as u64,
            pos: pos + n,
        },
        Answer::End { pos } => Answer::End { pos: pos + n },
        Answer::Error { message, pos } => Answer::Error { message, pos: pos + n },
    }
}

/// The iteration `s` over an archive, where `n` bytes stand in front of that
/// archive.
pub open spec fn moved(s: EntriesView, n: int) -> EntriesView {
    EntriesView { next: (s.next + n) as u64, ..s }
}

/// Whether no position on the way to the answer `a` of the archive `d` grows too
/// large when `n` bytes stand in front of that archive.
pub open spec fn movable(d: Seq<u8>, s: EntriesView, a: Answer, n: int) -> bool {
    match a {
        Answer::Entry { next, .. } => next + n <= u64::MAX,
        Answer::End { .. } => !s.seekable && d.len() + n <= u64::MAX,
        Answer::Error { .. } => false,
    }
}

proof fn lemma_moved_window(f: Seq<u8>, d: Seq<u8>, p: int, n: int)
    requires
        0 <= p,
        0 <= n,
    ensures
        window(f + d, p + f.len(), n) == window(d, p, n),
{
    assert(window(f + d, p + f.len(), n) =~= window(d, p, n));
}

proof fn lemma_moved_member(
    h: Seq<u8>,
    header_pos: u64,
    file_pos: u64,
    pax: Option<Seq<u8>>,
    config: Config,
    n: int,
)
    requires
        0 <= n,
        header_pos <= file_pos,
        read_member(h, header_pos, file_pos, pax, config.options) matches Ok(member) && member.next
            + n <= u64::MAX,
    ensures
        ({
            let member = read_member(h, header_pos, file_pos, pax, config.options)->Ok_0;
            read_member(
                h,
                (header_pos + n) as u64,
                (file_pos + n) as u64,
                pax,
                config.options,
            ) == Ok::<Member, Seq<char>>(
                Member {
                    entry: moved_entry(member.entry, n),
                    next: (member.next + n) as u64,
                },
            )
        }),
        file_pos + n <= u64::MAX,
{
}

proof fn lemma_moved_extension(
    f: Seq<u8>,
    d: Seq<u8>,
    s: EntriesView,
    pos: int,
    entry: EntryView,
    map: SparseView,
    block: Seq<u8>,
)
    requires
        0 <= pos,
        extension_answer(d, s, pos, entry, map, block, 0) matches Answer::Entry { next, .. } && next
            + f.len() <= u64::MAX,
    ensures
        extension_answer(
            f + d,
            moved(s, f.len() as int),
            pos + f.len(),
            moved_entry(entry, f.len() as int),
            map,
            block,
            0,
        ) == moved_answer(
            extension_answer(d, s, pos, entry, map, block, 0),
            f.len() as int,
        ),
        extension_answer(d, s, pos, entry, map, block, 0)->next >= s.next + BLOCK,
    decreases u64::MAX - s.next,
{
    reveal(extension_answer);
    let w = window(d, pos, 512);
    let read = put(block, 0, w);
    let table = read.subrange(0, 504);
    let behind = EntriesView { next: (s.next + BLOCK) as u64, ..s };
    lemma_moved_window(f, d, pos, 512);
    if read[504] == 1 {
        lemma_moved_extension(
            f,
            d,
            behind,
            pos + w.len(),
            entry,
            add_headers(map, table, 21)->Ok_0,
            read,
        );
    }
}

proof fn lemma_moved_plain(f: Seq<u8>, d: Seq<u8>, s: EntriesView, pos: int, entry: EntryView)
    requires
        0 <= pos,
        plain_answer(d, s, pos, entry) matches Answer::Entry { next, .. } && next + f.len()
            <= u64::MAX,
    ensures
        plain_answer(
            f + d,
            moved(s, f.len() as int),
            pos + f.len(),
            moved_entry(entry, f.len() as int),
        ) == moved_answer(plain_answer(d, s, pos, entry), f.len() as int),
        plain_answer(d, s, pos, entry)->next >= s.next,
{
    if let Ok(map) = add_headers(empty_map(entry.size), entry.header.subrange(386, 482), 4) {
        if stated_type(entry.header) == EntryType::GNUSparse && is_gnu(entry.header) && is_extended(
            entry.header,
        ) {
            lemma_moved_extension(f, d, s, pos, entry, map, blank_extension());
        }
    }
}

proof fn lemma_extension_decides(
    d: Seq<u8>,
    s: EntriesView,
    pos: int,
    entry: EntryView,
    map: SparseView,
    block: Seq<u8>,
)
    ensures
        !(extension_answer(d, s, pos, entry, map, block, 0) is End),
    decreases u64::MAX - s.next,
{
    reveal(extension_answer);
    let w = window(d, pos, 512);
    let read = put(block, 0, w);
    let table = read.subrange(0, 504);
    if s.next + BLOCK <= u64::MAX && add_headers(map, table, 21) is Ok {
        let behind = EntriesView { next: (s.next + BLOCK) as u64, ..s };
        lemma_extension_decides(
            d,
            behind,
            pos + w.len(),
            entry,
            add_headers(map, table, 21)->Ok_0,
            read,
        );
    }
}

pub(crate) proof fn lemma_plain_decides(d: Seq<u8>, s: EntriesView, pos: int, entry: EntryView)
    ensures
        !(plain_answer(d, s, pos, entry) is End),
{
    if let Ok(map) = add_headers(empty_map(entry.size), entry.header.subrange(386, 482), 4) {
        lemma_extension_decides(d, s, pos, entry, map, blank_extension());
    }
}

proof fn lemma_moved_role(
    f: Seq<u8>,
    d: Seq<u8>,
    s: EntriesView,
    pos: int,
    block: Seq<u8>,
    filled: int,
    config: Config,
)
    requires
        0 <= pos,
        0 < filled,
        !all_zero(block),
        !s.raw,
        movable(d, s, header_answer(d, s, pos, block, filled, config), f.len() as int),
    ensures
        header_answer(
            f + d,
            moved(s, f.len() as int),
            pos + f.len(),
            block,
            filled,
            config,
        ) == moved_answer(header_answer(d, s, pos, block, filled, config), f.len() as int),
    decreases u64::MAX - s.next, 0int,
{
    reveal(search);
    reveal(header_answer);
    let n = f.len() as int;
    let file_pos = (s.next + BLOCK) as u64;
    let member = read_member(block, s.next, file_pos, s.pax, config.options)->Ok_0;
    let after = EntriesView { next: member.next, ..s };
    assert(role_of(moved_entry(member.entry, n)) == role_of(member.entry));
    match role_of(member.entry) {
        Ok(Role::Plain) => {
            lemma_plain_decides(d, after, pos, member.entry);
            lemma_moved_plain(f, d, after, pos, member.entry);
            lemma_moved_member(block, s.next, file_pos, s.pax, config, n);
        },
        Ok(role) => {
            let bytes = window(d, pos, member.entry.size as int);
            let described = with_description(EntriesView { described: true, ..after }, role, bytes);
            lemma_found_behind(d, described, pos + bytes.len(), config, n);
            lemma_moved_member(block, s.next, file_pos, s.pax, config, n);
            lemma_moved_window(f, d, pos, member.entry.size as int);
            law_front_moves_positions(f, d, described, pos + bytes.len(), config);
            assert(moved(described, n) == with_description(
                EntriesView { described: true, ..moved(after, n) },
                role,
                bytes,
            ));
        },
        Err(_) => {},
    }
}

proof fn lemma_moved_header(
    f: Seq<u8>,
    d: Seq<u8>,
    s: EntriesView,
    pos: int,
    block: Seq<u8>,
    filled: int,
    config: Config,
)
    requires
        0 <= pos,
        0 <= filled,
        s.next + f.len() <= u64::MAX,
        movable(d, s, header_answer(d, s, pos, block, filled, config), f.len() as int),
    ensures
        header_answer(
            f + d,
            moved(s, f.len() as int),
            pos + f.len(),
            block,
            filled,
            config,
        ) == moved_answer(header_answer(d, s, pos, block, filled, config), f.len() as int),
    decreases u64::MAX - s.next, 1int,
{
    reveal(search);
    reveal(header_answer);
    let n = f.len() as int;
    if filled == 0 || (all_zero(block) && !config.ignore_zeros) {
    } else if all_zero(block) {
        let behind = EntriesView { next: (s.next + BLOCK) as u64, ..s };
        lemma_found_behind(d, behind, pos, config, n);
        law_front_moves_positions(f, d, behind, pos, config);
    } else if s.raw {
        let file_pos = (s.next + BLOCK) as u64;
        lemma_moved_member(block, s.next, file_pos, None, config, n);
    } else {
        lemma_moved_role(f, d, s, pos, block, filled, config);
    }
}

proof fn lemma_found_behind(d: Seq<u8>, s: EntriesView, pos: int, config: Config, n: int)
    requires
        movable(d, s, search(d, s, pos, config), n),
    ensures
        s.next + n <= u64::MAX,
{
    law_entries_are_faithful(d, s, pos, config);
    reveal(search);
    reveal(header_answer);
}

/// An archive that has something else in front of it gives what it gives on its
/// own, with every position moved by the length of what stands in front.
pub proof fn law_front_moves_positions(
    f: Seq<u8>,
    d: Seq<u8>,
    s: EntriesView,
    pos: int,
    config: Config,
)
    requires
        movable(d, s, search(d, s, pos, config), f.len() as int),
    ensures
        search(f + d, moved(s, f.len() as int), pos + f.len(), config) == moved_answer(
            search(d, s, pos, config),
            f.len() as int,
        ),
    decreases u64::MAX - s.next, 2int,
{
    reveal(search);
    reveal(header_answer);
    lemma_found_behind(d, s, pos, config, f.len() as int);
    let w = window(d, s.next as int, 512);
    lemma_moved_window(f, d, s.next as int, 512);
    lemma_moved_header(
        f,
        d,
        s,
        s.next + w.len(),
        put(blank(), 0, w),
        w.len() as int,
        config,
    );
}

/// Where zeros are ignored, an archive that stands behind another one is found:
/// once nothing but blocks of zeros is left of the first archive, the search
/// goes on with what the second one gives.
pub proof fn law_concatenated(a: Seq<u8>, b: Seq<u8>, s: EntriesView, pos: int, config: Config)
    requires
        config.ignore_zeros,
        !s.seekable,
        a.len() + b.len() <= u64::MAX,
        s.next <= a.len(),
        (a.len() - s.next) % 512 == 0,
        forall|i: int| s.next <= i < a.len() ==> a[i] == 0,
        movable(b, s, search(b, (EntriesView { next: 0, ..s }), 0, config), a.len() as int),
    ensures
        search(a + b, s, pos, config) == moved_answer(
            search(b, (EntriesView { next: 0, ..s }), 0, config),
            a.len() as int,
        ),
    decreases a.len() - s.next,
{
    if s.next == a.len() {
        law_front_moves_positions(a, b, (EntriesView { next: 0, ..s }), 0, config);
        reveal(search);
        reveal(header_answer);
    } else {
        let w = window(a + b, s.next as int, 512);
        assert forall|i: int| 0 <= i < w.len() implies w[i] == 0 by {
            assert(w[i] == a[s.next + i]);
        }
        law_blank_block(a + b, s, pos, config);
        let behind = EntriesView { next: (s.next + BLOCK) as u64, ..s };
        law_concatenated(a, b, behind, behind.next as int, config);
    }
}

} // verus!
