use vstd::prelude::*;

use crate::archive::advanced;
use crate::entries::{
    accepts, ask, consistent, extension_bytes, gather_bytes, header_bytes, header_read, member_found,
    plain_found, pos_after, retreated, seek_header, set_aside, steady, sparse_read, turn, with_description, Config,
    EntriesView, EventView, PhaseView, StepView, Turn, BLOCK,
};
use crate::entry::{stored_len, total_len, EntryIo, EntryView};
use crate::grammar::{brought_by, waits, within};
use crate::header::put;
use crate::member::{read_member, role_of, Role};
use crate::sparse::{add_headers, empty_map, fits, law_stretches_fit, SparseView};

verus! {

/// Whether the stretches of the entry that a turn gives, if it gives one, come to
/// its size, and it can be read and passed over from `pos` on: what is stored of
/// it ends where the next header stands or before that. Of an entry that was
/// begun elsewhere, only the first holds.
pub open spec fn readable(t: Turn, pos: int) -> bool {
    t.step matches StepView::Entry(entry) ==> {
        &&& t.entries.astray || pos <= pos + stored_len(entry.data) <= t.entries.next
        &&& total_len(entry.data) == entry.size
    }
}

/// Whether a turn leaves the iteration in order.
pub open spec fn orderly(t: Turn, pos: u64) -> bool {
    consistent(t.entries, pos) && readable(t, pos as int)
}

pub(crate) proof fn lemma_whole(size: u64)
    ensures
        stored_len(seq![EntryIo::Data(size)]) == size,
        total_len(seq![EntryIo::Data(size)]) == size,
{
    let data = seq![EntryIo::Data(size)];
    assert(data.drop_last() =~= Seq::empty());
    assert(data.last() == EntryIo::Data(size));
    assert(stored_len(data.drop_last()) == 0);
    assert(total_len(data.drop_last()) == 0);
}

proof fn lemma_sparse_read(s: EntriesView, pos: u64, entry: EntryView, map: SparseView)
    requires
        !s.done,
        fits(map),
        set_aside(s.begun),
        s.astray || pos + map.size <= s.next,
    ensures
        orderly(sparse_read(s, entry, map), pos),
{
}

proof fn lemma_plain_found(s: EntriesView, pos: u64, entry: EntryView)
    requires
        !s.done,
        set_aside(s.begun),
        pos + entry.size <= s.next,
        entry.data == seq![EntryIo::Data(entry.size)],
    ensures
        orderly(plain_found(s, entry), pos),
{
    lemma_whole(entry.size);
    let start = empty_map(entry.size);
    let table = entry.header.subrange(386, 482);
    assert(fits(start));
    if add_headers(start, table, 4) is Ok {
        law_stretches_fit(start, table, 4);
        lemma_sparse_read(s, pos, entry, add_headers(start, table, 4)->Ok_0);
    }
}

proof fn lemma_member_found(s: EntriesView, pos: u64, block: Seq<u8>, header_pos: u64, config: Config)
    requires
        !s.done,
        set_aside(s.begun),
        pos <= s.next,
    ensures
        orderly(member_found(s, pos, block, header_pos, config), pos),
{
    let pax = if s.raw {
        None
    } else {
        s.pax
    };
    match read_member(block, header_pos, s.next, pax, config.options) {
        Err(_) => {},
        Ok(member) => {
            lemma_whole(member.entry.size);
            if !s.raw && role_of(member.entry) == Ok::<Role, Seq<char>>(Role::Plain) {
                lemma_plain_found(EntriesView { next: member.next, ..s }, pos, member.entry);
            }
        },
    }
}

proof fn lemma_extension_bytes(
    s: EntriesView,
    pos: u64,
    entry: EntryView,
    map: SparseView,
    block: Seq<u8>,
    filled: int,
    b: Seq<u8>,
)
    requires
        !s.done,
        block.len() == 512,
        0 <= filled < 512,
        b.len() <= 512 - filled,
        s.astray || retreated(pos, filled) + map.size <= s.next,
        set_aside(s.begun),
        fits(map),
    ensures
        orderly(extension_bytes(s, entry, map, block, filled, b), advanced(pos, b.len() as int)),
{
    let read = put(block, filled, b);
    let n = filled + b.len();
    let end = advanced(pos, b.len() as int);
    let table = read.subrange(0, 504);
    if b.len() == 0 || n == 512 {
        if n != 0 && s.next + BLOCK <= u64::MAX && add_headers(map, table, 21) is Ok {
            law_stretches_fit(map, table, 21);
            let behind = EntriesView { next: (s.next + BLOCK) as u64, ..s };
            assert(s.astray || end + map.size <= behind.next);
            lemma_sparse_read(behind, end, entry, add_headers(map, table, 21)->Ok_0);
        }
    }
}

proof fn lemma_seek_header(s: EntriesView, pos: u64)
    requires
        !s.done,
        set_aside(s.begun),
        pos <= s.next,
    ensures
        orderly(seek_header(s, pos), pos),
{
}

proof fn lemma_header_read(s: EntriesView, pos: u64, block: Seq<u8>, filled: int, config: Config)
    requires
        !s.done,
        set_aside(s.begun),
        s.phase is Idle,
        s.next + BLOCK <= u64::MAX ==> pos <= s.next + BLOCK,
    ensures
        orderly(header_read(s, pos, block, filled, config), pos),
{
    if s.next + BLOCK <= u64::MAX {
        let behind = EntriesView { next: (s.next + BLOCK) as u64, ..s };
        lemma_seek_header(behind, pos);
        lemma_member_found(behind, pos, block, s.next, config);
    }
}

proof fn lemma_header_bytes(
    s: EntriesView,
    pos: u64,
    block: Seq<u8>,
    filled: int,
    b: Seq<u8>,
    config: Config,
)
    requires
        !s.done,
        set_aside(s.begun),
        s.phase is Idle,
        block.len() == 512,
        0 <= filled < 512,
        b.len() <= 512 - filled,
        pos == advanced(s.next, filled),
    ensures
        orderly(
            header_bytes(s, advanced(pos, b.len() as int), block, filled, b, config),
            advanced(pos, b.len() as int),
        ),
{
    let end = advanced(pos, b.len() as int);
    assert(end == advanced(s.next, filled + b.len()));
    if b.len() == 0 || filled + b.len() == 512 {
        lemma_header_read(s, end, put(block, filled, b), filled + b.len(), config);
    }
}

proof fn lemma_gather_bytes(
    s: EntriesView,
    pos: u64,
    entry: EntryView,
    left: u64,
    bytes: Seq<u8>,
    b: Seq<u8>,
)
    requires
        !s.done,
        set_aside(s.begun),
        s.phase is Idle,
        b.len() <= left,
        s.astray || pos + left <= s.next,
        b.len() == 0 || b.len() == left ==> pos + b.len() <= s.next,
        role_of(entry) matches Ok(role) && role != Role::Plain,
    ensures
        orderly(
            gather_bytes(s, advanced(pos, b.len() as int), entry, left, bytes, b),
            advanced(pos, b.len() as int),
        ),
{
    let end = advanced(pos, b.len() as int);
    if b.len() == 0 || b.len() == left {
        assert(end == pos + b.len());
        lemma_seek_header(with_description(s, role_of(entry)->Ok_0, bytes + b), end);
    }
}

/// No event that an iteration can take brings it out of order: it can always be
/// told what it asked for, and what is stored of an entry that it gives ends
/// where the next header stands or before that.
pub proof fn law_turns_are_orderly(s: EntriesView, pos: u64, event: EventView, config: Config)
    requires
        consistent(s, pos),
        accepts(s, pos, event),
    ensures
        orderly(turn(s, pos_after(s, pos, event), event, config), pos_after(s, pos, event)),
{
    let bare = EntriesView { phase: PhaseView::Idle, ..s };
    if let EventView::Bytes(b) = event {
        match s.phase {
            PhaseView::Header { block, filled } => {
                lemma_header_bytes(bare, pos, block, filled, b, config);
            },
            PhaseView::Gather { entry, left, bytes } => {
                lemma_gather_bytes(bare, pos, entry, left, bytes, b);
            },
            PhaseView::Extension { entry, map, block, filled } => {
                lemma_extension_bytes(bare, pos, entry, map, block, filled, b);
            },
            _ => {},
        }
    }
}

/// An iteration that is not told to return members as they are while it takes one
/// in always knows where the archive is.
#[verifier::rlimit(60)]
pub proof fn law_steady_stays_steady(s: EntriesView, pos: u64, event: EventView, config: Config)
    requires
        steady(s),
    ensures
        steady(turn(s, pos_after(s, pos, event), event, config).entries),
        turn(s, pos_after(s, pos, event), event, config).entries.raw == s.raw,
        turn(s, pos_after(s, pos, event), event, config).entries.seekable == s.seekable,
{
}

/// Once an iteration has come to an end, in whatever way, it stays there: from
/// then on it answers that there are no more entries.
pub proof fn law_end_is_final(
    s: EntriesView,
    pos: u64,
    event: EventView,
    config: Config,
    later: u64,
    later_config: Config,
)
    requires
        consistent(s, pos),
        accepts(s, pos, event),
        ({
            let step = turn(s, pos_after(s, pos, event), event, config).step;
            step is End || step is Error || step is Failed
        }),
    ensures
        ({
            let t = turn(s, pos_after(s, pos, event), event, config);
            turn(t.entries, later, EventView::Poll, later_config) == (Turn {
                entries: t.entries,
                step: StepView::End,
            })
        }),
{
}

/// How far the iteration is from a header being read.
pub open spec fn rank(s: EntriesView) -> int {
    let first: int = if s.begun is Idle {
        0
    } else {
        3
    };
    match s.phase {
        PhaseView::Gather { .. } => first + 2,
        PhaseView::Skip { .. } => first + 1,
        PhaseView::Seek { .. } => first + 1,
        _ => first,
    }
}

/// Whether the iteration `t` at `after` is further on in the archive than the
/// iteration `s` at `pos`: it looks behind a later header, or it is closer to
/// reading the same one, or more was read.
pub open spec fn further(t: EntriesView, after: int, s: EntriesView, pos: int) -> bool {
    ||| t.next > s.next
    ||| t.next == s.next && rank(t) < rank(s)
    ||| t.next == s.next && rank(t) == rank(s) && after > pos
}

proof fn lemma_member_is_behind(
    s: EntriesView,
    pos: u64,
    block: Seq<u8>,
    header_pos: u64,
    config: Config,
)
    ensures
        member_found(s, pos, block, header_pos, config).entries.next >= s.next,
{
}

proof fn lemma_header_gets_further(
    s: EntriesView,
    pos: u64,
    end: u64,
    block: Seq<u8>,
    filled: int,
    b: Seq<u8>,
    config: Config,
)
    requires
        s.phase is Idle,
        b.len() > 0 ==> end > pos,
        waits(header_bytes(s, end, block, filled, b, config).step),
    ensures
        ({
            let t = header_bytes(s, end, block, filled, b, config).entries;
            ||| t.next > s.next
            ||| t.next == s.next && t.phase is Header && end > pos
        }),
        header_bytes(s, end, block, filled, b, config).entries.seekable == s.seekable,
        header_bytes(s, end, block, filled, b, config).entries.begun == s.begun,
{
    if s.next + BLOCK <= u64::MAX {
        let behind = EntriesView { next: (s.next + BLOCK) as u64, ..s };
        lemma_member_is_behind(behind, end, put(block, filled, b), s.next, config);
    }
}

/// Whatever an iteration that waits is told, it gets further on if it is to wait
/// again, so that it does not wait forever.
pub proof fn law_waiting_ends(d: Seq<u8>, s: EntriesView, pos: u64, event: EventView, config: Config)
    requires
        within(d, s, pos as int),
        consistent(s, pos),
        accepts(s, pos, event),
        brought_by(d, s, pos as int, event),
        event is Bytes || event is Seeked,
        waits(turn(s, pos_after(s, pos, event), event, config).step),
    ensures
        within(
            d,
            turn(s, pos_after(s, pos, event), event, config).entries,
            pos_after(s, pos, event) as int,
        ),
        further(
            turn(s, pos_after(s, pos, event), event, config).entries,
            pos_after(s, pos, event) as int,
            s,
            pos as int,
        ),
{
    let bare = EntriesView { phase: PhaseView::Idle, ..s };
    let end = pos_after(s, pos, event);
    if let EventView::Bytes(b) = event {
        match s.phase {
            PhaseView::Header { block, filled } => {
                lemma_header_gets_further(bare, pos, end, block, filled, b, config);
            },
            _ => {},
        }
    }
}

/// Once members are to be returned as they are, they are: no entry has a name, a
/// link name or extensions that another member gives it, none is expanded from
/// sparse headers, and that a member describes one which does not follow is no
/// error. This holds whatever the iteration was doing before.
pub proof fn law_raw_is_raw(s: EntriesView, pos: u64, event: EventView, config: Config)
    requires
        consistent(s, pos),
        accepts(s, pos, event),
        s.raw,
    ensures
        ({
            let step = turn(s, pos_after(s, pos, event), event, config).step;
            &&& step matches StepView::Entry(entry) ==> {
                &&& entry.long_pathname is None
                &&& entry.long_linkname is None
                &&& entry.pax_extensions is None
                &&& entry.data == seq![EntryIo::Data(entry.size)]
            }
            &&& step
                != StepView::Error("members found describing a future member but no future member found"@)
        }),
{
    reveal_strlit("members found describing a future member but no future member found");
    reveal_strlit("seek position out of bounds");
    reveal_strlit("unexpected EOF during skip");
    reveal_strlit("size overflow");
    reveal_strlit("archive header checksum mismatch");
    reveal_strlit("numeric field was not a number");
    assert("members found describing a future member but no future member found"@.len() == 67);
    assert("seek position out of bounds"@.len() == 27);
    assert("unexpected EOF during skip"@.len() == 26);
    assert("size overflow"@.len() == 13);
    assert("archive header checksum mismatch"@.len() == 32);
    assert("numeric field was not a number"@.len() == 30);
}

/// What an iteration asks for is what it needs: it never asks for nothing, nor
/// for more at once than a chunk, nor for less than what is wanting where that is
/// no more than a chunk; what it passes over ends at the next header, and a
/// header ends where its block does; and the archive is moved forward right to
/// the next header.
pub proof fn law_asks_for_what_it_needs(s: EntriesView, pos: u64, event: EventView, config: Config)
    requires
        consistent(s, pos),
        accepts(s, pos, event),
    ensures
        ({
            let end = pos_after(s, pos, event);
            let t = turn(s, end, event, config);
            &&& t.step matches StepView::Read(n) ==> {
                &&& 1 <= n <= 32768
                &&& t.entries.phase is Skip ==> end + n == t.entries.next || n == 32768 && end + n
                    < t.entries.next
                &&& t.entries.phase matches PhaseView::Gather { left, .. } ==> n == left || n == 32768 && n < left
                &&& t.entries.phase matches PhaseView::Header { filled, .. } ==> n == 512 - filled
                &&& t.entries.phase matches PhaseView::Extension { filled, .. } ==> n == 512 - filled
                &&& t.entries.phase is Header && end >= t.entries.next ==> end + n == t.entries.next + 512
                &&& t.entries.phase is Gather && !t.entries.astray ==> end + n <= t.entries.next
            }
            &&& t.step matches StepView::Seek(n) ==> 0 <= n <= i64::MAX && end + n == t.entries.next
        }),
{
    law_turns_are_orderly(s, pos, event, config);
    lemma_step_is_asked(s, pos_after(s, pos, event), event, config);
}

/// Whether a turn that waits asks for what it waits for.
spec fn asks(t: Turn) -> bool {
    waits(t.step) ==> t.step == ask(t.entries.phase)
}

proof fn lemma_member_asks(s: EntriesView, pos: u64, block: Seq<u8>, header_pos: u64, config: Config)
    ensures
        asks(member_found(s, pos, block, header_pos, config)),
{
}

proof fn lemma_header_asks(
    s: EntriesView,
    pos: u64,
    block: Seq<u8>,
    filled: int,
    b: Seq<u8>,
    config: Config,
)
    ensures
        asks(header_bytes(s, pos, block, filled, b, config)),
{
    let behind = EntriesView { next: (s.next + BLOCK) as u64, ..s };
    lemma_member_asks(behind, pos, put(block, filled, b), s.next, config);
}

proof fn lemma_extension_asks(
    s: EntriesView,
    entry: EntryView,
    map: SparseView,
    block: Seq<u8>,
    filled: int,
    b: Seq<u8>,
)
    ensures
        asks(extension_bytes(s, entry, map, block, filled, b)),
{
}

proof fn lemma_step_is_asked(s: EntriesView, pos: u64, event: EventView, config: Config)
    ensures
        asks(turn(s, pos, event, config)),
{
    let bare = EntriesView { phase: PhaseView::Idle, ..s };
    if let EventView::Bytes(b) = event {
        match s.phase {
            PhaseView::Header { block, filled } => {
                lemma_header_asks(bare, pos, block, filled, b, config);
            },
            PhaseView::Extension { entry, map, block, filled } => {
                lemma_extension_asks(bare, entry, map, block, filled, b);
            },
            _ => {},
        }
    }
}

} // verus!
