use vstd::prelude::*;

use crate::archive::advanced;
use crate::entries::{
    accepts, ask, asked, blank, blank_extension, consistent, extension_bytes, gather_bytes, give, header_bytes,
    header_read, member_found, plain_found, pos_after, resume, resumes, run_out, seek_header, skipped, sparse_read,
    start_header, stop, turn, with_description, Config, EntriesView, EventView, PhaseView, StepView, Turn,
    BLOCK,
};
use crate::entry::EntryView;
use crate::entry_type::EntryType;
use crate::header::{all_zero, is_extended, is_gnu, put, stated_type};
use crate::member::{read_member, role_of, Role};
use crate::sparse::{add_headers, empty_map, SparseView};

verus! {

/// The bytes of `d` from `p` on, `n` of them where there are that many.
pub open spec fn window(d: Seq<u8>, p: int, n: int) -> Seq<u8> {
    d.subrange(clipped(d, p), clipped(d, p + n))
}

/// The position `p`, or the end of `d` where it lies behind that.
pub open spec fn clipped(d: Seq<u8>, p: int) -> int {
    if p < d.len() {
        p
    } else {
        d.len() as int
    }
}

/// What an archive gives when an entry is asked for, and where it is read up to
/// then.
#[verifier::ext_equal]
pub enum Answer {
    /// An entry, and where the next header stands.
    Entry { entry: EntryView, next: u64, pos: int },
    /// No entry: there are no more.
    End { pos: int },
    /// No entry: the archive is not as it should be.
    Error { message: Seq<char>, pos: int },
}

/// The answer that a turn which waits for nothing comes to.
pub open spec fn answer_of(t: Turn, pos: int) -> Answer {
    match t.step {
        StepView::Entry(entry) => Answer::Entry { entry, next: t.entries.next, pos },
        StepView::Error(message) => Answer::Error { message, pos },
        _ => Answer::End { pos },
    }
}

/// What the archive `d` gives where the next header stands at `s.next` and `d`
/// was read up to `pos`.
#[verifier::opaque]
pub open spec fn search(d: Seq<u8>, s: EntriesView, pos: int, config: Config) -> Answer
    decreases u64::MAX - s.next, 1int,
{
    if s.seekable && s.next - pos > i64::MAX {
        Answer::Error { message: "seek position out of bounds"@, pos }
    } else if !s.seekable && s.next > d.len() {
        Answer::Error { message: "unexpected EOF during skip"@, pos: d.len() as int }
    } else {
        let w = window(d, s.next as int, 512);
        header_answer(d, s, s.next + w.len(), put(blank(), 0, w), w.len() as int, config)
    }
}

/// What the archive `d` gives where the header block `block` stands at `s.next`,
/// of which `d` holds `filled` bytes, and `d` was read up to `pos`.
#[verifier::opaque]
pub open spec fn header_answer(
    d: Seq<u8>,
    s: EntriesView,
    pos: int,
    block: Seq<u8>,
    filled: int,
    config: Config,
) -> Answer
    decreases u64::MAX - s.next, 0int,
{
    if filled == 0 || (all_zero(block) && !config.ignore_zeros) {
        answer_of(run_out(s), pos)
    } else if s.next + BLOCK > u64::MAX {
        answer_of(stop(s, "size overflow"@), pos)
    } else {
        let behind = EntriesView { next: (s.next + BLOCK) as u64, ..s };
        if all_zero(block) {
            search(d, behind, pos, config)
        } else {
            let pax = if s.raw {
                None
            } else {
                s.pax
            };
            match read_member(block, s.next, behind.next, pax, config.options) {
                Err(message) => answer_of(stop(s, message), pos),
                Ok(member) => {
                    let after = EntriesView { next: member.next, ..s };
                    if s.raw {
                        Answer::Entry { entry: member.entry, next: member.next, pos }
                    } else {
                        match role_of(member.entry) {
                            Err(message) => answer_of(stop(s, message), pos),
                            Ok(Role::Plain) => plain_answer(d, after, pos, member.entry),
                            Ok(role) => {
                                let bytes = window(d, pos, member.entry.size as int);
                                search(
                                    d,
                                    with_description(
                                        EntriesView { described: true, ..after },
                                        role,
                                        bytes,
                                    ),
                                    pos + bytes.len(),
                                    config,
                                )
                            },
                        }
                    }
                },
            }
        }
    }
}

/// What the archive `d` gives where it was read up to `pos` and the member
/// `entry` that stands for itself was found.
pub open spec fn plain_answer(d: Seq<u8>, s: EntriesView, pos: int, entry: EntryView) -> Answer {
    if stated_type(entry.header) != EntryType::GNUSparse {
        answer_of(give(s, entry), pos)
    } else if !is_gnu(entry.header) {
        answer_of(stop(s, "sparse entry type listed but not GNU header"@), pos)
    } else {
        match add_headers(empty_map(entry.size), entry.header.subrange(386, 482), 4) {
            Err(message) => answer_of(stop(s, message), pos),
            Ok(map) => if is_extended(entry.header) {
                extension_answer(d, s, pos, entry, map, blank_extension(), 0)
            } else {
                answer_of(sparse_read(s, entry, map), pos)
            },
        }
    }
}

/// What the archive `d` gives where blocks with sparse headers of `entry` follow
/// and `filled` bytes of the first of them were read into `block` already.
#[verifier::opaque]
pub open spec fn extension_answer(
    d: Seq<u8>,
    s: EntriesView,
    pos: int,
    entry: EntryView,
    map: SparseView,
    block: Seq<u8>,
    filled: int,
) -> Answer
    decreases u64::MAX - s.next,
{
    let w = window(d, pos, 512 - filled);
    let read = put(block, filled, w);
    let end = pos + w.len();
    if filled + w.len() == 0 {
        answer_of(stop(s, "failed to read extension"@), end)
    } else if s.next + BLOCK > u64::MAX {
        answer_of(stop(s, "size overflow"@), end)
    } else {
        let behind = EntriesView { next: (s.next + BLOCK) as u64, ..s };
        match add_headers(map, read.subrange(0, 504), 21) {
            Err(message) => answer_of(stop(s, message), end),
            Ok(longer) => if read[504] == 1 {
                extension_answer(d, behind, end, entry, longer, read, 0)
            } else {
                answer_of(sparse_read(behind, entry, longer), end)
            },
        }
    }
}

/// What the archive `d` gives to an iteration in the state `s` that takes in a
/// member, where `d` was read up to `pos`.
pub open spec fn taken_in(d: Seq<u8>, s: EntriesView, pos: int, config: Config) -> Answer {
    let bare = EntriesView { phase: PhaseView::Idle, ..s };
    match s.phase {
        PhaseView::Gather { entry, left, bytes } => {
            let w = window(d, pos, left as int);
            match role_of(entry) {
                Ok(role) => search(d, with_description(bare, role, bytes + w), pos + w.len(), config),
                Err(message) => answer_of(stop(bare, message), pos + w.len()),
            }
        },
        PhaseView::Extension { entry, map, block, filled } => extension_answer(
            d,
            bare,
            pos,
            entry,
            map,
            block,
            filled,
        ),
        _ => Answer::End { pos },
    }
}

/// What the archive `d` gives to an iteration in the state `s` that was asked
/// for an entry, where `d` was read up to `pos`.
pub open spec fn answer(d: Seq<u8>, s: EntriesView, pos: int, config: Config) -> Answer {
    let bare = EntriesView { phase: PhaseView::Idle, ..s };
    match s.phase {
        PhaseView::Idle => if s.done {
            Answer::End { pos }
        } else {
            search(d, s, pos, config)
        },
        PhaseView::Skip { .. } => search(d, bare, pos, config),
        PhaseView::Seek { .. } => if resumes(s) {
            taken_in(d, resume(s), s.next as int, config)
        } else {
            search(d, bare, pos, config)
        },
        PhaseView::Header { block, filled } => {
            let w = window(d, pos, 512 - filled);
            header_answer(d, bare, pos + w.len(), put(block, filled, w), filled + w.len(), config)
        },
        _ => taken_in(d, s, pos, config),
    }
}

/// The iteration `s` once it has heard of the event: where it was asked for an
/// entry, it takes note of that first.
pub open spec fn listened(s: EntriesView, event: EventView) -> EntriesView {
    if event is Poll && !s.done {
        asked(s)
    } else {
        s
    }
}

/// Whether a turn waits for something.
pub open spec fn waits(step: StepView) -> bool {
    step is Read || step is Seek
}

/// Whether the event is what reading the archive `d`, which was read up to
/// `pos`, can bring an iteration in the state `s`: bytes that stand there,
/// however many of those asked for, and none only at the end.
pub open spec fn brought_by(d: Seq<u8>, s: EntriesView, pos: int, event: EventView) -> bool {
    match event {
        EventView::Poll => true,
        EventView::Seeked => s.phase is Seek,
        EventView::Failed => false,
        EventView::Bytes(b) => {
            &&& ask(s.phase) is Read
            &&& b.len() <= ask(s.phase)->Read_0
            &&& b == window(d, pos, b.len() as int)
            &&& b.len() == 0 ==> pos >= d.len()
        },
    }
}

/// Whether a turn on the way to an answer leaves that answer what it was.
pub open spec fn keeps_answer(d: Seq<u8>, t: Turn, pos: int, config: Config, expected: Answer) -> bool {
    if waits(t.step) {
        answer(d, t.entries, pos, config) == expected
    } else {
        answer_of(t, pos) == expected
    }
}

proof fn lemma_start_header(d: Seq<u8>, s: EntriesView, config: Config)
    requires
        s.seekable || s.next <= d.len(),
        s.phase is Idle,
        !resumes(s),
    ensures
        keeps_answer(d, start_header(s), s.next as int, config, search(d, s, s.next as int, config)),
{
    reveal(search);
    reveal(header_answer);
    assert(EntriesView { phase: PhaseView::Idle, ..start_header(s).entries } == s);
}

proof fn lemma_seek_header(d: Seq<u8>, s: EntriesView, pos: u64, config: Config)
    requires
        pos <= s.next,
        s.phase is Idle,
        !resumes(s),
        s.seekable || pos <= d.len(),
    ensures
        keeps_answer(d, seek_header(s, pos), pos as int, config, search(d, s, pos as int, config)),
{
    reveal(search);
    reveal(header_answer);
    if !s.seekable && pos == s.next {
        lemma_start_header(d, s, config);
    }
}

/// Whether an iteration in the state `s` is where the archive `d` can take it.
pub open spec fn within(d: Seq<u8>, s: EntriesView, pos: int) -> bool {
    d.len() <= u64::MAX && (s.seekable || pos <= d.len())
}

proof fn lemma_window_all(d: Seq<u8>, p: int, n: int)
    requires
        0 <= p,
        0 <= n,
    ensures
        window(d, p, n).len() <= n,
        p <= d.len() ==> p + window(d, p, n).len() <= d.len(),
        p >= d.len() ==> window(d, p, n).len() == 0,
        window(d, p, n).len() < n ==> p + window(d, p, n).len() >= d.len(),
{
}

proof fn lemma_window_split(d: Seq<u8>, p: int, k: int, n: int)
    requires
        0 <= p,
        0 <= k <= n,
        window(d, p, k).len() == k,
    ensures
        window(d, p, n) == window(d, p, k) + window(d, p + k, n - k),
{
    assert(window(d, p, n) =~= window(d, p, k) + window(d, p + k, n - k));
}

proof fn lemma_put_twice(block: Seq<u8>, filled: int, a: Seq<u8>, b: Seq<u8>)
    requires
        0 <= filled,
        filled + a.len() + b.len() <= block.len(),
    ensures
        put(put(block, filled, a), filled + a.len(), b) == put(block, filled, a + b),
{
    assert(put(put(block, filled, a), filled + a.len(), b) =~= put(block, filled, a + b));
}

proof fn lemma_plain_found(d: Seq<u8>, s: EntriesView, pos: int, entry: EntryView, config: Config)
    requires
        s.phase is Idle,
        !s.raw,
    ensures
        keeps_answer(
            d,
            plain_found(s, entry),
            pos,
            config,
            plain_answer(d, s, pos, entry),
        ),
{
}

proof fn lemma_member_found(
    d: Seq<u8>,
    s: EntriesView,
    pos: u64,
    block: Seq<u8>,
    filled: int,
    config: Config,
)
    requires
        s.phase is Idle,
        !resumes(s),
        within(d, s, pos as int),
        s.next + BLOCK <= u64::MAX,
        pos <= s.next + BLOCK,
        filled > 0,
        !all_zero(block),
    ensures
        keeps_answer(
            d,
            member_found(
                EntriesView { next: (s.next + BLOCK) as u64, ..s },
                pos,
                block,
                s.next,
                config,
            ),
            pos as int,
            config,
            header_answer(d, s, pos as int, block, filled, config),
        ),
{
    reveal(search);
    reveal(header_answer);
    let behind = EntriesView { next: (s.next + BLOCK) as u64, ..s };
    let pax = if s.raw {
        None
    } else {
        s.pax
    };
    match read_member(block, s.next, behind.next, pax, config.options) {
        Err(message) => {},
        Ok(member) => {
            let after = EntriesView { next: member.next, ..s };
            if !s.raw {
                match role_of(member.entry) {
                    Err(message) => {},
                    Ok(Role::Plain) => {
                        lemma_plain_found(d, after, pos as int, member.entry, config);
                    },
                    Ok(role) => {
                        let w = window(d, pos as int, member.entry.size as int);
                        if member.entry.size == 0 {
                            assert(w =~= Seq::empty());
                            lemma_seek_header(
                                d,
                                with_description(
                                    EntriesView { described: true, ..after },
                                    role,
                                    Seq::empty(),
                                ),
                                pos,
                                config,
                            );
                        } else {
                            assert(Seq::empty() + w =~= w);
                        }
                    },
                }
            }
        },
    }
}

#[verifier::rlimit(30)]
proof fn lemma_header_read(
    d: Seq<u8>,
    s: EntriesView,
    pos: u64,
    block: Seq<u8>,
    filled: int,
    config: Config,
)
    requires
        s.phase is Idle,
        !resumes(s),
        within(d, s, pos as int),
        0 <= filled,
        s.next + BLOCK <= u64::MAX ==> pos <= s.next + BLOCK,
    ensures
        keeps_answer(
            d,
            header_read(s, pos, block, filled, config),
            pos as int,
            config,
            header_answer(d, s, pos as int, block, filled, config),
        ),
{
    reveal(search);
    reveal(header_answer);
    if filled == 0 || (all_zero(block) && !config.ignore_zeros) {
    } else if s.next + BLOCK > u64::MAX {
    } else {
        let behind = EntriesView { next: (s.next + BLOCK) as u64, ..s };
        if all_zero(block) {
            lemma_seek_header(d, behind, pos, config);
        } else {
            lemma_member_found(d, s, pos, block, filled, config);
        }
    }
}

/// What is still to be read of a block after the bytes `b` of it were read.
proof fn lemma_block_pieces(d: Seq<u8>, pos: int, block: Seq<u8>, filled: int, b: Seq<u8>)
    requires
        0 <= pos,
        0 <= filled < 512,
        block.len() == 512,
        b.len() <= 512 - filled,
        b == window(d, pos, b.len() as int),
        b.len() == 0 ==> pos >= d.len(),
    ensures
        ({
            let w = window(d, pos, 512 - filled);
            let n = filled + b.len();
            let rest = window(d, pos + b.len(), 512 - n);
            &&& w.len() == b.len() + rest.len()
            &&& put(block, filled, w) == put(put(block, filled, b), n, rest)
            &&& b.len() == 0 || n == 512 ==> rest.len() == 0 && w == b
        }),
{
    let w = window(d, pos, 512 - filled);
    let n = filled + b.len();
    let rest = window(d, pos + b.len(), 512 - n);
    lemma_window_all(d, pos, b.len() as int);
    lemma_window_all(d, pos + b.len(), 512 - n);
    lemma_window_split(d, pos, b.len() as int, 512 - filled);
    lemma_put_twice(block, filled, b, rest);
    if b.len() == 0 || n == 512 {
        assert(rest =~= Seq::empty());
        assert(w =~= b);
    }
}

#[verifier::rlimit(30)]
proof fn lemma_header_bytes(
    d: Seq<u8>,
    s: EntriesView,
    pos: u64,
    block: Seq<u8>,
    filled: int,
    b: Seq<u8>,
    config: Config,
)
    requires
        s.phase is Idle,
        !resumes(s),
        within(d, s, pos as int),
        0 <= filled < 512,
        block.len() == 512,
        b.len() <= 512 - filled,
        b == window(d, pos as int, b.len() as int),
        b.len() == 0 ==> pos >= d.len(),
        pos + b.len() <= u64::MAX,
        pos == advanced(s.next, filled),
    ensures
        keeps_answer(
            d,
            header_bytes(s, (pos + b.len()) as u64, block, filled, b, config),
            pos + b.len(),
            config,
            answer(d, EntriesView { phase: PhaseView::Header { block, filled }, ..s }, pos as int, config),
        ),
{
    let end = (pos + b.len()) as u64;
    let n = filled + b.len();
    lemma_window_all(d, pos as int, b.len() as int);
    lemma_block_pieces(d, pos as int, block, filled, b);
    if b.len() == 0 || n == 512 {
        lemma_header_read(d, s, end, put(block, filled, b), n, config);
    }
}

#[verifier::rlimit(30)]
proof fn lemma_extension_read(
    d: Seq<u8>,
    s: EntriesView,
    pos: int,
    entry: EntryView,
    map: SparseView,
    block: Seq<u8>,
    filled: int,
    b: Seq<u8>,
    config: Config,
)
    requires
        s.phase is Idle,
        !s.raw,
        0 <= pos,
        0 <= filled < 512,
        block.len() == 512,
        b.len() <= 512 - filled,
        b == window(d, pos, b.len() as int),
        b.len() == 0 ==> pos >= d.len(),
    ensures
        keeps_answer(
            d,
            extension_bytes(s, entry, map, block, filled, b),
            pos + b.len(),
            config,
            extension_answer(d, s, pos, entry, map, block, filled),
        ),
{
    lemma_block_pieces(d, pos, block, filled, b);
    reveal(extension_answer);
}

proof fn lemma_skip_bytes(d: Seq<u8>, s: EntriesView, pos: u64, rem: u64, b: Seq<u8>, config: Config)
    requires
        s.phase is Idle,
        !resumes(s),
        !s.seekable,
        within(d, s, pos as int),
        pos + rem == s.next,
        b.len() <= rem,
        rem > 0,
        b == window(d, pos as int, b.len() as int),
        b.len() == 0 ==> pos >= d.len(),
    ensures
        keeps_answer(
            d,
            skipped(s, rem, b.len() as int),
            pos + b.len(),
            config,
            search(d, s, pos as int, config),
        ),
{
    reveal(search);
    reveal(header_answer);
    lemma_window_all(d, pos as int, b.len() as int);
    if b.len() == rem {
        lemma_start_header(d, s, config);
    }
}

proof fn lemma_gather_bytes(
    d: Seq<u8>,
    s: EntriesView,
    pos: u64,
    entry: EntryView,
    left: u64,
    bytes: Seq<u8>,
    b: Seq<u8>,
    config: Config,
)
    requires
        s.phase is Idle,
        !resumes(s),
        !s.raw,
        within(d, s, pos as int),
        b.len() == 0 || b.len() == left ==> pos + b.len() <= s.next,
        pos + b.len() <= u64::MAX,
        b.len() <= left,
        role_of(entry) is Ok,
        b == window(d, pos as int, b.len() as int),
        b.len() == 0 ==> pos >= d.len(),
    ensures
        keeps_answer(
            d,
            gather_bytes(s, (pos + b.len()) as u64, entry, left, bytes, b),
            pos + b.len(),
            config,
            answer(d, EntriesView { phase: PhaseView::Gather { entry, left, bytes }, ..s }, pos as int, config),
        ),
{
    let end = (pos + b.len()) as u64;
    let w = window(d, pos as int, left as int);
    lemma_window_all(d, pos as int, b.len() as int);
    lemma_window_split(d, pos as int, b.len() as int, left as int);
    let rest = window(d, end as int, left - b.len());
    lemma_window_all(d, end as int, left - b.len());
    assert(bytes + w =~= (bytes + b) + rest);
    if b.len() == 0 || b.len() == left {
        assert(rest =~= Seq::empty());
        assert(w =~= b);
        lemma_seek_header(d, with_description(s, role_of(entry)->Ok_0, bytes + b), end, config);
    }
}

/// However an archive is read, piece by piece, what it gives stays the same:
/// as long as the iteration waits, it is on the way to the same answer, and
/// when it waits no more, it has come to it.
pub proof fn law_pieces_do_not_matter(
    d: Seq<u8>,
    s: EntriesView,
    pos: u64,
    event: EventView,
    config: Config,
)
    requires
        within(d, s, pos as int),
        consistent(s, pos),
        accepts(s, pos, event),
        brought_by(d, s, pos as int, event),
    ensures
        keeps_answer(
            d,
            turn(s, pos_after(s, pos, event), event, config),
            pos_after(s, pos, event) as int,
            config,
            answer(d, listened(s, event), pos as int, config),
        ),
{
    let bare = EntriesView { phase: PhaseView::Idle, ..s };
    match event {
        EventView::Poll => {
            if !s.done && asked(s).phase is Idle {
                lemma_seek_header(d, asked(s), pos, config);
            }
        },
        EventView::Seeked => {
            reveal(search);
            reveal(header_answer);
        },
        EventView::Failed => {},
        EventView::Bytes(b) => {
            lemma_window_all(d, pos as int, b.len() as int);
            assert(advanced(pos, b.len() as int) == pos + b.len());
            match s.phase {
                PhaseView::Skip { rem } => {
                    lemma_skip_bytes(d, bare, pos, rem, b, config);
                },
                PhaseView::Header { block, filled } => {
                    lemma_header_bytes(d, bare, pos, block, filled, b, config);
                },
                PhaseView::Gather { entry, left, bytes } => {
                    lemma_gather_bytes(d, bare, pos, entry, left, bytes, b, config);
                },
                PhaseView::Extension { entry, map, block, filled } => {
                    lemma_extension_read(d, bare, pos as int, entry, map, block, filled, b, config);
                },
                _ => {},
            }
        },
    }
}

} // verus!
