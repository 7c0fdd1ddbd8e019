use vstd::prelude::*;
use vstd::slice::slice_subrange;

use crate::archive::{advanced, Archive, ArchiveInner};
use crate::entry::{bytes_view, EntryFields, EntryView, Options};
use crate::entry_type::EntryType;
use crate::error::{other, Error};
use crate::grammar::{answer, brought_by, keeps_answer, law_pieces_do_not_matter, listened, within};
use crate::header::{all_zero, is_extended, is_gnu, put, stated_real_size, stated_type, Header};
use crate::laws::{law_steady_stays_steady, law_turns_are_orderly, orderly};
use crate::member::{classify, parse_member, read_member, role_of, Role};
use crate::number::not_a_number;
use crate::sparse::{add_headers, empty_map, fits, SparseMap, SparseView};

verus! {

/// An iterator over the entries of an archive.
pub struct Entries {
    /// The state of the iteration.
    pub fields: EntriesFields,
}

/// The state of an iteration over the entries of an archive.
pub struct EntriesFields {
    /// Where the next header stands.
    pub next: u64,
    /// Whether the iteration is over.
    pub done: bool,
    /// Whether members that describe other members are returned as they are.
    pub raw: bool,
    /// Whether the archive is skipped over by seeking.
    pub seekable: bool,
    /// Whether a member that describes the one that is looked for was found since
    /// the iteration was last asked for an entry.
    pub described: bool,
    /// The name for the member that is looked for.
    pub gnu_longname: Option<Vec<u8>>,
    /// The link name for the member that is looked for.
    pub gnu_longlink: Option<Vec<u8>>,
    /// The extensions for the member that is looked for.
    pub pax_extensions: Option<Vec<u8>>,
    /// What the iteration waits for.
    pub phase: Phase,
    /// What the iteration waited for of a member that it was taking in when
    /// members began to be returned as they are.
    pub begun: Phase,
    /// Whether the member that is taken in was begun elsewhere: it is read from
    /// where the archive happens to be.
    pub astray: bool,
}

/// What an iteration waits for.
pub enum Phase {
    /// To be asked for an entry.
    Idle,
    /// For bytes to pass over, `rem` more of them.
    Skip { rem: u64 },
    /// For the archive to be moved forward by `amt` bytes.
    Seek { amt: u64 },
    /// For the rest of a header, of which `filled` bytes are there.
    Header { block: Header, filled: usize },
    /// For the contents of a member that describes another, `left` more bytes.
    Gather { entry: EntryFields, left: u64, bytes: Vec<u8> },
    /// For the rest of a block with sparse headers, of which `filled` bytes are
    /// there.
    Extension { entry: EntryFields, map: SparseMap, block: Header, filled: usize },
}

/// What happened since an iteration was last asked.
pub enum Event {
    /// An entry is wanted.
    Poll,
    /// These bytes were read; none were where the archive has ended.
    Bytes(Vec<u8>),
    /// The archive was moved forward.
    Seeked,
    /// What was asked for could not be done.
    Failed,
}

/// What an iteration answers.
pub enum Step {
    /// At most this many bytes are to be read.
    Read(usize),
    /// The archive is to be moved forward by this many bytes.
    Seek(i64),
    /// The next entry.
    Entry(EntryFields),
    /// There are no more entries.
    End,
    /// The archive is not as it should be.
    Error(Error),
    /// The failure that was reported ends the iteration.
    Failed,
}

/// What an [`EntriesFields`] stands for.
#[verifier::ext_equal]
pub struct EntriesView {
    pub next: u64,
    pub done: bool,
    pub raw: bool,
    pub seekable: bool,
    pub described: bool,
    pub longname: Option<Seq<u8>>,
    pub longlink: Option<Seq<u8>>,
    pub pax: Option<Seq<u8>>,
    pub phase: PhaseView,
    pub begun: PhaseView,
    pub astray: bool,
}

/// What a [`Phase`] stands for.
#[verifier::ext_equal]
pub enum PhaseView {
    Idle,
    Skip { rem: u64 },
    Seek { amt: u64 },
    Header { block: Seq<u8>, filled: int },
    Gather { entry: EntryView, left: u64, bytes: Seq<u8> },
    Extension { entry: EntryView, map: SparseView, block: Seq<u8>, filled: int },
}

/// What an [`Event`] stands for.
#[verifier::ext_equal]
pub enum EventView {
    Poll,
    Bytes(Seq<u8>),
    Seeked,
    Failed,
}

/// What a [`Step`] stands for.
#[verifier::ext_equal]
pub enum StepView {
    Read(int),
    Seek(int),
    Entry(EntryView),
    End,
    Error(Seq<char>),
    Failed,
}

impl View for Phase {
    type V = PhaseView;

    open spec fn view(&self) -> PhaseView {
        match *self {
            Phase::Idle => PhaseView::Idle,
            Phase::Skip { rem } => PhaseView::Skip { rem },
            Phase::Seek { amt } => PhaseView::Seek { amt },
            Phase::Header { block, filled } => PhaseView::Header { block: block@, filled: filled as int },
            Phase::Gather { entry, left, bytes } => PhaseView::Gather { entry: entry@, left, bytes: bytes@ },
            Phase::Extension { entry, map, block, filled } => PhaseView::Extension {
                entry: entry@,
                map: map@,
                block: block@,
                filled: filled as int,
            },
        }
    }
}

impl View for EntriesFields {
    type V = EntriesView;

    open spec fn view(&self) -> EntriesView {
        EntriesView {
            next: self.next,
            done: self.done,
            raw: self.raw,
            seekable: self.seekable,
            described: self.described,
            longname: bytes_view(self.gnu_longname),
            longlink: bytes_view(self.gnu_longlink),
            pax: bytes_view(self.pax_extensions),
            phase: self.phase@,
            begun: self.begun@,
            astray: self.astray,
        }
    }
}

impl View for Event {
    type V = EventView;

    open spec fn view(&self) -> EventView {
        match *self {
            Event::Poll => EventView::Poll,
            Event::Bytes(bytes) => EventView::Bytes(bytes@),
            Event::Seeked => EventView::Seeked,
            Event::Failed => EventView::Failed,
        }
    }
}

impl View for Step {
    type V = StepView;

    open spec fn view(&self) -> StepView {
        match *self {
            Step::Read(n) => StepView::Read(n as int),
            Step::Seek(n) => StepView::Seek(n as int),
            Step::Entry(entry) => StepView::Entry(entry@),
            Step::End => StepView::End,
            Step::Error(error) => StepView::Error(error@),
            Step::Failed => StepView::Failed,
        }
    }
}

/// An iteration that was not asked for anything yet.
pub open spec fn at_start(seekable: bool) -> EntriesView {
    EntriesView {
        next: 0,
        done: false,
        raw: false,
        seekable,
        described: false,
        longname: None,
        longlink: None,
        pax: None,
        phase: PhaseView::Idle,
        begun: PhaseView::Idle,
        astray: false,
    }
}

/// What the archive tells the iteration.
pub struct Config {
    pub ignore_zeros: bool,
    pub options: Options,
}

/// What the archive `inner` tells the iteration.
pub open spec fn config_of<R>(inner: ArchiveInner<R>) -> Config {
    Config { ignore_zeros: inner.ignore_zeros, options: inner.options }
}

/// An iteration after an event, and what it answers.
#[verifier::ext_equal]
pub struct Turn {
    pub entries: EntriesView,
    pub step: StepView,
}

/// The size of a block of an archive.
pub const BLOCK: u64 = 512;

/// The most bytes that are asked for at once to be passed over or gathered.
pub const CHUNK: u64 = 32768;

/// How many bytes are asked for at once where `n` are wanted.
pub open spec fn chunk(n: u64) -> int {
    if n < CHUNK {
        n as int
    } else {
        CHUNK as int
    }
}

/// A block of zeros.
pub open spec fn blank() -> Seq<u8> {
    Seq::new(512, |i: int| 0u8)
}

/// The block that stands in for the sparse headers before any were read.
pub open spec fn blank_extension() -> Seq<u8> {
    blank().update(504, 1)
}

/// The iteration ends with an error.
pub open spec fn stop(s: EntriesView, message: Seq<char>) -> Turn {
    Turn {
        entries: EntriesView { done: true, phase: PhaseView::Idle, ..s },
        step: StepView::Error(message),
    }
}

/// There is no header any more. That is an error where members describe one
/// that should follow, unless members are returned as they are.
pub open spec fn run_out(s: EntriesView) -> Turn {
    if s.described && !s.raw {
        stop(s, "members found describing a future member but no future member found"@)
    } else {
        Turn {
            entries: EntriesView { done: true, phase: PhaseView::Idle, ..s },
            step: StepView::End,
        }
    }
}

/// The iteration waits for `phase`.
pub open spec fn wait(s: EntriesView, phase: PhaseView, step: StepView) -> Turn {
    Turn { entries: EntriesView { phase, ..s }, step }
}

/// A header is to be read from where the archive is.
pub open spec fn start_header(s: EntriesView) -> Turn {
    wait(s, PhaseView::Header { block: blank(), filled: 0 }, StepView::Read(512))
}

/// The archive is to be moved from `pos` to the next header.
pub open spec fn seek_header(s: EntriesView, pos: u64) -> Turn {
    let delta = (s.next - pos) as u64;
    if s.seekable {
        if delta > i64::MAX {
            stop(s, "seek position out of bounds"@)
        } else {
            wait(s, PhaseView::Seek { amt: delta }, StepView::Seek(delta as int))
        }
    } else if delta > 0 {
        wait(s, PhaseView::Skip { rem: delta }, StepView::Read(chunk(delta)))
    } else {
        start_header(s)
    }
}

/// Of `rem` bytes to pass over, `n` were read.
pub open spec fn skipped(s: EntriesView, rem: u64, n: int) -> Turn {
    if n == 0 {
        stop(s, "unexpected EOF during skip"@)
    } else if n < rem {
        let left = (rem - n) as u64;
        wait(s, PhaseView::Skip { rem: left }, StepView::Read(chunk(left)))
    } else {
        start_header(s)
    }
}

/// The bytes `b` were read of a header of which `filled` bytes of `block` were
/// there. What is not there when the archive ends is left as it was.
pub open spec fn header_bytes(
    s: EntriesView,
    pos: u64,
    block: Seq<u8>,
    filled: int,
    b: Seq<u8>,
    config: Config,
) -> Turn {
    let read = put(block, filled, b);
    let n = filled + b.len();
    if b.len() > 0 && n < 512 {
        wait(s, PhaseView::Header { block: read, filled: n }, StepView::Read(512 - n))
    } else {
        header_read(s, pos, read, n, config)
    }
}

/// The header `block` was read, of which the archive held `filled` bytes.
pub open spec fn header_read(
    s: EntriesView,
    pos: u64,
    block: Seq<u8>,
    filled: int,
    config: Config,
) -> Turn {
    if filled == 0 || (all_zero(block) && !config.ignore_zeros) {
        run_out(s)
    } else if s.next + BLOCK > u64::MAX {
        stop(s, "size overflow"@)
    } else {
        let behind = EntriesView { next: (s.next + BLOCK) as u64, ..s };
        if all_zero(block) {
            seek_header(behind, pos)
        } else {
            member_found(behind, pos, block, s.next, config)
        }
    }
}

/// The header `block` stands at `header_pos`, right in front of `s.next`.
pub open spec fn member_found(
    s: EntriesView,
    pos: u64,
    block: Seq<u8>,
    header_pos: u64,
    config: Config,
) -> Turn {
    let pax = if s.raw {
        None
    } else {
        s.pax
    };
    match read_member(block, header_pos, s.next, pax, config.options) {
        Err(message) => stop(s, message),
        Ok(member) => {
            let behind = EntriesView { next: member.next, ..s };
            if s.raw {
                wait(behind, PhaseView::Idle, StepView::Entry(member.entry))
            } else {
                match role_of(member.entry) {
                    Err(message) => stop(behind, message),
                    Ok(Role::Plain) => plain_found(behind, member.entry),
                    Ok(role) => if member.entry.size == 0 {
                        gathered(EntriesView { described: true, ..behind }, pos, role, Seq::empty())
                    } else {
                        wait(
                            EntriesView { described: true, ..behind },
                            PhaseView::Gather {
                                entry: member.entry,
                                left: member.entry.size,
                                bytes: Seq::empty(),
                            },
                            StepView::Read(chunk(member.entry.size)),
                        )
                    },
                }
            }
        },
    }
}

/// The bytes `b` were read of a member that describes another.
pub open spec fn gather_bytes(
    s: EntriesView,
    pos: u64,
    entry: EntryView,
    left: u64,
    bytes: Seq<u8>,
    b: Seq<u8>,
) -> Turn {
    if b.len() > 0 && b.len() < left {
        let rest = (left - b.len()) as u64;
        wait(
            s,
            PhaseView::Gather { entry, left: rest, bytes: bytes + b },
            StepView::Read(chunk(rest)),
        )
    } else {
        match role_of(entry) {
            Ok(role) => gathered(s, pos, role, bytes + b),
            Err(message) => stop(s, message),
        }
    }
}

/// The iteration with `bytes` as what a member in the role `role` says of the
/// one that follows.
pub open spec fn with_description(s: EntriesView, role: Role, bytes: Seq<u8>) -> EntriesView {
    match role {
        Role::LongName => EntriesView { longname: Some(bytes), astray: false, ..s },
        Role::LongLink => EntriesView { longlink: Some(bytes), astray: false, ..s },
        Role::Extensions => EntriesView { pax: Some(bytes), astray: false, ..s },
        Role::Plain => s,
    }
}

/// The contents `bytes` of a member in the role `role` were read.
pub open spec fn gathered(s: EntriesView, pos: u64, role: Role, bytes: Seq<u8>) -> Turn {
    seek_header(with_description(s, role, bytes), pos)
}

/// A member that stands for itself was found.
pub open spec fn plain_found(s: EntriesView, entry: EntryView) -> Turn {
    if stated_type(entry.header) != EntryType::GNUSparse {
        give(s, entry)
    } else if !is_gnu(entry.header) {
        stop(s, "sparse entry type listed but not GNU header"@)
    } else {
        match add_headers(empty_map(entry.size), entry.header.subrange(386, 482), 4) {
            Err(message) => stop(s, message),
            Ok(map) => if is_extended(entry.header) {
                wait(
                    s,
                    PhaseView::Extension { entry, map, block: blank_extension(), filled: 0 },
                    StepView::Read(512),
                )
            } else {
                sparse_read(s, entry, map)
            },
        }
    }
}

/// The bytes `b` were read of a block with sparse headers of which `filled`
/// bytes of `block` were there.
pub open spec fn extension_bytes(
    s: EntriesView,
    entry: EntryView,
    map: SparseView,
    block: Seq<u8>,
    filled: int,
    b: Seq<u8>,
) -> Turn {
    let read = put(block, filled, b);
    let n = filled + b.len();
    if b.len() > 0 && n < 512 {
        wait(
            s,
            PhaseView::Extension { entry, map, block: read, filled: n },
            StepView::Read(512 - n),
        )
    } else {
        extension_read(s, entry, map, read, n)
    }
}

/// The block `block` with sparse headers was read, of which the archive held
/// `filled` bytes.
pub open spec fn extension_read(
    s: EntriesView,
    entry: EntryView,
    map: SparseView,
    block: Seq<u8>,
    filled: int,
) -> Turn {
    if filled == 0 {
        stop(s, "failed to read extension"@)
    } else if s.next + BLOCK > u64::MAX {
        stop(s, "size overflow"@)
    } else {
        let behind = EntriesView { next: (s.next + BLOCK) as u64, ..s };
        match add_headers(map, block.subrange(0, 504), 21) {
            Err(message) => stop(behind, message),
            Ok(longer) => if block[504] == 1 {
                wait(
                    behind,
                    PhaseView::Extension { entry, map: longer, block, filled: 0 },
                    StepView::Read(512),
                )
            } else {
                sparse_read(behind, entry, longer)
            },
        }
    }
}

/// All sparse headers of `entry` were read. They must come to the size that its
/// header states for the expanded file, and to all that is stored of it.
pub open spec fn sparse_read(s: EntriesView, entry: EntryView, map: SparseView) -> Turn {
    match stated_real_size(entry.header) {
        None => stop(s, not_a_number()),
        Some(size) => if map.cur != size {
            stop(s, "mismatch in sparse file chunks and size in header"@)
        } else if map.remaining > 0 {
            stop(s, "mismatch in sparse file chunks and entry size in header"@)
        } else {
            give(s, EntryView { size: map.cur, data: map.data, ..entry })
        },
    }
}

/// The entry is given out, with all that was said of it.
pub open spec fn give(s: EntriesView, entry: EntryView) -> Turn {
    Turn {
        entries: EntriesView {
            longname: None,
            longlink: None,
            pax: None,
            phase: PhaseView::Idle,
            ..s
        },
        step: StepView::Entry(
            EntryView {
                long_pathname: s.longname,
                long_linkname: s.longlink,
                pax_extensions: s.pax,
                ..entry
            },
        ),
    }
}

/// What the iteration still waits for.
pub open spec fn ask(phase: PhaseView) -> StepView {
    match phase {
        PhaseView::Idle => StepView::End,
        PhaseView::Skip { rem } => StepView::Read(chunk(rem)),
        PhaseView::Seek { amt } => StepView::Seek(amt as int),
        PhaseView::Header { filled, .. } => StepView::Read(512 - filled),
        PhaseView::Gather { left, .. } => StepView::Read(chunk(left)),
        PhaseView::Extension { filled, .. } => StepView::Read(512 - filled),
    }
}

/// Whether the iteration takes in a member while members are to be returned as
/// they are.
pub open spec fn dropped(s: EntriesView) -> bool {
    s.raw && (s.phase is Gather || s.phase is Extension)
}

/// Whether the iteration has a member to take in that it had begun to take in
/// before members were returned as they are.
pub open spec fn resumes(s: EntriesView) -> bool {
    !s.raw && !(s.begun is Idle)
}

/// The iteration `s` when it goes on with the member that it had begun.
pub open spec fn resume(s: EntriesView) -> EntriesView {
    EntriesView { phase: s.begun, begun: PhaseView::Idle, astray: true, ..s }
}

/// The iteration `s` once it was asked for an entry, again or for the first
/// time. That the entry was described is forgotten by that. A member that is
/// taken in is put aside where members are to be returned as they are, and gone
/// on with where they no longer are.
pub open spec fn asked(s: EntriesView) -> EntriesView {
    let fresh = EntriesView { described: false, ..s };
    if dropped(s) {
        EntriesView { phase: PhaseView::Idle, begun: s.phase, astray: false, ..fresh }
    } else if resumes(s) && !(s.phase is Seek) {
        resume(fresh)
    } else if s.phase is Idle {
        EntriesView { astray: false, ..fresh }
    } else {
        fresh
    }
}

/// Whether the iteration `s` was never told to return members as they are while
/// it was taking one in, so that it knows where the archive is.
pub open spec fn steady(s: EntriesView) -> bool {
    !s.astray && s.begun is Idle && !dropped(s)
}

/// Where the archive is after an event.
pub open spec fn pos_after(s: EntriesView, pos: u64, event: EventView) -> u64 {
    match event {
        EventView::Bytes(b) => advanced(pos, b.len() as int),
        EventView::Seeked => s.next,
        _ => pos,
    }
}

/// What an iteration does on an event, where the archive is at `pos` after it.
pub open spec fn turn(s: EntriesView, pos: u64, event: EventView, config: Config) -> Turn {
    match event {
        EventView::Failed => Turn {
            entries: EntriesView { done: true, phase: PhaseView::Idle, ..s },
            step: StepView::Failed,
        },
        EventView::Poll => if s.done {
            Turn { entries: s, step: StepView::End }
        } else if asked(s).phase is Idle {
            seek_header(asked(s), pos)
        } else {
            Turn { entries: asked(s), step: ask(asked(s).phase) }
        },
        EventView::Seeked => if resumes(s) {
            Turn { entries: resume(s), step: ask(s.begun) }
        } else {
            start_header(s)
        },
        EventView::Bytes(b) => {
            let bare = EntriesView { phase: PhaseView::Idle, ..s };
            match s.phase {
                PhaseView::Skip { rem } => skipped(bare, rem, b.len() as int),
                PhaseView::Header { block, filled } => header_bytes(bare, pos, block, filled, b, config),
                PhaseView::Gather { entry, left, bytes } => gather_bytes(bare, pos, entry, left, bytes, b),
                PhaseView::Extension { entry, map, block, filled } => extension_bytes(
                    bare,
                    entry,
                    map,
                    block,
                    filled,
                    b,
                ),
                _ => Turn { entries: s, step: ask(s.phase) },
            }
        },
    }
}

/// The position `n` bytes in front of `pos`.
pub open spec fn retreated(pos: u64, n: int) -> int {
    if pos >= n {
        pos - n
    } else {
        pos - n + 0x1_0000_0000_0000_0000
    }
}

/// Whether an iteration can have put aside what it waits for in `phase`.
pub open spec fn set_aside(phase: PhaseView) -> bool {
    match phase {
        PhaseView::Idle => true,
        PhaseView::Gather { entry, left, .. } => left > 0 && (role_of(entry) matches Ok(role) && role
            != Role::Plain),
        PhaseView::Extension { map, block, filled, .. } => block.len() == 512 && 0 <= filled < 512
            && fits(map),
        _ => false,
    }
}

/// Whether an iteration can be in the state `s` while the archive is at `pos`.
pub open spec fn consistent(s: EntriesView, pos: u64) -> bool {
    &&& s.done ==> s.phase is Idle
    &&& set_aside(s.begun)
    &&& match s.phase {
        PhaseView::Idle => true,
        PhaseView::Skip { rem } => !s.seekable && rem > 0 && pos + rem == s.next,
        PhaseView::Seek { amt } => s.seekable && pos + amt == s.next && amt <= i64::MAX,
        PhaseView::Header { block, filled } => block.len() == 512 && 0 <= filled < 512 && pos
            == advanced(s.next, filled),
        PhaseView::Gather { left, .. } => set_aside(s.phase) && (s.astray || pos + left <= s.next),
        PhaseView::Extension { map, filled, .. } => set_aside(s.phase) && (s.astray || retreated(
            pos,
            filled,
        ) + map.size <= s.next),
    }
}

/// Whether the iteration in the state `s` can take the event while the archive
/// is at `pos`: it gets what it asked for, and the next header is looked for only
/// where the archive is not past it. Once it was told whether members are to be
/// returned as they are, it is asked for an entry before it goes on.
pub open spec fn accepts(s: EntriesView, pos: u64, event: EventView) -> bool {
    match event {
        EventView::Poll => !s.done && asked(s).phase is Idle ==> pos <= s.next,
        EventView::Seeked => s.phase is Seek,
        EventView::Failed => true,
        EventView::Bytes(b) => {
            &&& ask(s.phase) matches StepView::Read(n) && b.len() <= n
            &&& !dropped(s) && !resumes(s)
            &&& s.phase matches PhaseView::Gather { left, .. } ==> (b.len() == 0 || b.len() == left
                ==> pos + b.len() <= s.next)
        },
    }
}

/// Decides, once a block was read into a buffer that held `before` bytes and now
/// holds `after`, whether there was a block.
///
/// If the reader reached its end before filling the buffer at all, there was
/// none.
pub fn try_read_all(before: usize, after: usize) -> (result: Result<bool, Error>)
    ensures
        after != before ==> result == Ok::<bool, Error>(true),
        after == before && before == 0 ==> result == Ok::<bool, Error>(false),
        after == before && before != 0 ==> result is Err && result->Err_0@
            == "failed to read entire block"@,
{
    if after == before {
        if before == 0 {
            Ok(false)
        } else {
            Err(other("failed to read entire block"))
        }
    } else {
        Ok(true)
    }
}

/// How many bytes to ask for where `n` are wanted.
fn chunk_size(n: u64) -> (size: usize)
    ensures
        size == chunk(n),
{
    if n < CHUNK {
        n as usize
    } else {
        CHUNK as usize
    }
}

/// Puts `bytes` into `block` behind the first `filled` bytes of it.
fn fill(block: &mut Header, filled: usize, bytes: &[u8])
    requires
        filled + bytes@.len() <= 512,
    ensures
        final(block)@ == put(old(block)@, filled as int, bytes@),
{
    let mut i: usize = 0;
    assert(block@ =~= put(old(block)@, filled as int, bytes@.take(0)));
    while i < bytes.len()
        invariant
            i <= bytes.len(),
            filled + bytes@.len() <= 512,
            block@ == put(old(block)@, filled as int, bytes@.take(i as int)),
        decreases bytes.len() - i,
    {
        block.bytes[filled + i] = bytes[i];
        i += 1;
        assert(block@ =~= put(old(block)@, filled as int, bytes@.take(i as int)));
    }
    assert(bytes@.take(i as int) =~= bytes@);
}

/// Appends `more` to `bytes`.
fn append(bytes: &mut Vec<u8>, more: Vec<u8>)
    ensures
        final(bytes)@ == old(bytes)@ + more@,
{
    let mut more = more;
    bytes.append(&mut more);
}

impl EntriesFields {
    fn stop(&mut self, error: Error) -> (step: Step)
        ensures
            (Turn { entries: final(self)@, step: step@ }) == stop(old(self)@, error@),
    {
        self.done = true;
        self.phase = Phase::Idle;
        Step::Error(error)
    }

    fn run_out(&mut self) -> (step: Step)
        ensures
            (Turn { entries: final(self)@, step: step@ }) == run_out(old(self)@),
    {
        if self.described && !self.raw {
            return self.stop(other("members found describing a future member but no future member found"));
        }
        self.done = true;
        self.phase = Phase::Idle;
        Step::End
    }

    fn start_header(&mut self) -> (step: Step)
        ensures
            (Turn { entries: final(self)@, step: step@ }) == start_header(old(self)@),
    {
        self.phase = Phase::Header { block: Header::new_old(), filled: 0 };
        Step::Read(512)
    }

    fn seek_header(&mut self, pos: u64) -> (step: Step)
        requires
            pos <= old(self).next,
        ensures
            (Turn { entries: final(self)@, step: step@ }) == seek_header(old(self)@, pos),
    {
        let delta = self.next - pos;
        if self.seekable {
            if delta > i64::MAX as u64 {
                return self.stop(other("seek position out of bounds"));
            }
            self.phase = Phase::Seek { amt: delta };
            return Step::Seek(delta as i64);
        }
        if delta > 0 {
            self.phase = Phase::Skip { rem: delta };
            return Step::Read(chunk_size(delta));
        }
        self.start_header()
    }

    fn skipped(&mut self, rem: u64, n: usize) -> (step: Step)
        requires
            n <= rem,
        ensures
            (Turn { entries: final(self)@, step: step@ }) == skipped(old(self)@, rem, n as int),
    {
        if n == 0 {
            return self.stop(other("unexpected EOF during skip"));
        }
        let rem = rem - n as u64;
        if rem > 0 {
            self.phase = Phase::Skip { rem };
            return Step::Read(chunk_size(rem));
        }
        self.start_header()
    }

    fn header_bytes(
        &mut self,
        pos: u64,
        block: Header,
        filled: usize,
        bytes: Vec<u8>,
        ignore_zeros: bool,
        options: Options,
    ) -> (step: Step)
        requires
            filled + bytes@.len() <= 512,
            pos == advanced(old(self).next, filled + bytes@.len()),
        ensures
            (Turn { entries: final(self)@, step: step@ }) == header_bytes(
                old(self)@,
                pos,
                block@,
                filled as int,
                bytes@,
                Config { ignore_zeros, options },
            ),
    {
        let mut block = block;
        fill(&mut block, filled, bytes.as_slice());
        let n = filled + bytes.len();
        if bytes.len() > 0 && n < 512 {
            self.phase = Phase::Header { block, filled: n };
            return Step::Read(512 - n);
        }
        self.header_read(pos, block, n, ignore_zeros, options)
    }

    fn header_read(
        &mut self,
        pos: u64,
        block: Header,
        filled: usize,
        ignore_zeros: bool,
        options: Options,
    ) -> (step: Step)
        requires
            filled <= 512,
            pos == advanced(old(self).next, filled as int),
        ensures
            (Turn { entries: final(self)@, step: step@ }) == header_read(
                old(self)@,
                pos,
                block@,
                filled as int,
                Config { ignore_zeros, options },
            ),
    {
        // The end of the archive is an indicator that there are no more members.
        match try_read_all(0, filled) {
            Ok(true) => {},
            Ok(false) => {
                return self.run_out();
            },
            Err(e) => {
                return self.stop(e);
            },
        }
        // So is a block of zeros, unless zeros are ignored.
        let zero = block.is_zero();
        if zero && !ignore_zeros {
            return self.run_out();
        }
        let header_pos = self.next;
        match self.next.checked_add(BLOCK) {
            Some(next) => {
                self.next = next;
            },
            None => {
                return self.stop(other("size overflow"));
            },
        }
        if zero {
            return self.seek_header(pos);
        }
        self.member_found(pos, block, header_pos, options)
    }

    fn member_found(&mut self, pos: u64, block: Header, header_pos: u64, options: Options) -> (step: Step)
        requires
            pos <= old(self).next,
        ensures
            (Turn { entries: final(self)@, step: step@ }) == member_found(
                old(self)@,
                pos,
                block@,
                header_pos,
                Config { ignore_zeros: false, options },
            ),
    {
        let pax: Option<&[u8]> = if self.raw {
            None
        } else {
            match &self.pax_extensions {
                Some(data) => Some(data.as_slice()),
                None => None,
            }
        };
        let (entry, next) = match parse_member(block, header_pos, self.next, pax, options) {
            Ok(member) => member,
            Err(e) => {
                return self.stop(e);
            },
        };
        self.next = next;
        if self.raw {
            self.phase = Phase::Idle;
            return Step::Entry(entry);
        }
        let role = match classify(&entry) {
            Ok(role) => role,
            Err(e) => {
                return self.stop(e);
            },
        };
        if role == Role::Plain {
            return self.plain_found(entry);
        }
        self.described = true;
        if entry.size == 0 {
            return self.gathered(pos, role, Vec::new());
        }
        let left = entry.size;
        self.phase = Phase::Gather { entry, left, bytes: Vec::new() };
        Step::Read(chunk_size(left))
    }

    fn gather_bytes(&mut self, pos: u64, entry: EntryFields, left: u64, bytes: Vec<u8>, more: Vec<u8>) -> (step: Step)
        requires
            more@.len() <= left,
            more@.len() == 0 || more@.len() == left ==> pos <= old(self).next,
        ensures
            (Turn { entries: final(self)@, step: step@ }) == gather_bytes(
                old(self)@,
                pos,
                entry@,
                left,
                bytes@,
                more@,
            ),
    {
        let n = more.len();
        let mut bytes = bytes;
        append(&mut bytes, more);
        if n > 0 && (n as u64) < left {
            let left = left - n as u64;
            self.phase = Phase::Gather { entry, left, bytes };
            return Step::Read(chunk_size(left));
        }
        match classify(&entry) {
            Ok(role) => self.gathered(pos, role, bytes),
            Err(e) => self.stop(e),
        }
    }

    fn gathered(&mut self, pos: u64, role: Role, bytes: Vec<u8>) -> (step: Step)
        requires
            pos <= old(self).next,
        ensures
            (Turn { entries: final(self)@, step: step@ }) == gathered(old(self)@, pos, role, bytes@),
    {
        match role {
            Role::LongName => {
                self.gnu_longname = Some(bytes);
                self.astray = false;
            },
            Role::LongLink => {
                self.gnu_longlink = Some(bytes);
                self.astray = false;
            },
            Role::Extensions => {
                self.pax_extensions = Some(bytes);
                self.astray = false;
            },
            Role::Plain => {},
        }
        self.seek_header(pos)
    }

    fn plain_found(&mut self, entry: EntryFields) -> (step: Step)
        ensures
            (Turn { entries: final(self)@, step: step@ }) == plain_found(old(self)@, entry@),
    {
        if entry.header.entry_type() != EntryType::GNUSparse {
            return self.give(entry);
        }
        if !entry.header.is_gnu() {
            return self.stop(other("sparse entry type listed but not GNU header"));
        }
        // Sparse files are represented as a list of stretches: either zeros, or
        // data of the archive. The stretches are described by sparse headers,
        // four of which stand in the header of the file. More may stand in
        // blocks behind it.
        let table = slice_subrange(entry.header.bytes.as_slice(), 386, 482);
        let map = match SparseMap::new(entry.size).add_headers(table) {
            Ok(map) => map,
            Err(e) => {
                return self.stop(e);
            },
        };
        if entry.header.is_extended() {
            let mut block = Header::new_old();
            block.bytes[504] = 1;
            assert(block@ =~= blank_extension());
            self.phase = Phase::Extension { entry, map, block, filled: 0 };
            return Step::Read(512);
        }
        self.sparse_read(entry, map)
    }

    fn extension_bytes(
        &mut self,
        entry: EntryFields,
        map: SparseMap,
        block: Header,
        filled: usize,
        bytes: Vec<u8>,
    ) -> (step: Step)
        requires
            filled + bytes@.len() <= 512,
            map.wf(),
        ensures
            (Turn { entries: final(self)@, step: step@ }) == extension_bytes(
                old(self)@,
                entry@,
                map@,
                block@,
                filled as int,
                bytes@,
            ),
    {
        let mut block = block;
        fill(&mut block, filled, bytes.as_slice());
        let n = filled + bytes.len();
        if bytes.len() > 0 && n < 512 {
            self.phase = Phase::Extension { entry, map, block, filled: n };
            return Step::Read(512 - n);
        }
        self.extension_read(entry, map, block, n)
    }

    fn extension_read(&mut self, entry: EntryFields, map: SparseMap, block: Header, filled: usize) -> (step: Step)
        requires
            map.wf(),
        ensures
            (Turn { entries: final(self)@, step: step@ }) == extension_read(
                old(self)@,
                entry@,
                map@,
                block@,
                filled as int,
            ),
    {
        match try_read_all(0, filled) {
            Ok(true) => {},
            Ok(false) => {
                return self.stop(other("failed to read extension"));
            },
            Err(e) => {
                return self.stop(e);
            },
        }
        match self.next.checked_add(BLOCK) {
            Some(next) => {
                self.next = next;
            },
            None => {
                return self.stop(other("size overflow"));
            },
        }
        let map = match map.add_headers(slice_subrange(block.bytes.as_slice(), 0, 504)) {
            Ok(map) => map,
            Err(e) => {
                return self.stop(e);
            },
        };
        if block.bytes[504] == 1 {
            self.phase = Phase::Extension { entry, map, block, filled: 0 };
            return Step::Read(512);
        }
        self.sparse_read(entry, map)
    }

    fn sparse_read(&mut self, entry: EntryFields, map: SparseMap) -> (step: Step)
        ensures
            (Turn { entries: final(self)@, step: step@ }) == sparse_read(old(self)@, entry@, map@),
    {
        let size = match entry.header.real_size() {
            Ok(size) => size,
            Err(e) => {
                return self.stop(e);
            },
        };
        if map.cur != size {
            return self.stop(other("mismatch in sparse file chunks and size in header"));
        }
        if map.remaining > 0 {
            return self.stop(other("mismatch in sparse file chunks and entry size in header"));
        }
        let mut entry = entry;
        entry.size = map.cur;
        entry.data = map.data;
        self.give(entry)
    }

    fn give(&mut self, entry: EntryFields) -> (step: Step)
        ensures
            (Turn { entries: final(self)@, step: step@ }) == give(old(self)@, entry@),
    {
        let mut entry = entry;
        entry.long_pathname = self.gnu_longname.take();
        entry.long_linkname = self.gnu_longlink.take();
        entry.pax_extensions = self.pax_extensions.take();
        self.phase = Phase::Idle;
        Step::Entry(entry)
    }

    fn ask(&self) -> (step: Step)
        requires
            match self.phase {
                Phase::Seek { amt } => amt <= i64::MAX,
                Phase::Header { filled, .. } => filled <= 512,
                Phase::Extension { filled, .. } => filled <= 512,
                _ => true,
            },
        ensures
            step@ == ask(self.phase@),
    {
        match &self.phase {
            Phase::Idle => Step::End,
            Phase::Skip { rem } => Step::Read(chunk_size(*rem)),
            Phase::Seek { amt } => Step::Seek(*amt as i64),
            Phase::Header { filled, .. } => Step::Read(512 - *filled),
            Phase::Gather { left, .. } => Step::Read(chunk_size(*left)),
            Phase::Extension { filled, .. } => Step::Read(512 - *filled),
        }
    }

    /// Goes on with the member that the iteration had begun to take in.
    fn resume(&mut self)
        ensures
            final(self)@ == resume(old(self)@),
    {
        let mut phase = Phase::Idle;
        core::mem::swap(&mut phase, &mut self.begun);
        self.phase = phase;
        self.astray = true;
    }

    fn resumes(&self) -> (left: bool)
        ensures
            left == resumes(self@),
    {
        match self.begun {
            Phase::Idle => false,
            _ => !self.raw,
        }
    }

    /// Takes note that an entry is asked for.
    fn asked(&mut self)
        ensures
            final(self)@ == asked(old(self)@),
    {
        self.described = false;
        let taking_in = match self.phase {
            Phase::Gather { .. } | Phase::Extension { .. } => true,
            _ => false,
        };
        let seeking = match self.phase {
            Phase::Seek { .. } => true,
            _ => false,
        };
        if self.raw && taking_in {
            let mut phase = Phase::Idle;
            core::mem::swap(&mut phase, &mut self.phase);
            self.begun = phase;
            self.astray = false;
        } else if self.resumes() && !seeking {
            self.resume();
        } else if let Phase::Idle = self.phase {
            self.astray = false;
        }
    }

    #[verifier::rlimit(60)]
    fn bytes_read(
        &mut self,
        pos: u64,
        bytes: Vec<u8>,
        ignore_zeros: bool,
        options: Options,
        Ghost(before): Ghost<u64>,
    ) -> (step: Step)
        requires
            consistent(old(self)@, before),
            accepts(old(self)@, before, EventView::Bytes(bytes@)),
            pos == advanced(before, bytes@.len() as int),
        ensures
            (Turn { entries: final(self)@, step: step@ }) == turn(
                old(self)@,
                pos,
                EventView::Bytes(bytes@),
                Config { ignore_zeros, options },
            ),
    {
        let mut phase = Phase::Idle;
        core::mem::swap(&mut phase, &mut self.phase);
        let step = match phase {
            Phase::Skip { rem } => self.skipped(rem, bytes.len()),
            Phase::Header { block, filled } => self.header_bytes(
                pos,
                block,
                filled,
                bytes,
                ignore_zeros,
                options,
            ),
            Phase::Gather { entry, left, bytes: gathered } => self.gather_bytes(
                pos,
                entry,
                left,
                gathered,
                bytes,
            ),
            Phase::Extension { entry, map, block, filled } => self.extension_bytes(
                entry,
                map,
                block,
                filled,
                bytes,
            ),
            // Bytes are told only where they were asked for.
            Phase::Seek { .. } | Phase::Idle => Step::End,
        };
        step
    }

    /// Takes an event and answers it.
    ///
    /// The event is [`Event::Poll`] where an entry is wanted, and else tells what
    /// came of the last answer. What is answered does not depend on how the
    /// archive was cut into pieces when it was read.
    pub fn poll_next<R>(&mut self, archive: &mut Archive<R>, event: Event) -> (step: Step)
        requires
            consistent(old(self)@, old(archive).inner.pos),
            accepts(old(self)@, old(archive).inner.pos, event@),
        ensures
            final(archive).inner == (ArchiveInner {
                pos: pos_after(old(self)@, old(archive).inner.pos, event@),
                ..old(archive).inner
            }),
            (Turn { entries: final(self)@, step: step@ }) == turn(
                old(self)@,
                final(archive).inner.pos,
                event@,
                config_of(old(archive).inner),
            ),
            orderly((Turn { entries: final(self)@, step: step@ }), final(archive).inner.pos),
            steady(old(self)@) ==> steady(final(self)@),
            forall|d: Seq<u8>|
                within(d, old(self)@, old(archive).inner.pos as int) && #[trigger] brought_by(
                    d,
                    old(self)@,
                    old(archive).inner.pos as int,
                    event@,
                ) ==> keeps_answer(
                    d,
                    (Turn { entries: final(self)@, step: step@ }),
                    final(archive).inner.pos as int,
                    config_of(old(archive).inner),
                    answer(
                        d,
                        listened(old(self)@, event@),
                        old(archive).inner.pos as int,
                        config_of(old(archive).inner),
                    ),
                ),
    {
        proof {
            let config = config_of(archive.inner);
            let pos = archive.inner.pos;
            law_turns_are_orderly(self@, pos, event@, config);
            if steady(self@) {
                law_steady_stays_steady(self@, pos, event@, config);
            }
            assert forall|d: Seq<u8>|
                within(d, self@, pos as int) && #[trigger] brought_by(d, self@, pos as int, event@) implies keeps_answer(
                d,
                turn(self@, pos_after(self@, pos, event@), event@, config),
                pos_after(self@, pos, event@) as int,
                config,
                answer(d, listened(self@, event@), pos as int, config),
            ) by {
                law_pieces_do_not_matter(d, self@, pos, event@, config);
            }
        }
        let ignore_zeros = archive.inner.ignore_zeros;
        let options = archive.inner.options;
        match event {
            Event::Failed => {
                self.done = true;
                self.phase = Phase::Idle;
                Step::Failed
            },
            Event::Poll => {
                if self.done {
                    return Step::End;
                }
                self.asked();
                match self.phase {
                    Phase::Idle => self.seek_header(archive.inner.pos),
                    _ => self.ask(),
                }
            },
            Event::Seeked => {
                archive.inner.pos = self.next;
                if self.resumes() {
                    self.resume();
                    return self.ask();
                }
                self.start_header()
            },
            Event::Bytes(bytes) => {
                let ghost before = archive.inner.pos;
                archive.inner.note_read(bytes.len() as u64);
                self.bytes_read(archive.inner.pos, bytes, ignore_zeros, options, Ghost(before))
            },
        }
    }
}

impl Entries {
    /// Indicates whether this iterator will return raw entries or not.
    ///
    /// If the raw list of entries are returned, then no preprocessing happens
    /// on account of this library, for example taking into account GNU long
    /// name or long link archive members. Raw iteration is disabled by default.
    ///
    /// This holds from when the iterator is next asked for an entry. A member that
    /// is being taken in then is put aside, and gone on with once the iterator is
    /// asked for an entry that is not raw: from where the archive is by then.
    pub fn raw(self, raw: bool) -> (entries: Entries)
        ensures
            entries.fields@ == (EntriesView { raw, ..self.fields@ }),
    {
        Entries { fields: EntriesFields { raw, ..self.fields } }
    }

    /// Takes an event and answers it: tells what to read next, or gives the next
    /// entry, if there is one.
    pub fn poll_next<R>(&mut self, archive: &mut Archive<R>, event: Event) -> (step: Step)
        requires
            consistent(old(self).fields@, old(archive).inner.pos),
            accepts(old(self).fields@, old(archive).inner.pos, event@),
        ensures
            final(archive).inner == (ArchiveInner {
                pos: pos_after(old(self).fields@, old(archive).inner.pos, event@),
                ..old(archive).inner
            }),
            (Turn { entries: final(self).fields@, step: step@ }) == turn(
                old(self).fields@,
                final(archive).inner.pos,
                event@,
                config_of(old(archive).inner),
            ),
            orderly((Turn { entries: final(self).fields@, step: step@ }), final(archive).inner.pos),
            steady(old(self).fields@) ==> steady(final(self).fields@),
            forall|d: Seq<u8>|
                within(d, old(self).fields@, old(archive).inner.pos as int) && #[trigger] brought_by(
                    d,
                    old(self).fields@,
                    old(archive).inner.pos as int,
                    event@,
                ) ==> keeps_answer(
                    d,
                    (Turn { entries: final(self).fields@, step: step@ }),
                    final(archive).inner.pos as int,
                    config_of(old(archive).inner),
                    answer(
                        d,
                        listened(old(self).fields@, event@),
                        old(archive).inner.pos as int,
                        config_of(old(archive).inner),
                    ),
                ),
    {
        self.fields.poll_next(archive, event)
    }
}

} // verus!
