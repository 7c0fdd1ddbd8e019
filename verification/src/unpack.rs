use vstd::prelude::*;

use crate::archive::{not_at_start, Archive, ArchiveInner};
use crate::entries::{
    accepts, asked, at_start, config_of, consistent, pos_after, steady, turn, Config, Entries, EntriesView, Event,
    EventView, Step, StepView,
};
use crate::entry::{stored_len, EntryFields, EntryView};
use crate::entry_type::EntryType;
use crate::error::{other, Error};
use crate::grammar::{brought_by, within};
use crate::header::stated_type;
use crate::laws::law_turns_are_orderly;
use crate::listing::{lemma_accounted, listing, resumed, to_come, Told};

verus! {

/// An archive that is being unpacked.
///
/// Directories are unpacked after everything else (they are created before that
/// where something is in them), so that their permissions do not get in the way
/// of what is in them.
pub struct Unpack {
    /// The iteration over the archive.
    pub entries: Entries,
    /// The directories that are still to be unpacked.
    pub directories: Vec<EntryFields>,
    /// Whether the iteration has come to its end.
    pub finishing: bool,
    /// Whether the archive turned out not to be as it should be.
    pub failed: bool,
}

/// What is to be done next to unpack an archive.
pub enum UnpackStep {
    /// At most this many bytes are to be read.
    Read(usize),
    /// The archive is to be moved forward by this many bytes.
    Seek(i64),
    /// This entry is to be unpacked.
    Entry(EntryFields),
    /// Nothing: the archive is unpacked.
    Done,
    /// The archive cannot be unpacked.
    Error {
        /// What was being done.
        desc: Error,
        /// What is wrong with the archive, unless it could not be read.
        error: Option<Error>,
    },
}

/// What an [`Unpack`] stands for.
#[verifier::ext_equal]
pub struct UnpackView {
    pub entries: EntriesView,
    pub directories: Seq<EntryView>,
    pub finishing: bool,
    pub failed: bool,
}

/// What an [`UnpackStep`] stands for.
#[verifier::ext_equal]
pub enum UnpackStepView {
    Read(int),
    Seek(int),
    Entry(EntryView),
    Done,
    Error { desc: Seq<char>, error: Option<Seq<char>> },
}

/// What the entries in `v` stand for.
pub open spec fn entry_views(v: Seq<EntryFields>) -> Seq<EntryView> {
    Seq::new(v.len(), |i: int| v[i]@)
}

impl View for Unpack {
    type V = UnpackView;

    open spec fn view(&self) -> UnpackView {
        UnpackView {
            entries: self.entries.fields@,
            directories: entry_views(self.directories@),
            finishing: self.finishing,
            failed: self.failed,
        }
    }
}

impl View for UnpackStep {
    type V = UnpackStepView;

    open spec fn view(&self) -> UnpackStepView {
        match *self {
            UnpackStep::Read(n) => UnpackStepView::Read(n as int),
            UnpackStep::Seek(n) => UnpackStepView::Seek(n as int),
            UnpackStep::Entry(entry) => UnpackStepView::Entry(entry@),
            UnpackStep::Done => UnpackStepView::Done,
            UnpackStep::Error { desc, error } => UnpackStepView::Error {
                desc: desc@,
                error: match error {
                    Some(e) => Some(e@),
                    None => None,
                },
            },
        }
    }
}

/// What comes of an [`Unpack`] after an event, and what is to be done next.
#[verifier::ext_equal]
pub struct UnpackTurn {
    pub unpack: UnpackView,
    pub step: UnpackStepView,
}

/// Whether `entry` is to be unpacked after everything else.
pub open spec fn is_late(entry: EntryView) -> bool {
    stated_type(entry.header) == EntryType::Directory
}

/// What was being done when an archive turned out not to be as it should be.
pub open spec fn iterating() -> Seq<char> {
    "failed to iterate over archive"@
}

/// The iteration has come to its end: the directories are to be unpacked, one
/// after the other.
pub open spec fn finish(u: UnpackView) -> UnpackTurn {
    if u.directories.len() == 0 {
        UnpackTurn { unpack: UnpackView { finishing: true, ..u }, step: UnpackStepView::Done }
    } else {
        UnpackTurn {
            unpack: UnpackView { finishing: true, directories: u.directories.skip(1), ..u },
            step: UnpackStepView::Entry(u.directories[0]),
        }
    }
}

/// The archive cannot be unpacked: nothing of it is from then on.
pub open spec fn fail(u: UnpackView, error: Option<Seq<char>>) -> UnpackTurn {
    UnpackTurn {
        unpack: UnpackView { failed: true, ..u },
        step: UnpackStepView::Error { desc: iterating(), error },
    }
}

/// What is to be done after the iteration answered `step`.
pub open spec fn follow(u: UnpackView, step: StepView) -> UnpackTurn {
    match step {
        StepView::Read(n) => UnpackTurn { unpack: u, step: UnpackStepView::Read(n) },
        StepView::Seek(n) => UnpackTurn { unpack: u, step: UnpackStepView::Seek(n) },
        StepView::Entry(entry) => UnpackTurn { unpack: u, step: UnpackStepView::Entry(entry) },
        StepView::End => finish(u),
        StepView::Error(message) => fail(u, Some(message)),
        StepView::Failed => fail(u, None),
    }
}

/// What comes of `u` after an event, where the archive is at `pos` after it. A
/// directory is kept for later, and the iteration goes on at once. An error is
/// final.
pub open spec fn unpack_turn(u: UnpackView, pos: u64, event: EventView, config: Config) -> UnpackTurn {
    if u.failed {
        fail(u, None)
    } else if u.finishing {
        finish(u)
    } else {
        let t = turn(u.entries, pos, event, config);
        match t.step {
            StepView::Entry(entry) if is_late(entry) => {
                let more = turn(t.entries, pos, EventView::Poll, config);
                follow(
                    UnpackView {
                        entries: more.entries,
                        directories: u.directories.push(entry),
                        ..u
                    },
                    more.step,
                )
            },
            _ => follow(UnpackView { entries: t.entries, ..u }, t.step),
        }
    }
}

/// Where the archive is after an event.
pub open spec fn unpack_pos(u: UnpackView, pos: u64, event: EventView) -> u64 {
    if u.failed || u.finishing {
        pos
    } else {
        pos_after(u.entries, pos, event)
    }
}

/// Whether the entry that is to be unpacked, if there is one, can be read from
/// `pos` on: what is stored of it ends where the next header stands or before
/// that.
pub open spec fn fits_before(step: UnpackStepView, pos: int, next: int) -> bool {
    step matches UnpackStepView::Entry(entry) ==> pos <= pos + stored_len(entry.data) <= next
}

/// An archive of which nothing was unpacked yet.
pub open spec fn unpack_start() -> UnpackView {
    UnpackView {
        entries: at_start(false),
        directories: Seq::empty(),
        finishing: false,
        failed: false,
    }
}

impl<R> Archive<R> {
    /// Begins to unpack the contents of this archive.
    ///
    /// Unpacking goes over the entire contents of the archive, extracting each
    /// file in turn to the location specified by the entry's path name.
    ///
    /// This operation is relatively sensitive in that it will not write files
    /// outside of the destination. Files in the archive which have a '..' in
    /// their path are skipped during the unpacking process: see
    /// [`crate::unpack_place`].
    pub fn unpack(&mut self) -> (unpack: Result<Unpack, Error>)
        ensures
            *final(self) == *old(self),
            old(self).inner.pos == 0 ==> unpack is Ok && unpack->Ok_0@ == unpack_start(),
            old(self).inner.pos != 0 ==> unpack is Err && unpack->Err_0@ == not_at_start(),
    {
        match self.entries() {
            Ok(entries) => {
                let directories: Vec<EntryFields> = Vec::new();
                assert(entry_views(directories@) =~= Seq::empty());
                Ok(Unpack { entries, directories, finishing: false, failed: false })
            },
            Err(e) => Err(e),
        }
    }
}

impl Unpack {
    fn finish(&mut self) -> (step: UnpackStep)
        ensures
            (UnpackTurn { unpack: final(self)@, step: step@ }) == finish(old(self)@),
    {
        self.finishing = true;
        if self.directories.len() == 0 {
            return UnpackStep::Done;
        }
        let ghost before = self.directories@;
        let entry = self.directories.remove(0);
        assert(entry_views(self.directories@) =~= entry_views(before).skip(1));
        UnpackStep::Entry(entry)
    }

    fn fail(&mut self, error: Option<Error>) -> (step: UnpackStep)
        ensures
            (UnpackTurn { unpack: final(self)@, step: step@ }) == fail(
                old(self)@,
                match error {
                    Some(e) => Some(e@),
                    None => None,
                },
            ),
    {
        self.failed = true;
        UnpackStep::Error { desc: other("failed to iterate over archive"), error }
    }

    fn follow(&mut self, step: Step) -> (next: UnpackStep)
        ensures
            (UnpackTurn { unpack: final(self)@, step: next@ }) == follow(old(self)@, step@),
    {
        match step {
            Step::Read(n) => UnpackStep::Read(n),
            Step::Seek(n) => UnpackStep::Seek(n),
            Step::Entry(entry) => UnpackStep::Entry(entry),
            Step::End => self.finish(),
            Step::Error(e) => self.fail(Some(e)),
            Step::Failed => self.fail(None),
        }
    }

    /// Takes an event and tells what is to be done next. Once that was an error,
    /// it is an error again.
    pub fn poll_next<R>(&mut self, archive: &mut Archive<R>, event: Event) -> (step: UnpackStep)
        requires
            consistent(old(self)@.entries, old(archive).inner.pos),
            steady(old(self)@.entries),
            accepts(old(self)@.entries, old(archive).inner.pos, event@),
        ensures
            final(archive).inner == (ArchiveInner {
                pos: unpack_pos(old(self)@, old(archive).inner.pos, event@),
                ..old(archive).inner
            }),
            (UnpackTurn { unpack: final(self)@, step: step@ }) == unpack_turn(
                old(self)@,
                final(archive).inner.pos,
                event@,
                config_of(old(archive).inner),
            ),
            consistent(final(self)@.entries, final(archive).inner.pos),
            steady(final(self)@.entries),
            !final(self).finishing ==> fits_before(
                step@,
                final(archive).inner.pos as int,
                final(self)@.entries.next as int,
            ),
    {
        if self.failed {
            return self.fail(None);
        }
        if self.finishing {
            return self.finish();
        }
        match self.entries.poll_next(archive, event) {
            Step::Entry(entry) => {
                if entry.header.entry_type() == EntryType::Directory {
                    let ghost before = self.directories@;
                    let ghost kept = entry@;
                    self.directories.push(entry);
                    assert(entry_views(self.directories@) =~= entry_views(before).push(kept));
                    let step = self.entries.poll_next(archive, Event::Poll);
                    return self.follow(step);
                }
                self.follow(Step::Entry(entry))
            },
            step => self.follow(step),
        }
    }
}

/// Those of the entries `found` that are unpacked as soon as they are found.
pub open spec fn early(found: Seq<EntryView>) -> Seq<EntryView>
    decreases found.len(),
{
    if found.len() == 0 {
        Seq::empty()
    } else if is_late(found.last()) {
        early(found.drop_last())
    } else {
        early(found.drop_last()).push(found.last())
    }
}

/// Those of the entries `found` that are unpacked after everything else.
pub open spec fn late(found: Seq<EntryView>) -> Seq<EntryView>
    decreases found.len(),
{
    if found.len() == 0 {
        Seq::empty()
    } else if is_late(found.last()) {
        late(found.drop_last()).push(found.last())
    } else {
        late(found.drop_last())
    }
}

/// Whether, of the entries `found` in an archive, those in `handed` were handed
/// out for unpacking and the others are still to come: first everything but
/// directories, then the directories, each in the archive's order.
pub open spec fn in_order(u: UnpackView, found: Seq<EntryView>, handed: Seq<EntryView>) -> bool {
    if u.finishing {
        handed + u.directories == early(found) + late(found)
    } else {
        handed == early(found) && u.directories == late(found)
    }
}

/// `entries`, and `step` where it is an entry.
pub open spec fn and_entry(entries: Seq<EntryView>, step: StepView) -> Seq<EntryView> {
    match step {
        StepView::Entry(entry) => entries.push(entry),
        _ => entries,
    }
}

/// `entries`, and `step` where it is an entry.
pub open spec fn and_handed(entries: Seq<EntryView>, step: UnpackStepView) -> Seq<EntryView> {
    match step {
        UnpackStepView::Entry(entry) => entries.push(entry),
        _ => entries,
    }
}

/// The entries that the iteration gives while `u` takes an event, behind those
/// `found` before.
pub open spec fn found_after(
    u: UnpackView,
    pos: u64,
    event: EventView,
    config: Config,
    found: Seq<EntryView>,
) -> Seq<EntryView> {
    if u.failed || u.finishing {
        found
    } else {
        let t = turn(u.entries, pos, event, config);
        match t.step {
            StepView::Entry(entry) if is_late(entry) => and_entry(
                found.push(entry),
                turn(t.entries, pos, EventView::Poll, config).step,
            ),
            step => and_entry(found, step),
        }
    }
}

proof fn lemma_finish_in_order(u: UnpackView, found: Seq<EntryView>, handed: Seq<EntryView>)
    requires
        in_order(u, found, handed),
    ensures
        in_order(finish(u).unpack, found, and_handed(handed, finish(u).step)),
        finish(u).step is Done ==> handed == early(found) + late(found),
{
    let t = finish(u);
    if u.directories.len() == 0 {
        assert(handed + u.directories =~= handed);
        assert(early(found) + Seq::<EntryView>::empty() =~= early(found));
    } else {
        assert(handed.push(u.directories[0]) + u.directories.skip(1) =~= handed + u.directories);
    }
}

proof fn lemma_poll_gives_no_entry(s: EntriesView, pos: u64, config: Config)
    ensures
        !(turn(s, pos, EventView::Poll, config).step is Entry),
{
}

/// Everything but directories is unpacked in the order in which it stands in the
/// archive, as soon as it is found; the directories are unpacked after that, in
/// the same order; and when an archive is unpacked, every entry of it was handed
/// out once.
pub proof fn law_directories_come_last(
    u: UnpackView,
    pos: u64,
    event: EventView,
    config: Config,
    found: Seq<EntryView>,
    handed: Seq<EntryView>,
)
    requires
        in_order(u, found, handed),
    ensures
        ({
            let t = unpack_turn(u, pos, event, config);
            let all = found_after(u, pos, event, config, found);
            &&& in_order(t.unpack, all, and_handed(handed, t.step))
            &&& t.step is Done ==> handed == early(all) + late(all)
        }),
{
    if u.failed {
    } else if u.finishing {
        lemma_finish_in_order(u, found, handed);
    } else {
        let t = turn(u.entries, pos, event, config);
        match t.step {
            StepView::Entry(entry) if is_late(entry) => {
                let more = turn(t.entries, pos, EventView::Poll, config);
                let kept = UnpackView {
                    entries: more.entries,
                    directories: u.directories.push(entry),
                    ..u
                };
                assert(found.push(entry).drop_last() =~= found);
                lemma_poll_gives_no_entry(t.entries, pos, config);
                lemma_finish_in_order(kept, found.push(entry), handed);
            },
            StepView::Entry(entry) => {
                assert(found.push(entry).drop_last() =~= found);
            },
            _ => {
                lemma_finish_in_order(UnpackView { entries: t.entries, ..u }, found, handed);
            },
        }
    }
}

/// What comes of `u` when it is told `m`, and what is to be done next.
#[verifier::opaque]
pub open spec fn unpack_after(u: UnpackView, m: Told, config: Config) -> UnpackTurn {
    unpack_turn(u, unpack_pos(u, m.pos, m.event), m.event, config)
}

/// What comes of `u` when it is told `told`, one after the other.
pub open spec fn unpack_course(u: UnpackView, told: Seq<Told>, config: Config) -> UnpackView
    decreases told.len(),
{
    if told.len() == 0 {
        u
    } else {
        unpack_course(unpack_after(u, told[0], config).unpack, told.skip(1), config)
    }
}

proof fn lemma_failed_course(u: UnpackView, told: Seq<Told>, config: Config)
    requires
        u.failed,
    ensures
        unpack_course(u, told, config) == u,
    decreases told.len(),
{
    reveal(unpack_after);
    if told.len() > 0 {
        lemma_failed_course(u, told.skip(1), config);
    }
}

/// Once unpacking has come to an error, it stays there: whatever it is told from
/// then on, nothing more is handed out, and the archive does not come to be
/// unpacked.
pub proof fn law_unpack_error_is_final(u: UnpackView, m: Told, told: Seq<Told>, later: Told, config: Config)
    requires
        unpack_after(u, m, config).step is Error,
    ensures
        ({
            let failed = unpack_after(u, m, config).unpack;
            let t = unpack_after(unpack_course(failed, told, config), later, config);
            t.unpack == failed && t.step is Error
        }),
{
    reveal(unpack_after);
    lemma_failed_course(unpack_after(u, m, config).unpack, told, config);
}

/// Whether `told` is what `u` can be told in the course of reading the archive
/// `d`: as long as the iteration is not over, each time something that it can
/// take and that reading `d` can bring.
pub open spec fn unpack_reads(d: Seq<u8>, u: UnpackView, told: Seq<Told>, config: Config) -> bool
    decreases told.len(),
{
    told.len() > 0 ==> {
        let m = told[0];
        let t = unpack_after(u, m, config);
        &&& !u.failed && !u.finishing ==> {
            &&& within(d, u.entries, m.pos as int)
            &&& accepts(u.entries, m.pos, m.event)
            &&& brought_by(d, u.entries, m.pos as int, m.event)
        }
        &&& told.len() > 1 && (t.step is Read || t.step is Seek) ==> told[1].pos == unpack_pos(
            u,
            m.pos,
            m.event,
        )
        &&& unpack_reads(d, t.unpack, told.skip(1), config)
    }
}

/// The entries that `u` hands out while it is told `told`.
pub open spec fn handed_out(u: UnpackView, told: Seq<Told>, config: Config) -> Seq<EntryView>
    decreases told.len(),
{
    if told.len() == 0 {
        Seq::empty()
    } else {
        let t = unpack_after(u, told[0], config);
        let rest = handed_out(t.unpack, told.skip(1), config);
        match t.step {
            UnpackStepView::Entry(entry) => seq![entry] + rest,
            _ => rest,
        }
    }
}

/// Whether the archive comes to be unpacked while `u` is told `told`.
pub open spec fn gets_done(u: UnpackView, told: Seq<Told>, config: Config) -> bool
    decreases told.len(),
{
    told.len() > 0 && {
        let t = unpack_after(u, told[0], config);
        t.step is Done || gets_done(t.unpack, told.skip(1), config)
    }
}

proof fn lemma_failed_gets_not_done(u: UnpackView, told: Seq<Told>, config: Config)
    requires
        u.failed,
    ensures
        !gets_done(u, told, config),
    decreases told.len(),
{
    reveal(unpack_after);
    if told.len() > 0 {
        lemma_failed_gets_not_done(u, told.skip(1), config);
    }
}

proof fn lemma_nothing_after_done(u: UnpackView, told: Seq<Told>, config: Config)
    requires
        u.finishing,
        !u.failed,
        u.directories.len() == 0,
    ensures
        handed_out(u, told, config) == Seq::<EntryView>::empty(),
    decreases told.len(),
{
    reveal(unpack_after);
    if told.len() > 0 {
        lemma_nothing_after_done(u, told.skip(1), config);
    }
}

/// Whether unpacking keeps account of the entries `all` of the archive `d`:
/// those that were found and those that are still to come make up all of them.
#[verifier::opaque]
spec fn on_course(
    d: Seq<u8>,
    u: UnpackView,
    pos: u64,
    config: Config,
    found: Seq<EntryView>,
    handed: Seq<EntryView>,
    all: Seq<EntryView>,
) -> bool {
    &&& !u.failed
    &&& !u.entries.raw && !u.entries.seekable
    &&& steady(u.entries)
    &&& consistent(u.entries, pos)
    &&& in_order(u, found, handed)
    &&& if u.finishing {
        found == all && u.entries.phase is Idle
    } else {
        found + to_come(d, u.entries, pos as int, config) == all
    }
}

proof fn lemma_stays_on_course(
    d: Seq<u8>,
    u: UnpackView,
    m: Told,
    config: Config,
    found: Seq<EntryView>,
    handed: Seq<EntryView>,
    all: Seq<EntryView>,
    later: u64,
)
    requires
        on_course(d, u, m.pos, config, found, handed, all),
        !u.finishing,
        within(d, u.entries, m.pos as int),
        accepts(u.entries, m.pos, m.event),
        brought_by(d, u.entries, m.pos as int, m.event),
        ({
            let t = unpack_after(u, m, config);
            t.step is Read || t.step is Seek ==> later == unpack_pos(u, m.pos, m.event)
        }),
    ensures
        ({
            let t = unpack_after(u, m, config);
            let now = found_after(u, unpack_pos(u, m.pos, m.event), m.event, config, found);
            t.unpack.failed || on_course(
                d,
                t.unpack,
                later,
                config,
                now,
                and_handed(handed, t.step),
                all,
            )
        }),
{
    reveal(unpack_after);
    reveal(on_course);
    let end = unpack_pos(u, m.pos, m.event);
    let t = turn(u.entries, end, m.event, config);
    law_directories_come_last(u, end, m.event, config, found, handed);
    lemma_accounted(d, u.entries, m.pos, m.event, config);
    law_turns_are_orderly(u.entries, m.pos, m.event, config);
    match t.step {
        StepView::Entry(entry) => {
            let behind = to_come(d, t.entries, end as int, config);
            assert(found + (seq![entry] + behind) =~= found.push(entry) + behind);
            if is_late(entry) {
                lemma_poll_gives_no_entry(t.entries, end, config);
                lemma_accounted(d, t.entries, end, EventView::Poll, config);
                let more = turn(t.entries, end, EventView::Poll, config);
                if more.step is End {
                    assert(found.push(entry) + Seq::<EntryView>::empty() =~= found.push(entry));
                }
            } else {
                assert(to_come(d, t.entries, later as int, config) == behind);
            }
        },
        StepView::End => {
            assert(found + Seq::<EntryView>::empty() =~= found);
        },
        _ => {},
    }
}

proof fn lemma_turn_on_course(
    d: Seq<u8>,
    u: UnpackView,
    m: Told,
    config: Config,
    found: Seq<EntryView>,
    handed: Seq<EntryView>,
    all: Seq<EntryView>,
    later: u64,
) -> (now: Seq<EntryView>)
    requires
        on_course(d, u, m.pos, config, found, handed, all),
        !u.finishing ==> {
            &&& within(d, u.entries, m.pos as int)
            &&& accepts(u.entries, m.pos, m.event)
            &&& brought_by(d, u.entries, m.pos as int, m.event)
        },
        ({
            let t = unpack_after(u, m, config);
            t.step is Read || t.step is Seek ==> later == unpack_pos(u, m.pos, m.event)
        }),
    ensures
        ({
            let t = unpack_after(u, m, config);
            &&& t.unpack.failed || on_course(
                d,
                t.unpack,
                later,
                config,
                now,
                and_handed(handed, t.step),
                all,
            )
            &&& t.step is Done ==> {
                &&& handed == early(all) + late(all)
                &&& t.unpack.finishing && !t.unpack.failed && t.unpack.directories.len() == 0
            }
        }),
{
    reveal(unpack_after);
    reveal(on_course);
    let end = unpack_pos(u, m.pos, m.event);
    let now = found_after(u, end, m.event, config, found);
    law_directories_come_last(u, end, m.event, config, found, handed);
    if !u.finishing {
        lemma_stays_on_course(d, u, m, config, found, handed, all, later);
    }
    now
}

proof fn lemma_unpacked(
    d: Seq<u8>,
    u: UnpackView,
    told: Seq<Told>,
    config: Config,
    found: Seq<EntryView>,
    handed: Seq<EntryView>,
    all: Seq<EntryView>,
)
    requires
        told.len() > 0,
        !u.failed,
        on_course(d, u, told[0].pos, config, found, handed, all),
        unpack_reads(d, u, told, config),
        gets_done(u, told, config),
    ensures
        handed + handed_out(u, told, config) == early(all) + late(all),
    decreases told.len(),
{
    let m = told[0];
    let t = unpack_after(u, m, config);
    let rest = told.skip(1);
    let later = if rest.len() > 0 {
        told[1].pos
    } else {
        unpack_pos(u, m.pos, m.event)
    };
    let now = lemma_turn_on_course(d, u, m, config, found, handed, all, later);
    let more = handed_out(t.unpack, rest, config);
    if t.unpack.failed {
        lemma_failed_gets_not_done(t.unpack, rest, config);
    } else if t.step is Done {
        lemma_nothing_after_done(t.unpack, rest, config);
        assert(handed + Seq::<EntryView>::empty() =~= handed);
    } else {
        assert(gets_done(t.unpack, rest, config));
        assert(rest.len() > 0);
        assert(rest[0] == told[1]);
        lemma_unpacked(d, t.unpack, rest, config, now, and_handed(handed, t.step), all);
        if let UnpackStepView::Entry(entry) = t.step {
            assert(handed.push(entry) + more =~= handed + (seq![entry] + more));
        }
    }
}

/// When an archive comes to be unpacked, however it was read, everything that it
/// lists was handed out once: first everything but directories, then the
/// directories, each in the archive's order.
pub proof fn law_everything_is_unpacked(d: Seq<u8>, told: Seq<Told>, config: Config)
    requires
        told.len() > 0,
        told[0].pos == 0,
        unpack_reads(d, unpack_start(), told, config),
        gets_done(unpack_start(), told, config),
    ensures
        handed_out(unpack_start(), told, config) == early(listing(d, 0, false, false, config)) + late(
            listing(d, 0, false, false, config),
        ),
{
    reveal(on_course);
    let u = unpack_start();
    let all = listing(d, 0, false, false, config);
    assert(u.entries == resumed(0, false, false));
    assert(asked(u.entries) == u.entries);
    assert(to_come(d, u.entries, 0, config) == all);
    assert(Seq::<EntryView>::empty() + all =~= all);
    lemma_unpacked(d, u, told, config, Seq::empty(), Seq::empty(), all);
    assert(Seq::<EntryView>::empty() + handed_out(u, told, config) =~= handed_out(u, told, config));
}

/// Of two runs of entries, those that are unpacked early are the early ones of the
/// first and then those of the second, and the same holds of the late ones. An
/// entry is late where, and only where, its type byte says that it is a
/// directory; else it is early.
pub proof fn law_early_and_late(a: Seq<EntryView>, b: Seq<EntryView>, entry: EntryView)
    ensures
        early(a + b) == early(a) + early(b),
        late(a + b) == late(a) + late(b),
        entry.header[156] == 53 ==> late(seq![entry]) == seq![entry] && early(seq![entry]) == Seq::<
            EntryView,
        >::empty(),
        entry.header[156] != 53 ==> early(seq![entry]) == seq![entry] && late(seq![entry]) == Seq::<
            EntryView,
        >::empty(),
    decreases b.len(),
{
    let one = seq![entry];
    assert(one.drop_last() =~= Seq::empty());
    assert(early(one.drop_last()) =~= Seq::empty());
    assert(late(one.drop_last()) =~= Seq::empty());
    assert(one.last() == entry);
    assert(Seq::<EntryView>::empty().push(entry) =~= one);
    if b.len() == 0 {
        assert(a + b =~= a);
        assert(early(a) + early(b) =~= early(a));
        assert(late(a) + late(b) =~= late(a));
    } else {
        assert((a + b).drop_last() =~= a + b.drop_last());
        assert((a + b).last() == b.last());
        law_early_and_late(a, b.drop_last(), entry);
        assert(early(a + b) =~= early(a) + early(b));
        assert(late(a + b) =~= late(a) + late(b));
    }
}

/// Until it comes to its end, unpacking hands on what the iteration says: what is
/// to be read, each entry but the directories, and each error, under the
/// description that iterating failed. A directory is put aside, and the
/// iteration asked for what comes behind it.
pub proof fn law_unpacking_hands_on(u: UnpackView, pos: u64, event: EventView, config: Config)
    requires
        !u.failed,
        !u.finishing,
    ensures
        ({
            let t = turn(u.entries, pos, event, config);
            let step = unpack_turn(u, pos, event, config).step;
            let after = unpack_turn(u, pos, event, config).unpack;
            &&& match t.step {
                StepView::Read(n) => step == UnpackStepView::Read(n) && !after.finishing,
                StepView::Seek(n) => step == UnpackStepView::Seek(n) && !after.finishing,
                StepView::Entry(entry) => if entry.header[156] != 53 {
                    step == UnpackStepView::Entry(entry) && !after.finishing
                } else {
                    unpack_turn(u, pos, event, config) == unpack_turn(
                        (UnpackView { entries: t.entries, directories: u.directories.push(entry), ..u }),
                        pos,
                        EventView::Poll,
                        config,
                    )
                },
                StepView::End => after.finishing && (step is Done <==> u.directories.len() == 0),
                StepView::Error(message) => step == (UnpackStepView::Error {
                    desc: "failed to iterate over archive"@,
                    error: Some(message),
                }),
                StepView::Failed => step == (UnpackStepView::Error {
                    desc: "failed to iterate over archive"@,
                    error: None,
                }),
            }
            &&& !(t.step is Entry) ==> after.entries == t.entries
            &&& !(t.step is Entry) && !(t.step is End) ==> after.directories == u.directories
        }),
{
}

} // verus!
