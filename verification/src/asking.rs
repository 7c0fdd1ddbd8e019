use vstd::prelude::*;

use crate::entries::{ask, turn, Config, EntriesView, EventView, PhaseView, StepView};

verus! {

/// A reading or a move that failed is told as such, and nothing comes behind it.
pub proof fn law_failure_is_told(s: EntriesView, pos: u64, later: u64, config: Config)
    ensures
        ({
            let t = turn(s, pos, EventView::Failed, config);
            &&& t.step == StepView::Failed
            &&& t.entries.done
            &&& turn(t.entries, later, EventView::Poll, config).step == StepView::End
        }),
{
}

/// Where nothing is under way, an iteration that is asked goes to the next header.
/// An archive that can be moved is moved there, even where it stands there
/// already, as far as it can be moved at once. Any other is read over up to
/// there, or, where it stands there, the header is read.
pub proof fn law_goes_to_next_header(s: EntriesView, pos: u64, config: Config)
    requires
        !s.done,
        s.phase is Idle,
        s.raw || s.begun is Idle,
        pos <= s.next,
    ensures
        ({
            let t = turn(s, pos, EventView::Poll, config);
            let behind = s.next - pos;
            &&& t.entries.next == s.next
            &&& s.seekable && behind <= i64::MAX ==> t.step == StepView::Seek(behind) && t.entries.phase is Seek
            &&& s.seekable && behind > i64::MAX ==> t.step == StepView::Error("seek position out of bounds"@)
                && t.entries.done
            &&& !s.seekable && behind > 0 ==> t.step is Read && t.entries.phase == (PhaseView::Skip {
                rem: behind as u64,
            })
            &&& !s.seekable && behind == 0 ==> t.step == StepView::Read(512) && t.entries.phase is Header
        }),
{
}

/// Once an archive was moved to the next header, the header is read, unless a
/// member that was begun is still to be taken in.
pub proof fn law_header_is_read_behind_move(s: EntriesView, pos: u64, config: Config)
    requires
        s.raw || s.begun is Idle,
    ensures
        ({
            let t = turn(s, pos, EventView::Seeked, config);
            &&& t.step == StepView::Read(512)
            &&& t.entries.next == s.next
            &&& t.entries.phase matches PhaseView::Header { block, filled } && filled == 0 && block == Seq::new(
                512,
                |i: int| 0u8,
            )
        }),
{
}

/// A member that is being taken in is put aside while entries are raw: the
/// iteration goes to the next header.
pub proof fn law_begun_member_is_put_aside(s: EntriesView, pos: u64, config: Config)
    requires
        !s.done,
        s.raw,
        s.phase is Gather || s.phase is Extension,
        pos <= s.next,
    ensures
        ({
            let t = turn(s, pos, EventView::Poll, config);
            let idle = EntriesView { phase: PhaseView::Idle, ..s };
            &&& t.entries.begun == s.phase
            &&& t.step == turn(idle, pos, EventView::Poll, config).step
            &&& t.entries.phase == turn(idle, pos, EventView::Poll, config).entries.phase
            &&& t.entries.longname == s.longname && t.entries.longlink == s.longlink && t.entries.pax == s.pax
        }),
{
}

/// A member that was put aside is gone on with as soon as entries are no longer
/// raw: where the archive is being moved, once it was moved, and else when the
/// iteration is asked.
pub proof fn law_begun_member_is_resumed(s: EntriesView, pos: u64, config: Config)
    requires
        !s.done,
        !s.raw,
        !(s.begun is Idle),
    ensures
        ({
            let polled = turn(s, pos, EventView::Poll, config);
            let moved = turn(s, pos, EventView::Seeked, config);
            &&& !(s.phase is Seek) ==> polled.entries.phase == s.begun && polled.entries.begun is Idle
                && polled.step == ask(s.begun)
            &&& s.phase is Seek ==> polled.entries.phase == s.phase && polled.entries.begun == s.begun
                && polled.step == ask(s.phase)
            &&& moved.entries.phase == s.begun && moved.entries.begun is Idle && moved.step == ask(s.begun)
        }),
{
}

} // verus!
