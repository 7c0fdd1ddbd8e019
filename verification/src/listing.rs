use vstd::prelude::*;

use crate::compare::{
    law_blank_block, law_concatenated, law_describing_finds_the_same, law_end_of_archive,
    law_front_moves_positions, law_rest_does_not_matter,
    law_seeking_finds_the_same, lemma_extension_described, lemma_header_described, lemma_plain_decides,
    moved, moved_entry, same_entry, with_describing, with_seeking,
};
use crate::entries::{
    accepts, asked, at_start, blank, consistent, pos_after, steady, turn, with_description, Config,
    EntriesView, EventView, PhaseView, StepView, Turn, BLOCK,
};
use crate::entry::EntryView;
use crate::given::law_entries_are_faithful;
use crate::grammar::{
    answer, brought_by, header_answer, law_pieces_do_not_matter, search, waits, window, within, Answer,
};
use crate::header::{all_zero, put};
use crate::laws::{law_steady_stays_steady, law_turns_are_orderly};
use crate::member::{read_member, role_of, Role};

verus! {

/// An iteration that is asked for the entry behind `next`.
pub open spec fn resumed(next: u64, raw: bool, seekable: bool) -> EntriesView {
    EntriesView { next, raw, ..at_start(seekable) }
}

/// What the archive `d` gives behind `next`.
pub open spec fn given_behind(d: Seq<u8>, next: u64, raw: bool, seekable: bool, config: Config) -> Answer {
    search(d, resumed(next, raw, seekable), next as int, config)
}

/// The entries that the archive `d` gives behind `next`, in order, up to where
/// it gives none any more.
pub open spec fn listing(
    d: Seq<u8>,
    next: u64,
    raw: bool,
    seekable: bool,
    config: Config,
) -> Seq<EntryView>
    decreases u64::MAX - next,
    via listing_decreases
{
    match given_behind(d, next, raw, seekable, config) {
        Answer::Entry { entry, next: after, .. } => seq![entry] + listing(d, after, raw, seekable, config),
        _ => Seq::empty(),
    }
}

#[via_fn]
proof fn listing_decreases(d: Seq<u8>, next: u64, raw: bool, seekable: bool, config: Config) {
    law_entries_are_faithful(d, resumed(next, raw, seekable), next as int, config);
}

/// Whether the archive `d` is whole behind `next`: where it gives no more
/// entries, it has come to its end without an error.
pub open spec fn whole(d: Seq<u8>, next: u64, raw: bool, config: Config) -> bool
    decreases u64::MAX - next,
    via whole_decreases
{
    match given_behind(d, next, raw, false, config) {
        Answer::Entry { next: after, .. } => whole(d, after, raw, config),
        Answer::End { .. } => true,
        Answer::Error { .. } => false,
    }
}

#[via_fn]
proof fn whole_decreases(d: Seq<u8>, next: u64, raw: bool, config: Config) {
    law_entries_are_faithful(d, resumed(next, raw, false), next as int, config);
}

/// What was said of a member that follows has no effect where members are
/// returned as they are.
pub proof fn law_raw_ignores_descriptions(d: Seq<u8>, s: EntriesView, pos: int, config: Config)
    requires
        s.raw,
    ensures
        search(d, s, pos, config) == search(d, resumed(s.next, true, s.seekable), pos, config),
    decreases u64::MAX - s.next,
{
    reveal(search);
    reveal(header_answer);
    let w = window(d, s.next as int, 512);
    if w.len() > 0 && s.next + BLOCK <= u64::MAX {
        let behind = EntriesView { next: (s.next + BLOCK) as u64, ..s };
        law_raw_ignores_descriptions(d, behind, s.next + w.len(), config);
    }
}

/// An iteration that has given an entry goes on behind it as if it had begun
/// there: nothing that was said of that entry is left over for the next one.
pub proof fn law_entries_leave_nothing_behind(
    s: EntriesView,
    pos: u64,
    event: EventView,
    config: Config,
    d: Seq<u8>,
    later: int,
    later_config: Config,
)
    requires
        consistent(s, pos),
        accepts(s, pos, event),
        turn(s, pos_after(s, pos, event), event, config).step is Entry,
    ensures
        ({
            let t = turn(s, pos_after(s, pos, event), event, config).entries;
            &&& answer(d, asked(t), later, later_config) == search(
                d,
                resumed(t.next, s.raw, s.seekable),
                later,
                later_config,
            )
            &&& !s.raw ==> asked(t) == resumed(t.next, false, s.seekable)
            &&& t.phase is Idle && !t.done
        }),
{
    let t = turn(s, pos_after(s, pos, event), event, config).entries;
    if s.raw {
        law_raw_ignores_descriptions(d, asked(t), later, later_config);
    }
}

proof fn lemma_whole_is_long_enough(d: Seq<u8>, next: u64, raw: bool, config: Config)
    requires
        whole(d, next, raw, config),
    ensures
        next <= d.len(),
{
    reveal(search);
    reveal(header_answer);
}

proof fn lemma_header_is_no_end(
    d: Seq<u8>,
    s: EntriesView,
    pos: int,
    block: Seq<u8>,
    filled: int,
    config: Config,
)
    requires
        (s.described && !s.raw) || (filled > 0 && !all_zero(block)),
    ensures
        !(header_answer(d, s, pos, block, filled, config) is End),
    decreases u64::MAX - s.next, 0int,
{
    reveal(search);
    reveal(header_answer);
    if filled != 0 && s.next + BLOCK <= u64::MAX {
        let behind = EntriesView { next: (s.next + BLOCK) as u64, ..s };
        if all_zero(block) {
            lemma_described_is_no_end(d, behind, pos, config);
        } else if !s.raw {
            if let Ok(member) = read_member(block, s.next, behind.next, s.pax, config.options) {
                let after = EntriesView { next: member.next, ..s };
                match role_of(member.entry) {
                    Ok(Role::Plain) => {
                        lemma_plain_decides(d, after, pos, member.entry);
                    },
                    Ok(role) => {
                        let bytes = window(d, pos, member.entry.size as int);
                        lemma_described_is_no_end(
                            d,
                            with_description(EntriesView { described: true, ..after }, role, bytes),
                            pos + bytes.len(),
                            config,
                        );
                    },
                    Err(_) => {},
                }
            }
        }
    }
}

proof fn lemma_described_is_no_end(d: Seq<u8>, s: EntriesView, pos: int, config: Config)
    requires
        s.described,
        !s.raw,
    ensures
        !(search(d, s, pos, config) is End),
    decreases u64::MAX - s.next, 1int,
{
    reveal(search);
    reveal(header_answer);
    let w = window(d, s.next as int, 512);
    lemma_header_is_no_end(
        d,
        s,
        s.next + w.len(),
        put(blank(), 0, w),
        w.len() as int,
        config,
    );
}

/// Where zeros are ignored, an archive gives no more entries only where nothing
/// but blocks of zeros is left of it.
proof fn lemma_only_zeros_left(d: Seq<u8>, next: u64, raw: bool, config: Config)
    requires
        config.ignore_zeros,
        d.len() <= u64::MAX,
        given_behind(d, next, raw, false, config) is End,
    ensures
        next <= d.len(),
        (d.len() - next) % 512 == 0,
        forall|i: int| next <= i < d.len() ==> d[i] == 0,
    decreases u64::MAX - next,
{
    reveal(search);
    reveal(header_answer);
    let w = window(d, next as int, 512);
    let h = put(blank(), 0, w);
    if w.len() > 0 {
        assert(all_zero(h)) by {
            if !all_zero(h) {
                lemma_header_is_no_end(
                    d,
                    resumed(next, raw, false),
                    next + w.len(),
                    h,
                    w.len() as int,
                    config,
                );
            }
        }
        let after = (next + BLOCK) as u64;
        lemma_position_does_not_matter(d, resumed(after, raw, false), next + w.len(), after as int, config);
        lemma_only_zeros_left(d, after, raw, config);
        assert forall|i: int| next <= i < d.len() implies d[i] == 0 by {
            if i < after {
                assert(h[i - next] == 0);
                assert(h[i - next] == d[i]);
            }
        }
    }
}

proof fn lemma_position_does_not_matter(
    d: Seq<u8>,
    s: EntriesView,
    p: int,
    q: int,
    config: Config,
)
    requires
        !s.seekable,
    ensures
        search(d, s, p, config) == search(d, s, q, config),
{
    reveal(search);
    reveal(header_answer);
}

/// The entries `entries` of an archive, where `n` bytes stand in front of that
/// archive.
pub open spec fn moved_entries(entries: Seq<EntryView>, n: int) -> Seq<EntryView> {
    Seq::new(entries.len(), |i: int| moved_entry(entries[i], n))
}

/// A whole archive that has something else in front of it gives the entries that
/// it gives on its own, with every position moved by the length of what stands
/// in front.
pub proof fn law_front_moves_listing(f: Seq<u8>, d: Seq<u8>, next: u64, raw: bool, config: Config)
    requires
        f.len() + d.len() <= u64::MAX,
        whole(d, next, raw, config),
    ensures
        next + f.len() <= u64::MAX,
        listing(f + d, (next + f.len()) as u64, raw, false, config) == moved_entries(
            listing(d, next, raw, false, config),
            f.len() as int,
        ),
        whole(f + d, (next + f.len()) as u64, raw, config),
    decreases u64::MAX - next,
{
    let n = f.len() as int;
    let s = resumed(next, raw, false);
    lemma_whole_is_long_enough(d, next, raw, config);
    law_entries_are_faithful(d, s, next as int, config);
    if let Answer::Entry { entry, next: after, .. } = given_behind(d, next, raw, false, config) {
        lemma_whole_is_long_enough(d, after, raw, config);
        law_front_moves_positions(f, d, s, next as int, config);
        law_front_moves_listing(f, d, after, raw, config);
        let rest = listing(d, after, raw, false, config);
        assert(moved_entries(seq![entry] + rest, n) =~= seq![moved_entry(entry, n)] + moved_entries(rest, n));
    } else {
        law_front_moves_positions(f, d, s, next as int, config);
        assert(moved_entries(Seq::empty(), n) =~= Seq::empty());
    }
}

/// Where zeros are ignored, two whole archives one behind the other give the
/// entries of the first and then those of the second, and are whole together.
pub proof fn law_concatenated_listing(
    a: Seq<u8>,
    b: Seq<u8>,
    next: u64,
    raw: bool,
    config: Config,
)
    requires
        config.ignore_zeros,
        a.len() + b.len() <= u64::MAX,
        whole(a, next, raw, config),
        whole(b, 0, raw, config),
    ensures
        listing(a + b, next, raw, false, config) == listing(a, next, raw, false, config) + moved_entries(
            listing(b, 0, raw, false, config),
            a.len() as int,
        ),
        whole(a + b, next, raw, config),
    decreases u64::MAX - next,
{
    let n = a.len() as int;
    let s = resumed(next, raw, false);
    let second = moved_entries(listing(b, 0, raw, false, config), n);
    law_entries_are_faithful(a, s, next as int, config);
    if let Answer::Entry { entry, next: after, .. } = given_behind(a, next, raw, false, config) {
        lemma_whole_is_long_enough(a, after, raw, config);
        law_rest_does_not_matter(a, b, s, next as int, config);
        law_concatenated_listing(a, b, after, raw, config);
        let rest = listing(a, after, raw, false, config);
        assert(seq![entry] + (rest + second) =~= (seq![entry] + rest) + second);
    } else {
        lemma_only_zeros_left(a, next, raw, config);
        let start = resumed(0, raw, false);
        assert(EntriesView { next: 0, ..s } == start);
        if let Answer::Entry { next: after, .. } = given_behind(b, 0, raw, false, config) {
            lemma_whole_is_long_enough(b, after, raw, config);
        }
        law_concatenated(a, b, s, next as int, config);
        law_front_moves_listing(a, b, 0, raw, config);
        law_front_moves_positions(a, b, start, 0, config);
        assert(moved(start, n) == resumed(n as u64, raw, false));
        assert(given_behind(a + b, next, raw, false, config) == given_behind(a + b, n as u64, raw, false, config));
        assert(Seq::<EntryView>::empty() + second =~= second);
    }
}

/// `config`, with zeros ignored or not.
pub open spec fn ignoring(config: Config, ignore_zeros: bool) -> Config {
    Config { ignore_zeros, ..config }
}

/// Whether the archive `d` ends as archives do: the entries behind `next` reach
/// up to blocks of zeros, or to the end of `d`, and nothing else follows.
pub open spec fn ends_in_zeros(d: Seq<u8>, next: u64, raw: bool, config: Config) -> bool
    decreases u64::MAX - next,
    via ends_in_zeros_decreases
{
    match given_behind(d, next, raw, false, ignoring(config, false)) {
        Answer::Entry { next: after, .. } => ends_in_zeros(d, after, raw, config),
        Answer::End { .. } => (d.len() - next) % 512 == 0 && forall|i: int|
            next <= i < d.len() ==> d[i] == 0,
        Answer::Error { .. } => false,
    }
}

#[via_fn]
proof fn ends_in_zeros_decreases(d: Seq<u8>, next: u64, raw: bool, config: Config) {
    law_entries_are_faithful(d, resumed(next, raw, false), next as int, ignoring(config, false));
}

proof fn lemma_header_ignoring(
    d: Seq<u8>,
    s: EntriesView,
    pos: int,
    block: Seq<u8>,
    filled: int,
    config: Config,
)
    requires
        header_answer(d, s, pos, block, filled, ignoring(config, false)) is Entry,
    ensures
        header_answer(d, s, pos, block, filled, ignoring(config, true)) == header_answer(
            d,
            s,
            pos,
            block,
            filled,
            ignoring(config, false),
        ),
    decreases u64::MAX - s.next, 0int,
{
    reveal(search);
    reveal(header_answer);
    if !s.raw && s.next + BLOCK <= u64::MAX {
        let file_pos = (s.next + BLOCK) as u64;
        if let Ok(member) = read_member(block, s.next, file_pos, s.pax, config.options) {
            if let Ok(role) = role_of(member.entry) {
                if role != Role::Plain {
                    let bytes = window(d, pos, member.entry.size as int);
                    let after = EntriesView { next: member.next, ..s };
                    lemma_search_ignoring(
                        d,
                        with_description(EntriesView { described: true, ..after }, role, bytes),
                        pos + bytes.len(),
                        config,
                    );
                }
            }
        }
    }
}

proof fn lemma_search_ignoring(d: Seq<u8>, s: EntriesView, pos: int, config: Config)
    requires
        search(d, s, pos, ignoring(config, false)) is Entry,
    ensures
        search(d, s, pos, ignoring(config, true)) == search(d, s, pos, ignoring(config, false)),
    decreases u64::MAX - s.next, 1int,
{
    reveal(search);
    reveal(header_answer);
    let w = window(d, s.next as int, 512);
    lemma_header_ignoring(
        d,
        s,
        s.next + w.len(),
        put(blank(), 0, w),
        w.len() as int,
        config,
    );
}

proof fn lemma_zeros_lead_to_end(d: Seq<u8>, s: EntriesView, pos: int, config: Config)
    requires
        config.ignore_zeros,
        !s.seekable,
        !s.described,
        s.next <= d.len() <= u64::MAX,
        (d.len() - s.next) % 512 == 0,
        forall|i: int| s.next <= i < d.len() ==> d[i] == 0,
    ensures
        search(d, s, pos, config) is End,
    decreases d.len() - s.next,
{
    if s.next == d.len() {
        law_end_of_archive(d, s, pos, config);
    } else {
        let w = window(d, s.next as int, 512);
        assert forall|i: int| 0 <= i < w.len() implies w[i] == 0 by {
            assert(w[i] == d[s.next + i]);
        }
        law_blank_block(d, s, pos, config);
        let behind = EntriesView { next: (s.next + BLOCK) as u64, ..s };
        lemma_zeros_lead_to_end(d, behind, behind.next as int, config);
    }
}

/// Whether zeros are ignored makes no difference to an archive that ends as
/// archives do.
pub proof fn law_ignoring_zeros_lists_the_same(d: Seq<u8>, next: u64, raw: bool, config: Config)
    requires
        d.len() <= u64::MAX,
        ends_in_zeros(d, next, raw, config),
    ensures
        listing(d, next, raw, false, ignoring(config, true)) == listing(
            d,
            next,
            raw,
            false,
            ignoring(config, false),
        ),
        whole(d, next, raw, ignoring(config, true)),
        whole(d, next, raw, ignoring(config, false)),
    decreases u64::MAX - next,
{
    let s = resumed(next, raw, false);
    law_entries_are_faithful(d, s, next as int, ignoring(config, false));
    match given_behind(d, next, raw, false, ignoring(config, false)) {
        Answer::Entry { next: after, .. } => {
            lemma_search_ignoring(d, s, next as int, config);
            law_ignoring_zeros_lists_the_same(d, after, raw, config);
        },
        Answer::End { .. } => {
            lemma_whole_is_long_enough(d, next, raw, ignoring(config, false));
            lemma_zeros_lead_to_end(d, s, next as int, ignoring(config, true));
        },
        Answer::Error { .. } => {},
    }
}

/// Two archives that end as archives do, one behind the other, give what they
/// give on their own where zeros are ignored: the entries of the first and then
/// those of the second.
pub proof fn law_concatenated_archives(a: Seq<u8>, b: Seq<u8>, raw: bool, config: Config)
    requires
        a.len() + b.len() <= u64::MAX,
        ends_in_zeros(a, 0, raw, config),
        ends_in_zeros(b, 0, raw, config),
    ensures
        listing(a + b, 0, raw, false, ignoring(config, true)) == listing(
            a,
            0,
            raw,
            false,
            ignoring(config, false),
        ) + moved_entries(listing(b, 0, raw, false, ignoring(config, false)), a.len() as int),
{
    law_ignoring_zeros_lists_the_same(a, 0, raw, config);
    law_ignoring_zeros_lists_the_same(b, 0, raw, config);
    law_concatenated_listing(a, b, 0, raw, ignoring(config, true));
}

/// Seeking over the contents of members lists the entries that reading over them
/// lists.
pub proof fn law_seeking_lists_the_same(d: Seq<u8>, next: u64, raw: bool, config: Config)
    requires
        d.len() <= i64::MAX,
    ensures
        listing(d, next, raw, true, config) == listing(d, next, raw, false, config),
    decreases u64::MAX - next,
{
    let s = resumed(next, raw, false);
    law_seeking_finds_the_same(d, s, next as int, config);
    assert(with_seeking(s, false) == s);
    assert(with_seeking(s, true) == resumed(next, raw, true));
    law_entries_are_faithful(d, s, next as int, config);
    if let Answer::Entry { next: after, .. } = given_behind(d, next, raw, false, config) {
        law_seeking_lists_the_same(d, after, raw, config);
    }
}

/// Where zeros are not ignored, a block of zeros behind a whole archive ends it:
/// whatever follows, the archive gives the entries that it gives without it, and
/// is whole.
pub proof fn law_zeros_end_the_listing(a: Seq<u8>, z: Seq<u8>, next: u64, raw: bool, config: Config)
    requires
        !config.ignore_zeros,
        whole(a, next, raw, config),
        z.len() >= 512,
        all_zero(z.take(512)),
    ensures
        listing(a + z, next, raw, false, config) == listing(a, next, raw, false, config),
        whole(a + z, next, raw, config),
    decreases u64::MAX - next,
{
    let s = resumed(next, raw, false);
    lemma_whole_is_long_enough(a, next, raw, config);
    law_entries_are_faithful(a, s, next as int, config);
    if let Answer::Entry { next: after, .. } = given_behind(a, next, raw, false, config) {
        lemma_whole_is_long_enough(a, after, raw, config);
        law_rest_does_not_matter(a, z, s, next as int, config);
        law_zeros_end_the_listing(a, z, after, raw, config);
    } else {
        reveal(search);
        reveal(header_answer);
        let w = window(a, next as int, 512);
        let h = put(blank(), 0, w);
        if w.len() > 0 && !all_zero(h) {
            lemma_header_is_no_end(a, s, next + w.len(), h, w.len() as int, config);
        }
        let longer = window(a + z, next as int, 512);
        assert(longer.len() == 512);
        assert(all_zero(put(blank(), 0, longer))) by {
            assert forall|i: int| 0 <= i < 512 implies longer[i] == 0 by {
                if i < w.len() {
                    assert(longer[i] == w[i]);
                    assert(h[i] == w[i]);
                } else {
                    assert(longer[i] == z.take(512)[next + i - a.len()]);
                }
            }
        }
    }
}

/// What an iteration is told, and where the archive is then.
pub struct Told {
    pub pos: u64,
    pub event: EventView,
}

/// What comes of the iteration `s` when it is told `m`.
pub open spec fn after(s: EntriesView, m: Told, config: Config) -> Turn {
    turn(s, pos_after(s, m.pos, m.event), m.event, config)
}

/// Whether `told` is what the iteration `s` over the archive `d` can be told in
/// the course of reading `d`: each time something that it can take and that
/// reading `d` can bring. Contents are read only of an entry that was given, and
/// not past the next header.
pub open spec fn course(d: Seq<u8>, s: EntriesView, told: Seq<Told>, config: Config) -> bool
    decreases told.len(),
{
    told.len() > 0 ==> {
        let m = told[0];
        let t = after(s, m, config);
        &&& within(d, s, m.pos as int)
        &&& accepts(s, m.pos, m.event)
        &&& brought_by(d, s, m.pos as int, m.event)
        &&& told.len() > 1 && waits(t.step) ==> told[1].pos == pos_after(s, m.pos, m.event)
        &&& course(d, t.entries, told.skip(1), config)
    }
}

/// The entries that the iteration `s` gives while it is told `told`.
pub open spec fn given(s: EntriesView, told: Seq<Told>, config: Config) -> Seq<EntryView>
    decreases told.len(),
{
    if told.len() == 0 {
        Seq::empty()
    } else {
        let t = after(s, told[0], config);
        let rest = given(t.entries, told.skip(1), config);
        match t.step {
            StepView::Entry(entry) => seq![entry] + rest,
            _ => rest,
        }
    }
}

/// Whether the iteration `s` comes to an end, or to an error, while it is told
/// `told`.
pub open spec fn comes_to_end(s: EntriesView, told: Seq<Told>, config: Config) -> bool
    decreases told.len(),
{
    told.len() > 0 && {
        let t = after(s, told[0], config);
        t.step is End || t.step is Error || comes_to_end(t.entries, told.skip(1), config)
    }
}

/// The entries that the archive `d` has still to give to the iteration `s`.
pub open spec fn to_come(d: Seq<u8>, s: EntriesView, pos: int, config: Config) -> Seq<EntryView> {
    if s.done {
        Seq::empty()
    } else {
        match answer(d, asked(s), pos, config) {
            Answer::Entry { entry, next, .. } => seq![entry] + listing(d, next, s.raw, s.seekable, config),
            _ => Seq::empty(),
        }
    }
}

proof fn lemma_found_wherever(d: Seq<u8>, s: EntriesView, p: int, q: int, config: Config)
    requires
        0 <= p,
        0 <= q,
        s.seekable ==> d.len() <= i64::MAX,
    ensures
        search(d, s, p, config) is Entry ==> search(d, s, q, config) == search(d, s, p, config),
{
    reveal(search);
    reveal(header_answer);
}

proof fn lemma_to_come_behind(
    d: Seq<u8>,
    s: EntriesView,
    pos: u64,
    event: EventView,
    config: Config,
    later: int,
)
    requires
        steady(s),
        consistent(s, pos),
        accepts(s, pos, event),
        turn(s, pos_after(s, pos, event), event, config).step is Entry,
        0 <= later,
        s.seekable ==> d.len() <= i64::MAX,
    ensures
        ({
            let t = turn(s, pos_after(s, pos, event), event, config).entries;
            to_come(d, t, later, config) == listing(d, t.next, s.raw, s.seekable, config)
        }),
{
    let t = turn(s, pos_after(s, pos, event), event, config).entries;
    law_entries_leave_nothing_behind(s, pos, event, config, d, later, config);
    law_steady_stays_steady(s, pos, event, config);
    let r = resumed(t.next, s.raw, s.seekable);
    lemma_found_wherever(d, r, later, t.next as int, config);
    lemma_found_wherever(d, r, t.next as int, later, config);
}

proof fn lemma_asked_finds_the_same(d: Seq<u8>, s: EntriesView, pos: int, config: Config)
    requires
        steady(s),
        !s.done,
        s.phase matches PhaseView::Gather { entry, .. } ==> role_of(entry) is Ok,
    ensures
        same_entry(answer(d, s, pos, config), answer(d, asked(s), pos, config)),
{
    let bare = EntriesView { phase: PhaseView::Idle, ..s };
    match s.phase {
        PhaseView::Idle | PhaseView::Skip { .. } | PhaseView::Seek { .. } => {
            law_describing_finds_the_same(d, bare, pos, config, false);
        },
        PhaseView::Header { block, filled } => {
            let w = window(d, pos, 512 - filled);
            lemma_header_described(
                d,
                bare,
                pos + w.len(),
                put(block, filled, w),
                filled + w.len(),
                config,
                false,
            );
        },
        PhaseView::Gather { entry, left, bytes } => {
            let w = window(d, pos, left as int);
            let role = role_of(entry)->Ok_0;
            let described = with_description(bare, role, bytes + w);
            law_describing_finds_the_same(d, described, pos + w.len(), config, false);
            assert(with_describing(described, false) == with_description(
                with_describing(bare, false),
                role,
                bytes + w,
            ));
        },
        PhaseView::Extension { entry, map, block, filled } => {
            lemma_extension_described(d, bare, pos, entry, map, block, filled, false);
        },
    }
}

/// Whether a turn of an iteration over `d` keeps account of the entries that are
/// still to come.
pub(crate) open spec fn accounted(
    d: Seq<u8>,
    s: EntriesView,
    pos: u64,
    event: EventView,
    config: Config,
) -> bool {
    let end = pos_after(s, pos, event);
    let t = turn(s, end, event, config);
    let ahead = to_come(d, s, pos as int, config);
    &&& match t.step {
        StepView::Read(_) | StepView::Seek(_) => {
            to_come(d, t.entries, end as int, config) == ahead
        },
        StepView::Entry(entry) => {
            let behind = listing(d, t.entries.next, s.raw, s.seekable, config);
            &&& ahead == seq![entry] + behind
            &&& forall|later: int|
                0 <= later ==> #[trigger] to_come(d, t.entries, later, config) == behind
        },
        _ => ahead == Seq::<EntryView>::empty() && t.entries.done,
    }
    &&& steady(t.entries)
    &&& consistent(t.entries, end)
    &&& waits(t.step) || t.entries.phase is Idle
    &&& t.entries.raw == s.raw
    &&& t.entries.seekable == s.seekable
    &&& s.seekable || end <= d.len()
}

#[verifier::rlimit(60)]
pub(crate) proof fn lemma_accounted(
    d: Seq<u8>,
    s: EntriesView,
    pos: u64,
    event: EventView,
    config: Config,
)
    requires
        steady(s),
        s.seekable ==> d.len() <= i64::MAX,
        consistent(s, pos),
        within(d, s, pos as int),
        accepts(s, pos, event),
        brought_by(d, s, pos as int, event),
    ensures
        accounted(d, s, pos, event, config),
{
    let end = pos_after(s, pos, event);
    let t = turn(s, end, event, config);
    law_pieces_do_not_matter(d, s, pos, event, config);
    law_turns_are_orderly(s, pos, event, config);
    law_steady_stays_steady(s, pos, event, config);
    lemma_steps(s, end, event, config);
    if !s.done {
        lemma_asked_finds_the_same(d, s, pos as int, config);
        assert(asked(asked(s)) == asked(s));
    }
    match t.step {
        StepView::Read(_) | StepView::Seek(_) => {
            lemma_asked_finds_the_same(d, t.entries, end as int, config);
        },
        StepView::Entry(entry) => {
            assert forall|later: int| 0 <= later implies #[trigger] to_come(
                d,
                t.entries,
                later,
                config,
            ) == listing(d, t.entries.next, s.raw, s.seekable, config) by {
                lemma_to_come_behind(d, s, pos, event, config, later);
            }
        },
        _ => {},
    }
}

proof fn lemma_steps(s: EntriesView, pos: u64, event: EventView, config: Config)
    requires
        !(s.phase is Idle) ==> !s.done,
        event is Bytes ==> !(s.phase is Idle),
        event is Seeked ==> !(s.phase is Idle),
    ensures
        ({
            let t = turn(s, pos, event, config);
            &&& waits(t.step) || t.step is Entry ==> !t.entries.done && !s.done
            &&& t.step is Entry ==> t.entries.phase is Idle
            &&& !waits(t.step) && !(t.step is Entry) ==> t.entries.done
        }),
{
}

proof fn lemma_course(d: Seq<u8>, s: EntriesView, told: Seq<Told>, config: Config)
    requires
        told.len() > 0,
        steady(s),
        s.seekable ==> d.len() <= i64::MAX,
        consistent(s, told[0].pos),
        course(d, s, told, config),
    ensures
        given(s, told, config).is_prefix_of(to_come(d, s, told[0].pos as int, config)),
        comes_to_end(s, told, config) ==> given(s, told, config) == to_come(
            d,
            s,
            told[0].pos as int,
            config,
        ),
    decreases told.len(),
{
    let m = told[0];
    let t = after(s, m, config);
    let rest = told.skip(1);
    let ahead = to_come(d, s, m.pos as int, config);
    lemma_accounted(d, s, m.pos, m.event, config);
    if rest.len() > 0 {
        assert(rest[0] == told[1]);
        lemma_course(d, t.entries, rest, config);
    } else {
        assert(!comes_to_end(t.entries, rest, config));
        assert(given(t.entries, rest, config) == Seq::<EntryView>::empty());
    }
    if let StepView::Entry(entry) = t.step {
        let behind = listing(d, t.entries.next, s.raw, s.seekable, config);
        if rest.len() > 0 {
            assert(to_come(d, t.entries, rest[0].pos as int, config) == behind);
            let more = given(t.entries, rest, config);
            assert(more == behind.take(more.len() as int));
            assert((seq![entry] + more) =~= ahead.take(1 + more.len() as int));
        } else {
            assert(seq![entry] + Seq::<EntryView>::empty() =~= ahead.take(1));
        }
    }
}

/// The entries that an iteration gives when it is asked for one after the other,
/// from the start of an archive on, are those that the archive lists, in order:
/// however the archive is read, whatever is read of the entries in between, and
/// with or without seeking. When the iteration comes to its end, it has given
/// all of them.
pub proof fn law_polls_give_the_listing(
    d: Seq<u8>,
    raw: bool,
    seekable: bool,
    told: Seq<Told>,
    config: Config,
)
    requires
        told.len() > 0,
        told[0].pos == 0,
        seekable ==> d.len() <= i64::MAX,
        course(d, resumed(0, raw, seekable), told, config),
    ensures
        given(resumed(0, raw, seekable), told, config).is_prefix_of(
            listing(d, 0, raw, seekable, config),
        ),
        comes_to_end(resumed(0, raw, seekable), told, config) ==> given(
            resumed(0, raw, seekable),
            told,
            config,
        ) == listing(d, 0, raw, seekable, config),
{
    let s = resumed(0, raw, seekable);
    lemma_course(d, s, told, config);
    assert(asked(s) == s);
}

} // verus!
