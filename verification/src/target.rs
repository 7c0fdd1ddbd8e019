use vstd::prelude::*;
use vstd::slice::slice_subrange;

use crate::bytes::{copied, count_until, law_prefix_ends_at_first, lemma_prefix_len, prefix_len, same_bytes};
use crate::entry::{EntryFields, EntryView, Options};
use crate::entry_type::EntryType;
use crate::header::{is_ustar, stated_link, stated_path, stated_type};
use crate::pax::{
    extension_records, extension_value, record_value, records, records_view, PaxExtension, Record,
};

verus! {

/// The key under which a pax extension gives the path of a member.
pub open spec fn path_key() -> Seq<u8> {
    seq![112u8, 97, 116, 104]
}

/// The key under which a pax extension gives the link name of a member.
pub open spec fn linkpath_key() -> Seq<u8> {
    seq![108u8, 105, 110, 107, 112, 97, 116, 104]
}

/// The bytes `s` without the zero byte that ends them, if one does.
pub open spec fn unterminated(s: Seq<u8>) -> Seq<u8> {
    if s.len() > 0 && s.last() == 0 {
        s.drop_last()
    } else {
        s
    }
}

/// The value that the extension in front of a member gives under `key`.
pub open spec fn given_value(pax: Option<Seq<u8>>, key: Seq<u8>) -> Option<Seq<u8>> {
    match pax {
        Some(data) => record_value(data, key),
        None => None,
    }
}

/// The path of a member: what a GNU member in front of it says, else what a pax
/// extension says, else what its header says.
pub open spec fn path_of(entry: EntryView) -> Seq<u8> {
    match (entry.long_pathname, given_value(entry.pax_extensions, path_key())) {
        (Some(name), _) => unterminated(name),
        (None, Some(path)) => path,
        (None, None) => stated_path(entry.header),
    }
}

/// The link name of a member, if it has one.
pub open spec fn link_of(entry: EntryView) -> Option<Seq<u8>> {
    match (entry.long_linkname, given_value(entry.pax_extensions, linkpath_key())) {
        (Some(name), _) => Some(unterminated(name)),
        (None, Some(path)) => Some(path),
        (None, None) => stated_link(entry.header),
    }
}

/// The parts of `path` that slashes separate.
pub open spec fn parts(path: Seq<u8>) -> Seq<Seq<u8>>
    decreases path.len(),
    via parts_decreases
{
    let n = prefix_len(path, 47);
    if n < path.len() {
        seq![path.take(n)] + parts(path.skip(n + 1))
    } else {
        seq![path]
    }
}

#[via_fn]
proof fn parts_decreases(path: Seq<u8>) {
    lemma_prefix_len(path, 47);
}

/// Whether `part` stands for the directory that it is in.
pub open spec fn names_nothing(part: Seq<u8>) -> bool {
    part.len() == 0 || part == seq![46u8]
}

/// Whether `part` stands for the directory above the one that it is in.
pub open spec fn names_parent(part: Seq<u8>) -> bool {
    part == seq![46u8, 46u8]
}

/// Those of `all` that name something.
pub open spec fn naming(all: Seq<Seq<u8>>) -> Seq<Seq<u8>>
    decreases all.len(),
{
    if all.len() == 0 {
        Seq::empty()
    } else if names_nothing(all[0]) {
        naming(all.skip(1))
    } else {
        seq![all[0]] + naming(all.skip(1))
    }
}

/// Where below the destination a member with the path `path` is unpacked, part
/// by part. A member is not unpacked where its path leads to a parent directory
/// or names nothing.
pub open spec fn place_of(path: Seq<u8>) -> Option<Seq<Seq<u8>>> {
    let all = parts(path);
    if (exists|i: int| 0 <= i < all.len() && names_parent(#[trigger] all[i])) || naming(all).len() == 0 {
        None
    } else {
        Some(naming(all))
    }
}

/// What the vectors in `v` hold.
pub open spec fn parts_view(v: Seq<Vec<u8>>) -> Seq<Seq<u8>> {
    Seq::new(v.len(), |i: int| v[i]@)
}

/// What becomes of a member that is unpacked.
#[derive(Clone, Copy, Debug, PartialEq, Eq, Structural)]
pub enum Target {
    /// A directory.
    Directory,
    /// A hard link to another member.
    HardLink,
    /// A symbolic link.
    Symlink,
    /// Nothing: the member tells something of others.
    Nothing,
    /// A file with the member's contents.
    File,
}

/// What becomes of `entry` when it is unpacked. A member of an archive in an old
/// format is a directory, too, where a slash ends its path.
pub open spec fn target_of(entry: EntryView) -> Target {
    let path = path_of(entry);
    match stated_type(entry.header) {
        EntryType::Directory => Target::Directory,
        EntryType::Link => Target::HardLink,
        EntryType::Symlink => Target::Symlink,
        EntryType::XGlobalHeader | EntryType::XHeader | EntryType::GNULongName
        | EntryType::GNULongLink => Target::Nothing,
        _ => if !is_ustar(entry.header) && path.len() > 0 && path.last() == 47 {
            Target::Directory
        } else {
            Target::File
        },
    }
}

/// What the key of a record starts with that gives an extended attribute.
pub open spec fn xattr_prefix() -> Seq<u8> {
    seq![83u8, 67, 72, 73, 76, 89, 46, 120, 97, 116, 116, 114, 46]
}

/// The extended attributes that the records `all` give, in order, under their
/// names.
pub open spec fn attributes(all: Seq<Record>) -> Seq<Record>
    decreases all.len(),
{
    if all.len() == 0 {
        Seq::empty()
    } else {
        let r = all.last();
        let before = attributes(all.drop_last());
        if xattr_prefix().is_prefix_of(r.key) {
            before.push(Record { key: r.key.skip(13), value: r.value })
        } else {
            before
        }
    }
}

/// The extended attributes that `entry` is unpacked with.
pub open spec fn attributes_of(entry: EntryView) -> Seq<Record> {
    match entry.pax_extensions {
        Some(data) if entry.options.unpack_xattrs => attributes(records(data)),
        _ => Seq::empty(),
    }
}

/// The permission bits that something with the mode `mode` is unpacked with.
pub open spec fn unpacked_mode(mode: u32, options: Options) -> u32 {
    let kept = if options.preserve_permissions {
        mode
    } else {
        mode & 0o777
    };
    kept & !options.mask
}

fn without_end(s: &Vec<u8>) -> (t: Vec<u8>)
    ensures
        t@ == unterminated(s@),
{
    let n = s.len();
    if n > 0 && s[n - 1] == 0 {
        let t = copied(slice_subrange(s.as_slice(), 0, n - 1));
        assert(t@ =~= s@.drop_last());
        t
    } else {
        copied(s.as_slice())
    }
}

/// Finds where below the destination a member with the path `path` is unpacked,
/// part by part.
pub fn unpack_place(path: &[u8]) -> (place: Option<Vec<Vec<u8>>>)
    ensures
        match place_of(path@) {
            Some(p) => place is Some && parts_view(place->Some_0@) == p,
            None => place is None,
        },
{
    let here: [u8; 1] = [46];
    let parent: [u8; 2] = [46, 46];
    assert(here@ =~= seq![46u8]);
    assert(parent@ =~= seq![46u8, 46u8]);
    let mut place: Vec<Vec<u8>> = Vec::new();
    let mut rest = path;
    let ghost all = parts(path@);
    let ghost mut done: int = 0;
    assert(all.skip(0) =~= all);
    assert(parts_view(place@) + naming(all) =~= naming(all));
    loop
        invariant
            all == parts(path@),
            here@ == seq![46u8],
            parent@ == seq![46u8, 46u8],
            0 <= done < all.len(),
            parts(rest@) == all.skip(done),
            parts_view(place@) + naming(all.skip(done)) == naming(all),
            forall|i: int| 0 <= i < done ==> !names_parent(#[trigger] all[i]),
        decreases rest@.len(),
    {
        let n = count_until(rest, 47);
        let part = slice_subrange(rest, 0, n);
        let ghost left = all.skip(done);
        assert(part@ =~= rest@.take(n as int));
        assert(n == rest@.len() ==> part@ =~= rest@);
        assert(left[0] == part@);
        assert(all[done] == part@);
        if same_bytes(part, parent.as_slice()) {
            assert(names_parent(all[done]));
            return None;
        }
        let nothing = part.len() == 0 || same_bytes(part, here.as_slice());
        let ghost before = parts_view(place@);
        if !nothing {
            place.push(copied(part));
        }
        proof {
            assert(left.skip(1) =~= all.skip(done + 1));
            if nothing {
                assert(naming(left) == naming(left.skip(1)));
            } else {
                assert(naming(left) =~= seq![part@] + naming(left.skip(1)));
                assert(parts_view(place@) =~= before.push(part@));
                assert(parts_view(place@) + naming(left.skip(1)) =~= before + naming(left));
            }
            done = done + 1;
        }
        if n == rest.len() {
            proof {
                assert(left.len() == 1);
                assert(all.skip(done) =~= Seq::empty());
                assert(parts_view(place@) =~= naming(all));
            }
            if place.len() == 0 {
                return None;
            }
            return Some(place);
        }
        proof {
            assert(rest@.subrange(n + 1, rest@.len() as int) =~= rest@.skip(n + 1));
            assert(parts(rest@) =~= seq![rest@.take(n as int)] + parts(rest@.skip(n + 1)));
            assert(left.skip(1) =~= parts(rest@.skip(n + 1)));
            lemma_parts_some(rest@.skip(n + 1));
        }
        rest = slice_subrange(rest, n + 1, rest.len());
    }
}

proof fn lemma_parts_some(path: Seq<u8>)
    ensures
        parts(path).len() > 0,
{
    lemma_prefix_len(path, 47);
}

impl EntryFields {
    /// The path of the entry.
    pub fn path_bytes(&self) -> (path: Vec<u8>)
        ensures
            path@ == path_of(self@),
    {
        if let Some(name) = &self.long_pathname {
            return without_end(name);
        }
        if let Some(pax) = &self.pax_extensions {
            let key: [u8; 4] = [112, 97, 116, 104];
            assert(key@ =~= path_key());
            if let Some(path) = extension_value(pax.as_slice(), key.as_slice()) {
                return copied(path);
            }
        }
        self.header.path_bytes()
    }

    /// The link name of the entry, if it has one.
    pub fn link_name_bytes(&self) -> (link: Option<Vec<u8>>)
        ensures
            match link_of(self@) {
                Some(l) => link is Some && link->Some_0@ == l,
                None => link is None,
            },
    {
        if let Some(name) = &self.long_linkname {
            return Some(without_end(name));
        }
        if let Some(pax) = &self.pax_extensions {
            let key: [u8; 8] = [108, 105, 110, 107, 112, 97, 116, 104];
            assert(key@ =~= linkpath_key());
            if let Some(path) = extension_value(pax.as_slice(), key.as_slice()) {
                return Some(copied(path));
            }
        }
        self.header.link_name_bytes()
    }

    /// What becomes of the entry when it is unpacked.
    pub fn target(&self) -> (target: Target)
        ensures
            target == target_of(self@),
    {
        match self.header.entry_type() {
            EntryType::Directory => Target::Directory,
            EntryType::Link => Target::HardLink,
            EntryType::Symlink => Target::Symlink,
            EntryType::XGlobalHeader | EntryType::XHeader | EntryType::GNULongName
            | EntryType::GNULongLink => Target::Nothing,
            _ => {
                let path = self.path_bytes();
                let n = path.len();
                if !self.header.is_ustar() && n > 0 && path[n - 1] == 47 {
                    Target::Directory
                } else {
                    Target::File
                }
            },
        }
    }

    /// The extended attributes that the entry is unpacked with, each under its
    /// name. There are none unless they are to be unpacked.
    pub fn xattrs(&self) -> (all: Vec<PaxExtension<'_>>)
        ensures
            records_view(all@) == attributes_of(self@),
    {
        let mut found: Vec<PaxExtension<'_>> = Vec::new();
        assert(records_view(found@) =~= Seq::empty());
        if !self.options.unpack_xattrs {
            return found;
        }
        if let Some(pax) = &self.pax_extensions {
            let prefix: [u8; 13] = [83, 67, 72, 73, 76, 89, 46, 120, 97, 116, 116, 114, 46];
            assert(prefix@ =~= xattr_prefix());
            let all = extension_records(pax.as_slice());
            let ghost whole = records_view(all@);
            let mut i: usize = 0;
            assert(whole.take(0) =~= Seq::empty());
            while i < all.len()
                invariant
                    i <= all.len(),
                    prefix@ == xattr_prefix(),
                    whole == records_view(all@),
                    records_view(found@) == attributes(whole.take(i as int)),
                decreases all.len() - i,
            {
                let key = all[i].key;
                let ghost before = records_view(found@);
                assert(whole.take(i + 1).drop_last() =~= whole.take(i as int));
                assert(whole.take(i + 1).last() == all@[i as int]@);
                if key.len() >= 13 && same_bytes(slice_subrange(key, 0, 13), prefix.as_slice()) {
                    let name = slice_subrange(key, 13, key.len());
                    assert(name@ =~= key@.skip(13));
                    assert(xattr_prefix() =~= key@.subrange(0, 13));
                    found.push(PaxExtension { key: name, value: all[i].value });
                    assert(records_view(found@) =~= before.push(
                        Record { key: key@.skip(13), value: all@[i as int].value@ },
                    ));
                } else {
                    assert(!xattr_prefix().is_prefix_of(key@));
                }
                i += 1;
            }
            assert(whole.take(i as int) =~= whole);
        }
        found
    }

    /// The permission bits that the entry is unpacked with where its header
    /// states `mode`.
    pub fn unpack_mode(&self, mode: u32) -> (unpacked: u32)
        ensures
            unpacked == unpacked_mode(mode, self.options),
    {
        let mode = if self.options.preserve_permissions {
            mode
        } else {
            mode & 0o777
        };
        mode & !self.options.mask
    }
}

/// Nothing is unpacked outside of the destination: every part of the place
/// names something, holds no slash, and leads to no parent directory.
pub proof fn law_place_is_inside(path: Seq<u8>, i: int)
    requires
        place_of(path) matches Some(place) && 0 <= i < place.len(),
    ensures
        !names_nothing(place_of(path)->Some_0[i]),
        !names_parent(place_of(path)->Some_0[i]),
        !place_of(path)->Some_0[i].contains(47u8),
{
    let all = parts(path);
    lemma_naming(all, i);
    let k = choose|k: int| 0 <= k < all.len() && all[k] == naming(all)[i];
    lemma_parts_hold_no_slash(path, k);
}

proof fn lemma_naming(all: Seq<Seq<u8>>, i: int)
    requires
        0 <= i < naming(all).len(),
    ensures
        !names_nothing(naming(all)[i]),
        exists|k: int| 0 <= k < all.len() && #[trigger] all[k] == naming(all)[i],
    decreases all.len(),
{
    let rest = all.skip(1);
    if all.len() > 0 {
        let j = if names_nothing(all[0]) {
            i
        } else {
            i - 1
        };
        if j >= 0 {
            lemma_naming(rest, j);
            let k = choose|k: int| 0 <= k < rest.len() && rest[k] == naming(rest)[j];
            assert(all[k + 1] == naming(all)[i]);
        } else {
            assert(all[0] == naming(all)[i]);
        }
    }
}

proof fn lemma_parts_hold_no_slash(path: Seq<u8>, k: int)
    requires
        0 <= k < parts(path).len(),
    ensures
        !parts(path)[k].contains(47u8),
    decreases path.len(),
{
    lemma_prefix_len(path, 47);
    let n = prefix_len(path, 47);
    if n < path.len() && k > 0 {
        lemma_parts_hold_no_slash(path.skip(n + 1), k - 1);
    }
}

/// What is unpacked has no permission bit that the mask clears, none that the
/// archive does not state, and, unless permissions are preserved, none but those
/// to read, write and execute.
pub proof fn law_mask_clears(mode: u32, options: Options)
    ensures
        unpacked_mode(mode, options) & options.mask == 0,
        unpacked_mode(mode, options) & !mode == 0,
        !options.preserve_permissions ==> unpacked_mode(mode, options) & !0o777u32 == 0,
{
    let mask = options.mask;
    assert((mode & !mask) & mask == 0) by (bit_vector);
    assert((mode & !mask) & !mode == 0) by (bit_vector);
    assert(((mode & 0o777) & !mask) & mask == 0) by (bit_vector);
    assert(((mode & 0o777) & !mask) & !mode == 0) by (bit_vector);
    assert(((mode & 0o777) & !mask) & !0o777u32 == 0) by (bit_vector);
}

/// The path whose parts, one behind the other, are `all`.
pub open spec fn joined(all: Seq<Seq<u8>>) -> Seq<u8>
    decreases all.len(),
{
    if all.len() == 0 {
        Seq::empty()
    } else if all.len() == 1 {
        all[0]
    } else {
        all[0].push(47) + joined(all.skip(1))
    }
}

proof fn lemma_parts_of_joined(all: Seq<Seq<u8>>)
    requires
        all.len() > 0,
        forall|i: int| 0 <= i < all.len() ==> !(#[trigger] all[i]).contains(47u8),
    ensures
        parts(joined(all)) == all,
    decreases all.len(),
{
    let path = joined(all);
    let first = all[0];
    let n = first.len() as int;
    assert(!first.contains(47u8));
    assert forall|i: int| 0 <= i < n implies path[i] != 47 by {
        assert(path[i] == first[i]);
        assert(first.contains(first[i]));
    }
    law_prefix_ends_at_first(path, 47, n);
    if all.len() == 1 {
        assert(parts(path) =~= all);
    } else {
        let rest = all.skip(1);
        assert forall|i: int| 0 <= i < rest.len() implies !(#[trigger] rest[i]).contains(47u8) by {
            assert(rest[i] == all[i + 1]);
        }
        lemma_parts_of_joined(rest);
        assert(path.take(n) =~= first);
        assert(path.skip(n + 1) =~= joined(rest));
        assert(seq![first] + rest =~= all);
    }
}

proof fn lemma_naming_filters(all: Seq<Seq<u8>>)
    ensures
        naming(all) == all.filter(|part: Seq<u8>| part.len() > 0 && part != seq![46u8]),
    decreases all.len(),
{
    let pred = |part: Seq<u8>| part.len() > 0 && part != seq![46u8];
    reveal(Seq::filter);
    if all.len() > 0 {
        let first = seq![all[0]];
        let rest = all.skip(1);
        lemma_naming_filters(rest);
        assert(all =~= first + rest);
        Seq::filter_distributes_over_add(first, rest, pred);
        assert(first.drop_last() =~= Seq::empty());
        assert(first.drop_last().filter(pred) =~= Seq::empty());
        assert(first.last() == all[0]);
        if names_nothing(all[0]) {
            assert(first.filter(pred) =~= Seq::empty());
        } else {
            assert(first.filter(pred) =~= first);
        }
        assert(Seq::<Seq<u8>>::empty() + naming(rest) =~= naming(rest));
    } else {
        assert(all =~= Seq::empty());
    }
}

/// A member whose path is made of the parts `all` has its place under those of
/// them that are not empty and not a single dot, all of them and in the same
/// order. It has none where a part leads to a parent directory, or where no part
/// is left.
pub proof fn law_place_is_what_the_path_says(all: Seq<Seq<u8>>)
    requires
        all.len() > 0,
        forall|i: int| 0 <= i < all.len() ==> !(#[trigger] all[i]).contains(47u8),
    ensures
        ({
            let kept = all.filter(|part: Seq<u8>| part.len() > 0 && part != seq![46u8]);
            place_of(joined(all)) == if all.contains(seq![46u8, 46u8]) || kept.len() == 0 {
                None
            } else {
                Some(kept)
            }
        }),
{
    lemma_parts_of_joined(all);
    lemma_naming_filters(all);
    if all.contains(seq![46u8, 46u8]) {
        let i = choose|i: int| 0 <= i < all.len() && all[i] == seq![46u8, 46u8];
        assert(names_parent(all[i]));
    } else {
        assert forall|i: int| 0 <= i < all.len() implies !names_parent(#[trigger] all[i]) by {
            assert(all.contains(all[i]));
        }
    }
}

/// A member whose path is made of parts that all name something is unpacked right
/// there.
pub proof fn law_plain_path_is_the_place(all: Seq<Seq<u8>>)
    requires
        all.len() > 0,
        forall|i: int|
            0 <= i < all.len() ==> !(#[trigger] all[i]).contains(47u8) && all[i].len() > 0 && all[i]
                != seq![46u8] && all[i] != seq![46u8, 46u8],
    ensures
        place_of(joined(all)) == Some(all),
{
    let pred = |part: Seq<u8>| part.len() > 0 && part != seq![46u8];
    law_place_is_what_the_path_says(all);
    lemma_filter_keeps_all(all, pred);
    if all.contains(seq![46u8, 46u8]) {
        let i = choose|i: int| 0 <= i < all.len() && all[i] == seq![46u8, 46u8];
        assert(all[i].len() > 0);
    }
}

proof fn lemma_filter_keeps_all(all: Seq<Seq<u8>>, pred: spec_fn(Seq<u8>) -> bool)
    requires
        forall|i: int| 0 <= i < all.len() ==> pred(#[trigger] all[i]),
    ensures
        all.filter(pred) == all,
    decreases all.len(),
{
    reveal(Seq::filter);
    if all.len() > 0 {
        assert forall|i: int| 0 <= i < all.drop_last().len() implies pred(#[trigger] all.drop_last()[i]) by {
            assert(all.drop_last()[i] == all[i]);
        }
        lemma_filter_keeps_all(all.drop_last(), pred);
        assert(all.drop_last().push(all.last()) =~= all);
    }
}

/// Every path is made of parts that hold no slash.
pub proof fn law_every_path_has_parts(path: Seq<u8>)
    ensures
        exists|all: Seq<Seq<u8>>|
            all.len() > 0 && (forall|i: int| 0 <= i < all.len() ==> !(#[trigger] all[i]).contains(47u8))
                && #[trigger] joined(all) == path,
{
    let all = parts(path);
    lemma_parts_some(path);
    assert forall|i: int| 0 <= i < all.len() implies !(#[trigger] all[i]).contains(47u8) by {
        lemma_parts_hold_no_slash(path, i);
    }
    lemma_joined_parts(path);
}

proof fn lemma_joined_parts(path: Seq<u8>)
    ensures
        joined(parts(path)) == path,
    decreases path.len(),
{
    lemma_prefix_len(path, 47);
    let n = prefix_len(path, 47);
    if n < path.len() {
        let rest = path.skip(n + 1);
        lemma_joined_parts(rest);
        lemma_parts_some(rest);
        let all = parts(path);
        assert(all.skip(1) =~= parts(rest));
        assert(all[0] == path.take(n));
        assert(path.take(n).push(47) + rest =~= path);
    }
}

/// Each permission bit of what is unpacked is what it should be: a bit is there
/// where the archive states it, the mask does not clear it, and it is one of the
/// nine to read, write and execute or permissions are preserved.
pub proof fn law_permission_bits(mode: u32, options: Options, i: u32)
    requires
        i < 32,
    ensures
        (unpacked_mode(mode, options) >> i) & 1 == 1 <==> (mode >> i) & 1 == 1 && (options.mask >> i) & 1
            == 0 && (options.preserve_permissions || i < 9),
        options.preserve_permissions ==> unpacked_mode(mode, options) == mode & !options.mask,
        unpacked_mode(mode, options) & 0o777 == mode & 0o777 & !options.mask,
{
    let mask = options.mask;
    assert(((mode & !mask) >> i) & 1 == 1 <==> (mode >> i) & 1 == 1 && (mask >> i) & 1 == 0) by (bit_vector)
        requires
            i < 32,
    ;
    assert((((mode & 0o777) & !mask) >> i) & 1 == 1 <==> (mode >> i) & 1 == 1 && (mask >> i) & 1 == 0 && i
        < 9) by (bit_vector)
        requires
            i < 32,
    ;
    assert((mode & !mask) & 0o777 == mode & 0o777 & !mask) by (bit_vector);
    assert(((mode & 0o777) & !mask) & 0o777 == mode & 0o777 & !mask) by (bit_vector);
}

/// The path of a member is the name that a GNU member in front of it gives, all
/// of it but for one zero byte at its end. Where there is none, it is what an
/// extension says under `path`, and where there is none of that either, what the
/// member's header states.
pub proof fn law_path_comes_from(entry: EntryView, name: Seq<u8>)
    ensures
        name.len() == 0 || name.last() != 0 ==> path_of(EntryView { long_pathname: Some(name), ..entry }) == name,
        path_of(EntryView { long_pathname: Some(name.push(0)), ..entry }) == name,
        entry.long_pathname is None ==> path_of(entry) == match entry.pax_extensions {
            Some(data) => match record_value(data, seq![112u8, 97, 116, 104]) {
                Some(path) => path,
                None => stated_path(entry.header),
            },
            None => stated_path(entry.header),
        },
{
    assert(name.push(0).drop_last() =~= name);
}

/// The link name of a member is found as its path is, under `linkpath` in an
/// extension.
pub proof fn law_link_comes_from(entry: EntryView, name: Seq<u8>)
    ensures
        name.len() == 0 || name.last() != 0 ==> link_of(EntryView { long_linkname: Some(name), ..entry }) == Some(name),
        link_of(EntryView { long_linkname: Some(name.push(0)), ..entry }) == Some(name),
        entry.long_linkname is None ==> link_of(entry) == match entry.pax_extensions {
            Some(data) => match record_value(data, seq![108u8, 105, 110, 107, 112, 97, 116, 104]) {
                Some(path) => Some(path),
                None => stated_link(entry.header),
            },
            None => stated_link(entry.header),
        },
{
    assert(name.push(0).drop_last() =~= name);
}

/// What becomes of a member is told by its type byte, and, for all those that
/// hold contents of their own, by whether a slash ends its path in a format
/// other than UStar.
pub proof fn law_targets(entry: EntryView)
    ensures
        ({
            let kind = entry.header[156];
            let path = path_of(entry);
            let telling = kind == 75 || kind == 76 || kind == 103 || kind == 120;
            let slashed = !is_ustar(entry.header) && path.len() > 0 && path.last() == 47;
            &&& target_of(entry) == Target::HardLink <==> kind == 49
            &&& target_of(entry) == Target::Symlink <==> kind == 50
            &&& target_of(entry) == Target::Nothing <==> telling
            &&& target_of(entry) == Target::Directory <==> kind == 53 || (!telling && kind != 49 && kind != 50
                && slashed)
        }),
{
}

/// The extended attributes of two runs of records are those of the first and then
/// those of the second. A record gives one where its key starts with
/// `SCHILY.xattr.`, under the name that follows that, with its whole value; else
/// it gives none.
pub proof fn law_attributes(a: Seq<Record>, b: Seq<Record>, name: Seq<u8>, value: Seq<u8>, key: Seq<u8>)
    ensures
        attributes(a + b) == attributes(a) + attributes(b),
        attributes(
            seq![
                Record {
                    key: seq![83u8, 67, 72, 73, 76, 89, 46, 120, 97, 116, 116, 114, 46] + name,
                    value,
                },
            ],
        ) == seq![Record { key: name, value }],
        !seq![83u8, 67, 72, 73, 76, 89, 46, 120, 97, 116, 116, 114, 46].is_prefix_of(key) ==> attributes(
            seq![Record { key, value }],
        ) == Seq::<Record>::empty(),
    decreases b.len(),
{
    let named = xattr_prefix() + name;
    assert(xattr_prefix() =~= named.subrange(0, 13));
    assert(named.skip(13) =~= name);
    let one = seq![Record { key: named, value }];
    assert(one.drop_last() =~= Seq::empty());
    assert(attributes(one.drop_last()) =~= Seq::empty());
    assert(attributes(one) =~= seq![Record { key: name, value }]);
    let other = seq![Record { key, value }];
    assert(other.drop_last() =~= Seq::empty());
    assert(attributes(other.drop_last()) =~= Seq::empty());
    if b.len() == 0 {
        assert(a + b =~= a);
        assert(attributes(a) + attributes(b) =~= attributes(a));
    } else {
        assert((a + b).drop_last() =~= a + b.drop_last());
        assert((a + b).last() == b.last());
        law_attributes(a, b.drop_last(), name, value, key);
        assert(attributes(a + b) =~= attributes(a) + attributes(b));
    }
}

/// A member is unpacked with all extended attributes that the extension in front
/// of it gives, where they are to be unpacked, and with none where they are not.
pub proof fn law_attributes_are_optional(entry: EntryView)
    ensures
        !entry.options.unpack_xattrs ==> attributes_of(entry) == Seq::<Record>::empty(),
        entry.options.unpack_xattrs ==> (entry.pax_extensions matches Some(data) ==> attributes_of(entry)
            == attributes(records(data))),
        entry.pax_extensions is None ==> attributes_of(entry) == Seq::<Record>::empty(),
{
}

} // verus!
