use vstd::prelude::*;

use crate::entry_type::EntryType;
use crate::header::{
    is_extended, is_gnu, is_ustar, stated_checksum, stated_gid, stated_link, stated_mode, stated_mtime,
    stated_path, stated_real_size, stated_size, stated_type, stated_uid,
};
use crate::number::{field_number, octal_number, text};

verus! {

/// The fields that every header starts with, in order.
pub struct Fields {
    pub name: Seq<u8>,
    pub mode: Seq<u8>,
    pub uid: Seq<u8>,
    pub gid: Seq<u8>,
    pub size: Seq<u8>,
    pub mtime: Seq<u8>,
    pub cksum: Seq<u8>,
    pub kind: u8,
    pub link: Seq<u8>,
    pub magic: Seq<u8>,
    /// The names of the owner and the group, and the device numbers.
    pub owner: Seq<u8>,
}

/// Whether the fields have the lengths that they have in a header.
pub open spec fn sized(f: Fields) -> bool {
    &&& f.name.len() == 100
    &&& f.mode.len() == 8
    &&& f.uid.len() == 8
    &&& f.gid.len() == 8
    &&& f.size.len() == 12
    &&& f.mtime.len() == 12
    &&& f.cksum.len() == 8
    &&& f.link.len() == 100
    &&& f.magic.len() == 8
    &&& f.owner.len() == 80
}

/// The header block with the fields `f`, one behind the other, and `rest` behind
/// them.
pub open spec fn laid(f: Fields, rest: Seq<u8>) -> Seq<u8> {
    f.name + f.mode + f.uid + f.gid + f.size + f.mtime + f.cksum + seq![f.kind] + f.link + f.magic
        + f.owner + rest
}

/// The bytes of `ustar`.
pub open spec fn ustar() -> Seq<u8> {
    seq![117u8, 115, 116, 97, 114]
}

/// A header states in each of its fields what that field holds: the permission
/// bits and the checksum in octal, the other numbers in either form. The magic
/// field alone tells the format.
pub proof fn law_fields_are_read(f: Fields, rest: Seq<u8>)
    requires
        sized(f),
        rest.len() == 167,
    ensures
        ({
            let h = laid(f, rest);
            &&& h.len() == 512
            &&& stated_mode(h) == match octal_number(f.mode) {
                Some(n) => Some(n as u32),
                None => None,
            }
            &&& stated_checksum(h) == match octal_number(f.cksum) {
                Some(n) => Some(n as u32),
                None => None,
            }
            &&& stated_uid(h) == field_number(f.uid)
            &&& stated_gid(h) == field_number(f.gid)
            &&& stated_size(h) == field_number(f.size)
            &&& stated_mtime(h) == field_number(f.mtime)
            &&& stated_type(h) == EntryType::of(f.kind)
            &&& is_gnu(h) <==> f.magic == ustar() + seq![32u8, 32, 0]
            &&& is_ustar(h) <==> f.magic == ustar() + seq![0u8, 48, 48]
            &&& stated_link(h) == if f.link[0] == 0 {
                None
            } else {
                Some(text(f.link))
            }
        }),
{
    let h = laid(f, rest);
    assert(h.subrange(100, 108) =~= f.mode);
    assert(h.subrange(108, 116) =~= f.uid);
    assert(h.subrange(116, 124) =~= f.gid);
    assert(h.subrange(124, 136) =~= f.size);
    assert(h.subrange(136, 148) =~= f.mtime);
    assert(h.subrange(148, 156) =~= f.cksum);
    assert(h[156] == f.kind);
    assert(h[157] == f.link[0]);
    assert(h.subrange(157, 257) =~= f.link);
    assert(h.subrange(257, 265) =~= f.magic);
    assert(ustar() + seq![32u8, 32, 0] =~= seq![117u8, 115, 116, 97, 114, 32, 32, 0]);
    assert(ustar() + seq![0u8, 48, 48] =~= seq![117u8, 115, 116, 97, 114, 0, 48, 48]);
}

/// The path that a header states is what its name field holds. In the UStar
/// format alone, a prefix field behind the others is put in front of it, with a
/// slash between them, unless it is empty.
pub proof fn law_path_is_read(f: Fields, prefix: Seq<u8>, padding: Seq<u8>)
    requires
        sized(f),
        prefix.len() == 155,
        padding.len() == 12,
    ensures
        ({
            let h = laid(f, prefix + padding);
            stated_path(h) == if f.magic == ustar() + seq![0u8, 48, 48] && text(prefix).len() > 0 {
                text(prefix) + seq![47u8] + text(f.name)
            } else {
                text(f.name)
            }
        }),
{
    let h = laid(f, prefix + padding);
    law_fields_are_read(f, prefix + padding);
    assert(h.subrange(0, 100) =~= f.name);
    assert(h.subrange(345, 500) =~= prefix);
    assert(text(prefix).push(47) + text(f.name) =~= text(prefix) + seq![47u8] + text(f.name));
}

/// In the GNU format, the sparse headers follow the times and offsets that only
/// that format has, then whether more sparse headers follow, then the size of
/// the expanded file.
pub proof fn law_sparse_fields_are_read(
    f: Fields,
    times: Seq<u8>,
    table: Seq<u8>,
    extended: u8,
    real_size: Seq<u8>,
    padding: Seq<u8>,
)
    requires
        sized(f),
        times.len() == 41,
        table.len() == 96,
        real_size.len() == 12,
        padding.len() == 17,
    ensures
        ({
            let h = laid(f, times + table + seq![extended] + real_size + padding);
            &&& h.subrange(386, 482) == table
            &&& is_extended(h) <==> extended == 1
            &&& stated_real_size(h) == field_number(real_size)
        }),
{
    let h = laid(f, times + table + seq![extended] + real_size + padding);
    assert(h.subrange(386, 482) =~= table);
    assert(h[482] == extended);
    assert(h.subrange(483, 495) =~= real_size);
}

/// The kind of a member is what its type byte says: no two type bytes say the
/// same, but for the two that say that it is a regular file.
pub proof fn law_type_bytes(a: u8, b: u8)
    ensures
        EntryType::of(a) == EntryType::of(b) ==> a == b || (a == 0 && b == 48) || (a == 48 && b == 0),
        EntryType::of(0) == EntryType::Regular && EntryType::of(48) == EntryType::Regular,
        EntryType::of(a) == EntryType::Link <==> a == 49,
        EntryType::of(a) == EntryType::Symlink <==> a == 50,
        EntryType::of(a) == EntryType::Char <==> a == 51,
        EntryType::of(a) == EntryType::Block <==> a == 52,
        EntryType::of(a) == EntryType::Directory <==> a == 53,
        EntryType::of(a) == EntryType::Fifo <==> a == 54,
        EntryType::of(a) == EntryType::Continuous <==> a == 55,
        EntryType::of(a) == EntryType::GNULongName <==> a == 76,
        EntryType::of(a) == EntryType::GNULongLink <==> a == 75,
        EntryType::of(a) == EntryType::GNUSparse <==> a == 83,
        EntryType::of(a) == EntryType::XHeader <==> a == 120,
        EntryType::of(a) == EntryType::XGlobalHeader <==> a == 103,
        EntryType::of(a) is Unknown ==> EntryType::of(a) == EntryType::Unknown(a),
        EntryType::of(a) is Unknown <==> !(a == 0 || 48 <= a <= 55 || a == 75 || a == 76 || a == 83 || a
            == 103 || a == 120),
{
}

} // verus!
