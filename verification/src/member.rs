use vstd::prelude::*;

use crate::entry::{EntryFields, EntryIo, EntryView, Options};
use crate::entry_type::EntryType;
use crate::error::{other, Error};
use crate::header::{
    checksum, is_gnu, is_ustar, law_owner_read_back, stated_checksum, stated_gid, stated_size, stated_type,
    stated_uid, with_gid, with_uid, Header,
};
use crate::number::{field_of, not_a_number};
use crate::numeral::numeral;
use crate::pax::{
    extension_number, law_record_gives_number, pax_extensions_value, record_line, states_length,
};

verus! {

/// The key under which a pax extension gives the size of a member.
pub open spec fn size_key() -> Seq<u8> {
    seq![115u8, 105, 122, 101]
}

/// The key under which a pax extension gives the owner of a member.
pub open spec fn uid_key() -> Seq<u8> {
    seq![117u8, 105, 100]
}

/// The key under which a pax extension gives the group of a member.
pub open spec fn gid_key() -> Seq<u8> {
    seq![103u8, 105, 100]
}

/// The number that the extension in front of a member gives under `key`.
pub open spec fn given_number(pax: Option<Seq<u8>>, key: Seq<u8>) -> Option<u64> {
    match pax {
        Some(data) => extension_number(data, key),
        None => None,
    }
}

/// The header block `h` with the owner and the group that the extension in
/// front of it gives.
pub open spec fn with_owner(h: Seq<u8>, pax: Option<Seq<u8>>) -> Seq<u8> {
    let owned = match given_number(pax, uid_key()) {
        Some(uid) => with_uid(h, uid),
        None => h,
    };
    match given_number(pax, gid_key()) {
        Some(gid) => with_gid(owned, gid),
        None => owned,
    }
}

/// The size of a member whose header states `stated`: what the extension in
/// front of it gives counts only where the header states zero.
pub open spec fn member_size(stated: u64, pax: Option<Seq<u8>>) -> u64 {
    match given_number(pax, size_key()) {
        Some(size) if stated == 0 => size,
        _ => stated,
    }
}

/// How many bytes the blocks take that hold `size` bytes.
pub open spec fn blocks_len(size: int) -> int {
    (size + 511) / 512 * 512
}

/// A member as its header alone tells it, and where the next header stands.
pub struct Member {
    pub entry: EntryView,
    pub next: u64,
}

/// The member whose header block `h` stands at `header_pos`, with its contents
/// from `file_pos` on; or why there is none.
pub open spec fn read_member(
    h: Seq<u8>,
    header_pos: u64,
    file_pos: u64,
    pax: Option<Seq<u8>>,
    options: Options,
) -> Result<Member, Seq<char>> {
    match (stated_checksum(h), stated_size(h)) {
        (None, _) => Err(not_a_number()),
        (Some(stated), _) if checksum(h) != stated => Err("archive header checksum mismatch"@),
        (_, None) => Err(not_a_number()),
        (_, Some(stated)) => {
            let size = member_size(stated, pax);
            let end = file_pos + blocks_len(size as int);
            if size + 511 > u64::MAX || end > u64::MAX {
                Err("size overflow"@)
            } else {
                Ok(
                    Member {
                        entry: EntryView {
                            size,
                            header_pos,
                            file_pos,
                            data: seq![EntryIo::Data(size)],
                            header: with_owner(h, pax),
                            long_pathname: None,
                            long_linkname: None,
                            pax_extensions: None,
                            options,
                        },
                        next: end as u64,
                    },
                )
            }
        },
    }
}

/// Whether `result` is what `expected` says of it.
pub open spec fn member_is(
    result: Result<(EntryFields, u64), Error>,
    expected: Result<Member, Seq<char>>,
) -> bool {
    match (result, expected) {
        (Ok((entry, next)), Ok(member)) => entry@ == member.entry && next == member.next,
        (Err(error), Err(message)) => error@ == message,
        _ => false,
    }
}

proof fn lemma_owner_keeps_size(h: Seq<u8>, pax: Option<Seq<u8>>)
    requires
        h.len() == 512,
    ensures
        stated_size(with_owner(h, pax)) == stated_size(h),
{
    assert(with_owner(h, pax).subrange(124, 136) =~= h.subrange(124, 136));
}

/// Reads the member that `header` introduces. The header stands at
/// `header_pos`, the member's contents start at `file_pos`, and `pax` is the
/// extension in front of the member.
pub fn parse_member(
    header: Header,
    header_pos: u64,
    file_pos: u64,
    pax: Option<&[u8]>,
    options: Options,
) -> (result: Result<(EntryFields, u64), Error>)
    ensures
        member_is(
            result,
            read_member(
                header@,
                header_pos,
                file_pos,
                match pax {
                    Some(data) => Some(data@),
                    None => None,
                },
                options,
            ),
        ),
{
    let mut header = header;
    let sum = header.checksum();
    let cksum = match header.cksum() {
        Ok(cksum) => cksum,
        Err(e) => {
            return Err(e);
        },
    };
    if sum != cksum {
        return Err(other("archive header checksum mismatch"));
    }
    let ghost h = header@;
    let ghost given = match pax {
        Some(data) => Some(data@),
        None => None,
    };
    let mut pax_size: Option<u64> = None;
    if let Some(data) = pax {
        let size_name: [u8; 4] = [115, 105, 122, 101];
        let uid_name: [u8; 3] = [117, 105, 100];
        let gid_name: [u8; 3] = [103, 105, 100];
        assert(size_name@ =~= size_key());
        assert(uid_name@ =~= uid_key());
        assert(gid_name@ =~= gid_key());
        pax_size = pax_extensions_value(data, size_name.as_slice());
        if let Some(uid) = pax_extensions_value(data, uid_name.as_slice()) {
            header.set_uid(uid);
        }
        if let Some(gid) = pax_extensions_value(data, gid_name.as_slice()) {
            header.set_gid(gid);
        }
    }
    assert(header@ == with_owner(h, given));
    assert(pax_size == given_number(given, size_key()));
    proof {
        lemma_owner_keeps_size(h, given);
    }
    let mut size = match header.entry_size() {
        Ok(size) => size,
        Err(e) => {
            return Err(e);
        },
    };
    if size == 0 {
        if let Some(pax_size) = pax_size {
            size = pax_size;
        }
    }
    let mut data: Vec<EntryIo> = Vec::new();
    data.push(EntryIo::Data(size));
    let entry = EntryFields {
        size,
        header_pos,
        file_pos,
        data,
        header,
        long_pathname: None,
        long_linkname: None,
        pax_extensions: None,
        options,
    };
    // The next header stands behind the blocks that hold the contents.
    let reach = match size.checked_add(511) {
        Some(reach) => reach,
        None => {
            return Err(other("size overflow"));
        },
    };
    assert(reach & !511u64 == reach / 512 * 512) by (bit_vector);
    match file_pos.checked_add(reach & !511u64) {
        Some(next) => {
            assert(entry@.data =~= seq![EntryIo::Data(size)]);
            Ok((entry, next))
        },
        None => Err(other("size overflow")),
    }
}

/// What a member is to the members around it.
#[derive(Clone, Copy, Debug, PartialEq, Eq, Structural)]
pub enum Role {
    /// It holds the name of the member that follows.
    LongName,
    /// It holds the link name of the member that follows.
    LongLink,
    /// It holds extensions for the member that follows.
    Extensions,
    /// It stands for itself.
    Plain,
}

/// What the member `entry` is to the members around it. Only a header in the
/// GNU or the UStar format can describe another member.
///
/// A member that describes another must not be described in the same way itself.
/// A member that was just read never is, since [`read_member`] gives it no
/// description: so of two members that give the member behind them a name, the
/// second counts.
pub open spec fn role_of(entry: EntryView) -> Result<Role, Seq<char>> {
    let recognized = is_gnu(entry.header) || is_ustar(entry.header);
    let kind = stated_type(entry.header);
    if recognized && kind == EntryType::GNULongName {
        if entry.long_pathname is Some {
            Err("two long name entries describing the same member"@)
        } else {
            Ok(Role::LongName)
        }
    } else if recognized && kind == EntryType::GNULongLink {
        if entry.long_linkname is Some {
            Err("two long name entries describing the same member"@)
        } else {
            Ok(Role::LongLink)
        }
    } else if recognized && kind == EntryType::XHeader {
        if entry.pax_extensions is Some {
            Err("two pax extensions entries describing the same member"@)
        } else {
            Ok(Role::Extensions)
        }
    } else {
        Ok(Role::Plain)
    }
}

/// Tells what the member `entry` is to the members around it.
pub fn classify(entry: &EntryFields) -> (result: Result<Role, Error>)
    ensures
        match role_of(entry@) {
            Ok(role) => result == Ok::<Role, Error>(role),
            Err(message) => result is Err && result->Err_0@ == message,
        },
{
    let recognized = entry.header.is_gnu() || entry.header.is_ustar();
    let kind = entry.header.entry_type();
    if recognized && kind == EntryType::GNULongName {
        if entry.long_pathname.is_some() {
            return Err(other("two long name entries describing the same member"));
        }
        return Ok(Role::LongName);
    }
    if recognized && kind == EntryType::GNULongLink {
        if entry.long_linkname.is_some() {
            return Err(other("two long name entries describing the same member"));
        }
        return Ok(Role::LongLink);
    }
    if recognized && kind == EntryType::XHeader {
        if entry.pax_extensions.is_some() {
            return Err(other("two pax extensions entries describing the same member"));
        }
        return Ok(Role::Extensions);
    }
    Ok(Role::Plain)
}

/// The owner and the group that an extension gives a member are those that the
/// member's header states then; what the extension does not give stays as it
/// was.
pub proof fn law_extension_gives_owner(h: Seq<u8>, pax: Option<Seq<u8>>)
    requires
        h.len() == 512,
        given_number(pax, uid_key()) matches Some(uid) ==> uid < 0x8000_0000_0000_0000,
        given_number(pax, gid_key()) matches Some(gid) ==> gid < 0x8000_0000_0000_0000,
    ensures
        stated_uid(with_owner(h, pax)) == match given_number(pax, uid_key()) {
            Some(uid) => Some(uid),
            None => stated_uid(h),
        },
        stated_gid(with_owner(h, pax)) == match given_number(pax, gid_key()) {
            Some(gid) => Some(gid),
            None => stated_gid(h),
        },
        stated_size(with_owner(h, pax)) == stated_size(h),
        stated_type(with_owner(h, pax)) == stated_type(h),
{
    lemma_owner_keeps_size(h, pax);
    let owned = match given_number(pax, uid_key()) {
        Some(uid) => with_uid(h, uid),
        None => h,
    };
    if let Some(uid) = given_number(pax, uid_key()) {
        law_owner_read_back(h, uid);
    }
    if let Some(gid) = given_number(pax, gid_key()) {
        law_owner_read_back(owned, gid);
    }
}

/// A member is read from its header where, and only where, the header states
/// the checksum that it has, its size can be told, and a `u64` can tell where the
/// blocks end that hold its contents. The member then has the size that the
/// header states, or, where that is zero, the size that the extension gives; it
/// has all of that stored in one stretch; its header differs from what stands in
/// the archive at most in the owner and the group; and the next header stands
/// at the first block boundary behind the contents.
pub proof fn law_member_is_read(
    h: Seq<u8>,
    header_pos: u64,
    file_pos: u64,
    pax: Option<Seq<u8>>,
    options: Options,
)
    requires
        h.len() == 512,
    ensures
        ({
            let result = read_member(h, header_pos, file_pos, pax, options);
            let stated = stated_size(h);
            let size = if stated == Some(0u64) && given_number(pax, size_key()) is Some {
                given_number(pax, size_key())
            } else {
                stated
            };
            &&& result is Ok <==> {
                &&& stated_checksum(h) is Some && stated_checksum(h)->Some_0 == checksum(h)
                &&& stated is Some
                &&& exists|room: int|
                    room % 512 == 0 && size->Some_0 <= room < size->Some_0 + 512 && #[trigger] (file_pos
                        + room) <= u64::MAX && size->Some_0 + 511 <= u64::MAX
            }
            &&& result matches Ok(member) ==> {
                &&& Some(member.entry.size) == size
                &&& member.entry.data == seq![EntryIo::Data(member.entry.size)]
                &&& member.entry.header_pos == header_pos
                &&& member.entry.file_pos == file_pos
                &&& member.entry.options == options
                &&& member.entry.long_pathname is None
                &&& member.entry.long_linkname is None
                &&& member.entry.pax_extensions is None
                &&& forall|i: int|
                    0 <= i < 512 && !(108 <= i < 124) ==> #[trigger] member.entry.header[i] == h[i]
                &&& pax is None ==> member.entry.header == h
                &&& (member.next - file_pos) % 512 == 0
                &&& member.entry.size <= member.next - file_pos < member.entry.size + 512
            }
        }),
{
    let result = read_member(h, header_pos, file_pos, pax, options);
    if let Some(stated) = stated_size(h) {
        let size = member_size(stated, pax) as int;
        let room = blocks_len(size);
        assert(room % 512 == 0 && size <= room < size + 512);
        if result is Ok {
            assert(file_pos + room <= u64::MAX);
        } else {
            assert forall|r: int|
                r % 512 == 0 && size <= r < size + 512 && #[trigger] (file_pos + r) <= u64::MAX && size + 511
                    <= u64::MAX implies r == room by {}
        }
    }
}

proof fn lemma_keys_are_plain()
    ensures
        !size_key().contains(61u8) && !size_key().contains(10u8),
        !uid_key().contains(61u8) && !uid_key().contains(10u8),
        !gid_key().contains(61u8) && !gid_key().contains(10u8),
{
    assert forall|i: int| 0 <= i < 4 implies size_key()[i] != 61 && size_key()[i] != 10 by {}
    assert forall|i: int| 0 <= i < 3 implies uid_key()[i] != 61 && uid_key()[i] != 10 by {}
    assert forall|i: int| 0 <= i < 3 implies gid_key()[i] != 61 && gid_key()[i] != 10 by {}
}

/// What an extension says under `size`, `uid` and `gid`, in decimal digits, is
/// what holds of the member behind it: the size where the header states none,
/// the owner and the group in any case.
pub proof fn law_extension_is_applied(h: Seq<u8>, stated: u64, n: nat, number: u64, rest: Seq<u8>)
    requires
        h.len() == 512,
    ensures
        ({
            let key = seq![115u8, 105, 122, 101];
            let data = record_line(n, key, numeral(number as nat, 10)).push(10) + rest;
            states_length(n, key, numeral(number as nat, 10)) ==> member_size(0, Some(data)) == number && (
            stated != 0 ==> member_size(stated, Some(data)) == stated)
        }),
        ({
            let key = seq![117u8, 105, 100];
            let data = record_line(n, key, numeral(number as nat, 10)).push(10) + rest;
            states_length(n, key, numeral(number as nat, 10)) ==> {
                &&& with_owner(h, Some(data)).subrange(108, 116) == field_of(number)
                &&& number < 0x8000_0000_0000_0000 ==> stated_uid(with_owner(h, Some(data))) == Some(number)
            }
        }),
        ({
            let key = seq![103u8, 105, 100];
            let data = record_line(n, key, numeral(number as nat, 10)).push(10) + rest;
            states_length(n, key, numeral(number as nat, 10)) ==> {
                &&& with_owner(h, Some(data)).subrange(116, 124) == field_of(number)
                &&& number < 0x8000_0000_0000_0000 ==> stated_gid(with_owner(h, Some(data))) == Some(number)
            }
        }),
        member_size(stated, None) == stated,
        with_owner(h, None) == h,
{
    lemma_keys_are_plain();
    let digits = numeral(number as nat, 10);
    if states_length(n, size_key(), digits) {
        law_record_gives_number(n, size_key(), number, rest);
    }
    if states_length(n, uid_key(), digits) {
        let data = record_line(n, uid_key(), digits).push(10) + rest;
        law_record_gives_number(n, uid_key(), number, rest);
        assert(with_uid(h, number).subrange(108, 116) =~= field_of(number));
        if number < 0x8000_0000_0000_0000 {
            law_owner_read_back(h, number);
        }
        if let Some(gid) = given_number(Some(data), gid_key()) {
            let owned = with_uid(h, number);
            assert(with_gid(owned, gid).subrange(108, 116) =~= owned.subrange(108, 116));
        }
    }
    if states_length(n, gid_key(), digits) {
        let data = record_line(n, gid_key(), digits).push(10) + rest;
        law_record_gives_number(n, gid_key(), number, rest);
        let owned = match given_number(Some(data), uid_key()) {
            Some(uid) => with_uid(h, uid),
            None => h,
        };
        assert(with_gid(owned, number).subrange(116, 124) =~= field_of(number));
        if number < 0x8000_0000_0000_0000 {
            law_owner_read_back(owned, number);
        }
    }
}

/// A header describes the member behind it where, and only where, it is in one
/// of the two formats that are known and its type byte says so. A member that has
/// such a description already cannot be given another.
pub proof fn law_roles(entry: EntryView)
    ensures
        ({
            let known = is_gnu(entry.header) || is_ustar(entry.header);
            let kind = entry.header[156];
            let role = role_of(entry);
            &&& known && kind == 76 && entry.long_pathname is None ==> role == Ok::<Role, Seq<char>>(
                Role::LongName,
            )
            &&& known && kind == 76 && entry.long_pathname is Some ==> role == Err::<Role, Seq<char>>(
                "two long name entries describing the same member"@,
            )
            &&& known && kind == 75 && entry.long_linkname is None ==> role == Ok::<Role, Seq<char>>(
                Role::LongLink,
            )
            &&& known && kind == 75 && entry.long_linkname is Some ==> role == Err::<Role, Seq<char>>(
                "two long name entries describing the same member"@,
            )
            &&& known && kind == 120 && entry.pax_extensions is None ==> role == Ok::<Role, Seq<char>>(
                Role::Extensions,
            )
            &&& known && kind == 120 && entry.pax_extensions is Some ==> role == Err::<Role, Seq<char>>(
                "two pax extensions entries describing the same member"@,
            )
            &&& !known || !(kind == 76 || kind == 75 || kind == 120) ==> role == Ok::<Role, Seq<char>>(
                Role::Plain,
            )
        }),
{
}

/// Why no member can be read from a header: a checksum or a size that is no
/// number, a checksum that is not the header's, or contents whose end no `u64`
/// can tell. The first of these that holds is told.
pub proof fn law_why_member_is_refused(
    h: Seq<u8>,
    header_pos: u64,
    file_pos: u64,
    pax: Option<Seq<u8>>,
    options: Options,
)
    ensures
        read_member(h, header_pos, file_pos, pax, options) matches Err(message) ==> {
            &&& stated_checksum(h) is None ==> message == "numeric field was not a number"@
            &&& stated_checksum(h) matches Some(stated) ==> {
                &&& stated != checksum(h) ==> message == "archive header checksum mismatch"@
                &&& stated == checksum(h) && stated_size(h) is None ==> message
                    == "numeric field was not a number"@
                &&& stated == checksum(h) && stated_size(h) is Some ==> message == "size overflow"@
            }
        },
{
}

} // verus!
