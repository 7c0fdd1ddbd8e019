use vstd::prelude::*;

use crate::header::Header;

verus! {

/// A stretch of a member's contents.
#[derive(Clone, Copy, Debug, PartialEq, Eq, Structural)]
pub enum EntryIo {
    /// This many zeros, which the archive does not store.
    Pad(u64),
    /// This many bytes, which stand next in the archive.
    Data(u64),
}

/// How the members of an archive are to be unpacked.
#[derive(Clone, Copy, Debug, PartialEq, Eq, Structural)]
pub struct Options {
    /// The permission bits to clear.
    pub mask: u32,
    /// Whether extended file attributes are unpacked.
    pub unpack_xattrs: bool,
    /// Whether extended permissions are preserved.
    pub preserve_permissions: bool,
    /// Whether numeric ownership ids are preserved.
    pub preserve_ownerships: bool,
    /// Whether the modification time is preserved.
    pub preserve_mtime: bool,
    /// Whether existing files are overwritten.
    pub overwrite: bool,
}

/// A member of an archive.
pub struct EntryFields {
    /// The size of the member's contents.
    pub size: u64,
    /// Where in the archive the member's header stands.
    pub header_pos: u64,
    /// Where in the archive the block behind the member's header stands.
    pub file_pos: u64,
    /// The stretches that make up the member's contents.
    pub data: Vec<EntryIo>,
    /// The member's header.
    pub header: Header,
    /// The name that a GNU member in front of this one gives it.
    pub long_pathname: Option<Vec<u8>>,
    /// The link name that a GNU member in front of this one gives it.
    pub long_linkname: Option<Vec<u8>>,
    /// The extensions that a pax member in front of this one gives it.
    pub pax_extensions: Option<Vec<u8>>,
    /// How the member is to be unpacked.
    pub options: Options,
}

/// What an [`EntryFields`] stands for.
#[verifier::ext_equal]
pub struct EntryView {
    pub size: u64,
    pub header_pos: u64,
    pub file_pos: u64,
    pub data: Seq<EntryIo>,
    pub header: Seq<u8>,
    pub long_pathname: Option<Seq<u8>>,
    pub long_linkname: Option<Seq<u8>>,
    pub pax_extensions: Option<Seq<u8>>,
    pub options: Options,
}

/// The bytes in `v`, if there are any.
pub open spec fn bytes_view(v: Option<Vec<u8>>) -> Option<Seq<u8>> {
    match v {
        Some(bytes) => Some(bytes@),
        None => None,
    }
}

impl View for EntryFields {
    type V = EntryView;

    open spec fn view(&self) -> EntryView {
        EntryView {
            size: self.size,
            header_pos: self.header_pos,
            file_pos: self.file_pos,
            data: self.data@,
            header: self.header@,
            long_pathname: bytes_view(self.long_pathname),
            long_linkname: bytes_view(self.long_linkname),
            pax_extensions: bytes_view(self.pax_extensions),
            options: self.options,
        }
    }
}

/// How many bytes the stretches `data` come to.
pub open spec fn total_len(data: Seq<EntryIo>) -> int
    decreases data.len(),
{
    if data.len() == 0 {
        0
    } else {
        total_len(data.drop_last()) + match data.last() {
            EntryIo::Pad(n) => n as int,
            EntryIo::Data(n) => n as int,
        }
    }
}

/// How many bytes of the stretches `data` the archive stores.
pub open spec fn stored_len(data: Seq<EntryIo>) -> int
    decreases data.len(),
{
    if data.len() == 0 {
        0
    } else {
        stored_len(data.drop_last()) + match data.last() {
            EntryIo::Pad(_) => 0int,
            EntryIo::Data(n) => n as int,
        }
    }
}

} // verus!
