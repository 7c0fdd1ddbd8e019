use vstd::prelude::*;

verus! {

/// The kind of a member of an archive, as the type byte of its header gives it.
#[derive(Clone, Copy, Debug, PartialEq, Eq, Structural)]
pub enum EntryType {
    /// A regular file
    Regular,
    /// A hard link
    Link,
    /// A symbolic link
    Symlink,
    /// A character device
    Char,
    /// A block device
    Block,
    /// A directory
    Directory,
    /// A named pipe
    Fifo,
    /// A file that is stored contiguously
    Continuous,
    /// The long name of the member that follows
    GNULongName,
    /// The long link name of the member that follows
    GNULongLink,
    /// A sparse file
    GNUSparse,
    /// Extensions that hold for all members that follow
    XGlobalHeader,
    /// Extensions that hold for the member that follows
    XHeader,
    /// A type byte without a meaning of its own
    Unknown(u8),
}

impl EntryType {
    /// The kind that the type byte `byte` stands for.
    pub open spec fn of(byte: u8) -> EntryType {
        if byte == 0 || byte == 48 {
            EntryType::Regular
        } else if byte == 49 {
            EntryType::Link
        } else if byte == 50 {
            EntryType::Symlink
        } else if byte == 51 {
            EntryType::Char
        } else if byte == 52 {
            EntryType::Block
        } else if byte == 53 {
            EntryType::Directory
        } else if byte == 54 {
            EntryType::Fifo
        } else if byte == 55 {
            EntryType::Continuous
        } else if byte == 76 {
            EntryType::GNULongName
        } else if byte == 75 {
            EntryType::GNULongLink
        } else if byte == 83 {
            EntryType::GNUSparse
        } else if byte == 103 {
            EntryType::XGlobalHeader
        } else if byte == 120 {
            EntryType::XHeader
        } else {
            EntryType::Unknown(byte)
        }
    }

    /// The kind that the type byte `byte` stands for.
    pub fn new(byte: u8) -> (kind: EntryType)
        ensures
            kind == EntryType::of(byte),
    {
        match byte {
            0 | 48 => EntryType::Regular,
            49 => EntryType::Link,
            50 => EntryType::Symlink,
            51 => EntryType::Char,
            52 => EntryType::Block,
            53 => EntryType::Directory,
            54 => EntryType::Fifo,
            55 => EntryType::Continuous,
            76 => EntryType::GNULongName,
            75 => EntryType::GNULongLink,
            83 => EntryType::GNUSparse,
            103 => EntryType::XGlobalHeader,
            120 => EntryType::XHeader,
            _ => EntryType::Unknown(byte),
        }
    }
}

} // verus!
