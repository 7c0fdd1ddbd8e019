//! A library for reading TAR archives.
//!
//! The library decides and the caller reads: an [`Entries`] tells how many bytes
//! to read next, is told what was read, and gives the archive's entries one by
//! one. So the same code serves readers of any kind, and an archive is never
//! required to be fully resident in memory.
//!
//! What an archive gives is stated by [`grammar`], independently of how it is
//! read.

pub mod archive;
pub mod asking;
pub mod bytes;
pub mod compare;
pub mod contents;
pub mod entries;
pub mod entry;
pub mod entry_type;
pub mod error;
pub mod expand;
pub mod given;
pub mod grammar;
pub mod header;
pub mod laws;
pub mod layout;
pub mod listing;
pub mod member;
pub mod number;
pub mod numeral;
pub mod pax;
pub mod reading;
pub mod sparse;
pub mod target;
pub mod unpack;

pub use crate::archive::{Archive, ArchiveBuilder, ArchiveInner};
pub use crate::contents::Piece;
pub use crate::entries::{Entries, EntriesFields, Event, Step};
pub use crate::entry::{EntryFields, EntryIo, Options};
pub use crate::entry_type::EntryType;
pub use crate::error::{other, Error};
pub use crate::header::Header;
pub use crate::target::{unpack_place, Target};
pub use crate::unpack::{Unpack, UnpackStep};
