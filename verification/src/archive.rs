use vstd::prelude::*;

use crate::entries::{at_start, config_of, Entries, EntriesFields, EntriesView, Phase};
use crate::entry::Options;
use crate::error::{other, Error};

verus! {

/// A top-level representation of an archive file.
///
/// The archive keeps the object that it is read from, how far that object was
/// read, and how members are to be unpacked. It does not read by itself: an
/// [`Entries`] tells what to read next and is told what was read.
pub struct Archive<R> {
    /// The state of the archive.
    pub inner: ArchiveInner<R>,
}

/// The state of an archive.
pub struct ArchiveInner<R> {
    /// How far the underlying object was read.
    pub pos: u64,
    /// How members are to be unpacked.
    pub options: Options,
    /// Whether blocks of zeros between members are passed over.
    pub ignore_zeros: bool,
    /// The object that the archive is read from.
    pub obj: R,
}

/// The position `n` bytes behind `pos`. Positions wrap around.
pub open spec fn advanced(pos: u64, n: int) -> u64 {
    ((pos + n) % 0x1_0000_0000_0000_0000) as u64
}

impl<R> ArchiveInner<R> {
    /// Takes note that `n` more bytes of the underlying object were read.
    pub fn note_read(&mut self, n: u64)
        ensures
            *final(self) == (ArchiveInner { pos: advanced(old(self).pos, n as int), ..*old(self) }),
    {
        self.pos = self.pos.wrapping_add(n);
    }
}

/// How members are unpacked unless the archive is told otherwise.
pub open spec fn default_options() -> Options {
    Options {
        mask: 0,
        unpack_xattrs: false,
        preserve_permissions: false,
        preserve_ownerships: false,
        preserve_mtime: true,
        overwrite: true,
    }
}

/// The message for an archive that was read from already.
pub open spec fn not_at_start() -> Seq<char> {
    "cannot call entries unless archive is at position 0"@
}

impl<R> Archive<R> {
    /// Create a new archive with the underlying object as the reader.
    pub fn new(obj: R) -> (archive: Archive<R>)
        ensures
            archive.inner == (ArchiveInner {
                pos: 0,
                options: default_options(),
                ignore_zeros: false,
                obj,
            }),
    {
        Archive {
            inner: ArchiveInner {
                pos: 0,
                options: Options {
                    mask: 0,
                    unpack_xattrs: false,
                    preserve_permissions: false,
                    preserve_ownerships: false,
                    preserve_mtime: true,
                    overwrite: true,
                },
                ignore_zeros: false,
                obj,
            },
        }
    }

    /// Unwrap this archive, returning the underlying object.
    pub fn into_inner(self) -> (obj: R)
        ensures
            obj == self.inner.obj,
    {
        self.inner.obj
    }

    /// Construct an iterator over the entries in this archive.
    ///
    /// Note that care must be taken to consider each entry within an archive in
    /// sequence. If entries are processed out of sequence (from what the
    /// iterator returns), then the contents read for each entry may be
    /// corrupted.
    pub fn entries(&mut self) -> (entries: Result<Entries, Error>)
        ensures
            *final(self) == *old(self),
            old(self).inner.pos == 0 ==> entries is Ok && entries->Ok_0.fields@ == at_start(false),
            old(self).inner.pos != 0 ==> entries is Err && entries->Err_0@ == not_at_start(),
    {
        match self.entries_fields(false) {
            Ok(fields) => Ok(Entries { fields }),
            Err(e) => Err(e),
        }
    }

    /// Construct an iterator over the raw entries in this archive: see
    /// [`Entries::raw`].
    pub fn entries_raw(&mut self) -> (entries: Result<Entries, Error>)
        ensures
            *final(self) == *old(self),
            old(self).inner.pos == 0 ==> entries is Ok && entries->Ok_0.fields@ == (EntriesView {
                raw: true,
                ..at_start(false)
            }),
            old(self).inner.pos != 0 ==> entries is Err && entries->Err_0@ == not_at_start(),
    {
        match self.entries() {
            Ok(entries) => Ok(entries.raw(true)),
            Err(e) => Err(e),
        }
    }

    /// Construct an iterator over the entries in this archive for a seekable
    /// reader. Seek will be used to efficiently skip over file contents.
    ///
    /// Note that care must be taken to consider each entry within an archive in
    /// sequence. If entries are processed out of sequence (from what the
    /// iterator returns), then the contents read for each entry may be
    /// corrupted.
    pub fn entries_with_seek(&mut self) -> (entries: Result<Entries, Error>)
        ensures
            *final(self) == *old(self),
            old(self).inner.pos == 0 ==> entries is Ok && entries->Ok_0.fields@ == at_start(true),
            old(self).inner.pos != 0 ==> entries is Err && entries->Err_0@ == not_at_start(),
    {
        match self.entries_fields(true) {
            Ok(fields) => Ok(Entries { fields }),
            Err(e) => Err(e),
        }
    }

    fn entries_fields(&self, seekable: bool) -> (fields: Result<EntriesFields, Error>)
        ensures
            self.inner.pos == 0 ==> fields is Ok && fields->Ok_0@ == at_start(seekable),
            self.inner.pos != 0 ==> fields is Err && fields->Err_0@ == not_at_start(),
    {
        if self.inner.pos != 0 {
            return Err(other("cannot call entries unless archive is at position 0"));
        }
        Ok(
            EntriesFields {
                next: 0,
                done: false,
                raw: false,
                seekable,
                described: false,
                gnu_longname: None,
                gnu_longlink: None,
                pax_extensions: None,
                phase: Phase::Idle,
                begun: Phase::Idle,
                astray: false,
            },
        )
    }

    /// Set the mask of the permission bits when unpacking this entry.
    ///
    /// The mask will be inverted when applying against a mode, similar to how
    /// `umask` works on Unix. In logical notation it looks like:
    ///
    /// ```text
    /// new_mode = old_mode & (~mask)
    /// ```
    ///
    /// The mask is 0 by default and is currently only implemented on Unix.
    pub fn set_mask(&mut self, mask: u32)
        ensures
            final(self).inner == (ArchiveInner {
                options: Options { mask, ..old(self).inner.options },
                ..old(self).inner
            }),
    {
        self.inner.options.mask = mask;
    }

    /// Indicate whether extended file attributes (xattrs on Unix) are preserved
    /// when unpacking this archive.
    ///
    /// This flag is disabled by default and is currently only implemented on
    /// Unix using xattr support. This may eventually be implemented for
    /// Windows, however, if other archive implementations are found which do
    /// this as well.
    pub fn set_unpack_xattrs(&mut self, unpack_xattrs: bool)
        ensures
            final(self).inner == (ArchiveInner {
                options: Options { unpack_xattrs, ..old(self).inner.options },
                ..old(self).inner
            }),
    {
        self.inner.options.unpack_xattrs = unpack_xattrs;
    }

    /// Indicate whether extended permissions (like suid on Unix) are preserved
    /// when unpacking this entry.
    ///
    /// This flag is disabled by default and is currently only implemented on
    /// Unix.
    pub fn set_preserve_permissions(&mut self, preserve: bool)
        ensures
            final(self).inner == (ArchiveInner {
                options: Options { preserve_permissions: preserve, ..old(self).inner.options },
                ..old(self).inner
            }),
    {
        self.inner.options.preserve_permissions = preserve;
    }

    /// Indicate whether numeric ownership ids (like uid and gid on Unix)
    /// are preserved when unpacking this entry.
    ///
    /// This flag is disabled by default and is currently only implemented on
    /// Unix.
    pub fn set_preserve_ownerships(&mut self, preserve: bool)
        ensures
            final(self).inner == (ArchiveInner {
                options: Options { preserve_ownerships: preserve, ..old(self).inner.options },
                ..old(self).inner
            }),
    {
        self.inner.options.preserve_ownerships = preserve;
    }

    /// Indicate whether files and symlinks should be overwritten on extraction.
    pub fn set_overwrite(&mut self, overwrite: bool)
        ensures
            final(self).inner == (ArchiveInner {
                options: Options { overwrite, ..old(self).inner.options },
                ..old(self).inner
            }),
    {
        self.inner.options.overwrite = overwrite;
    }

    /// Indicate whether access time information is preserved when unpacking
    /// this entry.
    ///
    /// This flag is enabled by default.
    pub fn set_preserve_mtime(&mut self, preserve: bool)
        ensures
            final(self).inner == (ArchiveInner {
                options: Options { preserve_mtime: preserve, ..old(self).inner.options },
                ..old(self).inner
            }),
    {
        self.inner.options.preserve_mtime = preserve;
    }

    /// Ignore zeroed headers, which would otherwise indicate to the archive that it has no more
    /// entries.
    ///
    /// This can be used in case multiple tar archives have been concatenated together.
    pub fn set_ignore_zeros(&mut self, ignore_zeros: bool)
        ensures
            final(self).inner == (ArchiveInner { ignore_zeros, ..old(self).inner }),
    {
        self.inner.ignore_zeros = ignore_zeros;
    }
}

/// Configure an archive before it is read.
pub struct ArchiveBuilder<R> {
    /// The archive as configured so far.
    pub archive: Archive<R>,
}

impl<R> ArchiveBuilder<R> {
    /// Create a new builder with the underlying object as the reader.
    pub fn new(obj: R) -> (builder: ArchiveBuilder<R>)
        ensures
            builder.archive.inner == (ArchiveInner {
                pos: 0,
                options: default_options(),
                ignore_zeros: false,
                obj,
            }),
    {
        ArchiveBuilder { archive: Archive::new(obj) }
    }

    /// Indicate whether extended file attributes are preserved: see
    /// [`Archive::set_unpack_xattrs`].
    pub fn set_unpack_xattrs(self, unpack_xattrs: bool) -> (builder: ArchiveBuilder<R>)
        ensures
            builder.archive.inner == (ArchiveInner {
                options: Options { unpack_xattrs, ..self.archive.inner.options },
                ..self.archive.inner
            }),
    {
        let mut archive = self.archive;
        archive.set_unpack_xattrs(unpack_xattrs);
        ArchiveBuilder { archive }
    }

    /// Indicate whether numeric ownership ids are preserved: see
    /// [`Archive::set_preserve_ownerships`].
    pub fn set_preserve_ownerships(self, preserve: bool) -> (builder: ArchiveBuilder<R>)
        ensures
            builder.archive.inner == (ArchiveInner {
                options: Options { preserve_ownerships: preserve, ..self.archive.inner.options },
                ..self.archive.inner
            }),
    {
        let mut archive = self.archive;
        archive.set_preserve_ownerships(preserve);
        ArchiveBuilder { archive }
    }

    /// Ignore zeroed headers: see [`Archive::set_ignore_zeros`].
    pub fn set_ignore_zeros(self, ignore_zeros: bool) -> (builder: ArchiveBuilder<R>)
        ensures
            builder.archive.inner == (ArchiveInner { ignore_zeros, ..self.archive.inner }),
    {
        let mut archive = self.archive;
        archive.set_ignore_zeros(ignore_zeros);
        ArchiveBuilder { archive }
    }

    /// The archive as configured, ready to be read.
    pub fn build(self) -> (archive: Archive<R>)
        ensures
            archive == self.archive,
    {
        self.archive
    }
}

/// Positions count the bytes that were read, as far as a `u64` can.
pub proof fn law_positions_count_bytes(pos: u64, n: int, m: int)
    requires
        0 <= n,
        0 <= m,
    ensures
        pos + n <= u64::MAX ==> advanced(pos, n) == pos + n,
        advanced(advanced(pos, n), m) == advanced(pos, n + m),
{
}

/// Unless an archive is told otherwise, nothing is masked, files keep their
/// modification time and replace what is there, and nothing else is preserved.
pub proof fn law_defaults()
    ensures
        default_options().mask == 0,
        !default_options().unpack_xattrs,
        !default_options().preserve_permissions,
        !default_options().preserve_ownerships,
        default_options().preserve_mtime,
        default_options().overwrite,
{
}

/// An iteration reads an archive as the archive is configured: members get its
/// options, and zeros are passed over where it says so.
pub proof fn law_iteration_is_configured<R>(inner: ArchiveInner<R>)
    ensures
        config_of(inner).ignore_zeros == inner.ignore_zeros,
        config_of(inner).options == inner.options,
{
}

} // verus!
