use async_tar_rs::entries::try_read_all;
use async_tar_rs::member::{classify, Role};
use async_tar_rs::number::{number_from, number_into};
use async_tar_rs::pax::{extension_records, extension_value, pax_extensions_value};
use async_tar_rs::sparse::SparseMap;
use async_tar_rs::{
    other, unpack_place, Archive, ArchiveBuilder, Entries, EntryFields, EntryIo, EntryType, Event, Header, Options, Piece, Step,
    Target, UnpackStep,
};

/// Bytes that are read in pieces of at most `chunk` bytes.
struct Source {
    data: Vec<u8>,
    at: u64,
    chunk: usize,
    read: u64,
}

fn source(data: &[u8]) -> Source {
    Source { data: data.to_vec(), at: 0, chunk: usize::MAX, read: 0 }
}

fn in_pieces(data: &[u8], chunk: usize) -> Source {
    Source { data: data.to_vec(), at: 0, chunk, read: 0 }
}

impl Source {
    fn take(&mut self, n: usize) -> Vec<u8> {
        let len = self.data.len() as u64;
        let from = self.at.min(len) as usize;
        let to = from + n.min(self.chunk).min(self.data.len() - from);
        self.at += (to - from) as u64;
        self.read += (to - from) as u64;
        self.data[from..to].to_vec()
    }

    fn seek(&mut self, n: i64) {
        self.at += n as u64;
    }
}

/// The next entry of an archive, if there is one.
fn next(archive: &mut Archive<Source>, entries: &mut Entries) -> Option<Result<EntryFields, String>> {
    let mut event = Event::Poll;
    loop {
        event = match entries.poll_next(archive, event) {
            Step::Read(n) => Event::Bytes(archive.inner.obj.take(n)),
            Step::Seek(n) => {
                archive.inner.obj.seek(n);
                Event::Seeked
            }
            Step::Entry(entry) => return Some(Ok(entry)),
            Step::End => return None,
            Step::Error(e) => return Some(Err(e.to_string())),
            Step::Failed => panic!("nothing failed"),
        };
    }
}

/// The contents of an entry that was just found.
fn contents(archive: &mut Archive<Source>, entry: &mut EntryFields) -> Vec<u8> {
    let mut all = Vec::new();
    loop {
        match entry.next_piece(1000) {
            Piece::Zeros(n) => all.extend(vec![0; n]),
            Piece::Read(n) => {
                let bytes = archive.inner.obj.take(n);
                archive.inner.note_read(bytes.len() as u64);
                entry.note_read(bytes.len());
                all.extend(bytes);
            }
            Piece::End => return all,
        }
    }
}

fn set(header: &mut Header, from: usize, bytes: &[u8]) {
    header.bytes[from..from + bytes.len()].copy_from_slice(bytes);
}

fn new_gnu() -> Header {
    let mut header = Header::new_old();
    set(&mut header, 257, b"ustar  \0");
    header
}

fn new_ustar() -> Header {
    let mut header = Header::new_old();
    set(&mut header, 257, b"ustar\x0000");
    header
}

fn set_size(header: &mut Header, size: u64) {
    if size < 0o100_000_000_000 {
        set(header, 124, format!("{:011o}\0", size).as_bytes());
    } else {
        let mut field = [0; 12];
        field[0] = 0x80;
        field[4..].copy_from_slice(&size.to_be_bytes());
        set(header, 124, &field);
    }
}

fn set_kind(header: &mut Header, kind: u8) {
    header.bytes[156] = kind;
}

fn set_cksum(header: &mut Header) {
    let sum = header.checksum();
    set(header, 148, format!("{:06o}\0 ", sum).as_bytes());
}

/// The header of a file with a name and a size.
fn file_header(mut header: Header, name: &[u8], size: u64) -> Header {
    set(&mut header, 0, name);
    set_size(&mut header, size);
    set_kind(&mut header, b'0');
    set_cksum(&mut header);
    header
}

fn append(archive: &mut Vec<u8>, header: &Header, contents: &[u8]) {
    archive.extend(header.as_bytes());
    archive.extend(contents);
    archive.resize((archive.len() + 511) / 512 * 512, 0);
}

fn finish(archive: &mut Vec<u8>) {
    archive.extend([0; 1024]);
}

/// A member that holds a name for the member that follows.
fn append_name(archive: &mut Vec<u8>, kind: u8, name: &[u8]) {
    let mut h = new_gnu();
    set(&mut h, 0, b"././@LongLink");
    set_size(&mut h, name.len() as u64);
    set_kind(&mut h, kind);
    set_cksum(&mut h);
    append(archive, &h, name);
}

/// A member that holds extensions for the member that follows.
fn append_extensions(archive: &mut Vec<u8>, records: &[u8]) {
    let mut h = new_ustar();
    set(&mut h, 0, b"PaxHeaders/x");
    set_size(&mut h, records.len() as u64);
    set_kind(&mut h, b'x');
    set_cksum(&mut h);
    append(archive, &h, records);
}

/// The sparse header of a stretch.
fn stretch(off: u64, len: u64) -> Vec<u8> {
    format!("{:011o}\0{:011o}\0", off, len).into_bytes()
}

/// The header of a sparse file with the given stretches.
fn sparse_header(stretches: &[(u64, u64)], stored: u64, expanded: u64) -> Header {
    let mut header = new_gnu();
    for (i, (off, len)) in stretches.iter().enumerate() {
        set(&mut header, 386 + 24 * i, &stretch(*off, *len));
    }
    set(&mut header, 483, format!("{:011o}\0", expanded).as_bytes());
    set_size(&mut header, stored);
    set_kind(&mut header, b'S');
    set_cksum(&mut header);
    header
}

/// What an archive gives: for each entry its path and contents; at the end, why
/// there are no more.
fn listing(mut archive: Archive<Source>, mut entries: Entries) -> (Vec<(Vec<u8>, Vec<u8>)>, Option<String>) {
    let mut all = Vec::new();
    loop {
        match next(&mut archive, &mut entries) {
            Some(Ok(mut entry)) => {
                let path = entry.path_bytes();
                all.push((path, contents(&mut archive, &mut entry)));
            }
            Some(Err(e)) => return (all, Some(e)),
            None => return (all, None),
        }
    }
}

/// The error that the first entry of an archive is.
fn first_error(data: &[u8]) -> String {
    let mut archive = Archive::new(source(data));
    let mut entries = archive.entries().unwrap();
    let error = next(&mut archive, &mut entries).unwrap().err().unwrap();
    assert!(next(&mut archive, &mut entries).is_none());
    error
}

/// An archive with members of all kinds.
fn mixed() -> Vec<u8> {
    let mut data = Vec::new();
    append(&mut data, &file_header(new_ustar(), b"empty", 0), b"");
    append_name(&mut data, b'L', b"a long name\0");
    append_name(&mut data, b'K', b"a long link\0");
    append(&mut data, &file_header(new_gnu(), b"a short name", 1500), &[7; 1500]);
    append_extensions(&mut data, b"14 path=hello\n12 size=700\n");
    append(&mut data, &file_header(new_ustar(), b"h", 0), &[8; 700]);
    append(&mut data, &sparse_header(&[(10, 512), (1000, 3)], 515, 1003), &[9; 515]);
    let mut header = sparse_header(&[(0, 512)], 1024, 5512);
    header.bytes[482] = 1;
    set_cksum(&mut header);
    data.extend(header.as_bytes());
    let mut block = [0; 512];
    block[24..48].copy_from_slice(&stretch(5000, 512));
    data.extend(block);
    data.extend([6; 1024]);
    append(&mut data, &file_header(Header::new_old(), b"last", 512), &[5; 512]);
    finish(&mut data);
    data
}

fn mixed_listing() -> Vec<(Vec<u8>, Vec<u8>)> {
    let mut sparse = vec![0; 10];
    sparse.extend([9; 512]);
    sparse.extend([0; 478]);
    sparse.extend([9; 3]);
    let mut extended = vec![6; 512];
    extended.extend([0; 4488]);
    extended.extend([6; 512]);
    vec![
        (b"empty".to_vec(), vec![]),
        (b"a long name".to_vec(), vec![7; 1500]),
        (b"hello".to_vec(), vec![8; 700]),
        (b"".to_vec(), sparse),
        (b"".to_vec(), extended),
        (b"last".to_vec(), vec![5; 512]),
    ]
}

#[test]
fn pieces_do_not_matter() {
    for chunk in [1, 2, 7, 100, 511, 512, 513, 100_000] {
        let mut archive = Archive::new(in_pieces(&mixed(), chunk));
        let entries = archive.entries().unwrap();
        assert_eq!(listing(archive, entries), (mixed_listing(), None));
    }
}

#[test]
fn seeking_finds_the_same() {
    let mut archive = Archive::new(in_pieces(&mixed(), 100));
    let entries = archive.entries_with_seek().unwrap();
    assert_eq!(listing(archive, entries), (mixed_listing(), None));

    // The end of the last member is cut off.
    let mut data = Vec::new();
    append(&mut data, &file_header(new_gnu(), b"a", 5000), &[1; 600]);
    let mut archive = Archive::new(source(&data));
    let entries = archive.entries().unwrap();
    let mut cut = vec![1; 600];
    cut.resize(1024, 0);
    let expected = vec![(b"a".to_vec(), cut)];
    assert_eq!(
        listing(archive, entries),
        (expected.clone(), Some("unexpected EOF during skip".to_string()))
    );
    let mut archive = Archive::new(source(&data));
    let entries = archive.entries_with_seek().unwrap();
    assert_eq!(listing(archive, entries), (expected, None));
}

#[test]
fn rest_does_not_matter_and_front_moves_positions() {
    let first = mixed();
    let mut data = first.clone();
    data.extend(&first);
    let mut archive = Archive::new(source(&data));
    archive.set_ignore_zeros(true);
    let mut entries = archive.entries().unwrap();
    let mut positions = Vec::new();
    let mut listed = Vec::new();
    while let Some(entry) = next(&mut archive, &mut entries) {
        let mut entry = entry.unwrap();
        positions.push((entry.header_pos, entry.file_pos));
        listed.push((entry.path_bytes(), contents(&mut archive, &mut entry)));
    }
    let mut twice = mixed_listing();
    twice.extend(mixed_listing());
    assert_eq!(listed, twice);
    for i in 0..6 {
        assert_eq!(positions[i].1, positions[i].0 + 512);
        assert_eq!(positions[i].0 % 512, 0);
        assert_eq!(positions[i + 6].0, positions[i].0 + first.len() as u64);
        assert_eq!(positions[i + 6].1, positions[i].1 + first.len() as u64);
    }
    assert_eq!(positions[0], (0, 512));
    assert_eq!(positions[1].0, 512 + 4 * 512);
}

#[test]
fn blank_blocks() {
    let mut data = vec![0; 512];
    append(&mut data, &file_header(new_gnu(), b"a", 0), b"");
    data.extend([0; 100]);
    let mut archive = Archive::new(source(&data));
    let entries = archive.entries().unwrap();
    assert_eq!(listing(archive, entries), (vec![], None));
    let mut archive = Archive::new(source(&data));
    archive.set_ignore_zeros(true);
    let entries = archive.entries().unwrap();
    assert_eq!(
        listing(archive, entries),
        (vec![(b"a".to_vec(), vec![])], Some("unexpected EOF during skip".to_string()))
    );

    let mut archive = Archive::new(source(&[]));
    let entries = archive.entries().unwrap();
    assert_eq!(listing(archive, entries), (vec![], None));
}

#[test]
fn raw_entries() {
    let mut archive = Archive::new(source(&mixed()));
    let mut entries = archive.entries().unwrap().raw(true);
    let mut kinds = Vec::new();
    while let Some(entry) = next(&mut archive, &mut entries) {
        let entry = entry.unwrap();
        assert!(entry.long_pathname.is_none());
        assert!(entry.long_linkname.is_none());
        assert!(entry.pax_extensions.is_none());
        assert_eq!(entry.data, vec![EntryIo::Data(entry.size)]);
        let from = entry.header_pos as usize;
        assert!(entry.header.as_bytes()[..] == mixed()[from..from + 512]);
        kinds.push(entry.header.entry_type());
        if kinds.len() == 6 {
            // Without the extension in front of it, the member that follows has
            // no contents, and they are taken for a header.
            break;
        }
    }
    assert_eq!(
        kinds,
        vec![
            EntryType::Regular,
            EntryType::GNULongName,
            EntryType::GNULongLink,
            EntryType::Regular,
            EntryType::XHeader,
            EntryType::Regular,
        ]
    );
    assert_eq!(
        next(&mut archive, &mut entries).unwrap().err().unwrap(),
        "numeric field was not a number"
    );
}

#[test]
fn descriptions_belong_to_the_member_that_follows() {
    let mut archive = Archive::new(source(&mixed()));
    let mut entries = archive.entries().unwrap();
    let first = next(&mut archive, &mut entries).unwrap().unwrap();
    assert!(first.long_pathname.is_none() && first.long_linkname.is_none());
    assert!(first.pax_extensions.is_none());
    let second = next(&mut archive, &mut entries).unwrap().unwrap();
    assert_eq!(second.long_pathname, Some(b"a long name\0".to_vec()));
    assert_eq!(second.long_linkname, Some(b"a long link\0".to_vec()));
    assert_eq!(second.link_name_bytes(), Some(b"a long link".to_vec()));
    assert!(second.pax_extensions.is_none());
    let third = next(&mut archive, &mut entries).unwrap().unwrap();
    assert!(third.long_pathname.is_none() && third.long_linkname.is_none());
    assert_eq!(third.pax_extensions, Some(b"14 path=hello\n12 size=700\n".to_vec()));
    assert_eq!(third.size, 700);
    let fourth = next(&mut archive, &mut entries).unwrap().unwrap();
    assert!(fourth.pax_extensions.is_none());
    assert_eq!(
        fourth.data,
        vec![EntryIo::Pad(10), EntryIo::Data(512), EntryIo::Pad(478), EntryIo::Data(3)]
    );
    assert_eq!(fourth.size, 1003);
}

#[test]
fn the_last_of_two_names_counts() {
    let mut data = Vec::new();
    append_name(&mut data, b'L', b"first\0");
    append_name(&mut data, b'L', b"second");
    append(&mut data, &file_header(new_gnu(), b"a", 0), b"");
    let mut archive = Archive::new(source(&data));
    let mut entries = archive.entries().unwrap();
    let entry = next(&mut archive, &mut entries).unwrap().unwrap();
    assert_eq!(entry.path_bytes(), b"second");
}

#[test]
fn a_name_in_an_old_format_describes_nothing() {
    let mut data = Vec::new();
    let mut header = file_header(Header::new_old(), b"name", 3);
    set_kind(&mut header, b'L');
    set_cksum(&mut header);
    append(&mut data, &header, b"foo");
    let mut archive = Archive::new(source(&data));
    let mut entries = archive.entries().unwrap();
    let entry = next(&mut archive, &mut entries).unwrap().unwrap();
    assert_eq!(entry.path_bytes(), b"name");
    assert_eq!(entry.target(), Target::Nothing);
    assert!(next(&mut archive, &mut entries).is_none());
}

#[test]
fn stated_size_counts_unless_it_is_zero() {
    let mut data = Vec::new();
    append_extensions(&mut data, b"12 size=700\n");
    append(&mut data, &file_header(new_ustar(), b"a", 5), b"hello");
    let mut archive = Archive::new(source(&data));
    let entries = archive.entries().unwrap();
    assert_eq!(listing(archive, entries), (vec![(b"a".to_vec(), b"hello".to_vec())], None));
}

#[test]
fn archive_must_be_at_its_start() {
    let mut archive = Archive::new(source(&mixed()));
    let mut entries = archive.entries().unwrap();
    next(&mut archive, &mut entries).unwrap().unwrap();
    let message = "cannot call entries unless archive is at position 0";
    assert_eq!(archive.entries().err().unwrap().to_string(), message);
    assert_eq!(archive.entries_with_seek().err().unwrap().to_string(), message);
    assert_eq!(archive.unpack().err().unwrap().to_string(), message);
    assert_eq!(archive.into_inner().data, mixed());
}

#[test]
fn options_are_handed_on() {
    let mut archive = Archive::new(source(&mixed()));
    let mut entries = archive.entries().unwrap();
    let defaults = Options {
        mask: 0,
        unpack_xattrs: false,
        preserve_permissions: false,
        preserve_ownerships: false,
        preserve_mtime: true,
        overwrite: true,
    };
    assert_eq!(next(&mut archive, &mut entries).unwrap().unwrap().options, defaults);
    let mut built = ArchiveBuilder::new(source(&mixed())).set_unpack_xattrs(true).build();
    let mut all = built.entries().unwrap();
    let xattrs = Options { unpack_xattrs: true, ..defaults };
    assert_eq!(next(&mut built, &mut all).unwrap().unwrap().options, xattrs);
    archive.set_mask(0o22);
    archive.set_unpack_xattrs(true);
    archive.set_preserve_permissions(true);
    archive.set_preserve_ownerships(true);
    archive.set_preserve_mtime(false);
    archive.set_overwrite(false);
    let changed = Options {
        mask: 0o22,
        unpack_xattrs: true,
        preserve_permissions: true,
        preserve_ownerships: true,
        preserve_mtime: false,
        overwrite: false,
    };
    assert_eq!(next(&mut archive, &mut entries).unwrap().unwrap().options, changed);
}

#[test]
fn mask_clears_permission_bits() {
    let mut archive = Archive::new(source(&mixed()));
    archive.set_mask(0o022);
    let mut entries = archive.entries().unwrap();
    let entry = next(&mut archive, &mut entries).unwrap().unwrap();
    assert_eq!(entry.unpack_mode(0o4777), 0o755);
    archive.set_preserve_permissions(true);
    let entry = next(&mut archive, &mut entries).unwrap().unwrap();
    assert_eq!(entry.unpack_mode(0o4777), 0o4755);
}

#[test]
fn the_end_is_final() {
    let mut archive = Archive::new(source(&mixed()));
    let mut entries = archive.entries().unwrap();
    assert!(matches!(entries.poll_next(&mut archive, Event::Poll), Step::Read(512)));
    assert!(matches!(entries.poll_next(&mut archive, Event::Failed), Step::Failed));
    assert!(matches!(entries.poll_next(&mut archive, Event::Poll), Step::End));
    assert!(matches!(entries.poll_next(&mut archive, Event::Poll), Step::End));
}

/// Tells the iteration the next bytes it asks for until it asks `times` times.
fn told_bytes(archive: &mut Archive<Source>, entries: &mut Entries, times: usize) -> usize {
    let mut step = entries.poll_next(archive, Event::Poll);
    for _ in 1..times {
        step = match step {
            Step::Read(n) => {
                let bytes = archive.inner.obj.take(n);
                entries.poll_next(archive, Event::Bytes(bytes))
            }
            _ => panic!("bytes are asked for"),
        };
    }
    match step {
        Step::Read(n) => n,
        _ => panic!("bytes are asked for"),
    }
}

#[test]
fn asking_again_forgets_a_description() {
    // The archive ends behind a long name.
    let mut data = Vec::new();
    append_name(&mut data, b'L', &[b'n'; 512]);
    let message = "members found describing a future member but no future member found";

    // The header behind the name is waited for, and the archive ends.
    let mut archive = Archive::new(source(&data));
    let mut entries = archive.entries().unwrap();
    assert_eq!(told_bytes(&mut archive, &mut entries, 3), 512);
    match entries.poll_next(&mut archive, Event::Bytes(vec![])) {
        Step::Error(e) => assert_eq!(e.to_string(), message),
        _ => panic!("no member follows"),
    }

    // The entry is asked for again before that.
    let mut archive = Archive::new(source(&data));
    let mut entries = archive.entries().unwrap();
    assert_eq!(told_bytes(&mut archive, &mut entries, 3), 512);
    assert!(next(&mut archive, &mut entries).is_none());

    // The entry is asked for again while the name is taken in.
    let mut archive = Archive::new(source(&data));
    let mut entries = archive.entries().unwrap();
    assert_eq!(told_bytes(&mut archive, &mut entries, 2), 512);
    assert!(next(&mut archive, &mut entries).is_none());

    // The name itself is not forgotten.
    append(&mut data, &file_header(new_gnu(), b"short", 0), b"");
    let mut archive = Archive::new(source(&data));
    let mut entries = archive.entries().unwrap();
    assert_eq!(told_bytes(&mut archive, &mut entries, 3), 512);
    let entry = next(&mut archive, &mut entries).unwrap().unwrap();
    assert_eq!(entry.path_bytes(), [b'n'; 512]);
}

#[test]
fn raw_holds_for_a_header_that_is_waited_for() {
    let mut data = Vec::new();
    append_name(&mut data, b'L', &[b'n'; 512]);
    let mut archive = Archive::new(source(&data));
    let mut entries = archive.entries().unwrap();
    assert_eq!(told_bytes(&mut archive, &mut entries, 3), 512);
    let mut entries = entries.raw(true);
    assert!(matches!(entries.poll_next(&mut archive, Event::Bytes(vec![])), Step::End));
}

#[test]
fn raw_holds_for_a_name_that_is_waited_for() {
    let mut data = Vec::new();
    append_name(&mut data, b'L', &[b'n'; 700]);
    append(&mut data, &file_header(new_gnu(), b"short", 3), b"abc");
    finish(&mut data);
    for seek in [false, true] {
        let mut archive = Archive::new(in_pieces(&data, 600));
        let mut entries = if seek {
            archive.entries_with_seek().unwrap()
        } else {
            archive.entries().unwrap()
        };
        if seek {
            assert!(matches!(entries.poll_next(&mut archive, Event::Poll), Step::Seek(0)));
            assert!(matches!(entries.poll_next(&mut archive, Event::Seeked), Step::Read(512)));
        }
        assert_eq!(told_bytes(&mut archive, &mut entries, 2), 700);
        let bytes = archive.inner.obj.take(700);
        assert_eq!(bytes.len(), 600);
        let step = entries.poll_next(&mut archive, Event::Bytes(bytes));
        assert!(matches!(step, Step::Read(100)));
        let mut entries = entries.raw(true);
        match entries.poll_next(&mut archive, Event::Poll) {
            Step::Read(n) => assert!(!seek && n == 424),
            Step::Seek(n) => assert!(seek && n == 424),
            _ => panic!("the rest of the name is passed over"),
        }
        let entry = next(&mut archive, &mut entries).unwrap().unwrap();
        assert_eq!(entry.header.path_bytes(), b"short");
        assert!(entry.long_pathname.is_none());
        assert!(next(&mut archive, &mut entries).is_none());
    }
}

#[test]
fn a_member_that_was_put_aside_is_gone_on_with() {
    let mut data = Vec::new();
    append_name(&mut data, b'L', b"abcdef");
    append(&mut data, &file_header(new_gnu(), b"raw", 6), b"uvwxyz");
    append(&mut data, &file_header(new_gnu(), b"last", 0), b"");
    finish(&mut data);
    for seek in [false, true] {
        let mut archive = Archive::new(source(&data));
        let mut entries = if seek {
            archive.entries_with_seek().unwrap()
        } else {
            archive.entries().unwrap()
        };
        if seek {
            assert!(matches!(entries.poll_next(&mut archive, Event::Poll), Step::Seek(0)));
            assert!(matches!(entries.poll_next(&mut archive, Event::Seeked), Step::Read(512)));
        }
        // Half of the name is read.
        assert_eq!(told_bytes(&mut archive, &mut entries, 2), 6);
        let bytes = archive.inner.obj.take(3);
        assert!(matches!(entries.poll_next(&mut archive, Event::Bytes(bytes)), Step::Read(3)));
        // Then the member behind it is returned as it is.
        let mut entries = entries.raw(true);
        let entry = next(&mut archive, &mut entries).unwrap().unwrap();
        assert_eq!(entry.path_bytes(), b"raw");
        // The rest of the name is read from where the archive is by then.
        let mut entries = entries.raw(false);
        assert!(matches!(entries.poll_next(&mut archive, Event::Poll), Step::Read(3)));
        let entry = next(&mut archive, &mut entries).unwrap().unwrap();
        assert_eq!(entry.header.path_bytes(), b"last");
        assert_eq!(entry.long_pathname, Some(b"abcuvw".to_vec()));
        assert!(next(&mut archive, &mut entries).is_none());
    }
}

#[test]
fn a_member_that_was_put_aside_waits_for_the_archive_to_be_moved() {
    let mut data = Vec::new();
    append_name(&mut data, b'L', b"abcdef");
    append(&mut data, &file_header(new_gnu(), b"raw", 6), b"uvwxyz");
    append(&mut data, &file_header(new_gnu(), b"last", 0), b"");
    let mut archive = Archive::new(source(&data));
    let mut entries = archive.entries_with_seek().unwrap();
    assert!(matches!(entries.poll_next(&mut archive, Event::Poll), Step::Seek(0)));
    assert!(matches!(entries.poll_next(&mut archive, Event::Seeked), Step::Read(512)));
    assert_eq!(told_bytes(&mut archive, &mut entries, 2), 6);
    let mut entries = entries.raw(true);
    assert!(matches!(entries.poll_next(&mut archive, Event::Poll), Step::Seek(512)));
    let mut entries = entries.raw(false);
    assert!(matches!(entries.poll_next(&mut archive, Event::Poll), Step::Seek(512)));
    archive.inner.obj.seek(512);
    assert!(matches!(entries.poll_next(&mut archive, Event::Seeked), Step::Read(6)));
    assert_eq!(archive.inner.pos, 1024);
}

#[test]
fn raw_holds_for_sparse_headers_that_are_waited_for() {
    let mut data = Vec::new();
    append_name(&mut data, b'L', b"name");
    let mut header = sparse_header(&[(0, 512)], 1024, 5512);
    header.bytes[482] = 1;
    set_cksum(&mut header);
    data.extend(header.as_bytes());
    let mut block = [0; 512];
    block[24..48].copy_from_slice(&stretch(5000, 512));
    data.extend(block);
    data.extend([6; 1024]);
    append(&mut data, &file_header(new_gnu(), b"last", 0), b"");
    finish(&mut data);

    let mut archive = Archive::new(source(&data));
    let mut entries = archive.entries().unwrap();
    // The name's header, the name, what fills its block, and the file's header.
    assert_eq!(told_bytes(&mut archive, &mut entries, 5), 512);
    let mut entries = entries.raw(true);
    // Raw entries know of no sparse headers, so contents are taken for a header.
    match next(&mut archive, &mut entries).unwrap() {
        Err(e) => assert_eq!(e, "numeric field was not a number"),
        Ok(_) => panic!("there is no header"),
    }
}

#[test]
fn raw_entries_are_not_expanded() {
    let mut data = Vec::new();
    append(&mut data, &sparse_header(&[(10, 512)], 512, 522), &[9; 512]);
    let mut archive = Archive::new(source(&data));
    let mut entries = archive.entries_raw().unwrap();
    let entry = next(&mut archive, &mut entries).unwrap().unwrap();
    assert_eq!(entry.size, 512);
    assert_eq!(entry.data, vec![EntryIo::Data(512)]);
    assert!(next(&mut archive, &mut entries).is_none());
}

#[test]
fn zeros_end_the_listing() {
    let mut data = mixed();
    data.extend(mixed());
    let mut archive = Archive::new(source(&data));
    let entries = archive.entries().unwrap();
    assert_eq!(listing(archive, entries), (mixed_listing(), None));
}

#[test]
fn unpack_error_is_final() {
    let mut data = Vec::new();
    let mut header = file_header(new_gnu(), b"dir", 0);
    set_kind(&mut header, b'5');
    set_cksum(&mut header);
    append(&mut data, &header, b"");
    data.extend([1; 512]);
    let mut archive = Archive::new(source(&data));
    let mut unpack = archive.unpack().unwrap();
    let mut event = Event::Poll;
    loop {
        event = match unpack.poll_next(&mut archive, event) {
            UnpackStep::Read(n) => Event::Bytes(archive.inner.obj.take(n)),
            UnpackStep::Error { error, .. } => {
                assert_eq!(error.unwrap().to_string(), "numeric field was not a number");
                break;
            }
            _ => panic!("the second header is no header"),
        };
    }
    // The directory is not handed out.
    for _ in 0..3 {
        match unpack.poll_next(&mut archive, Event::Poll) {
            UnpackStep::Error { desc, error } => {
                assert_eq!(desc.to_string(), "failed to iterate over archive");
                assert!(error.is_none());
            }
            _ => panic!("the error is final"),
        }
    }
}

#[test]
fn asking_again_changes_nothing() {
    let mut archive = Archive::new(source(&mixed()));
    let mut entries = archive.entries().unwrap();
    assert!(matches!(entries.poll_next(&mut archive, Event::Poll), Step::Read(512)));
    let bytes = archive.inner.obj.take(500);
    assert!(matches!(entries.poll_next(&mut archive, Event::Bytes(bytes)), Step::Read(12)));
    assert!(matches!(entries.poll_next(&mut archive, Event::Poll), Step::Read(12)));
    let bytes = archive.inner.obj.take(12);
    assert!(matches!(entries.poll_next(&mut archive, Event::Bytes(bytes)), Step::Entry(_)));
    assert_eq!(archive.inner.pos, 512);
}

#[test]
fn blocks_are_there_or_not() {
    assert!(try_read_all(0, 512).unwrap());
    assert!(try_read_all(0, 1).unwrap());
    assert!(try_read_all(500, 512).unwrap());
    assert!(!try_read_all(0, 0).unwrap());
    assert_eq!(try_read_all(5, 5).err().unwrap().to_string(), "failed to read entire block");
}

#[test]
fn contents_that_are_passed_over_are_asked_for_in_chunks() {
    let mut archive = Archive::new(source(&[]));
    let mut entries = archive.entries().unwrap();
    assert!(matches!(entries.poll_next(&mut archive, Event::Poll), Step::Read(512)));
    let header = file_header(new_gnu(), b"a", 40_000).as_bytes().to_vec();
    assert!(matches!(entries.poll_next(&mut archive, Event::Bytes(header)), Step::Entry(_)));
    assert!(matches!(entries.poll_next(&mut archive, Event::Poll), Step::Read(32768)));
    let passed = vec![0; 32768];
    assert!(matches!(entries.poll_next(&mut archive, Event::Bytes(passed)), Step::Read(7680)));
    let passed = vec![0; 7680];
    assert!(matches!(entries.poll_next(&mut archive, Event::Bytes(passed)), Step::Read(512)));
    assert_eq!(archive.inner.pos, 512 + 40448);
}

#[test]
fn seek_position_out_of_bounds() {
    let mut data = Vec::new();
    append(&mut data, &file_header(new_gnu(), b"a", 1 << 63), b"");
    let mut archive = Archive::new(source(&data));
    let mut entries = archive.entries_with_seek().unwrap();
    next(&mut archive, &mut entries).unwrap().unwrap();
    assert_eq!(
        next(&mut archive, &mut entries).unwrap().err().unwrap(),
        "seek position out of bounds"
    );
}

#[test]
fn description_without_a_member() {
    let mut data = Vec::new();
    append_name(&mut data, b'L', b"foo\0");
    let message = "members found describing a future member but no future member found";
    assert_eq!(first_error(&data), message);
    finish(&mut data);
    assert_eq!(first_error(&data), message);
}

#[test]
fn wrong_checksum() {
    let mut header = file_header(new_gnu(), b"a", 0);
    header.bytes[0] = b'b';
    assert_eq!(first_error(header.as_bytes()), "archive header checksum mismatch");
    let mut header = file_header(new_gnu(), b"a", 0);
    header.bytes[148] = b'9';
    assert_eq!(first_error(header.as_bytes()), "numeric field was not a number");
}

#[test]
fn checksum_counts_its_own_field_as_spaces() {
    let mut header = Header::new_old();
    assert_eq!(header.checksum(), 8 * 32);
    header.bytes[0] = 3;
    header.bytes[511] = 4;
    header.bytes[150] = 200;
    assert_eq!(header.checksum(), 8 * 32 + 7);
}

#[test]
fn size_that_is_no_number() {
    let mut header = file_header(new_gnu(), b"a", 0);
    header.bytes[124] = b'x';
    set_cksum(&mut header);
    assert_eq!(first_error(header.as_bytes()), "numeric field was not a number");
}

#[test]
fn one_member_cannot_be_described_twice() {
    let mut archive = Archive::new(source(&mixed()));
    let mut entries = archive.entries().unwrap().raw(true);
    next(&mut archive, &mut entries).unwrap().unwrap();
    let mut name = next(&mut archive, &mut entries).unwrap().unwrap();
    assert_eq!(classify(&name).unwrap(), Role::LongName);
    name.long_pathname = Some(vec![]);
    let message = "two long name entries describing the same member";
    assert_eq!(classify(&name).err().unwrap().to_string(), message);
    let mut link = next(&mut archive, &mut entries).unwrap().unwrap();
    assert_eq!(classify(&link).unwrap(), Role::LongLink);
    link.long_linkname = Some(vec![]);
    assert_eq!(classify(&link).err().unwrap().to_string(), message);
    let plain = next(&mut archive, &mut entries).unwrap().unwrap();
    assert_eq!(classify(&plain).unwrap(), Role::Plain);
    let mut extensions = next(&mut archive, &mut entries).unwrap().unwrap();
    assert_eq!(classify(&extensions).unwrap(), Role::Extensions);
    extensions.pax_extensions = Some(vec![]);
    assert_eq!(
        classify(&extensions).err().unwrap().to_string(),
        "two pax extensions entries describing the same member"
    );
}

#[test]
fn sparse_file_in_another_format() {
    let mut header = file_header(new_ustar(), b"a", 0);
    set_kind(&mut header, b'S');
    set_cksum(&mut header);
    assert_eq!(first_error(header.as_bytes()), "sparse entry type listed but not GNU header");
}

#[test]
fn sparse_headers_that_are_missing() {
    let mut header = sparse_header(&[(0, 0)], 0, 0);
    header.bytes[482] = 1;
    set_cksum(&mut header);
    assert_eq!(first_error(header.as_bytes()), "failed to read extension");
}

#[test]
fn sparse_stretches_that_do_not_fit() {
    let error = |stretches: &[(u64, u64)], stored: u64, expanded: u64| {
        first_error(sparse_header(stretches, stored, expanded).as_bytes())
    };
    assert_eq!(
        error(&[(0, 5), (600, 5)], 10, 605),
        "previous block in sparse file was not aligned to 512-byte boundary"
    );
    assert_eq!(error(&[(0, 512), (500, 5)], 517, 505), "out of order or overlapping sparse blocks");
    assert_eq!(error(&[(0, 513)], 512, 513), "sparse file consumed more data than the header listed");
    assert_eq!(error(&[(0, 5)], 5, 6), "mismatch in sparse file chunks and size in header");
    assert_eq!(error(&[(0, 5)], 6, 5), "mismatch in sparse file chunks and entry size in header");
    let mut header = sparse_header(&[(0, 5)], 5, 5);
    header.bytes[386] = b'x';
    set_cksum(&mut header);
    assert_eq!(first_error(header.as_bytes()), "numeric field was not a number");
    let mut header = sparse_header(&[(0, 5)], 5, 5);
    header.bytes[483] = b'x';
    set_cksum(&mut header);
    assert_eq!(first_error(header.as_bytes()), "numeric field was not a number");
}

#[test]
fn sparse_map_grows_stretch_by_stretch() {
    let map = SparseMap::new(1024).add_block(100, 512).unwrap().add_block(612, 512).unwrap();
    assert_eq!(map.cur, 1124);
    assert_eq!(map.remaining, 0);
    assert_eq!(map.data, vec![EntryIo::Pad(100), EntryIo::Data(512), EntryIo::Data(512)]);
    assert_eq!(
        SparseMap::new(u64::MAX).add_block(u64::MAX, 1).err().unwrap().to_string(),
        "more bytes listed in sparse file than u64 can hold"
    );
}

#[test]
fn number_fields() {
    let read = |field: &[u8]| number_from(field).map_err(|e| e.to_string());
    assert_eq!(read(b"0000644\0"), Ok(0o644));
    assert_eq!(read(b"  644 \0x"), Ok(0o644));
    assert_eq!(read(&[0x80, 0, 0, 0, 0, 0, 1, 2]), Ok(258));
    assert_eq!(read(&[0x80, 0, 0, 0, 0xff, 0, 0, 0, 0, 0, 0, 1]), Ok(0xff00_0000_0000_0001));
    assert_eq!(read(b"00000008"), Err("numeric field was not a number".to_string()));
    assert_eq!(read(b"\0\0\0\0\0\0\0\0"), Err("numeric field was not a number".to_string()));
    for n in [0, 1, 0o644, 0o7_777_777, 0o10_000_000, 4294967294, (1 << 63) - 1] {
        assert_eq!(read(&number_into(n)), Ok(n));
    }
    assert_eq!(&number_into(0o644), b"0000644\0");
    assert_eq!(number_into(580800000), [0x80, 0, 0, 0, 0x22, 0x9e, 0x4e, 0x00]);
}

#[test]
fn records_of_an_extension() {
    let data = b"14 path=hello\n12 size=700\n14 path=world\n";
    assert_eq!(extension_value(data, b"path"), Some(&b"hello"[..]));
    let records = extension_records(data);
    assert_eq!(records.len(), 3);
    assert_eq!((records[2].key, records[2].value), (&b"path"[..], &b"world"[..]));
    assert_eq!(pax_extensions_value(data, b"size"), Some(700));
    assert_eq!(pax_extensions_value(data, b"path"), None);
    assert_eq!(extension_value(data, b"uid"), None);
    // A record with a wrong length ends the records.
    assert_eq!(extension_value(b"13 path=hello\n12 size=700\n", b"size"), None);
    // So does an empty line.
    assert_eq!(extension_value(b"14 path=hello\n\n12 size=700\n", b"size"), None);
}

#[test]
fn entry_types() {
    assert_eq!(EntryType::new(0), EntryType::Regular);
    assert_eq!(EntryType::new(b'0'), EntryType::Regular);
    assert_eq!(EntryType::new(b'1'), EntryType::Link);
    assert_eq!(EntryType::new(b'2'), EntryType::Symlink);
    assert_eq!(EntryType::new(b'3'), EntryType::Char);
    assert_eq!(EntryType::new(b'4'), EntryType::Block);
    assert_eq!(EntryType::new(b'5'), EntryType::Directory);
    assert_eq!(EntryType::new(b'6'), EntryType::Fifo);
    assert_eq!(EntryType::new(b'7'), EntryType::Continuous);
    assert_eq!(EntryType::new(b'L'), EntryType::GNULongName);
    assert_eq!(EntryType::new(b'K'), EntryType::GNULongLink);
    assert_eq!(EntryType::new(b'S'), EntryType::GNUSparse);
    assert_eq!(EntryType::new(b'g'), EntryType::XGlobalHeader);
    assert_eq!(EntryType::new(b'x'), EntryType::XHeader);
    assert_eq!(EntryType::new(b'Z'), EntryType::Unknown(b'Z'));
}

#[test]
fn owner_read_back() {
    let mut header = file_header(new_gnu(), b"a", 5);
    header.set_uid(77);
    header.set_gid(1 << 40);
    assert_eq!(header.uid().unwrap(), 77);
    assert_eq!(header.gid().unwrap(), 1 << 40);
    assert_eq!(header.entry_size().unwrap(), 5);
    assert_eq!(header.path_bytes(), b"a");
}

#[test]
fn places_below_the_destination() {
    let place = |path: &[u8]| {
        unpack_place(path).map(|parts| {
            let parts: Vec<String> =
                parts.into_iter().map(|part| String::from_utf8(part).unwrap()).collect();
            parts.join("|")
        })
    };
    assert_eq!(place(b"a/b"), Some("a|b".to_string()));
    assert_eq!(place(b"/./a//b/."), Some("a|b".to_string()));
    assert_eq!(place(b"a/..b/...")  , Some("a|..b|...".to_string()));
    assert_eq!(place(b"a/../b"), None);
    assert_eq!(place(b"a/.."), None);
    assert_eq!(place(b"./"), None);
    assert_eq!(place(b""), None);
}

#[test]
fn pieces_make_up_contents() {
    let mut archive = Archive::new(source(&mixed()));
    let mut entries = archive.entries().unwrap();
    for _ in 0..3 {
        next(&mut archive, &mut entries).unwrap().unwrap();
    }
    let mut entry = next(&mut archive, &mut entries).unwrap().unwrap();
    assert_eq!(entry.next_piece(4), Piece::Zeros(4));
    assert_eq!(entry.next_piece(0), Piece::Zeros(0));
    assert_eq!(entry.next_piece(100), Piece::Zeros(6));
    assert_eq!(entry.next_piece(100), Piece::Read(100));
    entry.note_read(50);
    assert_eq!(entry.next_piece(1000), Piece::Read(462));
    // The archive ends here: nothing more comes of the stretch.
    entry.note_read(0);
    assert_eq!(entry.next_piece(1000), Piece::Zeros(478));
    assert_eq!(entry.next_piece(1000), Piece::Read(3));
    entry.note_read(3);
    assert_eq!(entry.next_piece(1000), Piece::End);
}

#[test]
fn unpacking_tells_what_was_being_done() {
    let mut data = Vec::new();
    append(&mut data, &file_header(new_gnu(), b"a", 0), b"");
    data.extend([1; 512]);
    let mut archive = Archive::new(source(&data));
    let mut unpack = archive.unpack().unwrap();
    assert!(matches!(unpack.poll_next(&mut archive, Event::Poll), UnpackStep::Read(512)));
    let bytes = archive.inner.obj.take(512);
    assert!(matches!(unpack.poll_next(&mut archive, Event::Bytes(bytes)), UnpackStep::Entry(_)));
    assert!(matches!(unpack.poll_next(&mut archive, Event::Poll), UnpackStep::Read(512)));
    let bytes = archive.inner.obj.take(512);
    match unpack.poll_next(&mut archive, Event::Bytes(bytes)) {
        UnpackStep::Error { desc, error } => {
            assert_eq!(desc.to_string(), "failed to iterate over archive");
            assert_eq!(error.unwrap().to_string(), "numeric field was not a number");
        }
        _ => panic!("the second header is no header"),
    }

    let mut archive = Archive::new(source(&data));
    let mut unpack = archive.unpack().unwrap();
    unpack.poll_next(&mut archive, Event::Poll);
    match unpack.poll_next(&mut archive, Event::Failed) {
        UnpackStep::Error { desc, error } => {
            assert_eq!(desc.to_string(), "failed to iterate over archive");
            assert!(error.is_none());
        }
        _ => panic!("reading failed"),
    }
}

#[test]
fn positions_that_grow_too_large() {
    // The next header would stand at the very end of what can be counted.
    let mut archive = Archive::new(source(&[]));
    let mut entries = archive.entries_with_seek().unwrap();
    entries.fields.next = u64::MAX - 511;
    archive.inner.pos = u64::MAX - 511;
    assert!(matches!(entries.poll_next(&mut archive, Event::Poll), Step::Seek(0)));
    assert!(matches!(entries.poll_next(&mut archive, Event::Seeked), Step::Read(512)));
    let header = file_header(new_gnu(), b"a", 0).as_bytes().to_vec();
    match entries.poll_next(&mut archive, Event::Bytes(header)) {
        Step::Error(e) => assert_eq!(e.to_string(), "size overflow"),
        _ => panic!("there is no room for a header"),
    }
}

#[test]
fn errors_carry_their_message() {
    assert_eq!(other("message").to_string(), "message");
    assert_eq!(other("message").message, "message");
}
