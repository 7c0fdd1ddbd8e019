use async_tar_rs::pax::{extension_records, extension_value};
use async_tar_rs::{
    unpack_place, Archive, ArchiveBuilder, Entries, EntryFields, EntryType, Event, Header, Piece, Step, Target, UnpackStep,
};

/// Bytes that are read in pieces of at most `chunk` bytes.
struct Source {
    data: Vec<u8>,
    at: u64,
    chunk: usize,
    read: u64,
}

fn source(data: &[u8]) -> Source {
    Source { data: data.to_vec(), at: 0, chunk: usize::MAX, read: 0 }
}

fn in_pieces(data: &[u8], chunk: usize) -> Source {
    Source { data: data.to_vec(), at: 0, chunk, read: 0 }
}

impl Source {
    fn take(&mut self, n: usize) -> Vec<u8> {
        let len = self.data.len() as u64;
        let from = self.at.min(len) as usize;
        let to = from + n.min(self.chunk).min(self.data.len() - from);
        self.at += (to - from) as u64;
        self.read += (to - from) as u64;
        self.data[from..to].to_vec()
    }

    fn seek(&mut self, n: i64) {
        self.at += n as u64;
    }
}

/// The next entry of an archive, if there is one.
fn next(archive: &mut Archive<Source>, entries: &mut Entries) -> Option<Result<EntryFields, String>> {
    let mut event = Event::Poll;
    loop {
        event = match entries.poll_next(archive, event) {
            Step::Read(n) => Event::Bytes(archive.inner.obj.take(n)),
            Step::Seek(n) => {
                archive.inner.obj.seek(n);
                Event::Seeked
            }
            Step::Entry(entry) => return Some(Ok(entry)),
            Step::End => return None,
            Step::Error(e) => return Some(Err(e.to_string())),
            Step::Failed => panic!("nothing failed"),
        };
    }
}

/// The contents of an entry that was just found.
fn contents(archive: &mut Archive<Source>, entry: &mut EntryFields) -> Vec<u8> {
    let mut all = Vec::new();
    loop {
        match entry.next_piece(1000) {
            Piece::Zeros(n) => all.extend(vec![0; n]),
            Piece::Read(n) => {
                let bytes = archive.inner.obj.take(n);
                archive.inner.note_read(bytes.len() as u64);
                entry.note_read(bytes.len());
                all.extend(bytes);
            }
            Piece::End => return all,
        }
    }
}

fn text(archive: &mut Archive<Source>, entry: &mut EntryFields) -> String {
    String::from_utf8(contents(archive, entry)).unwrap()
}

/// The paths in the order in which they are handed out for unpacking, with what
/// becomes of them; or why the archive cannot be unpacked.
fn unpacked(data: &[u8]) -> Result<Vec<(String, Target)>, String> {
    let all = unpacked_contents(data)?;
    Ok(all.into_iter().map(|(path, target, _)| (path, target)).collect())
}

/// What [`unpacked`] gives, each with the contents that a file gets.
fn unpacked_contents(data: &[u8]) -> Result<Vec<(String, Target, Vec<u8>)>, String> {
    let mut archive = Archive::new(source(data));
    let mut unpack = archive.unpack().unwrap();
    let mut done = Vec::new();
    let mut event = Event::Poll;
    loop {
        event = match unpack.poll_next(&mut archive, event) {
            UnpackStep::Read(n) => Event::Bytes(archive.inner.obj.take(n)),
            UnpackStep::Seek(n) => {
                archive.inner.obj.seek(n);
                Event::Seeked
            }
            UnpackStep::Entry(mut entry) => {
                if let Some(place) = unpack_place(&entry.path_bytes()) {
                    let mut written = Vec::new();
                    if entry.target() == Target::File {
                        written = contents(&mut archive, &mut entry);
                        if written.len() as u64 != entry.size {
                            return Err("failed to write whole file".to_string());
                        }
                    }
                    let parts: Vec<String> =
                        place.into_iter().map(|part| String::from_utf8(part).unwrap()).collect();
                    done.push((parts.join("/"), entry.target(), written));
                }
                Event::Poll
            }
            UnpackStep::Done => return Ok(done),
            UnpackStep::Error { desc, error } => {
                let cause = error.map(|e| e.to_string());
                return Err(format!("{}: {}", desc.to_string(), cause.unwrap_or_default()));
            }
        };
    }
}

fn set(header: &mut Header, from: usize, bytes: &[u8]) {
    header.bytes[from..from + bytes.len()].copy_from_slice(bytes);
}

fn new_gnu() -> Header {
    let mut header = Header::new_old();
    set(&mut header, 257, b"ustar  \0");
    header
}

fn new_ustar() -> Header {
    let mut header = Header::new_old();
    set(&mut header, 257, b"ustar\x0000");
    header
}

fn set_size(header: &mut Header, size: u64) {
    if size < 0o100_000_000_000 {
        set(header, 124, format!("{:011o}\0", size).as_bytes());
    } else {
        let mut field = [0; 12];
        field[0] = 0x80;
        field[4..].copy_from_slice(&size.to_be_bytes());
        set(header, 124, &field);
    }
}

fn set_kind(header: &mut Header, kind: u8) {
    header.bytes[156] = kind;
}

fn set_cksum(header: &mut Header) {
    let sum = header.checksum();
    set(header, 148, format!("{:06o}\0 ", sum).as_bytes());
}

/// The header of a file with a name and a size.
fn file_header(mut header: Header, name: &[u8], size: u64) -> Header {
    set(&mut header, 0, name);
    set_size(&mut header, size);
    set_kind(&mut header, b'0');
    set_cksum(&mut header);
    header
}

fn append(archive: &mut Vec<u8>, header: &Header, contents: &[u8]) {
    archive.extend(header.as_bytes());
    archive.extend(contents);
    archive.resize((archive.len() + 511) / 512 * 512, 0);
}

fn finish(archive: &mut Vec<u8>) {
    archive.extend([0; 1024]);
}

/// A member that holds a name for the member that follows.
fn append_name(archive: &mut Vec<u8>, kind: u8, name: &[u8]) {
    let mut h = new_gnu();
    set(&mut h, 0, b"././@LongLink");
    set_size(&mut h, name.len() as u64);
    set_kind(&mut h, kind);
    set_cksum(&mut h);
    append(archive, &h, name);
}

/// A member that holds extensions for the member that follows.
fn append_extensions(archive: &mut Vec<u8>, records: &[u8]) {
    let mut h = new_ustar();
    set(&mut h, 0, b"PaxHeaders/x");
    set_size(&mut h, records.len() as u64);
    set_kind(&mut h, b'x');
    set_cksum(&mut h);
    append(archive, &h, records);
}

fn simple() -> Vec<u8> {
    let mut data = Vec::new();
    append(&mut data, &file_header(new_ustar(), b"a", 0), b"");
    append(&mut data, &file_header(new_ustar(), b"b", 3), b"abc");
    append(&mut data, &file_header(new_ustar(), b"c", 513), &[1; 513]);
    data
}

fn reading_files_tar() -> Vec<u8> {
    let mut data = Vec::new();
    append(&mut data, &file_header(new_ustar(), b"a", 22), b"a\na\na\na\na\na\na\na\na\na\na\n");
    append(&mut data, &file_header(new_ustar(), b"b", 22), b"b\nb\nb\nb\nb\nb\nb\nb\nb\nb\nb\n");
    finish(&mut data);
    data
}

fn decode_names(mut archive: Archive<Source>) -> Vec<String> {
    let mut names = Vec::new();
    let mut entries = archive.entries().unwrap();
    while let Some(Ok(entry)) = next(&mut archive, &mut entries) {
        names.push(String::from_utf8(entry.path_bytes()).unwrap());
    }
    names
}

#[test]
fn simple_concat() {
    let mut bytes = simple();
    finish(&mut bytes);
    let mut archive_bytes = bytes.clone();

    let expected = decode_names(Archive::new(source(&archive_bytes)));
    assert_eq!(expected, vec!["a", "b", "c"]);

    // concat two archives (with null in-between);
    archive_bytes.extend(&bytes);

    // test now that when we read the archive, it stops processing at the first zero header.
    let actual = decode_names(Archive::new(source(&archive_bytes)));
    assert_eq!(expected, actual);

    // extend expected by itself.
    let mut twice = expected.clone();
    twice.extend(expected);

    let builder = ArchiveBuilder::new(source(&archive_bytes)).set_ignore_zeros(true);
    let ar = builder.build();
    assert_eq!(twice, decode_names(ar));
}

fn check_header_impls(data: &[u8]) {
    let mut ar = Archive::new(source(data));
    let hn = Header::new_old();
    let mut entries = ar.entries().unwrap();
    let mut count = 0;
    while let Some(Ok(file)) = next(&mut ar, &mut entries) {
        let h1 = file.header;
        let h2 = h1.clone();
        assert!(h1.as_bytes()[..] == h2.as_bytes()[..]);
        assert!(h2.as_bytes()[..] != hn.as_bytes()[..]);
        count += 1;
    }
    assert_eq!(count, 3);
}

#[test]
fn header_impls() {
    let mut data = simple();
    finish(&mut data);
    check_header_impls(&data);
}

#[test]
fn header_impls_missing_last_header() {
    check_header_impls(&simple());
}

#[test]
fn reading_files() {
    let mut ar = Archive::new(source(&reading_files_tar()));
    let mut entries = ar.entries().unwrap();

    let mut a = next(&mut ar, &mut entries).unwrap().unwrap();
    assert_eq!(a.header.path_bytes(), b"a");
    assert_eq!(text(&mut ar, &mut a), "a\na\na\na\na\na\na\na\na\na\na\n");

    let mut b = next(&mut ar, &mut entries).unwrap().unwrap();
    assert_eq!(b.header.path_bytes(), b"b");
    assert_eq!(text(&mut ar, &mut b), "b\nb\nb\nb\nb\nb\nb\nb\nb\nb\nb\n");

    assert!(next(&mut ar, &mut entries).is_none());
}

fn reading_entries_common(mut ar: Archive<Source>, mut entries: Entries) {
    let mut a = next(&mut ar, &mut entries).unwrap().unwrap();
    assert_eq!(a.header.path_bytes(), b"a");
    assert_eq!(text(&mut ar, &mut a), "a\na\na\na\na\na\na\na\na\na\na\n");
    assert_eq!(text(&mut ar, &mut a), "");

    let mut b = next(&mut ar, &mut entries).unwrap().unwrap();
    assert_eq!(b.header.path_bytes(), b"b");
    assert_eq!(text(&mut ar, &mut b), "b\nb\nb\nb\nb\nb\nb\nb\nb\nb\nb\n");
    assert!(next(&mut ar, &mut entries).is_none());
}

#[test]
fn reading_entries() {
    let mut ar = Archive::new(source(&reading_files_tar()));
    let entries = ar.entries().unwrap();
    reading_entries_common(ar, entries);
}

#[test]
fn reading_entries_with_seek() {
    let mut ar = Archive::new(source(&reading_files_tar()));
    let entries = ar.entries_with_seek().unwrap();
    reading_entries_common(ar, entries);
}

#[test]
fn skipping_entries_with_seek() {
    let data = reading_files_tar();
    let mut ar = Archive::new(source(&data));
    let mut entries = ar.entries().unwrap();
    let mut files = Vec::new();
    while let Some(entry) = next(&mut ar, &mut entries) {
        files.push(entry.unwrap().path_bytes());
    }

    let mut seekable = Archive::new(source(&data));
    let mut entries = seekable.entries_with_seek().unwrap();
    let mut files_seekable = Vec::new();
    while let Some(entry) = next(&mut seekable, &mut entries) {
        files_seekable.push(entry.unwrap().path_bytes());
    }

    assert!(files == files_seekable);
    assert!(seekable.into_inner().read < ar.into_inner().read);
}

#[test]
fn large_filename() {
    let mut data = Vec::new();
    let filename = "abcd/".repeat(50);
    let mut header = new_ustar();
    // The name is split at a slash: the first part goes to the prefix.
    set(&mut header, 345, &filename.as_bytes()[..154]);
    append(&mut data, &file_header(header, &filename.as_bytes()[155..], 4), b"test");
    let too_long = "abcd".repeat(200);
    append_name(&mut data, b'L', format!("{}\0", too_long).as_bytes());
    append(&mut data, &file_header(new_gnu(), &too_long.as_bytes()[..100], 4), b"test");
    append_name(&mut data, b'L', format!("{}\0", too_long).as_bytes());
    append(&mut data, &file_header(new_ustar(), &too_long.as_bytes()[..100], 4), b"test");
    finish(&mut data);

    let mut ar = Archive::new(source(&data));
    let mut entries = ar.entries().unwrap();

    // The short entry
    let mut f = next(&mut ar, &mut entries).unwrap().unwrap();
    assert_eq!(f.header.path_bytes(), filename.as_bytes());
    assert_eq!(f.header.entry_size().unwrap(), 4);
    assert_eq!(text(&mut ar, &mut f), "test");

    // The long entry with a GNU header
    let mut f = next(&mut ar, &mut entries).unwrap().unwrap();
    assert_eq!(f.path_bytes(), too_long.as_bytes());
    assert_eq!(f.header.entry_size().unwrap(), 4);
    assert_eq!(text(&mut ar, &mut f), "test");

    // The long entry with a UStar header
    let mut f = next(&mut ar, &mut entries).unwrap().unwrap();
    assert!(f.header.path_bytes().len() < too_long.len());
    assert_eq!(f.path_bytes(), too_long.as_bytes());
    assert_eq!(f.header.entry_size().unwrap(), 4);
    assert_eq!(text(&mut ar, &mut f), "test");

    assert!(next(&mut ar, &mut entries).is_none());
}

fn directory_header(name: &[u8], mode: &[u8]) -> Header {
    let mut header = new_gnu();
    set(&mut header, 100, mode);
    set(&mut header, 0, name);
    set_size(&mut header, 0);
    set_kind(&mut header, b'5');
    set_cksum(&mut header);
    header
}

#[test]
fn extracting_directories() {
    let mut data = Vec::new();
    append(&mut data, &directory_header(b"a/", b"0000755\0"), b"");
    append(&mut data, &directory_header(b"a/b/", b"0000755\0"), b"");
    append(&mut data, &file_header(new_gnu(), b"a/c", 1), b"c");
    finish(&mut data);
    assert_eq!(
        unpacked(&data).unwrap(),
        vec![
            ("a/c".to_string(), Target::File),
            ("a".to_string(), Target::Directory),
            ("a/b".to_string(), Target::Directory),
        ]
    );
}

#[test]
fn writing_and_extracting_directories_complex_permissions() {
    // Archive with complex permissions which would fail to unpack if one attempted to do so
    // without reordering of entries.
    let mut data = Vec::new();
    append(&mut data, &directory_header(b"a", b"0000555\0"), b"");
    append(&mut data, &directory_header(b"a/b", b"0000777\0"), b"");
    append(&mut data, &file_header(new_gnu(), b"a/c", 1), b"c");
    finish(&mut data);
    assert_eq!(
        unpacked(&data).unwrap(),
        vec![
            ("a/c".to_string(), Target::File),
            ("a".to_string(), Target::Directory),
            ("a/b".to_string(), Target::Directory),
        ]
    );
}

#[test]
fn read_only_directory_containing_files() {
    let mut data = Vec::new();
    append(&mut data, &directory_header(b"dir/", b"0000444\0"), b"");
    append(&mut data, &file_header(new_gnu(), b"dir/file", 2), b"hi");
    finish(&mut data);
    assert_eq!(
        unpacked(&data).unwrap(),
        vec![("dir/file".to_string(), Target::File), ("dir".to_string(), Target::Directory)]
    );
}

#[test]
fn extracting_duplicate_dirs() {
    let mut data = Vec::new();
    append(&mut data, &directory_header(b"some_dir/", b"0000755\0"), b"");
    append(&mut data, &directory_header(b"some_dir/", b"0000755\0"), b"");
    finish(&mut data);
    assert_eq!(
        unpacked(&data).unwrap(),
        vec![
            ("some_dir".to_string(), Target::Directory),
            ("some_dir".to_string(), Target::Directory),
        ]
    );
}

#[test]
fn unpack_old_style_bsd_dir() {
    let mut data = Vec::new();
    append(&mut data, &file_header(Header::new_old(), b"testdir/", 0), b"");
    finish(&mut data);

    // Extracting
    assert_eq!(unpacked(&data).unwrap(), vec![("testdir".to_string(), Target::Directory)]);

    // Iterating
    let mut ar = Archive::new(source(&data));
    let mut entries = ar.entries().unwrap();
    assert!(next(&mut ar, &mut entries).unwrap().is_ok());
    assert!(next(&mut ar, &mut entries).is_none());
}

#[test]
fn handling_incorrect_file_size() {
    let mut data = Vec::new();
    // past the end of file null blocks
    append(&mut data, &file_header(Header::new_old(), b"somepath", 2048), b"");
    finish(&mut data);

    // Extracting
    assert!(unpacked(&data).is_err());

    // Iterating
    let mut ar = Archive::new(source(&data));
    let mut entries = ar.entries().unwrap();
    assert!(next(&mut ar, &mut entries).unwrap().is_ok());
    assert_eq!(next(&mut ar, &mut entries).unwrap().err().unwrap(), "unexpected EOF during skip");
    assert!(next(&mut ar, &mut entries).is_none());
}

#[test]
fn extracting_malicious_tarball() {
    let paths = [
        "/tmp/abs_evil.txt",
        "//tmp/abs_evil2.txt",
        "///tmp/abs_evil3.txt",
        "/./tmp/abs_evil4.txt",
        "//./tmp/abs_evil5.txt",
        "///./tmp/abs_evil6.txt",
        "/../tmp/rel_evil.txt",
        "../rel_evil2.txt",
        "./../rel_evil3.txt",
        "some/../../rel_evil4.txt",
        "",
        "././//./..",
        "..",
        "/////////..",
        "/////////",
    ];
    let mut evil_tar = Vec::new();
    for path in paths {
        append(&mut evil_tar, &file_header(new_gnu(), path.as_bytes(), 1), &[1]);
    }
    finish(&mut evil_tar);

    // Nothing but files below `tmp` in the destination is unpacked: not the
    // files with a '..' in their path, nor those without a name.
    assert_eq!(
        unpacked(&evil_tar).unwrap(),
        vec![
            ("tmp/abs_evil.txt".to_string(), Target::File),
            ("tmp/abs_evil2.txt".to_string(), Target::File),
            ("tmp/abs_evil3.txt".to_string(), Target::File),
            ("tmp/abs_evil4.txt".to_string(), Target::File),
            ("tmp/abs_evil5.txt".to_string(), Target::File),
            ("tmp/abs_evil6.txt".to_string(), Target::File),
        ]
    );
}

#[test]
fn octal_spaces() {
    let mut header = Header::new_old();
    set(&mut header, 0, b"a");
    set(&mut header, 100, b"100777 \0");
    set(&mut header, 108, b"     0 \0");
    set(&mut header, 116, b"     0 \0");
    set(&mut header, 124, b"          2 ");
    set(&mut header, 136, b"12440016664 ");
    set(&mut header, 148, b"        ");
    let rest = 0o4253 - header.checksum();
    // Further bytes bring the checksum to what the header states.
    for i in 0..rest / 100 {
        header.bytes[300 + i as usize] = 100;
    }
    header.bytes[299] = (rest % 100) as u8;
    set(&mut header, 148, b"  4253\0 ");
    let mut data = Vec::new();
    append(&mut data, &header, b"a\n");

    let mut ar = Archive::new(source(&data));
    let mut entries = ar.entries().unwrap();
    let entry = next(&mut ar, &mut entries).unwrap().unwrap();
    assert_eq!(entry.header.mode().unwrap() & 0o777, 0o777);
    assert_eq!(entry.header.uid().unwrap(), 0);
    assert_eq!(entry.header.gid().unwrap(), 0);
    assert_eq!(entry.header.entry_size().unwrap(), 2);
    assert_eq!(entry.header.mtime().unwrap(), 0o12_440_016_664);
    assert_eq!(entry.header.cksum().unwrap(), 0o4253);
}

#[test]
fn extracting_malformed_tar_null_blocks() {
    let mut data = Vec::new();
    append(&mut data, &file_header(new_gnu(), b"tmpfile1", 0), b"");
    finish(&mut data);
    let amt = data.len();
    data.truncate(amt - 512);
    append(&mut data, &file_header(new_gnu(), b"tmpfile2", 0), b"");
    finish(&mut data);
    assert!(unpacked(&data).is_ok());
}

#[test]
fn empty_filename() {
    let mut data = Vec::new();
    append(&mut data, &file_header(new_gnu(), b"", 0), b"");
    finish(&mut data);
    assert!(unpacked(&data).is_ok());
}

#[test]
fn file_times() {
    let mut header = new_ustar();
    set(&mut header, 136, format!("{:011o}\0", 1_000_000_000).as_bytes());
    let mut data = Vec::new();
    append(&mut data, &file_header(header, b"a", 0), b"");
    finish(&mut data);
    let mut ar = Archive::new(source(&data));
    let mut entries = ar.entries().unwrap();
    let a = next(&mut ar, &mut entries).unwrap().unwrap();
    assert!(a.options.preserve_mtime);
    assert_eq!(a.header.mtime().unwrap(), 1_000_000_000);

    // The file is handed out for unpacking.
    assert_eq!(unpacked(&data).unwrap(), vec![("a".to_string(), Target::File)]);
}

#[test]
fn backslash_treated_well() {
    // A directory with a backslash
    let mut data = Vec::new();
    append(&mut data, &directory_header(b"foo\\bar", b"0000755\0"), b"");
    finish(&mut data);
    let mut ar = Archive::new(source(&data));
    let mut entries = ar.entries().unwrap();
    let f = next(&mut ar, &mut entries).unwrap().unwrap();
    assert_eq!(f.header.path_bytes(), b"foo\\bar");

    // Unpack an archive with a backslash in the name
    let mut data = Vec::new();
    append(&mut data, &file_header(new_gnu(), b"foo\\bar\x00", 0), b"");
    finish(&mut data);
    let mut ar = Archive::new(source(&data));
    let mut entries = ar.entries().unwrap();
    let f = next(&mut ar, &mut entries).unwrap().unwrap();
    assert_eq!(f.header.path_bytes(), b"foo\\bar");

    assert_eq!(unpacked(&data).unwrap(), vec![("foo\\bar".to_string(), Target::File)]);
}

fn link_header(mut header: Header, kind: u8, path: &[u8], target: &[u8]) -> Header {
    set(&mut header, 0, path);
    set(&mut header, 157, target);
    set_size(&mut header, 0);
    set_kind(&mut header, kind);
    set_cksum(&mut header);
    header
}

fn link_tar() -> Vec<u8> {
    let mut data = Vec::new();
    append(&mut data, &link_header(new_ustar(), b'2', b"lnk", b"file"), b"");
    append(&mut data, &file_header(new_ustar(), b"file", 0), b"");
    finish(&mut data);
    data
}

#[test]
fn links() {
    let mut ar = Archive::new(source(&link_tar()));
    let mut entries = ar.entries().unwrap();
    let link = next(&mut ar, &mut entries).unwrap().unwrap();
    assert_eq!(link.header.link_name_bytes().unwrap(), b"file");
    let other = next(&mut ar, &mut entries).unwrap().unwrap();
    assert!(other.header.link_name_bytes().is_none());
}

#[test]
fn unpack_links() {
    assert_eq!(
        unpacked(&link_tar()).unwrap(),
        vec![("lnk".to_string(), Target::Symlink), ("file".to_string(), Target::File)]
    );
}

#[test]
fn pax_simple() {
    let mut data = Vec::new();
    append_extensions(
        &mut data,
        b"30 mtime=1453146164.953123768\n29 atime=1453251915.24892486\n30 ctime=1453146164.953123768\n",
    );
    append(&mut data, &file_header(new_ustar(), b"foo", 0), b"");
    let mut ar = Archive::new(source(&data));
    let mut entries = ar.entries().unwrap();

    let first = next(&mut ar, &mut entries).unwrap().unwrap();
    let attributes = first.pax_extensions.unwrap();
    let records = extension_records(&attributes);
    assert_eq!(records.len(), 3);
    assert_eq!(records[0].key, b"mtime");
    assert_eq!(records[0].value, b"1453146164.953123768");
    assert_eq!(records[1].key, b"atime");
    assert_eq!(records[1].value, b"1453251915.24892486");
    assert_eq!(records[2].key, b"ctime");
    assert_eq!(records[2].value, b"1453146164.953123768");
    assert_eq!(extension_value(&attributes, b"path"), None);
}

#[test]
fn pax_simple_write() {
    let mut data = Vec::new();
    append_extensions(
        &mut data,
        b"41 arbitrary_pax_key=arbitrary_pax_value\n39 SCHILY.xattr.security.selinux=foo_t\n",
    );
    append(&mut data, &file_header(new_gnu(), b"test2", 0), b"");
    finish(&mut data);
    let mut ar = Archive::new(source(&data));
    let mut entries = ar.entries().unwrap();
    let f = next(&mut ar, &mut entries).unwrap().unwrap();
    let pax_headers = f.pax_extensions.unwrap();
    let records = extension_records(&pax_headers);
    assert_eq!(records[0].key, b"arbitrary_pax_key");
    assert_eq!(records[0].value, b"arbitrary_pax_value");
    assert_eq!(records[1].key, b"SCHILY.xattr.security.selinux");
    assert_eq!(records[1].value, b"foo_t");

    assert!(next(&mut ar, &mut entries).is_none());
}

#[test]
fn pax_path() {
    let path = format!("{}/aaaaaaaaaaaaaaa", "a".repeat(120));
    let record = format!("146 path={}\n", path);
    assert_eq!(record.len(), 146);
    let mut data = Vec::new();
    append_extensions(&mut data, record.as_bytes());
    append(&mut data, &file_header(new_ustar(), b"short", 0), b"");

    let mut ar = Archive::new(source(&data));
    let mut entries = ar.entries().unwrap();
    let first = next(&mut ar, &mut entries).unwrap().unwrap();
    assert!(first.path_bytes().ends_with(b"aaaaaaaaaaaaaaa"));
    assert_eq!(first.path_bytes(), path.as_bytes());
}

#[test]
fn long_name_trailing_nul() {
    let mut contents = Vec::new();
    append_name(&mut contents, b'L', b"foo\0");
    append(&mut contents, &file_header(new_gnu(), b"bar", 6), b"foobar");

    let mut a = Archive::new(source(&contents));
    let mut entries = a.entries().unwrap();
    let e = next(&mut a, &mut entries).unwrap().unwrap();
    assert_eq!(e.path_bytes(), b"foo");
}

#[test]
fn long_linkname_trailing_nul() {
    let mut contents = Vec::new();
    append_name(&mut contents, b'K', b"foo\0");
    append(&mut contents, &file_header(new_gnu(), b"bar", 6), b"foobar");

    let mut a = Archive::new(source(&contents));
    let mut entries = a.entries().unwrap();
    let e = next(&mut a, &mut entries).unwrap().unwrap();
    assert_eq!(e.link_name_bytes().unwrap(), b"foo");
}

#[test]
fn long_linkname_gnu() {
    for (kind, t) in [(b'2', EntryType::Symlink), (b'1', EntryType::Link)] {
        let path = "usr/lib/.build-id/05/159ed904e45ff5100f7acd3d3b99fa7e27e34f";
        let target = "../../../../usr/lib64/qt5/plugins/wayland-graphics-integration-server/libqt-wayland-compositor-xcomposite-egl.so";
        let mut contents = Vec::new();
        append_name(&mut contents, b'K', format!("{}\0", target).as_bytes());
        let header = link_header(new_gnu(), kind, path.as_bytes(), &target.as_bytes()[..100]);
        append(&mut contents, &header, b"");

        let mut a = Archive::new(source(&contents));
        let mut entries = a.entries().unwrap();
        let e = next(&mut a, &mut entries).unwrap().unwrap();
        assert_eq!(e.header.entry_type(), t);
        assert_eq!(e.path_bytes(), path.as_bytes());
        assert_eq!(e.link_name_bytes().unwrap(), target.as_bytes());
    }
}

#[test]
fn linkname_literal() {
    for (kind, t) in [(b'2', EntryType::Symlink), (b'1', EntryType::Link)] {
        let path = "usr/lib/systemd/systemd-sysv-install";
        let target = "../../..//sbin/chkconfig";
        let mut contents = Vec::new();
        let header = link_header(new_gnu(), kind, path.as_bytes(), target.as_bytes());
        append(&mut contents, &header, b"");

        let mut a = Archive::new(source(&contents));
        let mut entries = a.entries().unwrap();
        let e = next(&mut a, &mut entries).unwrap().unwrap();
        assert_eq!(e.header.entry_type(), t);
        assert_eq!(e.path_bytes(), path.as_bytes());
        assert_eq!(e.link_name_bytes().unwrap(), target.as_bytes());
    }
}

#[test]
fn append_writer() {
    let long_path = "abcd/".repeat(50);
    let long_path = long_path.trim_end_matches('/');
    let mut contents_of = Vec::new();
    let mut h = new_gnu();
    h.set_uid(42);
    append(&mut contents_of, &file_header(h, b"file1", 9), b"foobarbaz");
    append_name(&mut contents_of, b'L', format!("{}\0", long_path).as_bytes());
    let mut h = new_gnu();
    h.set_uid(43);
    append(&mut contents_of, &file_header(h, &long_path.as_bytes()[..100], 513), &[b'x'; 513]);

    let mut ar = Archive::new(source(&contents_of));
    let mut entries = ar.entries().unwrap();

    let mut e = next(&mut ar, &mut entries).unwrap().unwrap();
    assert_eq!(e.header.uid().unwrap(), 42);
    assert_eq!(e.path_bytes(), b"file1");
    assert_eq!(contents(&mut ar, &mut e), b"foobarbaz");

    let mut e = next(&mut ar, &mut entries).unwrap().unwrap();
    assert_eq!(e.header.uid().unwrap(), 43);
    assert_eq!(e.path_bytes(), long_path.as_bytes());
    let r = contents(&mut ar, &mut e);
    assert_eq!(r.len(), 513);
    assert!(r.iter().all(|b| *b == b'x'));
}

#[test]
fn encoded_long_name_has_trailing_nul() {
    let long = "abcd".repeat(200);
    let mut data = Vec::new();
    append_name(&mut data, b'L', format!("{}\0", long).as_bytes());
    append(&mut data, &file_header(new_gnu(), &long.as_bytes()[..100], 4), b"test");

    let mut a = Archive::new(source(&data));
    let mut entries = a.entries_raw().unwrap();
    let mut e = next(&mut a, &mut entries).unwrap().unwrap();
    let name = contents(&mut a, &mut e);
    assert_eq!(name[name.len() - 1], 0);
    assert!(e.header.as_bytes().starts_with(b"././@LongLink\x00"));
}

/// A sparse header.
fn stretch(off: u64, len: u64) -> Vec<u8> {
    format!("{:011o}\0{:011o}\0", off, len).into_bytes()
}

/// A sparse file with stored stretches at the given places.
fn append_sparse(archive: &mut Vec<u8>, name: &[u8], stretches: &[(u64, &[u8])]) {
    let mut header = new_gnu();
    let mut stored = Vec::new();
    for (_, bytes) in stretches {
        stored.resize((stored.len() + 511) / 512 * 512, 0);
        stored.extend(*bytes);
    }
    let listed: u64 = stretches.iter().map(|(_, bytes)| bytes.len() as u64).sum();
    assert_eq!(listed, stored.len() as u64);
    let end = stretches.iter().map(|(off, bytes)| off + bytes.len() as u64).max().unwrap_or(0);
    for (i, (off, bytes)) in stretches.iter().take(4).enumerate() {
        set(&mut header, 386 + 24 * i, &stretch(*off, bytes.len() as u64));
    }
    if stretches.len() > 4 {
        header.bytes[482] = 1;
    }
    set(&mut header, 483, format!("{:011o}\0", end).as_bytes());
    set(&mut header, 0, name);
    set_size(&mut header, stored.len() as u64);
    set_kind(&mut header, b'S');
    set_cksum(&mut header);
    archive.extend(header.as_bytes());
    let mut more = &stretches[stretches.len().min(4)..];
    while !more.is_empty() {
        let mut block = [0; 512];
        for (i, (off, bytes)) in more.iter().take(21).enumerate() {
            block[24 * i..24 * i + 24].copy_from_slice(&stretch(*off, bytes.len() as u64));
        }
        more = &more[more.len().min(21)..];
        block[504] = if more.is_empty() { 0 } else { 1 };
        archive.extend(block);
    }
    archive.extend(stored);
    archive.resize((archive.len() + 511) / 512 * 512, 0);
}

/// A block that starts with a text.
fn block(start: &str) -> Vec<u8> {
    let mut bytes = start.as_bytes().to_vec();
    bytes.resize(512, 0);
    bytes
}

fn sparse_tar() -> Vec<u8> {
    let test = block("test\n");
    let words = block("text\n");
    let hello = block("hello\n");
    let world = block("world\n");
    let mut data = Vec::new();
    append_sparse(&mut data, b"sparse_begin.txt", &[(0, &test), (4096, b"")]);
    append_sparse(&mut data, b"sparse_end.txt", &[(8096, b"test_end\n")]);
    append_sparse(
        &mut data,
        b"sparse_ext.txt",
        &[
            (0x1000, &words),
            (0x3000, &words),
            (0x5000, &words),
            (0x7000, &words),
            (0x9000, &words),
            (0xb000, &words),
        ],
    );
    append_sparse(&mut data, b"sparse.txt", &[(0x1000, &hello), (0x2fa0, &world), (0x4000, b"")]);
    finish(&mut data);
    data
}

/// Checks the contents of the files in [`sparse_tar`].
fn check_sparse(files: &[(String, String)]) {
    assert_eq!(files.len(), 4);

    let (path, s) = &files[0];
    assert_eq!(path, "sparse_begin.txt");
    assert_eq!(&s[..5], "test\n");
    assert!(s[5..].chars().all(|x| x == '\u{0}'));

    let (path, s) = &files[1];
    assert_eq!(path, "sparse_end.txt");
    assert_eq!(s.len(), 8105);
    assert!(s[..s.len() - 9].chars().all(|x| x == '\u{0}'));
    assert_eq!(&s[s.len() - 9..], "test_end\n");

    let (path, s) = &files[2];
    assert_eq!(path, "sparse_ext.txt");
    assert!(s[..0x1000].chars().all(|x| x == '\u{0}'));
    assert_eq!(&s[0x1000..0x1000 + 5], "text\n");
    assert!(s[0x1000 + 5..0x3000].chars().all(|x| x == '\u{0}'));
    assert_eq!(&s[0x3000..0x3000 + 5], "text\n");
    assert!(s[0x3000 + 5..0x5000].chars().all(|x| x == '\u{0}'));
    assert_eq!(&s[0x5000..0x5000 + 5], "text\n");
    assert!(s[0x5000 + 5..0x7000].chars().all(|x| x == '\u{0}'));
    assert_eq!(&s[0x7000..0x7000 + 5], "text\n");
    assert!(s[0x7000 + 5..0x9000].chars().all(|x| x == '\u{0}'));
    assert_eq!(&s[0x9000..0x9000 + 5], "text\n");
    assert!(s[0x9000 + 5..0xb000].chars().all(|x| x == '\u{0}'));
    assert_eq!(&s[0xb000..0xb000 + 5], "text\n");

    let (path, s) = &files[3];
    assert_eq!(path, "sparse.txt");
    assert!(s[..0x1000].chars().all(|x| x == '\u{0}'));
    assert_eq!(&s[0x1000..0x1000 + 6], "hello\n");
    assert!(s[0x1000 + 6..0x2fa0].chars().all(|x| x == '\u{0}'));
    assert_eq!(&s[0x2fa0..0x2fa0 + 6], "world\n");
    assert!(s[0x2fa0 + 6..0x4000].chars().all(|x| x == '\u{0}'));
}

#[test]
fn reading_sparse() {
    let mut ar = Archive::new(source(&sparse_tar()));
    let mut entries = ar.entries().unwrap();
    let mut files = Vec::new();
    while let Some(entry) = next(&mut ar, &mut entries) {
        let mut entry = entry.unwrap();
        let path = String::from_utf8(entry.header.path_bytes()).unwrap();
        files.push((path, text(&mut ar, &mut entry)));
    }
    check_sparse(&files);
}

#[test]
fn extract_sparse() {
    let mut files = Vec::new();
    for (path, target, written) in unpacked_contents(&sparse_tar()).unwrap() {
        assert_eq!(target, Target::File);
        files.push((path, String::from_utf8(written).unwrap()));
    }
    check_sparse(&files);
}

#[test]
fn large_sparse() {
    let mut data = Vec::new();
    let mut header = new_gnu();
    set(&mut header, 386, &[0x80, 0, 0, 0]);
    set(&mut header, 390, &12626929280u64.to_be_bytes());
    set(&mut header, 398, b"00000000000\0");
    set(&mut header, 483, &[0x80, 0, 0, 0]);
    set(&mut header, 487, &12626929280u64.to_be_bytes());
    set(&mut header, 0, b"large");
    set_size(&mut header, 0);
    set_kind(&mut header, b'S');
    set_cksum(&mut header);
    append(&mut data, &header, b"");
    let mut ar = Archive::new(source(&data));
    let mut entries = ar.entries().unwrap();
    let a = next(&mut ar, &mut entries).unwrap().unwrap();
    assert!(a.header.is_gnu());
    assert_eq!(a.header.real_size().unwrap(), 12626929280);
    assert_eq!(a.size, 12626929280);
}

#[test]
fn sparse_with_trailing() {
    let mut first = b"0MB through\n".to_vec();
    first.resize(4096, 0);
    let mut data = Vec::new();
    append_sparse(&mut data, b"sparse", &[(0, &first), (0x100_000, b"1MB through\n")]);
    let mut ar = Archive::new(source(&data));
    let mut entries = ar.entries().unwrap();
    let mut a = next(&mut ar, &mut entries).unwrap().unwrap();
    let s = text(&mut ar, &mut a);
    assert_eq!(0x100_00c, s.len());
    assert_eq!(&s[..0xc], "0MB through\n");
    assert!(s[0xc..0x100_000].chars().all(|x| x == '\u{0}'));
    assert_eq!(&s[0x100_000..], "1MB through\n");
}

#[test]
fn path_separators() {
    let short_path = "abcd/abcd";
    let long_path = "abcd/".repeat(50);
    let long_path = long_path.trim_end_matches('/');

    let mut header = new_ustar();
    set(&mut header, 0, short_path.as_bytes());
    assert_eq!(header.path_bytes(), short_path.as_bytes());

    let mut header = new_ustar();
    set(&mut header, 345, &long_path.as_bytes()[..154]);
    set(&mut header, 0, &long_path.as_bytes()[155..]);
    assert_eq!(header.path_bytes(), long_path.as_bytes());

    let mut data = Vec::new();
    append(&mut data, &file_header(new_gnu(), short_path.as_bytes(), 4), b"test");
    append_name(&mut data, b'L', format!("{}\0", long_path).as_bytes());
    append(&mut data, &file_header(new_gnu(), &long_path.as_bytes()[..100], 4), b"test");
    finish(&mut data);
    let mut ar = Archive::new(source(&data));
    let mut entries = ar.entries().unwrap();
    let entry = next(&mut ar, &mut entries).unwrap().unwrap();
    assert_eq!(entry.path_bytes(), short_path.as_bytes());
    let entry = next(&mut ar, &mut entries).unwrap().unwrap();
    assert_eq!(entry.path_bytes(), long_path.as_bytes());
    assert!(next(&mut ar, &mut entries).is_none());
}

#[test]
fn append_path_symlink() {
    let long_linkname = "abcd".repeat(30);
    let long_pathname = "dcba".repeat(30);
    let mut data = Vec::new();
    // "short" path name / short link name
    append(&mut data, &link_header(new_gnu(), b'2', b"test", b"testdest"), b"");
    // short path name / long link name
    append_name(&mut data, b'K', format!("{}\0", long_linkname).as_bytes());
    let short = &long_linkname.as_bytes()[..100];
    append(&mut data, &link_header(new_gnu(), b'2', b"test2", short), b"");
    // long path name / long link name
    append_name(&mut data, b'L', format!("{}\0", long_pathname).as_bytes());
    append_name(&mut data, b'K', format!("{}\0", long_linkname).as_bytes());
    let name = &long_pathname.as_bytes()[..100];
    append(&mut data, &link_header(new_gnu(), b'2', name, short), b"");
    finish(&mut data);

    let mut ar = Archive::new(source(&data));
    let mut entries = ar.entries().unwrap();

    let entry = next(&mut ar, &mut entries).unwrap().unwrap();
    assert_eq!(entry.path_bytes(), b"test");
    assert_eq!(entry.link_name_bytes().unwrap(), b"testdest");
    assert_eq!(entry.header.entry_size().unwrap(), 0);

    let entry = next(&mut ar, &mut entries).unwrap().unwrap();
    assert_eq!(entry.path_bytes(), b"test2");
    assert_eq!(entry.link_name_bytes().unwrap(), long_linkname.as_bytes());
    assert_eq!(entry.header.entry_size().unwrap(), 0);

    let entry = next(&mut ar, &mut entries).unwrap().unwrap();
    assert_eq!(entry.path_bytes(), long_pathname.as_bytes());
    assert_eq!(entry.link_name_bytes().unwrap(), long_linkname.as_bytes());
    assert_eq!(entry.header.entry_size().unwrap(), 0);

    assert!(next(&mut ar, &mut entries).is_none());
}

#[test]
fn long_path() {
    let dir = format!("{}/{}", "d".repeat(99), "e".repeat(40));
    let mut header = new_ustar();
    set(&mut header, 345, &dir.as_bytes()[..99]);
    set(&mut header, 0, &dir.as_bytes()[100..]);
    set_size(&mut header, 0);
    set_kind(&mut header, b'5');
    set_cksum(&mut header);
    let mut data = Vec::new();
    append(&mut data, &header, b"");
    finish(&mut data);
    assert_eq!(unpacked(&data).unwrap(), vec![(dir, Target::Directory)]);
}

#[test]
fn name_with_slash_doesnt_fool_long_link_and_bsd_compat() {
    let mut data = Vec::new();
    append_name(&mut data, b'L', b"foo\0");
    append(&mut data, &file_header(new_gnu(), b"testdir/", 0), b"");
    finish(&mut data);

    // Extracting
    assert_eq!(unpacked(&data).unwrap(), vec![("foo".to_string(), Target::File)]);

    // Iterating
    let mut ar = Archive::new(source(&data));
    let mut entries = ar.entries().unwrap();
    assert!(next(&mut ar, &mut entries).unwrap().is_ok());
    assert!(next(&mut ar, &mut entries).is_none());
}

#[test]
fn header_size_overflow() {
    // maximal file size doesn't overflow anything
    let mut data = Vec::new();
    append(&mut data, &file_header(new_gnu(), b"", u64::MAX), b"x");
    finish(&mut data);
    let mut ar = Archive::new(source(&data));
    let mut e = ar.entries().unwrap();
    let err = next(&mut ar, &mut e).unwrap().err().unwrap();
    assert!(err.contains("size overflow"), "bad error: {}", err);

    // back-to-back entries that would overflow also don't panic
    let mut data = Vec::new();
    append(&mut data, &file_header(new_gnu(), b"", 1_000), &[0u8; 1_000]);
    append(&mut data, &file_header(new_gnu(), b"", u64::MAX - 513), b"x");
    finish(&mut data);
    let mut ar = Archive::new(source(&data));
    let mut e = ar.entries().unwrap();
    next(&mut ar, &mut e).unwrap().unwrap();
    let err = next(&mut ar, &mut e).unwrap().err().unwrap();
    assert!(err.contains("size overflow"), "bad error: {}", err);
}

#[test]
fn ownership_preserving() {
    // Each with its name, kind, uid and gid.
    let members = [
        ("iamuid580800000", b'0', 580800000, 580800000),
        ("iamuid580800001", b'0', 580800001, 580800000),
        ("iamuid580800002", b'0', 580800002, 580800002),
        ("iamuid580800002dir", b'5', 580800002, 580800002),
        ("iamuid580800000symlink", b'2', 580800002, 580800002),
    ];
    let mut data = Vec::new();
    for (name, kind, uid, gid) in members {
        let mut header = new_gnu();
        header.set_uid(uid);
        header.set_gid(gid);
        let target: &[u8] = if kind == b'2' { b"iamuid580800000" } else { b"" };
        append(&mut data, &link_header(header, kind, name.as_bytes(), target), b"");
    }
    finish(&mut data);

    let mut ar =
        ArchiveBuilder::new(in_pieces(&data, 100)).set_preserve_ownerships(true).build();
    let mut entries = ar.entries().unwrap();
    for (name, kind, uid, gid) in members {
        let entry = next(&mut ar, &mut entries).unwrap().unwrap();
        assert!(entry.options.preserve_ownerships);
        assert_eq!(entry.path_bytes(), name.as_bytes());
        assert_eq!(entry.header.entry_type(), EntryType::new(kind));
        assert_eq!(entry.header.uid().unwrap(), uid);
        assert_eq!(entry.header.gid().unwrap(), gid);
    }
    assert!(next(&mut ar, &mut entries).is_none());

    assert_eq!(
        unpacked(&data).unwrap(),
        vec![
            ("iamuid580800000".to_string(), Target::File),
            ("iamuid580800001".to_string(), Target::File),
            ("iamuid580800002".to_string(), Target::File),
            ("iamuid580800000symlink".to_string(), Target::Symlink),
            ("iamuid580800002dir".to_string(), Target::Directory),
        ]
    );
}

/// An archive with a file that has an extended attribute.
fn xattrs_tar() -> Vec<u8> {
    let mut data = Vec::new();
    append(&mut data, &directory_header(b"a/", b"0000755\0"), b"");
    append_extensions(&mut data, b"12 path=a/b\n35 SCHILY.xattr.user.pax.flags=epm\n");
    append(&mut data, &file_header(new_ustar(), b"b", 0), b"");
    finish(&mut data);
    data
}

#[test]
fn xattrs() {
    let mut ar = ArchiveBuilder::new(source(&xattrs_tar())).set_unpack_xattrs(true).build();
    let mut entries = ar.entries().unwrap();
    assert!(next(&mut ar, &mut entries).unwrap().unwrap().xattrs().is_empty());
    let b = next(&mut ar, &mut entries).unwrap().unwrap();
    assert_eq!(b.path_bytes(), b"a/b");
    let found = b.xattrs();
    assert_eq!(found.len(), 1);
    assert_eq!(found[0].key, b"user.pax.flags");
    assert_eq!(found[0].value, b"epm");
}

#[test]
fn no_xattrs() {
    let mut ar = ArchiveBuilder::new(source(&xattrs_tar())).set_unpack_xattrs(false).build();
    let mut entries = ar.entries().unwrap();
    next(&mut ar, &mut entries).unwrap().unwrap();
    let b = next(&mut ar, &mut entries).unwrap().unwrap();
    assert_eq!(b.path_bytes(), b"a/b");
    assert!(b.xattrs().is_empty());
}

#[test]
fn pax_and_gnu_uid_gid() {
    let mut gnu = Vec::new();
    let mut header = new_gnu();
    set(&mut header, 108, &[0x80, 0, 0, 0, 0xff, 0xff, 0xff, 0xfe]);
    set(&mut header, 116, &[0x80, 0, 0, 0, 0xff, 0xff, 0xff, 0xfe]);
    append(&mut gnu, &file_header(header, b"test.txt", 0), b"");

    let mut pax = Vec::new();
    append_extensions(&mut pax, b"18 uid=4294967294\n18 gid=4294967294\n");
    append(&mut pax, &file_header(new_ustar(), b"test.txt", 0), b"");

    for data in [gnu, pax] {
        let mut ar = ArchiveBuilder::new(source(&data)).set_preserve_ownerships(true).build();
        let mut entries = ar.entries().unwrap();
        let entry = next(&mut ar, &mut entries).unwrap().unwrap();
        assert!(entry.options.preserve_ownerships);
        assert_eq!(entry.path_bytes(), b"test.txt");
        // 4294967294 = u32::MAX - 1
        assert_eq!(entry.header.uid().unwrap(), 4294967294);
        assert_eq!(entry.header.gid().unwrap(), 4294967294);
    }
}
