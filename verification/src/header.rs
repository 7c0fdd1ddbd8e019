use vstd::prelude::*;
use vstd::slice::slice_subrange;

use crate::bytes::copied;
use crate::entry_type::EntryType;
use crate::error::Error;
use crate::number::{
    field_number, field_of, law_number_read_back, not_a_number, number_from, number_into, octal_from,
    octal_number, text, truncate,
};

verus! {

/// A member's header: one block of an archive.
#[derive(Clone, Copy)]
pub struct Header {
    /// The bytes of the block.
    pub bytes: [u8; 512],
}

impl View for Header {
    type V = Seq<u8>;

    open spec fn view(&self) -> Seq<u8> {
        self.bytes@
    }
}

/// The sum of the bytes of `s`.
pub open spec fn byte_sum(s: Seq<u8>) -> int
    decreases s.len(),
{
    if s.len() == 0 {
        0
    } else {
        byte_sum(s.drop_last()) + s.last()
    }
}

/// The checksum that the header block `h` calls for: the sum of its bytes, with
/// eight spaces in place of the checksum field.
pub open spec fn checksum(h: Seq<u8>) -> int {
    byte_sum(h.take(148)) + byte_sum(h.skip(156)) + 8 * 32
}

/// The checksum that the header block `h` states.
pub open spec fn stated_checksum(h: Seq<u8>) -> Option<u32> {
    match octal_number(h.subrange(148, 156)) {
        Some(n) => Some(n as u32),
        None => None,
    }
}

/// The size that the header block `h` states for what follows it.
pub open spec fn stated_size(h: Seq<u8>) -> Option<u64> {
    field_number(h.subrange(124, 136))
}

/// The owner that the header block `h` states.
pub open spec fn stated_uid(h: Seq<u8>) -> Option<u64> {
    field_number(h.subrange(108, 116))
}

/// The group that the header block `h` states.
pub open spec fn stated_gid(h: Seq<u8>) -> Option<u64> {
    field_number(h.subrange(116, 124))
}

/// The permission bits that the header block `h` states.
pub open spec fn stated_mode(h: Seq<u8>) -> Option<u32> {
    match octal_number(h.subrange(100, 108)) {
        Some(n) => Some(n as u32),
        None => None,
    }
}

/// The modification time that the header block `h` states, in seconds since the
/// epoch.
pub open spec fn stated_mtime(h: Seq<u8>) -> Option<u64> {
    field_number(h.subrange(136, 148))
}

/// The path that the header block `h` states. In the UStar format it is split in
/// two.
pub open spec fn stated_path(h: Seq<u8>) -> Seq<u8> {
    let name = text(h.subrange(0, 100));
    let prefix = text(h.subrange(345, 500));
    if is_ustar(h) && prefix.len() > 0 {
        prefix.push(47) + name
    } else {
        name
    }
}

/// The link name that the header block `h` states, if any.
pub open spec fn stated_link(h: Seq<u8>) -> Option<Seq<u8>> {
    if h[157] == 0 {
        None
    } else {
        Some(text(h.subrange(157, 257)))
    }
}

/// The block `h` with `field` in place of the bytes from `start` on.
pub open spec fn put(h: Seq<u8>, start: int, field: Seq<u8>) -> Seq<u8> {
    Seq::new(
        h.len(),
        |i: int|
            if start <= i < start + field.len() {
                field[i - start]
            } else {
                h[i]
            },
    )
}

/// The header block `h` with `uid` as its owner.
pub open spec fn with_uid(h: Seq<u8>, uid: u64) -> Seq<u8> {
    put(h, 108, field_of(uid))
}

/// The header block `h` with `gid` as its group.
pub open spec fn with_gid(h: Seq<u8>, gid: u64) -> Seq<u8> {
    put(h, 116, field_of(gid))
}

/// The kind of member that the header block `h` states.
pub open spec fn stated_type(h: Seq<u8>) -> EntryType {
    EntryType::of(h[156])
}

/// Whether the header block `h` is in the GNU format.
pub open spec fn is_gnu(h: Seq<u8>) -> bool {
    h.subrange(257, 265) == seq![117u8, 115, 116, 97, 114, 32, 32, 0]
}

/// Whether the header block `h` is in the UStar format.
pub open spec fn is_ustar(h: Seq<u8>) -> bool {
    h.subrange(257, 265) == seq![117u8, 115, 116, 97, 114, 0, 48, 48]
}

/// Whether further blocks with sparse headers follow the GNU header `h`.
pub open spec fn is_extended(h: Seq<u8>) -> bool {
    h[482] == 1
}

/// The size that the GNU header `h` states for a sparse file once it is
/// expanded.
pub open spec fn stated_real_size(h: Seq<u8>) -> Option<u64> {
    field_number(h.subrange(483, 495))
}

/// Adds up the bytes of `s`.
fn sum_bytes(s: &[u8]) -> (sum: u32)
    requires
        s@.len() <= 512,
    ensures
        sum == byte_sum(s@),
{
    let mut sum: u32 = 0;
    let mut i: usize = 0;
    while i < s.len()
        invariant
            i <= s.len() <= 512,
            sum == byte_sum(s@.take(i as int)),
            sum <= 255 * i,
        decreases s.len() - i,
    {
        assert(s@.take(i + 1).drop_last() =~= s@.take(i as int));
        sum += s[i] as u32;
        i += 1;
    }
    assert(s@.take(i as int) =~= s@);
    sum
}

/// Whether every byte of a header block is zero.
pub open spec fn all_zero(h: Seq<u8>) -> bool {
    forall|i: int| 0 <= i < h.len() ==> h[i] == 0
}

impl Header {
    /// A blank header.
    pub fn new_old() -> (header: Header)
        ensures
            header@ == Seq::new(512, |i: int| 0u8),
    {
        let header = Header { bytes: [0; 512] };
        assert(header@ =~= Seq::new(512, |i: int| 0u8));
        header
    }

    /// The bytes of the header.
    pub fn as_bytes(&self) -> (bytes: &[u8; 512])
        ensures
            bytes@ == self@,
    {
        &self.bytes
    }

    fn field(&self, start: usize, end: usize) -> (field: &[u8])
        requires
            start <= end <= 512,
        ensures
            field@ == self@.subrange(start as int, end as int),
    {
        slice_subrange(self.bytes.as_slice(), start, end)
    }

    /// Whether the block holds nothing but zeros.
    pub fn is_zero(&self) -> (zero: bool)
        ensures
            zero == all_zero(self@),
    {
        let mut i: usize = 0;
        while i < 512
            invariant
                i <= 512,
                forall|j: int| 0 <= j < i ==> self@[j] == 0,
            decreases 512 - i,
        {
            if self.bytes[i] != 0 {
                assert(self@[i as int] != 0);
                return false;
            }
            i += 1;
        }
        true
    }

    /// The checksum that the header calls for.
    pub fn checksum(&self) -> (sum: u32)
        ensures
            sum == checksum(self@),
    {
        let before = sum_bytes(self.field(0, 148));
        let after = sum_bytes(self.field(156, 512));
        proof {
            lemma_byte_sum_bound(self@.take(148));
            lemma_byte_sum_bound(self@.skip(156));
            assert(self@.subrange(0, 148) =~= self@.take(148));
            assert(self@.subrange(156, 512) =~= self@.skip(156));
        }
        before + after + 8 * 32
    }

    /// The checksum that the header states.
    pub fn cksum(&self) -> (sum: Result<u32, Error>)
        ensures
            match stated_checksum(self@) {
                Some(n) => sum == Ok::<u32, Error>(n),
                None => sum is Err && sum->Err_0@ == not_a_number(),
            },
    {
        match octal_from(self.field(148, 156)) {
            Ok(n) => Ok(n as u32),
            Err(e) => Err(e),
        }
    }

    /// The size that the header states for what follows it.
    pub fn entry_size(&self) -> (size: Result<u64, Error>)
        ensures
            match stated_size(self@) {
                Some(n) => size == Ok::<u64, Error>(n),
                None => size is Err && size->Err_0@ == not_a_number(),
            },
    {
        number_from(self.field(124, 136))
    }

    /// The owner that the header states.
    pub fn uid(&self) -> (uid: Result<u64, Error>)
        ensures
            match stated_uid(self@) {
                Some(n) => uid == Ok::<u64, Error>(n),
                None => uid is Err && uid->Err_0@ == not_a_number(),
            },
    {
        number_from(self.field(108, 116))
    }

    /// The group that the header states.
    pub fn gid(&self) -> (gid: Result<u64, Error>)
        ensures
            match stated_gid(self@) {
                Some(n) => gid == Ok::<u64, Error>(n),
                None => gid is Err && gid->Err_0@ == not_a_number(),
            },
    {
        number_from(self.field(116, 124))
    }

    /// The permission bits that the header states.
    pub fn mode(&self) -> (mode: Result<u32, Error>)
        ensures
            match stated_mode(self@) {
                Some(n) => mode == Ok::<u32, Error>(n),
                None => mode is Err && mode->Err_0@ == not_a_number(),
            },
    {
        match octal_from(self.field(100, 108)) {
            Ok(n) => Ok(n as u32),
            Err(e) => Err(e),
        }
    }

    /// The modification time that the header states.
    pub fn mtime(&self) -> (mtime: Result<u64, Error>)
        ensures
            match stated_mtime(self@) {
                Some(n) => mtime == Ok::<u64, Error>(n),
                None => mtime is Err && mtime->Err_0@ == not_a_number(),
            },
    {
        number_from(self.field(136, 148))
    }

    /// The path that the header states.
    pub fn path_bytes(&self) -> (path: Vec<u8>)
        ensures
            path@ == stated_path(self@),
    {
        let name = truncate(self.field(0, 100));
        let prefix = truncate(self.field(345, 500));
        if self.is_ustar() && prefix.len() > 0 {
            let mut path = copied(prefix);
            path.push(47);
            path.extend_from_slice(name);
            assert(path@ =~= stated_path(self@));
            path
        } else {
            copied(name)
        }
    }

    /// The link name that the header states, if any.
    pub fn link_name_bytes(&self) -> (link: Option<Vec<u8>>)
        ensures
            match stated_link(self@) {
                Some(l) => link is Some && link->Some_0@ == l,
                None => link is None,
            },
    {
        if self.bytes[157] == 0 {
            None
        } else {
            Some(copied(truncate(self.field(157, 257))))
        }
    }

    fn put(&mut self, start: usize, field: [u8; 8])
        requires
            start <= 504,
        ensures
            final(self)@ == put(old(self)@, start as int, field@),
    {
        let mut i: usize = 0;
        while i < 8
            invariant
                i <= 8,
                start <= 504,
                self@ == put(old(self)@, start as int, field@.take(i as int)),
            decreases 8 - i,
        {
            self.bytes[start + i] = field[i];
            i += 1;
            assert(self@ =~= put(old(self)@, start as int, field@.take(i as int)));
        }
        assert(field@.take(8) =~= field@);
    }

    /// States `uid` as the owner.
    pub fn set_uid(&mut self, uid: u64)
        ensures
            final(self)@ == with_uid(old(self)@, uid),
    {
        self.put(108, number_into(uid));
    }

    /// States `gid` as the group.
    pub fn set_gid(&mut self, gid: u64)
        ensures
            final(self)@ == with_gid(old(self)@, gid),
    {
        self.put(116, number_into(gid));
    }

    /// The kind of member that the header introduces.
    pub fn entry_type(&self) -> (kind: EntryType)
        ensures
            kind == stated_type(self@),
    {
        EntryType::new(self.bytes[156])
    }

    /// Whether the header is in the GNU format.
    pub fn is_gnu(&self) -> (gnu: bool)
        ensures
            gnu == is_gnu(self@),
    {
        let b = &self.bytes;
        let gnu = b[257] == 117 && b[258] == 115 && b[259] == 116 && b[260] == 97 && b[261] == 114
            && b[262] == 32 && b[263] == 32 && b[264] == 0;
        proof {
            lemma_magic(self@, seq![117u8, 115, 116, 97, 114, 32, 32, 0]);
        }
        gnu
    }

    /// Whether the header is in the UStar format.
    pub fn is_ustar(&self) -> (ustar: bool)
        ensures
            ustar == is_ustar(self@),
    {
        let b = &self.bytes;
        let ustar = b[257] == 117 && b[258] == 115 && b[259] == 116 && b[260] == 97 && b[261] == 114
            && b[262] == 0 && b[263] == 48 && b[264] == 48;
        proof {
            lemma_magic(self@, seq![117u8, 115, 116, 97, 114, 0, 48, 48]);
        }
        ustar
    }

    /// Whether blocks with further sparse headers follow a GNU header.
    pub fn is_extended(&self) -> (extended: bool)
        ensures
            extended == is_extended(self@),
    {
        self.bytes[482] == 1
    }

    /// The size that a GNU header states for a sparse file once it is expanded.
    pub fn real_size(&self) -> (size: Result<u64, Error>)
        ensures
            match stated_real_size(self@) {
                Some(n) => size == Ok::<u64, Error>(n),
                None => size is Err && size->Err_0@ == not_a_number(),
            },
    {
        number_from(self.field(483, 495))
    }
}

proof fn lemma_byte_sum_bound(s: Seq<u8>)
    ensures
        0 <= byte_sum(s) <= 255 * s.len(),
    decreases s.len(),
{
    if s.len() > 0 {
        lemma_byte_sum_bound(s.drop_last());
    }
}

proof fn lemma_magic(h: Seq<u8>, magic: Seq<u8>)
    requires
        h.len() == 512,
        magic.len() == 8,
    ensures
        h.subrange(257, 265) == magic <==> h[257] == magic[0] && h[258] == magic[1] && h[259]
            == magic[2] && h[260] == magic[3] && h[261] == magic[4] && h[262] == magic[5] && h[263]
            == magic[6] && h[264] == magic[7],
{
    let m = h.subrange(257, 265);
    assert(m[0] == h[257] && m[1] == h[258] && m[2] == h[259] && m[3] == h[260] && m[4] == h[261]
        && m[5] == h[262] && m[6] == h[263] && m[7] == h[264]);
    if h[257] == magic[0] && h[258] == magic[1] && h[259] == magic[2] && h[260] == magic[3] && h[261]
        == magic[4] && h[262] == magic[5] && h[263] == magic[6] && h[264] == magic[7] {
        assert(m =~= magic);
    }
}

/// The owner and the group that are put into a header are what it states from
/// then on, and nothing else that it states changes by that.
pub proof fn law_owner_read_back(h: Seq<u8>, n: u64)
    requires
        h.len() == 512,
        n < 0x8000_0000_0000_0000,
    ensures
        stated_uid(with_uid(h, n)) == Some(n),
        stated_gid(with_gid(h, n)) == Some(n),
        stated_gid(with_uid(h, n)) == stated_gid(h),
        stated_uid(with_gid(h, n)) == stated_uid(h),
        forall|i: int| 0 <= i < 512 && !(108 <= i < 116) ==> with_uid(h, n)[i] == h[i],
        forall|i: int| 0 <= i < 512 && !(116 <= i < 124) ==> with_gid(h, n)[i] == h[i],
{
    law_number_read_back(n);
    assert(with_uid(h, n).subrange(108, 116) =~= field_of(n));
    assert(with_gid(h, n).subrange(116, 124) =~= field_of(n));
    assert(with_uid(h, n).subrange(116, 124) =~= h.subrange(116, 124));
    assert(with_gid(h, n).subrange(108, 116) =~= h.subrange(108, 116));
}

/// The sum of the bytes of two pieces is the sum of their sums, and a single
/// byte is its own sum.
pub proof fn law_byte_sum(a: Seq<u8>, b: Seq<u8>, c: u8)
    ensures
        byte_sum(a + b) == byte_sum(a) + byte_sum(b),
        byte_sum(seq![c]) == c,
    decreases b.len(),
{
    assert(seq![c].drop_last() =~= Seq::empty());
    assert(byte_sum(seq![c].drop_last()) == 0);
    if b.len() == 0 {
        assert(a + b =~= a);
    } else {
        assert((a + b).drop_last() =~= a + b.drop_last());
        law_byte_sum(a, b.drop_last(), c);
    }
}

proof fn lemma_byte_sum_update(s: Seq<u8>, i: int, v: u8)
    requires
        0 <= i < s.len(),
    ensures
        byte_sum(s.update(i, v)) == byte_sum(s) + v - s[i],
    decreases s.len(),
{
    let t = s.update(i, v);
    if i == s.len() - 1 {
        assert(t.drop_last() =~= s.drop_last());
    } else {
        assert(t.drop_last() =~= s.drop_last().update(i, v));
        lemma_byte_sum_update(s.drop_last(), i, v);
    }
}

proof fn lemma_byte_sum_constant(n: nat, v: u8)
    ensures
        byte_sum(Seq::new(n, |i: int| v)) == n * v,
    decreases n,
{
    if n > 0 {
        let s = Seq::new(n, |i: int| v);
        assert(s.drop_last() =~= Seq::new((n - 1) as nat, |i: int| v));
        lemma_byte_sum_constant((n - 1) as nat, v);
        assert((n - 1) * v + v == n * v) by (nonlinear_arith);
    } else {
        assert(n * v == 0) by (nonlinear_arith)
            requires
                n == 0,
        ;
    }
}

/// The checksum of a header is the sum of all of its bytes, once the checksum
/// field is filled with spaces.
pub proof fn law_checksum_is_the_sum(h: Seq<u8>)
    requires
        h.len() == 512,
    ensures
        checksum(h) == byte_sum(put(h, 148, Seq::new(8, |i: int| 32u8))),
{
    let spaces = Seq::new(8, |i: int| 32u8);
    let filled = put(h, 148, spaces);
    lemma_byte_sum_constant(8, 32);
    law_byte_sum(h.take(148), spaces, 0);
    law_byte_sum(h.take(148) + spaces, h.skip(156), 0);
    assert(filled =~= h.take(148) + spaces + h.skip(156));
}

/// The checksum of a header moves by as much as a byte of the header moves,
/// wherever that byte stands, unless it stands in the checksum field. A blank
/// header has the checksum of eight spaces.
pub proof fn law_checksum_moves_with_each_byte(h: Seq<u8>, i: int, v: u8)
    requires
        h.len() == 512,
        0 <= i < 512,
    ensures
        148 <= i < 156 ==> checksum(h.update(i, v)) == checksum(h),
        !(148 <= i < 156) ==> checksum(h.update(i, v)) - checksum(h) == v - h[i],
        checksum(Seq::new(512, |j: int| 0u8)) == 256,
{
    let t = h.update(i, v);
    if i < 148 {
        assert(t.take(148) =~= h.take(148).update(i, v));
        assert(t.skip(156) =~= h.skip(156));
        lemma_byte_sum_update(h.take(148), i, v);
    } else if i < 156 {
        assert(t.take(148) =~= h.take(148));
        assert(t.skip(156) =~= h.skip(156));
    } else {
        assert(t.take(148) =~= h.take(148));
        assert(t.skip(156) =~= h.skip(156).update(i - 156, v));
        lemma_byte_sum_update(h.skip(156), i - 156, v);
    }
    let zero = Seq::new(512, |j: int| 0u8);
    assert(zero.take(148) =~= Seq::new(148, |j: int| 0u8));
    assert(zero.skip(156) =~= Seq::new(356, |j: int| 0u8));
    lemma_byte_sum_constant(148, 0);
    lemma_byte_sum_constant(356, 0);
}

/// What is put into a block stands there from then on, and the rest of the block
/// stays as it was.
pub proof fn law_put(a: Seq<u8>, b: Seq<u8>, c: Seq<u8>, field: Seq<u8>)
    requires
        b.len() == field.len(),
    ensures
        put(a + b + c, a.len() as int, field) == a + field + c,
{
    assert(put(a + b + c, a.len() as int, field) =~= a + field + c);
}

/// A block is blank where it is nothing but zeros: one byte that is not zero makes
/// a difference, wherever it stands.
pub proof fn law_blank_means_zeros(h: Seq<u8>, i: int)
    ensures
        all_zero(h) <==> h == Seq::new(h.len(), |j: int| 0u8),
        0 <= i < h.len() && h[i] != 0 ==> !all_zero(h),
{
    if all_zero(h) {
        assert(h =~= Seq::new(h.len(), |j: int| 0u8));
    }
}

} // verus!
