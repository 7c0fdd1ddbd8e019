use vstd::prelude::*;
use vstd::slice::slice_subrange;

use crate::bytes::{count_until, law_prefix_ends_at_first, lemma_prefix_len, prefix_len, same_bytes};
use crate::number::{is_digit, parse_number, written_number};
use crate::numeral::{law_numeral_is_read, lemma_numeral, numeral, run_of};

verus! {

/// A record of a pax extension: a key and the value it is given.
#[verifier::ext_equal]
pub struct Record {
    /// The key.
    pub key: Seq<u8>,
    /// The value.
    pub value: Seq<u8>,
}

/// The record that stands on a line: the length of the line with its line
/// break, a space, the key, an equals sign and the value.
pub open spec fn record(line: Seq<u8>) -> Option<Record> {
    let space = prefix_len(line, 32);
    let pair = line.skip(space + 1);
    let equals = prefix_len(pair, 61);
    if space < line.len() && equals < pair.len() && written_number(line.take(space), 10) is Some
        && written_number(line.take(space), 10)->Some_0 == line.len() + 1 {
        Some(Record { key: pair.take(equals), value: pair.skip(equals + 1) })
    } else {
        None
    }
}

/// The value of the first record of `data` under `key`. Records end at the
/// first empty line, and at a line that holds no record.
pub open spec fn record_value(data: Seq<u8>, key: Seq<u8>) -> Option<Seq<u8>>
    decreases data.len(),
    via record_value_decreases
{
    let n = prefix_len(data, 10);
    let line = data.take(n);
    if n == 0 {
        None
    } else {
        match record(line) {
            None => None,
            Some(r) => if r.key == key {
                Some(r.value)
            } else if n < data.len() {
                record_value(data.skip(n + 1), key)
            } else {
                None
            },
        }
    }
}

#[via_fn]
proof fn record_value_decreases(data: Seq<u8>, key: Seq<u8>) {
    lemma_prefix_len(data, 10);
}

/// All records of `data`, in order. Records end at the first empty line, and at a
/// line that holds no record.
pub open spec fn records(data: Seq<u8>) -> Seq<Record>
    decreases data.len(),
    via records_decreases
{
    let n = prefix_len(data, 10);
    match record(data.take(n)) {
        Some(r) if n > 0 => if n < data.len() {
            seq![r] + records(data.skip(n + 1))
        } else {
            seq![r]
        },
        _ => Seq::empty(),
    }
}

#[via_fn]
proof fn records_decreases(data: Seq<u8>) {
    lemma_prefix_len(data, 10);
}

/// The number that the extension `data` gives under `key`.
pub open spec fn extension_number(data: Seq<u8>, key: Seq<u8>) -> Option<u64> {
    match record_value(data, key) {
        Some(value) => written_number(value, 10),
        None => None,
    }
}

/// A record of a pax extension.
pub struct PaxExtension<'a> {
    /// The key.
    pub key: &'a [u8],
    /// The value.
    pub value: &'a [u8],
}

impl<'a> View for PaxExtension<'a> {
    type V = Record;

    open spec fn view(&self) -> Record {
        Record { key: self.key@, value: self.value@ }
    }
}

/// What the records in `v` stand for.
pub open spec fn records_view(v: Seq<PaxExtension<'_>>) -> Seq<Record> {
    Seq::new(v.len(), |i: int| v[i]@)
}

/// Reads the record that stands on a line.
fn read_record<'a>(line: &'a [u8]) -> (result: Option<PaxExtension<'a>>)
    ensures
        match record(line@) {
            Some(r) => result is Some && result->Some_0@ == r,
            None => result is None,
        },
{
    let n = line.len();
    let space = count_until(line, 32);
    if space == n {
        return None;
    }
    let pair = slice_subrange(line, space + 1, n);
    assert(pair@ =~= line@.skip(space + 1));
    let equals = count_until(pair, 61);
    match parse_number(slice_subrange(line, 0, space), 10) {
        Some(reported) => {
            if equals == pair.len() || reported == 0 || reported - 1 != n as u64 {
                return None;
            }
        },
        None => {
            return None;
        },
    }
    let value = slice_subrange(pair, equals + 1, pair.len());
    assert(value@ =~= pair@.skip(equals + 1));
    Some(PaxExtension { key: slice_subrange(pair, 0, equals), value })
}

/// Reads all records of `data`.
pub fn extension_records<'a>(data: &'a [u8]) -> (all: Vec<PaxExtension<'a>>)
    ensures
        records_view(all@) == records(data@),
{
    let mut all: Vec<PaxExtension<'a>> = Vec::new();
    let mut rest = data;
    assert(records_view(all@) + records(rest@) =~= records(data@));
    loop
        invariant
            records_view(all@) + records(rest@) == records(data@),
        decreases rest@.len(),
    {
        let n = count_until(rest, 10);
        let line = slice_subrange(rest, 0, n);
        assert(line@ =~= rest@.take(n as int));
        let ghost before = records_view(all@);
        if n == 0 {
            assert(before =~= records(data@));
            return all;
        }
        match read_record(line) {
            Some(r) => {
                all.push(r);
                assert(records_view(all@) =~= before.push(r@));
                if n == rest.len() {
                    assert(records_view(all@) =~= before + seq![r@]);
                    return all;
                }
                assert(rest@.subrange(n + 1, rest@.len() as int) =~= rest@.skip(n + 1));
                assert(records_view(all@) + records(rest@.skip(n + 1)) =~= before + (seq![r@] + records(
                    rest@.skip(n + 1),
                )));
            },
            None => {
                assert(before =~= records(data@));
                return all;
            },
        }
        rest = slice_subrange(rest, n + 1, rest.len());
    }
}

/// Finds the value of the first record of `data` under `key`.
pub fn extension_value<'a>(data: &'a [u8], key: &[u8]) -> (value: Option<&'a [u8]>)
    ensures
        match record_value(data@, key@) {
            Some(v) => value is Some && value->Some_0@ == v,
            None => value is None,
        },
{
    let mut rest = data;
    loop
        invariant
            record_value(data@, key@) == record_value(rest@, key@),
        decreases rest@.len(),
    {
        let n = count_until(rest, 10);
        let line = slice_subrange(rest, 0, n);
        if n == 0 {
            return None;
        }
        match read_record(line) {
            Some(r) => {
                if same_bytes(r.key, key) {
                    return Some(r.value);
                }
            },
            None => {
                return None;
            },
        }
        if n == rest.len() {
            return None;
        }
        assert(rest@.subrange(n + 1, rest@.len() as int) =~= rest@.skip(n + 1));
        rest = slice_subrange(rest, n + 1, rest.len());
    }
}

/// Reads the number that the extension `data` gives under `key`.
pub fn pax_extensions_value(data: &[u8], key: &[u8]) -> (number: Option<u64>)
    ensures
        number == extension_number(data@, key@),
{
    match extension_value(data, key) {
        Some(value) => parse_number(value, 10),
        None => None,
    }
}

/// The line that writes a record, without its line break: the decimal number `n`,
/// a space, the key, an equals sign and the value.
pub open spec fn record_line(n: nat, key: Seq<u8>, value: Seq<u8>) -> Seq<u8> {
    numeral(n, 10).push(32) + key.push(61) + value
}

/// Whether `n` is the length that the line for a record has to state: the length
/// of the line with its line break.
pub open spec fn states_length(n: nat, key: Seq<u8>, value: Seq<u8>) -> bool {
    n <= u64::MAX && record_line(n, key, value).len() + 1 == n
}

/// A line with a number, a blank, a key, an equals sign and a value is a record
/// where, and only where, the number is the length of the line with its line
/// break. The record has the whole key and the whole value, whatever bytes they
/// are made of, as long as the key holds no equals sign.
pub proof fn law_record_is_read(number: Seq<u8>, key: Seq<u8>, value: Seq<u8>)
    requires
        !number.contains(32u8),
        !key.contains(61u8),
    ensures
        ({
            let line = number.push(32) + key.push(61) + value;
            record(line) == if written_number(number, 10) is Some && written_number(number, 10)->Some_0
                == line.len() + 1 {
                Some(Record { key, value })
            } else {
                None
            }
        }),
{
    let line = number.push(32) + key.push(61) + value;
    let k = number.len() as int;
    assert forall|i: int| 0 <= i < k implies line[i] != 32 by {
        assert(line[i] == number[i]);
        assert(number.contains(number[i]));
    }
    law_prefix_ends_at_first(line, 32, k);
    assert(line.take(k) =~= number);
    let pair = line.skip(k + 1);
    assert(pair =~= key.push(61) + value);
    assert forall|i: int| 0 <= i < key.len() implies pair[i] != 61 by {
        assert(pair[i] == key[i]);
        assert(key.contains(key[i]));
    }
    law_prefix_ends_at_first(pair, 61, key.len() as int);
    assert(pair.take(key.len() as int) =~= key);
    assert(pair.skip(key.len() as int + 1) =~= value);
}

/// A record is read back as it was written.
pub proof fn law_record_is_read_back(n: nat, key: Seq<u8>, value: Seq<u8>)
    requires
        states_length(n, key, value),
        !key.contains(61u8),
    ensures
        record(record_line(n, key, value)) == Some(Record { key, value }),
{
    let number = numeral(n, 10);
    lemma_numeral(n, 10);
    law_numeral_is_read(0, n, 10);
    assert(run_of(48, 0) + number =~= number);
    assert(!number.contains(32u8)) by {
        if number.contains(32u8) {
            let i = choose|i: int| 0 <= i < number.len() && number[i] == 32;
            assert(is_digit(number[i], 10));
        }
    }
    law_record_is_read(number, key, value);
}

/// A record that is read is all that its line holds behind a number, and that
/// number is the length of the line with its line break.
pub proof fn law_record_is_its_line(line: Seq<u8>)
    requires
        record(line) is Some,
    ensures
        exists|number: Seq<u8>|
            line == #[trigger] (number.push(32) + record(line)->Some_0.key.push(61)
                + record(line)->Some_0.value) && !number.contains(32u8) && written_number(number, 10)
                == Some((line.len() + 1) as u64) && line.len() + 1 <= u64::MAX,
        !record(line)->Some_0.key.contains(61u8),
{
    let r = record(line)->Some_0;
    lemma_prefix_len(line, 32);
    let space = prefix_len(line, 32);
    let number = line.take(space);
    let pair = line.skip(space + 1);
    lemma_prefix_len(pair, 61);
    assert(line =~= number.push(32) + r.key.push(61) + r.value);
}

/// Records follow one another, each on a line of its own: the first is the one
/// on the first line, and the others are those on the lines behind it. What a
/// key is given is what the first record with that key gives it.
pub proof fn law_records_follow_one_another(
    n: nat,
    key: Seq<u8>,
    value: Seq<u8>,
    rest: Seq<u8>,
    wanted: Seq<u8>,
)
    requires
        states_length(n, key, value),
        !key.contains(61u8),
        !key.contains(10u8),
        !value.contains(10u8),
    ensures
        ({
            let data = record_line(n, key, value).push(10) + rest;
            &&& records(data) == seq![Record { key, value }] + records(rest)
            &&& record_value(data, wanted) == if wanted == key {
                Some(value)
            } else {
                record_value(rest, wanted)
            }
        }),
        records(Seq::empty()) == Seq::<Record>::empty(),
        record_value(Seq::empty(), wanted) is None,
{
    let line = record_line(n, key, value);
    let data = line.push(10) + rest;
    let number = numeral(n, 10);
    lemma_numeral(n, 10);
    law_record_is_read_back(n, key, value);
    let m = line.len() as int;
    assert forall|i: int| 0 <= i < m implies data[i] != 10 by {
        assert(data[i] == line[i]);
        let k = number.len();
        if i < k {
            assert(line[i] == number[i]);
            assert(is_digit(number[i], 10));
        } else if i == k {
            assert(line[i] == 32);
        } else if i < k + 1 + key.len() {
            assert(line[i] == key[i - k - 1]);
            assert(key.contains(key[i - k - 1]));
        } else if i == k + 1 + key.len() {
            assert(line[i] == 61);
        } else {
            let v = i - k - key.len() - 2;
            assert(line[i] == value[v]);
            assert(value.contains(value[v]));
        }
    }
    law_prefix_ends_at_first(data, 10, m);
    assert(data.take(m) =~= line);
    assert(data.skip(m + 1) =~= rest);
    law_prefix_ends_at_first(Seq::empty(), 10, 0);
}

/// A line that is no record ends the records: it gives none, and neither does
/// anything behind it. The last line needs no line break.
pub proof fn law_records_end(line: Seq<u8>, rest: Seq<u8>, key: Seq<u8>)
    requires
        !line.contains(10u8),
    ensures
        record(line) is None ==> {
            &&& records(line) == Seq::<Record>::empty()
            &&& records(line.push(10) + rest) == Seq::<Record>::empty()
            &&& record_value(line, key) is None
            &&& record_value(line.push(10) + rest, key) is None
        },
        record(line) matches Some(r) ==> {
            &&& records(line) == seq![r]
            &&& record_value(line, key) == if r.key == key {
                Some(r.value)
            } else {
                None
            }
        },
{
    let n = line.len() as int;
    let data = line.push(10) + rest;
    assert forall|i: int| 0 <= i < n implies line[i] != 10 && data[i] != 10 by {
        assert(line.contains(line[i]));
        assert(data[i] == line[i]);
    }
    law_prefix_ends_at_first(line, 10, n);
    law_prefix_ends_at_first(data, 10, n);
    assert(line.take(n) =~= line);
    assert(data.take(n) =~= line);
    if record(line) is Some && n == 0 {
        lemma_prefix_len(line, 32);
        assert(false);
    }
}

/// What a key is given is what the first of all records with that key gives it,
/// and nothing where there is none.
pub proof fn law_first_record_counts(data: Seq<u8>, key: Seq<u8>)
    ensures
        match record_value(data, key) {
            Some(value) => exists|i: int|
                0 <= i < records(data).len() && #[trigger] records(data)[i] == (Record { key, value })
                    && forall|j: int| 0 <= j < i ==> (#[trigger] records(data)[j]).key != key,
            None => forall|i: int| 0 <= i < records(data).len() ==> (#[trigger] records(data)[i]).key != key,
        },
    decreases data.len(),
{
    lemma_prefix_len(data, 10);
    let n = prefix_len(data, 10);
    let all = records(data);
    if n > 0 {
        if let Some(r) = record(data.take(n)) {
            assert(all[0] == r);
            if r.key != key && n < data.len() {
                let rest = data.skip(n + 1);
                law_first_record_counts(rest, key);
                let more = records(rest);
                assert forall|i: int| 0 < i < all.len() implies all[i] == #[trigger] more[i - 1] by {}
                if let Some(value) = record_value(rest, key) {
                    let i = choose|i: int|
                        0 <= i < more.len() && #[trigger] more[i] == (Record { key, value }) && forall|j: int|
                            0 <= j < i ==> (#[trigger] more[j]).key != key;
                    assert(all[i + 1] == more[i]);
                    assert forall|j: int| 0 <= j < i + 1 implies (#[trigger] all[j]).key != key by {
                        if j > 0 {
                            assert(all[j] == more[j - 1]);
                        }
                    }
                } else {
                    assert forall|i: int| 0 <= i < all.len() implies (#[trigger] all[i]).key != key by {
                        if i > 0 {
                            assert(all[i] == more[i - 1]);
                        }
                    }
                }
            }
        }
    }
}

/// A number that a record gives in decimal digits is read as that number.
pub proof fn law_record_gives_number(n: nat, key: Seq<u8>, number: u64, rest: Seq<u8>)
    requires
        states_length(n, key, numeral(number as nat, 10)),
        !key.contains(61u8),
        !key.contains(10u8),
    ensures
        extension_number(record_line(n, key, numeral(number as nat, 10)).push(10) + rest, key) == Some(number),
{
    let value = numeral(number as nat, 10);
    lemma_numeral(number as nat, 10);
    law_numeral_is_read(0, number as nat, 10);
    assert(run_of(48, 0) + value =~= value);
    assert(!value.contains(10u8)) by {
        if value.contains(10u8) {
            let i = choose|i: int| 0 <= i < value.len() && value[i] == 10;
            assert(is_digit(value[i], 10));
        }
    }
    law_records_follow_one_another(n, key, value, rest, key);
}

/// A key is given a number where, and only where, what it is given is a number in
/// decimal digits.
pub proof fn law_numbers_are_read(data: Seq<u8>, key: Seq<u8>)
    ensures
        extension_number(data, key) is Some <==> record_value(data, key) is Some && written_number(
            record_value(data, key)->Some_0,
            10,
        ) is Some,
        record_value(data, key) matches Some(value) ==> extension_number(data, key) == written_number(value, 10),
{
}

} // verus!
