//! The DTF file format: a fixed-size header and a body of packed updates.
//!
//! | offset | bytes | field                                    |
//! |--------|-------|------------------------------------------|
//! | 0      | 4     | magic `44 54 46 90`                      |
//! | 4      | 1     | version, 1                               |
//! | 5      | 1     | length of the symbol in bytes, at most 20 |
//! | 6      | 20    | symbol in UTF-8, padded with zero bytes  |
//! | 26     | 8     | number of updates                        |
//! | 34     | 8     | `ts` of the first update                 |
//! | 42     | 8     | `ts` of the last update                  |
//! | 50     | 22 each | the updates in canonical form          |
//!
//! Integers are little-endian. The functions here take and give the bytes
//! of a file; they never touch the file system.

use crate::endian::{
    get_u64, le_bytes, le_value, lemma_le_bytes_len, lemma_le_value_of_bytes,
    lemma_pow256_values, put_u64,
};
use crate::error::Error;
use crate::update::{
    is_sorted, lemma_record_round_trip, parse_record, record_bytes, select, sorted, ts_within,
    Update, RECORD_SIZE,
};
use vstd::prelude::*;
use vstd::slice::slice_subrange;
use vstd::utf8::{
    decode_utf8, encode_utf8, encode_utf8_decode_utf8, encode_utf8_valid_utf8, valid_utf8,
};

verus! {

/// Bytes that the header takes.
pub const HEADER_SIZE: usize = 50;

/// The most bytes that a symbol may take.
pub const SYMBOL_CAPACITY: usize = 20;

/// The format version that this library writes and reads.
pub const VERSION: u8 = 1;

/// What a file's header says of the file.
#[derive(Debug, PartialEq, Eq)]
pub struct Metadata {
    /// The instrument that the file belongs to.
    pub symbol: String,
    /// How many updates the file holds.
    pub count: u64,
    /// `ts` of the first update.
    pub min_ts: u64,
    /// `ts` of the last update.
    pub max_ts: u64,
}

/// A header as a mathematical value.
pub struct MetadataModel {
    pub symbol: Seq<char>,
    pub count: u64,
    pub min_ts: u64,
    pub max_ts: u64,
}

impl View for Metadata {
    type V = MetadataModel;

    open spec fn view(&self) -> MetadataModel {
        MetadataModel {
            symbol: self.symbol@,
            count: self.count,
            min_ts: self.min_ts,
            max_ts: self.max_ts,
        }
    }
}

impl Clone for Metadata {
    fn clone(&self) -> (copy: Metadata)
        ensures
            copy == *self,
    {
        Metadata {
            symbol: self.symbol.clone(),
            count: self.count,
            min_ts: self.min_ts,
            max_ts: self.max_ts,
        }
    }
}

/// The four bytes that every file starts with.
pub open spec fn magic() -> Seq<u8> {
    seq![0x44u8, 0x54u8, 0x46u8, 0x90u8]
}

/// A byte that a symbol may hold: anything but an ASCII control character.
pub open spec fn allowed_byte(b: u8) -> bool {
    b >= 0x20 && b != 0x7f
}

/// A symbol that fits the header: at most 20 bytes of UTF-8, none of them
/// a control character.
pub open spec fn valid_symbol(symbol: Seq<char>) -> bool {
    let bytes = encode_utf8(symbol);
    &&& bytes.len() <= SYMBOL_CAPACITY
    &&& forall|i: int| 0 <= i < bytes.len() ==> allowed_byte(#[trigger] bytes[i])
}

/// The header's fields for `updates`: their number, and the `ts` of the
/// first and the last one (zero where there is none).
pub open spec fn metadata_for(symbol: Seq<char>, updates: Seq<Update>) -> MetadataModel {
    MetadataModel {
        symbol,
        count: updates.len() as u64,
        min_ts: if updates.len() == 0 {
            0
        } else {
            updates.first().ts
        },
        max_ts: if updates.len() == 0 {
            0
        } else {
            updates.last().ts
        },
    }
}

/// The symbol field: the symbol's bytes, then zero bytes up to 20.
pub open spec fn symbol_field(symbol: Seq<char>) -> Seq<u8> {
    let bytes = encode_utf8(symbol);
    bytes + Seq::new((SYMBOL_CAPACITY - bytes.len()) as nat, |i: int| 0u8)
}

/// The 50 bytes of the header that says `meta`.
pub open spec fn header_bytes(meta: MetadataModel) -> Seq<u8> {
    magic() + seq![VERSION] + seq![encode_utf8(meta.symbol).len() as u8] + symbol_field(
        meta.symbol,
    ) + le_bytes(meta.count as nat, 8) + le_bytes(meta.min_ts as nat, 8) + le_bytes(
        meta.max_ts as nat,
        8,
    )
}

/// The body that holds `updates`: their canonical forms one after another.
pub open spec fn body_bytes(updates: Seq<Update>) -> Seq<u8> {
    Seq::new(
        updates.len() * RECORD_SIZE as nat,
        |k: int| record_bytes(updates[k / RECORD_SIZE as int])[k % RECORD_SIZE as int],
    )
}

/// The file that the writer makes of `updates` for `symbol`.
pub open spec fn file_bytes(symbol: Seq<char>, updates: Seq<Update>) -> Seq<u8> {
    header_bytes(metadata_for(symbol, updates)) + body_bytes(updates)
}

/// What the header of `bytes` says, if `bytes` starts with a well-formed
/// header: 50 bytes or more, the magic, the version, a symbol length of at
/// most 20 and that many bytes of valid UTF-8.
pub open spec fn parse_header(bytes: Seq<u8>) -> Option<MetadataModel> {
    if bytes.len() >= HEADER_SIZE && bytes.subrange(0, 4) == magic() && bytes[4] == VERSION
        && bytes[5] <= SYMBOL_CAPACITY && valid_utf8(bytes.subrange(6, 6 + bytes[5])) {
        Some(
            MetadataModel {
                symbol: decode_utf8(bytes.subrange(6, 6 + bytes[5])),
                count: le_value(bytes.subrange(26, 34)) as u64,
                min_ts: le_value(bytes.subrange(34, 42)) as u64,
                max_ts: le_value(bytes.subrange(42, 50)) as u64,
            },
        )
    } else {
        None
    }
}

/// The bytes of record `i` of a body.
pub open spec fn record_at(body: Seq<u8>, i: int) -> Seq<u8> {
    body.subrange(i * RECORD_SIZE as int, i * RECORD_SIZE as int + RECORD_SIZE as int)
}

/// The first `n` records of `body` are well formed.
pub open spec fn records_ok(body: Seq<u8>, n: nat) -> bool {
    forall|i: int| 0 <= i < n ==> (#[trigger] parse_record(record_at(body, i))) is Some
}

/// The first `n` records of `body`.
pub open spec fn records(body: Seq<u8>, n: nat) -> Seq<Update> {
    Seq::new(n, |i: int| parse_record(record_at(body, i))->0)
}

/// How many records to read from a file of `count` records under `limit`.
pub open spec fn records_wanted(count: u64, limit: Option<usize>) -> nat {
    match limit {
        Some(l) => if l < count {
            l as nat
        } else {
            count as nat
        },
        None => count as nat,
    }
}

/// The updates that reading `bytes` gives: the first `limit` of them, or
/// all without a limit. `None` where the file is corrupt: a bad header, a
/// body whose length is not 22 times the header's count, or an ill-formed
/// record among those read.
pub open spec fn decode_spec(bytes: Seq<u8>, limit: Option<usize>) -> Option<Seq<Update>> {
    match parse_header(bytes) {
        None => None,
        Some(meta) => {
            let body = bytes.skip(HEADER_SIZE as int);
            let n = records_wanted(meta.count, limit);
            if body.len() == meta.count * RECORD_SIZE && records_ok(body, n) {
                Some(records(body, n))
            } else {
                None
            }
        },
    }
}

/// The header of a written file is 50 bytes long and says what was written.
pub proof fn lemma_header_round_trip(meta: MetadataModel, rest: Seq<u8>)
    requires
        valid_symbol(meta.symbol),
    ensures
        header_bytes(meta).len() == HEADER_SIZE,
        parse_header(header_bytes(meta) + rest) == Some(meta),
        (header_bytes(meta) + rest).skip(HEADER_SIZE as int) == rest,
{
    let h = header_bytes(meta);
    let all = h + rest;
    let sym = encode_utf8(meta.symbol);
    lemma_pow256_values();
    lemma_le_bytes_len(meta.count as nat, 8);
    lemma_le_bytes_len(meta.min_ts as nat, 8);
    lemma_le_bytes_len(meta.max_ts as nat, 8);
    lemma_le_value_of_bytes(meta.count as nat, 8);
    lemma_le_value_of_bytes(meta.min_ts as nat, 8);
    lemma_le_value_of_bytes(meta.max_ts as nat, 8);
    assert(symbol_field(meta.symbol).len() == SYMBOL_CAPACITY);
    assert(h.len() == HEADER_SIZE);
    assert(all.subrange(0, 4) =~= magic());
    assert(all[4] == VERSION);
    assert(all[5] == sym.len() as u8);
    assert(all.subrange(6, 6 + all[5]) =~= sym);
    assert(all.subrange(26, 34) =~= le_bytes(meta.count as nat, 8));
    assert(all.subrange(34, 42) =~= le_bytes(meta.min_ts as nat, 8));
    assert(all.subrange(42, 50) =~= le_bytes(meta.max_ts as nat, 8));
    encode_utf8_valid_utf8(meta.symbol);
    encode_utf8_decode_utf8(meta.symbol);
    assert(all.skip(HEADER_SIZE as int) =~= rest);
}

/// What a header says depends on its 50 bytes alone.
pub proof fn lemma_header_is_prefix(bytes: Seq<u8>)
    requires
        bytes.len() >= HEADER_SIZE,
    ensures
        parse_header(bytes) == parse_header(bytes.subrange(0, HEADER_SIZE as int)),
{
    let head = bytes.subrange(0, HEADER_SIZE as int);
    assert(head.subrange(0, 4) =~= bytes.subrange(0, 4));
    assert(head[4] == bytes[4]);
    assert(head[5] == bytes[5]);
    if bytes[5] <= SYMBOL_CAPACITY {
        assert(head.subrange(6, 6 + head[5]) =~= bytes.subrange(6, 6 + bytes[5]));
    }
    assert(head.subrange(26, 34) =~= bytes.subrange(26, 34));
    assert(head.subrange(34, 42) =~= bytes.subrange(34, 42));
    assert(head.subrange(42, 50) =~= bytes.subrange(42, 50));
}

/// A body is as long as its records, and each record is where it belongs.
pub proof fn lemma_body_records(updates: Seq<Update>)
    ensures
        body_bytes(updates).len() == updates.len() * RECORD_SIZE,
        forall|i: int|
            0 <= i < updates.len() ==> #[trigger] record_at(body_bytes(updates), i) == record_bytes(
                updates[i],
            ),
        records_ok(body_bytes(updates), updates.len()),
        records(body_bytes(updates), updates.len()) == updates,
{
    let body = body_bytes(updates);
    assert forall|i: int| 0 <= i < updates.len() implies #[trigger] record_at(body, i)
        == record_bytes(updates[i]) by {
        lemma_record_round_trip(updates[i]);
        let r = record_at(body, i);
        assert(r.len() == RECORD_SIZE);
        assert forall|j: int| 0 <= j < RECORD_SIZE implies r[j] == record_bytes(updates[i])[j] by {
            let k = i * RECORD_SIZE as int + j;
            assert(k / RECORD_SIZE as int == i);
            assert(k % RECORD_SIZE as int == j);
        }
        assert(r =~= record_bytes(updates[i]));
    }
    assert forall|i: int| 0 <= i < updates.len() implies (#[trigger] parse_record(
        record_at(body, i),
    )) == Some(updates[i]) by {
        lemma_record_round_trip(updates[i]);
    }
    assert(records(body, updates.len()) =~= updates);
}

/// One more update makes the body longer by that update's canonical form.
pub proof fn lemma_body_push(updates: Seq<Update>, u: Update)
    ensures
        body_bytes(updates.push(u)) == body_bytes(updates) + record_bytes(u),
{
    let a = body_bytes(updates.push(u));
    let b = body_bytes(updates) + record_bytes(u);
    lemma_record_round_trip(u);
    assert(a.len() == b.len());
    assert forall|k: int| 0 <= k < a.len() implies a[k] == b[k] by {
        let i = k / RECORD_SIZE as int;
        if k < updates.len() * RECORD_SIZE {
            assert(i < updates.len());
            assert(updates.push(u)[i] == updates[i]);
        } else {
            assert(i == updates.len());
            assert(k % RECORD_SIZE as int == k - updates.len() * RECORD_SIZE);
        }
    }
    assert(a =~= b);
}

/// Reading a written file gives back the updates that were written, in
/// the order in which they were written; under a limit, the first so many.
pub proof fn lemma_round_trip(symbol: Seq<char>, updates: Seq<Update>, limit: Option<usize>)
    requires
        valid_symbol(symbol),
        updates.len() <= u64::MAX,
    ensures
        decode_spec(file_bytes(symbol, updates), limit) == Some(
            updates.take(records_wanted(updates.len() as u64, limit) as int),
        ),
        decode_spec(file_bytes(symbol, updates), None) == Some(updates),
{
    let meta = metadata_for(symbol, updates);
    let body = body_bytes(updates);
    lemma_header_round_trip(meta, body);
    lemma_body_records(updates);
    let n = records_wanted(meta.count, limit);
    assert(records(body, n) =~= updates.take(n as int));
    assert(updates.take(updates.len() as int) =~= updates);
}

/// The header of a written file counts the updates that reading it gives
/// and names the `ts` of the first and of the last of them.
pub proof fn lemma_metadata_consistent(symbol: Seq<char>, updates: Seq<Update>)
    requires
        valid_symbol(symbol),
        updates.len() <= u64::MAX,
    ensures
        ({
            let file = file_bytes(symbol, updates);
            let meta = parse_header(file)->0;
            let read = decode_spec(file, None)->0;
            &&& parse_header(file) is Some
            &&& decode_spec(file, None) is Some
            &&& meta.symbol == symbol
            &&& meta.count == read.len()
            &&& read.len() > 0 ==> meta.min_ts == read.first().ts && meta.max_ts == read.last().ts
        }),
{
    lemma_round_trip(symbol, updates, None);
    lemma_header_round_trip(metadata_for(symbol, updates), body_bytes(updates));
}

/// Updates written in order are read in order.
pub proof fn lemma_order_preserved(symbol: Seq<char>, updates: Seq<Update>)
    requires
        valid_symbol(symbol),
        updates.len() <= u64::MAX,
        sorted(updates),
    ensures
        decode_spec(file_bytes(symbol, updates), None) is Some,
        sorted(decode_spec(file_bytes(symbol, updates), None)->0),
{
    lemma_round_trip(symbol, updates, None);
}

/// `String::from_utf8`: the text that `bytes` spell, when they are valid
/// UTF-8, and nothing when they are not.
#[verifier::external_body]
fn string_from_utf8(bytes: Vec<u8>) -> (text: Option<String>)
    ensures
        text is Some <==> valid_utf8(bytes@),
        text is Some ==> text->0@ == decode_utf8(bytes@),
{
    String::from_utf8(bytes).ok()
}

/// Reads the header of a file from its first 50 bytes; what follows them
/// is not looked at.
pub fn read_meta(bytes: &[u8]) -> (r: Result<Metadata, Error>)
    ensures
        match r {
            Ok(meta) => parse_header(bytes@) == Some(meta@),
            Err(e) => e is CorruptFile && parse_header(bytes@) is None,
        },
{
    if bytes.len() < HEADER_SIZE {
        return Err(Error::CorruptFile);
    }
    if bytes[0] != 0x44 || bytes[1] != 0x54 || bytes[2] != 0x46 || bytes[3] != 0x90 {
        assert(bytes@.subrange(0, 4)[0] == bytes@[0]);
        assert(bytes@.subrange(0, 4)[1] == bytes@[1]);
        assert(bytes@.subrange(0, 4)[2] == bytes@[2]);
        assert(bytes@.subrange(0, 4)[3] == bytes@[3]);
        return Err(Error::CorruptFile);
    }
    assert(bytes@.subrange(0, 4) =~= magic());
    if bytes[4] != VERSION {
        return Err(Error::CorruptFile);
    }
    let len: u8 = bytes[5];
    if len as usize > SYMBOL_CAPACITY {
        return Err(Error::CorruptFile);
    }
    let field = slice_subrange(bytes, 6, 6 + len as usize);
    let owned = vstd::slice::slice_to_vec(field);
    match string_from_utf8(owned) {
        None => Err(Error::CorruptFile),
        Some(symbol) => {
            let count = get_u64(bytes, 26);
            let min_ts = get_u64(bytes, 34);
            let max_ts = get_u64(bytes, 42);
            Ok(Metadata { symbol, count, min_ts, max_ts })
        },
    }
}

/// Whether `symbol` fits the header.
pub fn is_valid_symbol(symbol: &str) -> (ok: bool)
    ensures
        ok == valid_symbol(symbol@),
{
    let bytes = symbol.as_bytes();
    if bytes.len() > SYMBOL_CAPACITY {
        return false;
    }
    let mut i: usize = 0;
    while i < bytes.len()
        invariant
            i <= bytes@.len(),
            bytes@ == encode_utf8(symbol@),
            forall|j: int| 0 <= j < i ==> allowed_byte(#[trigger] bytes@[j]),
        decreases bytes@.len() - i,
    {
        let b: u8 = bytes[i];
        if b < 0x20 || b == 0x7f {
            return false;
        }
        i += 1;
    }
    true
}

/// Writes a file: the header for `updates`, then the updates in the order
/// given. Fails with `InvalidSymbol`, and only then, when the symbol does
/// not fit the header.
pub fn encode(symbol: &str, updates: &Vec<Update>) -> (r: Result<Vec<u8>, Error>)
    ensures
        match r {
            Ok(bytes) => valid_symbol(symbol@) && bytes@ == file_bytes(symbol@, updates@),
            Err(e) => e is InvalidSymbol && !valid_symbol(symbol@),
        },
{
    if !is_valid_symbol(symbol) {
        return Err(Error::InvalidSymbol);
    }
    let name = symbol.as_bytes();
    let n: usize = updates.len();
    let ghost meta = metadata_for(symbol@, updates@);
    let mut out: Vec<u8> = Vec::new();
    out.push(0x44);
    out.push(0x54);
    out.push(0x46);
    out.push(0x90);
    out.push(VERSION);
    out.push(name.len() as u8);
    out.extend_from_slice(name);
    let mut pad: usize = name.len();
    while pad < SYMBOL_CAPACITY
        invariant
            name@.len() <= pad <= SYMBOL_CAPACITY,
            name@ == encode_utf8(symbol@),
            out@ == magic() + seq![VERSION] + seq![name@.len() as u8] + name@ + Seq::new(
                (pad - name@.len()) as nat,
                |i: int| 0u8,
            ),
        decreases SYMBOL_CAPACITY - pad,
    {
        out.push(0);
        pad += 1;
        assert(out@ =~= magic() + seq![VERSION] + seq![name@.len() as u8] + name@ + Seq::new(
            (pad - name@.len()) as nat,
            |i: int| 0u8,
        ));
    }
    put_u64(&mut out, n as u64);
    put_u64(&mut out, if n == 0 { 0 } else { updates[0].ts });
    put_u64(&mut out, if n == 0 { 0 } else { updates[n - 1].ts });
    assert(out@ =~= header_bytes(meta));
    let mut i: usize = 0;
    assert(body_bytes(updates@.take(0)) =~= Seq::<u8>::empty());
    while i < n
        invariant
            i <= n,
            n == updates@.len(),
            out@ =~= header_bytes(meta) + body_bytes(updates@.take(i as int)),
        decreases n - i,
    {
        proof {
            lemma_body_push(updates@.take(i as int), updates@[i as int]);
            assert(updates@.take(i as int).push(updates@[i as int]) =~= updates@.take(i + 1));
        }
        updates[i].write_to(&mut out);
        i += 1;
    }
    assert(updates@.take(n as int) =~= updates@);
    Ok(out)
}

/// Reads the updates of a file: all of them, or the first `limit`. Fails
/// with `CorruptFile`, and only then, when the header is bad, the body is
/// not as long as the header's count says, or a record that is read is ill
/// formed.
pub fn decode(bytes: &[u8], limit: Option<usize>) -> (r: Result<Vec<Update>, Error>)
    ensures
        match r {
            Ok(updates) => decode_spec(bytes@, limit) == Some(updates@),
            Err(e) => e is CorruptFile && decode_spec(bytes@, limit) is None,
        },
{
    let meta = match read_meta(bytes) {
        Ok(meta) => meta,
        Err(_) => {
            return Err(Error::CorruptFile);
        },
    };
    let ghost body = bytes@.skip(HEADER_SIZE as int);
    let body_len: usize = bytes.len() - HEADER_SIZE;
    if body_len % RECORD_SIZE != 0 || (body_len / RECORD_SIZE) as u64 != meta.count {
        return Err(Error::CorruptFile);
    }
    let count: usize = body_len / RECORD_SIZE;
    let n: usize = match limit {
        Some(l) => if l < count {
            l
        } else {
            count
        },
        None => count,
    };
    assert(n == records_wanted(meta.count, limit));
    let mut out: Vec<Update> = Vec::new();
    let mut i: usize = 0;
    while i < n
        invariant
            i <= n <= count,
            bytes@.len() <= usize::MAX,
            parse_header(bytes@) == Some(meta@),
            count == meta.count,
            n == records_wanted(meta.count, limit),
            count * RECORD_SIZE + HEADER_SIZE == bytes@.len(),
            body == bytes@.skip(HEADER_SIZE as int),
            records_ok(body, i as nat),
            out@ =~= records(body, i as nat),
        decreases n - i,
    {
        let at: usize = HEADER_SIZE + i * RECORD_SIZE;
        let record = slice_subrange(bytes, at, at + RECORD_SIZE);
        assert(record@ =~= record_at(body, i as int));
        match Update::from_bytes(record) {
            None => {
                assert(!records_ok(body, n as nat));
                return Err(Error::CorruptFile);
            },
            Some(u) => {
                out.push(u);
            },
        }
        i += 1;
    }
    Ok(out)
}

/// The range `[file_min_ts, file_max_ts]` of a file and the window
/// `[min_ts, max_ts]` have a moment in common. Both ends count.
pub open spec fn overlaps(min_ts: u64, max_ts: u64, file_min_ts: u64, file_max_ts: u64) -> bool {
    file_min_ts <= max_ts && file_max_ts >= min_ts
}

/// Whether a file's range and the window have a moment in common.
pub fn within_range(min_ts: u64, max_ts: u64, file_min_ts: u64, file_max_ts: u64) -> (r: bool)
    ensures
        r == overlaps(min_ts, max_ts, file_min_ts, file_max_ts),
{
    file_min_ts <= max_ts && file_max_ts >= min_ts
}

/// The updates of a file with `min_ts <= ts <= max_ts`, in the file's
/// order. A file whose header names a range outside the window gives none,
/// and its body is not read. `None` where the file is corrupt.
pub open spec fn range_spec(bytes: Seq<u8>, min_ts: u64, max_ts: u64) -> Option<Seq<Update>> {
    match parse_header(bytes) {
        None => None,
        Some(meta) => if !overlaps(min_ts, max_ts, meta.min_ts, meta.max_ts) {
            Some(Seq::empty())
        } else {
            match decode_spec(bytes, None) {
                None => None,
                Some(all) => Some(all.filter(ts_within(min_ts as int, max_ts as int))),
            }
        },
    }
}

/// The updates of a file that fall into the window `[min_ts, max_ts]`.
/// Fails with `CorruptFile`, and only then, when the header is bad or,
/// for a file that the header does not rule out, the body is.
pub fn get_range_in_file(bytes: &[u8], min_ts: u64, max_ts: u64) -> (r: Result<Vec<Update>, Error>)
    ensures
        match r {
            Ok(updates) => range_spec(bytes@, min_ts, max_ts) == Some(updates@),
            Err(e) => e is CorruptFile && range_spec(bytes@, min_ts, max_ts) is None,
        },
{
    let meta = match read_meta(bytes) {
        Ok(meta) => meta,
        Err(_) => {
            return Err(Error::CorruptFile);
        },
    };
    if !within_range(min_ts, max_ts, meta.min_ts, meta.max_ts) {
        return Ok(Vec::new());
    }
    match decode(bytes, None) {
        Ok(all) => Ok(select(&all, min_ts as i128, max_ts as i128)),
        Err(_) => Err(Error::CorruptFile),
    }
}

/// A file as the writer makes it of updates in order: it reads, its
/// updates are in ascending order, and its header counts them and names
/// the `ts` of the first and of the last of them.
pub open spec fn well_formed(bytes: Seq<u8>) -> bool {
    match (parse_header(bytes), decode_spec(bytes, None)) {
        (Some(meta), Some(updates)) => sorted(updates) && meta == metadata_for(
            meta.symbol,
            updates,
        ),
        _ => false,
    }
}

/// What the writer makes of updates in order is well formed.
pub proof fn lemma_written_file_is_well_formed(symbol: Seq<char>, updates: Seq<Update>)
    requires
        valid_symbol(symbol),
        updates.len() <= u64::MAX,
        sorted(updates),
    ensures
        well_formed(file_bytes(symbol, updates)),
{
    lemma_round_trip(symbol, updates, None);
    lemma_header_round_trip(metadata_for(symbol, updates), body_bytes(updates));
}

/// Whether a file is well formed: whether its body is in order and its
/// header agrees with its body.
pub fn is_well_formed(bytes: &[u8]) -> (ok: bool)
    ensures
        ok == well_formed(bytes@),
{
    let meta = match read_meta(bytes) {
        Ok(meta) => meta,
        Err(_) => {
            return false;
        },
    };
    let updates = match decode(bytes, None) {
        Ok(updates) => updates,
        Err(_) => {
            return false;
        },
    };
    let n: usize = updates.len();
    let min_ts: u64 = if n == 0 {
        0
    } else {
        updates[0].ts
    };
    let max_ts: u64 = if n == 0 {
        0
    } else {
        updates[n - 1].ts
    };
    is_sorted(&updates) && meta.min_ts == min_ts && meta.max_ts == max_ts
}

} // verus!
