//! Batches of a file's updates, and the splitter that writes each batch
//! to a file of its own.

use crate::dtf::{decode, decode_spec, encode, file_bytes, parse_header, read_meta, valid_symbol};
use crate::error::{Error, ErrorModel};
use crate::update::{lists, Update, RECORD_SIZE};
use vstd::prelude::*;
use vstd::slice::{slice_subrange, slice_to_vec};
use vstd::string::StringExecFns;

verus! {

/// `updates` cut into batches of `size`: every batch but the last holds
/// `size` updates, the last holds what is left, and no batch is empty.
pub open spec fn batches(updates: Seq<Update>, size: nat) -> Seq<Seq<Update>>
    decreases updates.len(),
{
    if size == 0 || updates.len() == 0 {
        Seq::empty()
    } else if updates.len() <= size {
        seq![updates]
    } else {
        seq![updates.take(size as int)] + batches(updates.skip(size as int), size)
    }
}

/// How many updates a batch holds whose canonical form is to take about
/// `target_byte_size` bytes: as many as fit, and one at least.
pub open spec fn updates_per_chunk(target_byte_size: u64) -> nat {
    if target_byte_size < RECORD_SIZE {
        1
    } else {
        (target_byte_size / RECORD_SIZE as u64) as nat
    }
}

/// The batches hold the updates, in order, and nothing else; none of them
/// is empty or longer than `size`, and only the last may be shorter.
pub proof fn lemma_batches(updates: Seq<Update>, size: nat)
    requires
        size > 0,
    ensures
        batches(updates, size).flatten() == updates,
        forall|k: int|
            0 <= k < batches(updates, size).len() ==> 0 < (#[trigger] batches(
                updates,
                size,
            )[k]).len() <= size,
        forall|k: int|
            0 <= k < batches(updates, size).len() - 1 ==> (#[trigger] batches(
                updates,
                size,
            )[k]).len() == size,
    decreases updates.len(),
{
    let all = batches(updates, size);
    if updates.len() == 0 {
        assert(all.flatten() =~= updates);
    } else if updates.len() <= size {
        assert(all.drop_first() =~= Seq::<Seq<Update>>::empty());
        assert(all.drop_first().flatten() =~= Seq::<Update>::empty());
        assert(all.first() == updates);
        assert(all.flatten() =~= updates);
    } else {
        let head = updates.take(size as int);
        let tail = updates.skip(size as int);
        let rest = batches(tail, size);
        lemma_batches(tail, size);
        assert(all.first() == head);
        assert(all.drop_first() =~= rest);
        assert(all.flatten() =~= head + rest.flatten());
        assert(head + tail =~= updates);
        assert forall|k: int| 0 <= k < all.len() implies 0 < (#[trigger] all[k]).len() <= size by {
            if k > 0 {
                assert(all[k] == rest[k - 1]);
            }
        }
        assert forall|k: int| 0 <= k < all.len() - 1 implies (#[trigger] all[k]).len() == size by {
            if k > 0 {
                assert(all[k] == rest[k - 1]);
            }
        }
    }
}

/// Cuts `updates` into batches of `batch_size`.
fn cut(updates: &Vec<Update>, batch_size: usize) -> (out: Vec<Vec<Update>>)
    requires
        batch_size > 0,
    ensures
        lists(out@) == batches(updates@, batch_size as nat),
{
    let n: usize = updates.len();
    let ghost size = batch_size as nat;
    let mut out: Vec<Vec<Update>> = Vec::new();
    let mut start: usize = 0;
    proof {
        assert(updates@.skip(0) =~= updates@);
        assert(lists(out@) + batches(updates@, size) =~= batches(updates@, size));
    }
    while start < n
        invariant
            start <= n,
            n == updates@.len(),
            size == batch_size,
            size > 0,
            lists(out@) + batches(updates@.skip(start as int), size) == batches(
                updates@,
                size,
            ),
        decreases n - start,
    {
        let end: usize = if n - start <= batch_size {
            n
        } else {
            start + batch_size
        };
        let batch = slice_to_vec(slice_subrange(updates.as_slice(), start, end));
        proof {
            let left = updates@.skip(start as int);
            let before = lists(out@);
            if end == n {
                assert(batch@ =~= left);
                assert(batches(left, size) == seq![left]);
                assert(updates@.skip(end as int) =~= Seq::<Update>::empty());
                assert(batches(updates@.skip(end as int), size) =~= Seq::<Seq<Update>>::empty());
            } else {
                assert(batch@ =~= left.take(size as int));
                assert(left.skip(size as int) =~= updates@.skip(end as int));
            }
            assert(lists(out@.push(batch)) =~= before.push(batch@));
            assert(before.push(batch@) + batches(updates@.skip(end as int), size) =~= before
                + batches(left, size));
        }
        out.push(batch);
        start = end;
    }
    proof {
        assert(updates@.skip(n as int) =~= Seq::<Update>::empty());
        assert(lists(out@) + Seq::<Seq<Update>>::empty() =~= lists(out@));
    }
    out
}

/// What streaming a file gives: its updates in batches of `batch_size`.
pub open spec fn stream_spec(bytes: Seq<u8>, batch_size: usize) -> Result<
    Seq<Seq<Update>>,
    ErrorModel,
> {
    if batch_size == 0 {
        Err(ErrorModel::InvalidArgs)
    } else {
        match decode_spec(bytes, None) {
            None => Err(ErrorModel::CorruptFile),
            Some(updates) => Ok(batches(updates, batch_size as nat)),
        }
    }
}

/// The updates of a file in batches of `batch_size`, in the file's
/// order; the last batch is shorter where they do not divide evenly.
/// Fails with `InvalidArgs` for a batch size of zero, else with
/// `CorruptFile` for a corrupt file.
pub fn stream(bytes: &[u8], batch_size: usize) -> (r: Result<Vec<Vec<Update>>, Error>)
    ensures
        match r {
            Ok(out) => stream_spec(bytes@, batch_size) == Result::<
                Seq<Seq<Update>>,
                ErrorModel,
            >::Ok(lists(out@)),
            Err(e) => stream_spec(bytes@, batch_size) == Result::<
                Seq<Seq<Update>>,
                ErrorModel,
            >::Err(e@),
        },
{
    if batch_size == 0 {
        return Err(Error::InvalidArgs);
    }
    match decode(bytes, None) {
        Err(_) => Err(Error::CorruptFile),
        Ok(updates) => Ok(cut(&updates, batch_size)),
    }
}

/// Regroups a stream into batches whose canonical form takes about
/// `target_byte_size` bytes each: every batch holds as many whole updates
/// as fit into that size, and one at least; the last may hold fewer.
pub fn chunks(stream: &Vec<Vec<Update>>, target_byte_size: u64) -> (out: Vec<Vec<Update>>)
    ensures
        lists(out@) == batches(
            lists(stream@).flatten(),
            updates_per_chunk(target_byte_size),
        ),
{
    let ghost views = lists(stream@);
    let mut updates: Vec<Update> = Vec::new();
    let mut i: usize = 0;
    assert(views.take(0) =~= Seq::<Seq<Update>>::empty());
    while i < stream.len()
        invariant
            i <= stream@.len(),
            views == lists(stream@),
            updates@ == views.take(i as int).flatten(),
        decreases stream@.len() - i,
    {
        proof {
            views.take(i as int).lemma_flatten_push(views[i as int]);
            assert(views.take(i + 1) =~= views.take(i as int).push(views[i as int]));
        }
        updates.extend_from_slice(stream[i].as_slice());
        i += 1;
    }
    assert(views.take(i as int) =~= views);
    let size = chunk_len(&updates, target_byte_size);
    cut(&updates, size)
}

/// A batch size that cuts `updates` as `target_byte_size` asks.
fn chunk_len(updates: &Vec<Update>, target_byte_size: u64) -> (size: usize)
    ensures
        size > 0,
        batches(updates@, size as nat) == batches(updates@, updates_per_chunk(target_byte_size)),
{
    let per_chunk: u64 = if target_byte_size < RECORD_SIZE as u64 {
        1
    } else {
        target_byte_size / RECORD_SIZE as u64
    };
    let n: usize = updates.len();
    if per_chunk > n as u64 {
        // one batch holds everything, whatever the size beyond that
        let size: usize = if n == 0 {
            1
        } else {
            n
        };
        proof {
            lemma_one_batch(updates@, per_chunk as nat, size as nat);
        }
        size
    } else {
        per_chunk as usize
    }
}

/// Batches that are longer than the updates are all the same: one batch
/// that holds everything.
pub proof fn lemma_one_batch(updates: Seq<Update>, a: nat, b: nat)
    requires
        a >= updates.len(),
        b >= updates.len(),
        a > 0,
        b > 0,
    ensures
        batches(updates, a) == batches(updates, b),
{
}

/// The character of a decimal digit.
pub open spec fn digit_char(d: nat) -> char {
    if d == 0 {
        '0'
    } else if d == 1 {
        '1'
    } else if d == 2 {
        '2'
    } else if d == 3 {
        '3'
    } else if d == 4 {
        '4'
    } else if d == 5 {
        '5'
    } else if d == 6 {
        '6'
    } else if d == 7 {
        '7'
    } else if d == 8 {
        '8'
    } else {
        '9'
    }
}

/// `n` in decimal digits, without leading zeros.
pub open spec fn decimal(n: nat) -> Seq<char>
    decreases n,
{
    if n < 10 {
        seq![digit_char(n)]
    } else {
        decimal(n / 10).push(digit_char(n % 10))
    }
}

/// The name of piece `index` of the file with stem `stem`.
pub open spec fn piece_name(stem: Seq<char>, index: nat) -> Seq<char> {
    stem + seq!['-'] + decimal(index) + seq!['.', 'd', 't', 'f']
}

/// The text of one decimal digit.
fn digit_text(d: u8) -> (text: &'static str)
    requires
        d < 10,
    ensures
        text@ == seq![digit_char(d as nat)],
{
    proof {
        reveal_strlit("0");
        reveal_strlit("1");
        reveal_strlit("2");
        reveal_strlit("3");
        reveal_strlit("4");
        reveal_strlit("5");
        reveal_strlit("6");
        reveal_strlit("7");
        reveal_strlit("8");
        reveal_strlit("9");
    }
    let text = if d == 0 {
        "0"
    } else if d == 1 {
        "1"
    } else if d == 2 {
        "2"
    } else if d == 3 {
        "3"
    } else if d == 4 {
        "4"
    } else if d == 5 {
        "5"
    } else if d == 6 {
        "6"
    } else if d == 7 {
        "7"
    } else if d == 8 {
        "8"
    } else {
        "9"
    };
    assert(text@ =~= seq![digit_char(d as nat)]);
    text
}

/// Appends `n` in decimal digits to `out`.
fn append_decimal(out: &mut String, n: usize)
    ensures
        final(out)@ == old(out)@ + decimal(n as nat),
    decreases n,
{
    if n >= 10 {
        append_decimal(out, n / 10);
    }
    out.append(digit_text((n % 10) as u8));
    assert(out@ =~= old(out)@ + decimal(n as nat));
}

/// The name of piece `index` of the file with stem `file_stem`:
/// the stem, a hyphen, the index in decimal digits, and `.dtf`.
pub fn piece_filename(file_stem: &str, index: usize) -> (name: String)
    ensures
        name@ == piece_name(file_stem@, index as nat),
{
    let mut name = file_stem.to_owned();
    name.append("-");
    append_decimal(&mut name, index);
    name.append(".dtf");
    proof {
        reveal_strlit("-");
        reveal_strlit(".dtf");
        assert("-"@ =~= seq!['-']);
        assert(".dtf"@ =~= seq!['.', 'd', 't', 'f']);
        assert(name@ =~= piece_name(file_stem@, index as nat));
    }
    name
}

/// A file that the splitter makes: its name and its bytes.
#[derive(Debug, PartialEq, Eq)]
pub struct Piece {
    pub filename: String,
    pub bytes: Vec<u8>,
}

/// How many updates each piece holds: `batch_size` where that alone is
/// given, what fits into `file_size` bytes where that alone is given.
/// Nothing where both or neither are given, or the one given is zero.
pub open spec fn piece_size(batch_size: Option<u32>, file_size: Option<u64>) -> Option<nat> {
    match (batch_size, file_size) {
        (Some(b), None) => if b > 0 {
            Some(b as nat)
        } else {
            None
        },
        (None, Some(s)) => if s > 0 {
            Some(updates_per_chunk(s))
        } else {
            None
        },
        _ => None,
    }
}

/// The pieces that the updates of a file are split into.
pub open spec fn pieces_of(bytes: Seq<u8>, size: nat) -> Seq<Seq<Update>> {
    batches(decode_spec(bytes, None)->0, size)
}

/// What splitting gives, or the first of these failures.
///
/// - `InvalidArgs`: not just one of the two sizes is given, or it is zero.
/// - `CorruptFile`: the file is corrupt.
/// - `InvalidSymbol`: the file's symbol does not fit a header.
pub open spec fn split_outcome(
    bytes: Seq<u8>,
    batch_size: Option<u32>,
    file_size: Option<u64>,
) -> Result<Seq<Seq<Update>>, ErrorModel> {
    match piece_size(batch_size, file_size) {
        None => Err(ErrorModel::InvalidArgs),
        Some(size) => if decode_spec(bytes, None) is None {
            Err(ErrorModel::CorruptFile)
        } else if !valid_symbol(parse_header(bytes)->0.symbol) && pieces_of(bytes, size).len() > 0 {
            Err(ErrorModel::InvalidSymbol)
        } else {
            Ok(pieces_of(bytes, size))
        },
    }
}

/// Splits a file into pieces, each a file of the same symbol: `stem-0.dtf`,
/// `stem-1.dtf` and so on, which hold the updates of the file in its
/// order, `batch_size` of them each, or as many as take about `file_size`
/// bytes. Just one of the two sizes must be given.
#[verifier::loop_isolation(false)]
pub fn split(
    bytes: &[u8],
    file_stem: &str,
    batch_size: Option<u32>,
    file_size: Option<u64>,
) -> (r: Result<Vec<Piece>, Error>)
    ensures
        match r {
            Ok(pieces) => {
                &&& split_outcome(bytes@, batch_size, file_size) is Ok
                &&& pieces@.len() == split_outcome(bytes@, batch_size, file_size)->Ok_0.len()
                &&& forall|k: int|
                    0 <= k < pieces@.len() ==> {
                        &&& (#[trigger] pieces@[k]).filename@ == piece_name(file_stem@, k as nat)
                        &&& pieces@[k].bytes@ == file_bytes(
                            parse_header(bytes@)->0.symbol,
                            split_outcome(bytes@, batch_size, file_size)->Ok_0[k],
                        )
                    }
            },
            Err(e) => split_outcome(bytes@, batch_size, file_size) == Result::<
                Seq<Seq<Update>>,
                ErrorModel,
            >::Err(e@),
        },
{
    let (count, target): (u32, u64) = match (batch_size, file_size) {
        (Some(b), None) => (b, 0),
        (None, Some(s)) => (0, s),
        _ => (0, 0),
    };
    if count == 0 && target == 0 {
        return Err(Error::InvalidArgs);
    }
    let meta = match read_meta(bytes) {
        Ok(meta) => meta,
        Err(_) => {
            return Err(Error::CorruptFile);
        },
    };
    let updates = match decode(bytes, None) {
        Ok(updates) => updates,
        Err(_) => {
            return Err(Error::CorruptFile);
        },
    };
    let size: usize = if count > 0 {
        count as usize
    } else {
        chunk_len(&updates, target)
    };
    let groups = cut(&updates, size);
    let ghost wanted = pieces_of(bytes@, piece_size(batch_size, file_size)->0);
    assert(lists(groups@) == wanted);
    let mut pieces: Vec<Piece> = Vec::new();
    let mut k: usize = 0;
    while k < groups.len()
        invariant
            k <= groups@.len(),
            pieces@.len() == k,
            k > 0 ==> valid_symbol(meta.symbol@),
            forall|j: int|
                0 <= j < k ==> {
                    &&& (#[trigger] pieces@[j]).filename@ == piece_name(file_stem@, j as nat)
                    &&& pieces@[j].bytes@ == file_bytes(meta.symbol@, groups@[j]@)
                },
        decreases groups@.len() - k,
    {
        match encode(meta.symbol.as_str(), &groups[k]) {
            Err(_) => {
                return Err(Error::InvalidSymbol);
            },
            Ok(content) => {
                pieces.push(Piece { filename: piece_filename(file_stem, k), bytes: content });
            },
        }
        k += 1;
    }
    proof {
        assert forall|j: int| 0 <= j < pieces@.len() implies wanted[j] == groups@[j]@ by {
            assert(lists(groups@)[j] == groups@[j]@);
        }
    }
    Ok(pieces)
}

/// The pieces of a split hold the updates of the file, in the file's
/// order, and nothing else.
pub proof fn lemma_split_keeps_order(
    bytes: Seq<u8>,
    batch_size: Option<u32>,
    file_size: Option<u64>,
)
    requires
        split_outcome(bytes, batch_size, file_size) is Ok,
    ensures
        split_outcome(bytes, batch_size, file_size)->Ok_0.flatten() == decode_spec(bytes, None)->0,
{
    lemma_batches(decode_spec(bytes, None)->0, piece_size(batch_size, file_size)->0);
}

} // verus!
