//! The merge engine: several files of one symbol, overlapping or adjacent
//! in time, become one file in which no update of an overlap occurs twice.

use crate::dtf::{decode, decode_spec, encode, file_bytes, valid_symbol, Metadata};
use crate::error::{texts, Error, ErrorModel};
use crate::files::InputFile;
use crate::order::{
    ascending, insert_unique, is_sorted_distinct, keys, lemma_push_contains,
    lemma_sorted_distinct_is, sorted_distinct,
};
use crate::update::{lists, select, ts_within, Update};
use vstd::prelude::*;

verus! {

/// Milliseconds between the end of `a` and the start of `b`; zero where
/// they touch or overlap.
pub open spec fn gap_between(a: InputFile, b: InputFile) -> int {
    if b.metadata.min_ts > a.metadata.max_ts {
        b.metadata.min_ts - a.metadata.max_ts
    } else {
        0
    }
}

/// Milliseconds between the end of file `i` and the start of the file
/// after it.
pub open spec fn gap_after(files: Seq<InputFile>, i: int) -> int {
    gap_between(files[i], files[i + 1])
}

/// No file starts more than `cutoff` milliseconds after the file before it
/// ends.
pub open spec fn continuous(files: Seq<InputFile>, cutoff: u64) -> bool {
    forall|i: int| 0 <= i && i + 1 < files.len() ==> #[trigger] gap_after(files, i) <= cutoff
}

/// The first place at or after `from` whose file is followed by a gap
/// wider than `cutoff`.
pub open spec fn first_gap(files: Seq<InputFile>, cutoff: u64, from: int) -> Option<int>
    decreases files.len() - from,
{
    if from < 0 || from + 1 >= files.len() {
        None
    } else if gap_after(files, from) > cutoff {
        Some(from)
    } else {
        first_gap(files, cutoff, from + 1)
    }
}

/// The symbols of `files`, in the order of the files.
pub open spec fn symbols(files: Seq<InputFile>) -> Seq<Seq<char>> {
    Seq::new(files.len(), |i: int| files[i].metadata.symbol@)
}

/// The symbols of `files`, each once, in ascending order.
pub open spec fn distinct_symbols(files: Seq<InputFile>) -> Seq<Seq<char>> {
    sorted_distinct::<String>(symbols(files))
}

/// The updates of `a` and `b`, each once, in ascending order.
pub open spec fn union_sorted(a: Seq<Update>, b: Seq<Update>) -> Seq<Update> {
    sorted_distinct::<Update>(a + b)
}

/// The `min_ts` of the file after `i`, or one more than the `max_ts` of
/// file `i` where it is the last.
pub open spec fn next_min_ts(files: Seq<InputFile>, i: int) -> int {
    if i + 1 < files.len() {
        files[i + 1].metadata.min_ts as int
    } else {
        files[i].metadata.max_ts + 1
    }
}

/// What the merge still gives out from file `i` on, when the last file
/// taken ended at `prev_max` and left `carry` for its successor.
///
/// A file without updates is passed over. Of any other file, the updates
/// up to `prev_max` are united with `carry`, without repeats and in
/// ascending order; then come the updates between `prev_max` and the start
/// of the next file; those from the start of the next file on are carried.
pub open spec fn merge_from(
    files: Seq<InputFile>,
    bodies: Seq<Seq<Update>>,
    i: int,
    prev_max: int,
    carry: Seq<Update>,
) -> Seq<Update>
    decreases files.len() - i,
{
    if i < 0 || i >= files.len() {
        carry
    } else if bodies[i].len() == 0 {
        merge_from(files, bodies, i + 1, prev_max, carry)
    } else {
        let next_min = next_min_ts(files, i);
        let left = bodies[i].filter(ts_within(0, prev_max));
        let middle = bodies[i].filter(ts_within(prev_max + 1, next_min - 1));
        let right = bodies[i].filter(ts_within(next_min, u64::MAX as int));
        union_sorted(carry, left) + middle + merge_from(
            files,
            bodies,
            i + 1,
            files[i].metadata.max_ts as int,
            right,
        )
    }
}

/// The merged updates of `files`, taken in the order given, where
/// `bodies[i]` holds the updates of `files[i]`.
pub open spec fn merge_spec(files: Seq<InputFile>, bodies: Seq<Seq<Update>>) -> Seq<Update> {
    merge_from(files, bodies, 0, 0, Seq::empty())
}

/// Whether the files, in the order given, follow each other without a gap
/// wider than `discontinuity_cutoff` milliseconds.
pub fn files_are_continuous(files: &Vec<InputFile>, discontinuity_cutoff: u64) -> (ok: bool)
    ensures
        ok == continuous(files@, discontinuity_cutoff),
{
    let n: usize = files.len();
    let mut i: usize = 1;
    while i < n
        invariant
            1 <= i,
            n == files@.len(),
            forall|k: int|
                0 <= k && k + 1 < i ==> #[trigger] gap_after(files@, k) <= discontinuity_cutoff,
        decreases n - i,
    {
        let prev = &files[i - 1];
        let current = &files[i];
        if current.metadata.min_ts > prev.metadata.max_ts && current.metadata.min_ts
            - prev.metadata.max_ts > discontinuity_cutoff {
            assert(gap_after(files@, i - 1) > discontinuity_cutoff);
            return false;
        }
        i += 1;
    }
    true
}

/// The updates of `a` and `b`, each once, in ascending order.
pub fn sorted_union(a: &Vec<Update>, b: &Vec<Update>) -> (united: Vec<Update>)
    ensures
        united@ == union_sorted(a@, b@),
{
    let ghost all = a@ + b@;
    let mut united: Vec<Update> = Vec::new();
    let mut i: usize = 0;
    assert(keys(united@) =~= united@);
    while i < a.len()
        invariant
            i <= a@.len(),
            all == a@ + b@,
            ascending::<Update>(keys(united@)),
            forall|u: Update| keys(united@).contains(u) <==> all.take(i as int).contains(u),
        decreases a@.len() - i,
    {
        proof {
            lemma_push_contains(all.take(i as int), all[i as int]);
            assert(all.take(i + 1) =~= all.take(i as int).push(all[i as int]));
        }
        insert_unique(&mut united, a[i]);
        i += 1;
    }
    let mut j: usize = 0;
    while j < b.len()
        invariant
            j <= b@.len(),
            all == a@ + b@,
            ascending::<Update>(keys(united@)),
            forall|u: Update|
                keys(united@).contains(u) <==> all.take((a@.len() + j) as int).contains(u),
        decreases b@.len() - j,
    {
        proof {
            let at: int = a@.len() + j;
            lemma_push_contains(all.take(at), all[at]);
            assert(all.take(at + 1) =~= all.take(at).push(all[at]));
        }
        insert_unique(&mut united, b[j]);
        j += 1;
    }
    proof {
        assert(all.take((a@.len() + b@.len()) as int) =~= all);
        assert(keys(united@) =~= united@);
        assert(is_sorted_distinct::<Update>(all, united@));
        lemma_sorted_distinct_is::<Update>(all, united@);
    }
    united
}

/// Merges files that are given in the order in which they are to be
/// taken, each with its updates. The ranges of the files are those that
/// their headers name.
pub fn merge_updates(files: &Vec<InputFile>, bodies: &Vec<Vec<Update>>) -> (merged: Vec<Update>)
    requires
        files@.len() == bodies@.len(),
    ensures
        merged@ == merge_spec(files@, lists(bodies@)),
{
    let n: usize = files.len();
    let ghost views = lists(bodies@);
    let mut joined: Vec<Update> = Vec::new();
    let mut carry: Vec<Update> = Vec::new();
    let mut prev_max: u64 = 0;
    let mut i: usize = 0;
    assert(joined@ + merge_from(files@, views, 0, 0, carry@) =~= merge_spec(files@, views));
    while i < n
        invariant
            i <= n,
            n == files@.len(),
            n == bodies@.len(),
            views == lists(bodies@),
            joined@ + merge_from(files@, views, i as int, prev_max as int, carry@) == merge_spec(
                files@,
                views,
            ),
        decreases n - i,
    {
        let body = &bodies[i];
        assert(views[i as int] == body@);
        if body.len() > 0 {
            let next_min: i128 = if i + 1 < n {
                files[i + 1].metadata.min_ts as i128
            } else {
                files[i].metadata.max_ts as i128 + 1
            };
            let left = select(body, 0, prev_max as i128);
            let mut middle = select(body, prev_max as i128 + 1, next_min - 1);
            let right = select(body, next_min, u64::MAX as i128);
            let mut united = sorted_union(&carry, &left);
            let ghost before = joined@;
            let ghost rest = merge_from(
                files@,
                views,
                i + 1,
                files@[i as int].metadata.max_ts as int,
                right@,
            );
            assert(merge_from(files@, views, i as int, prev_max as int, carry@) == united@
                + middle@ + rest);
            let ghost united_view = united@;
            let ghost middle_view = middle@;
            joined.append(&mut united);
            joined.append(&mut middle);
            assert(joined@ + rest =~= before + (united_view + middle_view + rest));
            carry = right;
            prev_max = files[i].metadata.max_ts;
        }
        i += 1;
    }
    joined.append(&mut carry);
    joined
}

/// The symbols of `files`, each once, in ascending order.
pub fn observed_symbols(files: &Vec<InputFile>) -> (observed: Vec<String>)
    ensures
        texts(observed@) == distinct_symbols(files@),
{
    let ghost all = symbols(files@);
    let mut observed: Vec<String> = Vec::new();
    let mut i: usize = 0;
    while i < files.len()
        invariant
            i <= files@.len(),
            all == symbols(files@),
            ascending::<String>(keys(observed@)),
            forall|t: Seq<char>| keys(observed@).contains(t) <==> all.take(i as int).contains(t),
        decreases files@.len() - i,
    {
        proof {
            lemma_push_contains(all.take(i as int), all[i as int]);
            assert(all.take(i + 1) =~= all.take(i as int).push(all[i as int]));
        }
        insert_unique(&mut observed, files[i].metadata.symbol.clone());
        i += 1;
    }
    proof {
        assert(all.take(files@.len() as int) =~= all);
        assert(is_sorted_distinct::<String>(all, keys(observed@)));
        lemma_sorted_distinct_is::<String>(all, keys(observed@));
        assert(texts(observed@) =~= keys(observed@));
    }
    observed
}

/// The file with the range of its body: where the file has updates, its
/// header is taken to name the `ts` of the first and of the last of them,
/// whatever it says.
pub open spec fn with_body_range(file: InputFile, body: Seq<Update>) -> InputFile {
    if body.len() == 0 {
        file
    } else {
        InputFile {
            filename: file.filename,
            metadata: Metadata {
                symbol: file.metadata.symbol,
                count: file.metadata.count,
                min_ts: body.first().ts,
                max_ts: body.last().ts,
            },
        }
    }
}

/// Every file with the range of its body.
pub open spec fn with_body_ranges(files: Seq<InputFile>, bodies: Seq<Seq<Update>>) -> Seq<
    InputFile,
> {
    Seq::new(files.len(), |k: int| with_body_range(files[k], bodies[k]))
}

/// Every one of `data` reads as a file.
pub open spec fn all_readable(data: Seq<Seq<u8>>) -> bool {
    forall|k: int| 0 <= k < data.len() ==> (#[trigger] decode_spec(data[k], None)) is Some
}

/// The updates of each of `data`.
pub open spec fn all_updates(data: Seq<Seq<u8>>) -> Seq<Seq<Update>> {
    Seq::new(data.len(), |k: int| decode_spec(data[k], None)->0)
}

/// The bytes of each vector.
pub open spec fn content_views(contents: Seq<Vec<u8>>) -> Seq<Seq<u8>> {
    Seq::new(contents.len(), |i: int| contents[i]@)
}

/// What combining gives: the merged file, or the first of these failures.
///
/// - `InvalidArgs`: fewer than two files, or not one content for each file.
/// - `SymbolMismatch`: the files name more than one symbol.
/// - `Discontinuous`: in the list as given, some file is followed by a gap
///   wider than `cutoff`; the error names the first such pair.
/// - `CorruptFile`: some content does not read as a file.
/// - `InvalidSymbol`: the symbol does not fit a header.
///
/// The files are merged in the order given. Gaps are looked for between
/// the ranges that the headers given name; the merge itself goes by the
/// range of each file's body.
pub open spec fn combine_spec(files: Seq<InputFile>, contents: Seq<Seq<u8>>, cutoff: u64) -> Result<
    Seq<u8>,
    ErrorModel,
> {
    if files.len() < 2 || contents.len() != files.len() {
        Err(ErrorModel::InvalidArgs)
    } else if distinct_symbols(files).len() > 1 {
        Err(ErrorModel::SymbolMismatch { observed: distinct_symbols(files) })
    } else if first_gap(files, cutoff, 0) is Some {
        let k = first_gap(files, cutoff, 0)->0;
        Err(
            ErrorModel::Discontinuous {
                before: files[k].filename@,
                after: files[k + 1].filename@,
                gap: gap_after(files, k) as u64,
            },
        )
    } else if !all_readable(contents) {
        Err(ErrorModel::CorruptFile)
    } else if !valid_symbol(files[0].metadata.symbol@) {
        Err(ErrorModel::InvalidSymbol)
    } else {
        Ok(
            file_bytes(
                files[0].metadata.symbol@,
                merge_spec(
                    with_body_ranges(files, all_updates(contents)),
                    all_updates(contents),
                ),
            ),
        )
    }
}

/// Combines files of one symbol into one file. `contents[i]` holds the
/// bytes of `files[i]`. The files are taken in the order given; the caller
/// puts them in order first (see `order_for_merge`). Where a header
/// disagrees with its body on the range of the file, the body is trusted.
/// Nothing is written on failure: the caller gets the bytes of the new
/// file, or the error and no bytes.
#[verifier::loop_isolation(false)]
pub fn combine_files(
    files: &Vec<InputFile>,
    contents: &Vec<Vec<u8>>,
    discontinuity_cutoff: u64,
) -> (r: Result<Vec<u8>, Error>)
    ensures
        match r {
            Ok(bytes) => combine_spec(files@, content_views(contents@), discontinuity_cutoff)
                == Result::<Seq<u8>, ErrorModel>::Ok(bytes@),
            Err(e) => combine_spec(files@, content_views(contents@), discontinuity_cutoff)
                == Result::<Seq<u8>, ErrorModel>::Err(e@),
        },
{
    let n: usize = files.len();
    if n < 2 || contents.len() != n {
        return Err(Error::InvalidArgs);
    }
    let observed = observed_symbols(files);
    if observed.len() > 1 {
        return Err(Error::SymbolMismatch { observed });
    }
    let mut g: usize = 0;
    while g + 1 < n
        invariant
            g < n,
            first_gap(files@, discontinuity_cutoff, 0) == first_gap(
                files@,
                discontinuity_cutoff,
                g as int,
            ),
        decreases n - g,
    {
        let before = &files[g];
        let after = &files[g + 1];
        if after.metadata.min_ts > before.metadata.max_ts && after.metadata.min_ts
            - before.metadata.max_ts > discontinuity_cutoff {
            return Err(
                Error::Discontinuous {
                    before: before.filename.clone(),
                    after: after.filename.clone(),
                    gap: after.metadata.min_ts - before.metadata.max_ts,
                },
            );
        }
        g += 1;
    }
    let ghost data = content_views(contents@);
    let ghost wanted = with_body_ranges(files@, all_updates(data));
    let mut bodies: Vec<Vec<Update>> = Vec::new();
    let mut trusted: Vec<InputFile> = Vec::new();
    let mut d: usize = 0;
    while d < n
        invariant
            d <= n,
            bodies@.len() == d,
            trusted@.len() == d,
            forall|j: int|
                0 <= j < d ==> decode_spec(#[trigger] data[j], None) == Some(bodies@[j]@),
            forall|j: int| 0 <= j < d ==> #[trigger] trusted@[j] == wanted[j],
        decreases n - d,
    {
        assert(data[d as int] == contents@[d as int]@);
        let body = match decode(contents[d].as_slice(), None) {
            Ok(body) => body,
            Err(_) => {
                return Err(Error::CorruptFile);
            },
        };
        let given = &files[d];
        let len: usize = body.len();
        let file = if len == 0 {
            given.clone()
        } else {
            InputFile {
                filename: given.filename.clone(),
                metadata: Metadata {
                    symbol: given.metadata.symbol.clone(),
                    count: given.metadata.count,
                    min_ts: body[0].ts,
                    max_ts: body[len - 1].ts,
                },
            }
        };
        assert(file == with_body_range(files@[d as int], body@));
        bodies.push(body);
        trusted.push(file);
        d += 1;
    }
    assert(all_readable(data));
    assert(lists(bodies@) =~= all_updates(data));
    assert(trusted@ =~= wanted);
    let merged = merge_updates(&trusted, &bodies);
    match encode(files[0].metadata.symbol.as_str(), &merged) {
        Ok(bytes) => Ok(bytes),
        Err(_) => Err(Error::InvalidSymbol),
    }
}

} // verus!
