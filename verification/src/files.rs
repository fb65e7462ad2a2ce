//! Files known by name and header, and the orders in which they are taken.
//!
//! A scan reads files in file order: by `min_ts`, then `max_ts`, then
//! `count`, then symbol, then name, then place in the list.
//!
//! A merge takes its files in the order given. The order to put them in
//! beforehand leaves a list that ascends by `min_ts` as it stands; a list
//! that does not, it puts in order by `min_ts`, then name, then place.

use crate::dtf::Metadata;
use crate::order::{
    ascending, insert_unique, is_sorted_distinct, keys, lemma_push_contains,
    lemma_sorted_distinct, lemma_sorted_distinct_is, same_keys, sorted_distinct, Rank,
    TotalOrder,
};
use crate::text::{lemma_text_order, rank_text, text_lt};
use vstd::prelude::*;

verus! {

/// A file as the merge and the scanner see it: its name and its header.
#[derive(Debug, PartialEq, Eq)]
pub struct InputFile {
    pub filename: String,
    pub metadata: Metadata,
}

impl Clone for InputFile {
    fn clone(&self) -> (copy: InputFile)
        ensures
            copy == *self,
    {
        InputFile { filename: self.filename.clone(), metadata: self.metadata.clone() }
    }
}

/// What a file is ordered by: its header, its name, and its place in the
/// list it came in.
pub struct FileKey {
    pub min_ts: u64,
    pub max_ts: u64,
    pub count: u64,
    pub symbol: String,
    pub path: String,
    pub index: usize,
}

/// A file's key as a mathematical value.
pub struct FileKeyModel {
    pub min_ts: u64,
    pub max_ts: u64,
    pub count: u64,
    pub symbol: Seq<char>,
    pub path: Seq<char>,
    pub index: usize,
}

/// The strict order of file keys, the first difference deciding.
pub open spec fn file_key_lt(a: FileKeyModel, b: FileKeyModel) -> bool {
    if a.min_ts != b.min_ts {
        a.min_ts < b.min_ts
    } else if a.max_ts != b.max_ts {
        a.max_ts < b.max_ts
    } else if a.count != b.count {
        a.count < b.count
    } else if a.symbol != b.symbol {
        text_lt(a.symbol, b.symbol)
    } else if a.path != b.path {
        text_lt(a.path, b.path)
    } else {
        a.index < b.index
    }
}

impl TotalOrder for FileKey {
    type Key = FileKeyModel;

    open spec fn key(&self) -> FileKeyModel {
        FileKeyModel {
            min_ts: self.min_ts,
            max_ts: self.max_ts,
            count: self.count,
            symbol: self.symbol@,
            path: self.path@,
            index: self.index,
        }
    }

    open spec fn key_lt(a: FileKeyModel, b: FileKeyModel) -> bool {
        file_key_lt(a, b)
    }

    proof fn lemma_strict_total(a: FileKeyModel, b: FileKeyModel, c: FileKeyModel) {
        lemma_text_order(a.symbol, b.symbol, c.symbol);
        lemma_text_order(a.symbol, b.symbol, a.symbol);
        lemma_text_order(b.symbol, c.symbol, b.symbol);
        lemma_text_order(a.path, b.path, c.path);
        lemma_text_order(a.path, b.path, a.path);
        lemma_text_order(b.path, c.path, b.path);
    }

    fn rank(&self, other: &FileKey) -> (r: Rank) {
        proof {
            lemma_text_order(self.symbol@, other.symbol@, self.symbol@);
            lemma_text_order(self.path@, other.path@, self.path@);
        }
        if self.min_ts != other.min_ts {
            if self.min_ts < other.min_ts {
                Rank::Less
            } else {
                Rank::Greater
            }
        } else if self.max_ts != other.max_ts {
            if self.max_ts < other.max_ts {
                Rank::Less
            } else {
                Rank::Greater
            }
        } else if self.count != other.count {
            if self.count < other.count {
                Rank::Less
            } else {
                Rank::Greater
            }
        } else {
            match rank_text(self.symbol.as_str(), other.symbol.as_str()) {
                Rank::Less => Rank::Less,
                Rank::Greater => Rank::Greater,
                Rank::Equal => match rank_text(self.path.as_str(), other.path.as_str()) {
                    Rank::Less => Rank::Less,
                    Rank::Greater => Rank::Greater,
                    Rank::Equal => if self.index < other.index {
                        Rank::Less
                    } else if self.index > other.index {
                        Rank::Greater
                    } else {
                        Rank::Equal
                    },
                },
            }
        }
    }
}

/// The key of the file at place `index`.
pub open spec fn file_key(file: InputFile, index: int) -> FileKeyModel {
    FileKeyModel {
        min_ts: file.metadata.min_ts,
        max_ts: file.metadata.max_ts,
        count: file.metadata.count,
        symbol: file.metadata.symbol@,
        path: file.filename@,
        index: index as usize,
    }
}

/// The keys of `files`, in the order given.
pub open spec fn file_keys(files: Seq<InputFile>) -> Seq<FileKeyModel> {
    Seq::new(files.len(), |i: int| file_key(files[i], i))
}

/// The places that `keys` name, in the ascending order of the keys.
pub open spec fn key_order(keys: Seq<FileKeyModel>) -> Seq<usize> {
    let sorted = sorted_distinct::<FileKey>(keys);
    Seq::new(sorted.len(), |k: int| sorted[k].index)
}

/// The places of `files` in the order in which the files are taken.
pub open spec fn file_order(files: Seq<InputFile>) -> Seq<usize> {
    key_order(file_keys(files))
}

/// Every key names the place at which it stands.
pub open spec fn numbered(keys: Seq<FileKeyModel>) -> bool {
    keys.len() <= usize::MAX && forall|k: int| 0 <= k < keys.len() ==> (#[trigger] keys[k]).index == k
}

/// Place `k` occurs in `order`.
pub open spec fn names(order: Seq<usize>, k: int) -> bool {
    exists|j: int| 0 <= j < order.len() && #[trigger] order[j] == k
}

/// The order of numbered keys names every place, and no other, and names
/// the places ascending by key; so it names no place twice.
pub proof fn lemma_key_order(keys: Seq<FileKeyModel>)
    requires
        numbered(keys),
    ensures
        forall|j: int| 0 <= j < key_order(keys).len() ==> (#[trigger] key_order(keys)[j]) < keys.len(),
        forall|k: int| 0 <= k < keys.len() ==> #[trigger] names(key_order(keys), k),
        forall|j: int, l: int|
            0 <= j < l < key_order(keys).len() ==> file_key_lt(
                keys[(#[trigger] key_order(keys)[j]) as int],
                keys[(#[trigger] key_order(keys)[l]) as int],
            ),
{
    let sd = sorted_distinct::<FileKey>(keys);
    let order = key_order(keys);
    lemma_sorted_distinct::<FileKey>(keys);
    assert(same_keys(sd, keys));
    assert forall|j: int| 0 <= j < order.len() implies (#[trigger] order[j]) < keys.len()
        && keys[order[j] as int] == sd[j] by {
        assert(sd.contains(sd[j]));
        assert(keys.contains(sd[j]));
        let k = choose|k: int| 0 <= k < keys.len() && keys[k] == sd[j];
        assert(keys[k].index == k);
    }
    assert forall|k: int| 0 <= k < keys.len() implies #[trigger] names(order, k) by {
        assert(keys.contains(keys[k]));
        assert(sd.contains(keys[k]));
        let j = choose|j: int| 0 <= j < sd.len() && sd[j] == keys[k];
        assert(order[j] == k);
    }
    assert forall|j: int, l: int| 0 <= j < l < order.len() implies file_key_lt(
        keys[(#[trigger] order[j]) as int],
        keys[(#[trigger] order[l]) as int],
    ) by {
        assert(<FileKey as TotalOrder>::key_lt(sd[j], sd[l]));
    }
}

/// `a` is to be taken strictly before `b`, wherever they stand.
pub open spec fn file_before(a: InputFile, b: InputFile) -> bool {
    file_key_lt(file_key(a, 0), file_key(b, 0))
}

/// No file of the list is to be taken before an earlier one.
pub open spec fn in_file_order(files: Seq<InputFile>) -> bool {
    forall|i: int, j: int|
        0 <= i < j < files.len() ==> !file_before(#[trigger] files[j], #[trigger] files[i])
}

/// The places `0, 1, ..` up to `n`.
pub open spec fn places(n: nat) -> Seq<usize> {
    Seq::new(n, |k: int| k as usize)
}

/// A list that is in file order already is taken as it stands.
pub proof fn lemma_file_order_kept(files: Seq<InputFile>)
    requires
        in_file_order(files),
        files.len() <= usize::MAX,
    ensures
        file_order(files) == places(files.len()),
{
    let ks = file_keys(files);
    assert forall|i: int, j: int| 0 <= i < j < ks.len() implies file_key_lt(
        #[trigger] ks[i],
        #[trigger] ks[j],
    ) by {
        assert(!file_before(files[j], files[i]));
        FileKey::lemma_strict_total(file_key(files[i], 0), file_key(files[j], 0), ks[i]);
        lemma_text_order(files[i].metadata.symbol@, files[j].metadata.symbol@, files[i].metadata.symbol@);
        lemma_text_order(files[i].filename@, files[j].filename@, files[i].filename@);
    }
    lemma_sorted_distinct_is::<FileKey>(ks, ks);
    assert(file_order(files) =~= places(files.len()));
}

/// The key by which a file is ordered for merging: its `min_ts`, its name
/// and its place. The other fields of a file key are left blank.
pub open spec fn merge_key(file: InputFile, index: int) -> FileKeyModel {
    FileKeyModel {
        min_ts: file.metadata.min_ts,
        max_ts: 0,
        count: 0,
        symbol: Seq::empty(),
        path: file.filename@,
        index: index as usize,
    }
}

/// The merge keys of `files`, in the order given.
pub open spec fn merge_keys(files: Seq<InputFile>) -> Seq<FileKeyModel> {
    Seq::new(files.len(), |i: int| merge_key(files[i], i))
}

/// No file starts before an earlier one of the list.
pub open spec fn ascending_by_min_ts(files: Seq<InputFile>) -> bool {
    forall|i: int, j: int|
        0 <= i < j < files.len() ==> (#[trigger] files[i]).metadata.min_ts <= (
        #[trigger] files[j]).metadata.min_ts
}

/// The places of `files` in the order in which files are put before they
/// are merged: the order given where that ascends by `min_ts`; else by
/// `min_ts`, then name, then place.
pub open spec fn merge_order(files: Seq<InputFile>) -> Seq<usize> {
    if ascending_by_min_ts(files) {
        places(files.len())
    } else {
        key_order(merge_keys(files))
    }
}

/// The keys that files are ordered by: for merging or for scanning.
pub open spec fn keys_of(files: Seq<InputFile>, merging: bool) -> Seq<FileKeyModel> {
    if merging {
        merge_keys(files)
    } else {
        file_keys(files)
    }
}

/// File `i` starts no later than the file after it.
pub open spec fn starts_before_next(files: Seq<InputFile>, i: int) -> bool {
    files[i].metadata.min_ts <= files[i + 1].metadata.min_ts
}

/// Files that start no earlier than their neighbour before start no
/// earlier than any file before.
pub proof fn lemma_ascending_by_neighbours(files: Seq<InputFile>)
    requires
        forall|i: int| 0 <= i && i + 1 < files.len() ==> #[trigger] starts_before_next(files, i),
    ensures
        ascending_by_min_ts(files),
    decreases files.len(),
{
    if files.len() > 1 {
        let head = files.drop_last();
        assert forall|i: int| 0 <= i && i + 1 < head.len() implies #[trigger] starts_before_next(
            head,
            i,
        ) by {
            assert(starts_before_next(files, i));
        }
        lemma_ascending_by_neighbours(head);
        let last = files.len() - 2;
        assert(starts_before_next(files, last));
        assert forall|i: int, j: int| 0 <= i < j < files.len() implies (
        #[trigger] files[i]).metadata.min_ts <= (#[trigger] files[j]).metadata.min_ts by {
            if j < files.len() - 1 {
                assert(head[i].metadata.min_ts <= head[j].metadata.min_ts);
            } else if i < last {
                assert(head[i].metadata.min_ts <= head[last].metadata.min_ts);
            }
        }
    }
}

/// Whether no file of the list starts before an earlier one.
pub fn is_ascending_by_min_ts(files: &Vec<InputFile>) -> (ok: bool)
    ensures
        ok == ascending_by_min_ts(files@),
{
    let n: usize = files.len();
    let mut i: usize = 1;
    while i < n
        invariant
            1 <= i,
            n == files@.len(),
            forall|k: int| 0 <= k && k + 1 < i ==> #[trigger] starts_before_next(files@, k),
        decreases n - i,
    {
        if files[i].metadata.min_ts < files[i - 1].metadata.min_ts {
            assert(!starts_before_next(files@, i - 1));
            assert(files@[i - 1].metadata.min_ts > files@[i as int].metadata.min_ts);
            return false;
        }
        i += 1;
    }
    proof {
        lemma_ascending_by_neighbours(files@);
    }
    true
}

/// The places of `files`, ascending by the keys for merging or for
/// scanning.
fn order_by_keys(files: &Vec<InputFile>, merging: bool) -> (order: Vec<usize>)
    ensures
        order@ == key_order(keys_of(files@, merging)),
        order@.len() == files@.len(),
        forall|k: int| 0 <= k < order@.len() ==> (#[trigger] order@[k]) < files@.len(),
        forall|k: int, l: int|
            0 <= k < l < order@.len() ==> file_key_lt(
                keys_of(files@, merging)[order@[k] as int],
                keys_of(files@, merging)[order@[l] as int],
            ),
{
    let n: usize = files.len();
    let ghost all = keys_of(files@, merging);
    let mut sorted: Vec<FileKey> = Vec::new();
    let mut i: usize = 0;
    while i < n
        invariant
            i <= n,
            n == files@.len(),
            all == keys_of(files@, merging),
            sorted@.len() == i,
            ascending::<FileKey>(keys(sorted@)),
            forall|k: FileKeyModel| keys(sorted@).contains(k) <==> all.take(i as int).contains(k),
        decreases n - i,
    {
        let file = &files[i];
        let key = if merging {
            FileKey {
                min_ts: file.metadata.min_ts,
                max_ts: 0,
                count: 0,
                symbol: String::new(),
                path: file.filename.clone(),
                index: i,
            }
        } else {
            FileKey {
                min_ts: file.metadata.min_ts,
                max_ts: file.metadata.max_ts,
                count: file.metadata.count,
                symbol: file.metadata.symbol.clone(),
                path: file.filename.clone(),
                index: i,
            }
        };
        proof {
            assert(key.key() == all[i as int]);
            assert(!keys(sorted@).contains(key.key())) by {
                if all.take(i as int).contains(key.key()) {
                    let j = choose|j: int|
                        0 <= j < all.take(i as int).len() && all.take(i as int)[j] == key.key();
                    assert(all[j].index == j);
                }
            }
            assert(all.take(i + 1) =~= all.take(i as int).push(all[i as int]));
            lemma_push_contains(all.take(i as int), all[i as int]);
        }
        insert_unique(&mut sorted, key);
        i += 1;
    }
    proof {
        assert(all.take(n as int) =~= all);
        assert(is_sorted_distinct::<FileKey>(all, keys(sorted@)));
        lemma_sorted_distinct_is::<FileKey>(all, keys(sorted@));
    }
    let mut order: Vec<usize> = Vec::new();
    let mut k: usize = 0;
    while k < n
        invariant
            k <= n,
            n == sorted@.len(),
            order@.len() == k,
            forall|j: int| 0 <= j < k ==> order@[j] == (#[trigger] sorted@[j]).index,
        decreases n - k,
    {
        order.push(sorted[k].index);
        k += 1;
    }
    proof {
        let ks = keys(sorted@);
        assert(order@ =~= key_order(all));
        assert forall|k: int| 0 <= k < order@.len() implies (#[trigger] order@[k]) < files@.len()
            && ks[k] == all[order@[k] as int] by {
            assert(ks.contains(ks[k]));
            assert(all.contains(ks[k]));
            let j = choose|j: int| 0 <= j < all.len() && all[j] == ks[k];
            assert(all[j].index == j);
        }
        assert forall|k: int, l: int| 0 <= k < l < order@.len() implies file_key_lt(
            all[order@[k] as int],
            all[order@[l] as int],
        ) by {
            assert(file_key_lt(ks[k], ks[l]));
        }
    }
    order
}

/// The order in which a scan reads `files`: every place once, the files
/// at these places ascending by header and name.
pub fn metadata_order(files: &Vec<InputFile>) -> (order: Vec<usize>)
    ensures
        order@ == file_order(files@),
        order@.len() == files@.len(),
        forall|k: int| 0 <= k < order@.len() ==> (#[trigger] order@[k]) < files@.len(),
        forall|k: int, l: int|
            0 <= k < l < order@.len() ==> file_key_lt(
                file_key(files@[order@[k] as int], order@[k] as int),
                file_key(files@[order@[l] as int], order@[l] as int),
            ),
{
    let order = order_by_keys(files, false);
    assert forall|k: int, l: int| 0 <= k < l < order@.len() implies file_key_lt(
        file_key(files@[order@[k] as int], order@[k] as int),
        file_key(files@[order@[l] as int], order@[l] as int),
    ) by {
        let ks = keys_of(files@, false);
        assert(order@[k] < files@.len() && order@[l] < files@.len());
        assert(file_key_lt(ks[order@[k] as int], ks[order@[l] as int]));
    }
    order
}

/// The order to put `files` in before they are merged: every place once;
/// the order given where that ascends by `min_ts`, else by `min_ts`, then
/// name, then place.
pub fn order_for_merge(files: &Vec<InputFile>) -> (order: Vec<usize>)
    ensures
        order@ == merge_order(files@),
        order@.len() == files@.len(),
        forall|k: int| 0 <= k < order@.len() ==> (#[trigger] order@[k]) < files@.len(),
{
    if is_ascending_by_min_ts(files) {
        let n: usize = files.len();
        let mut order: Vec<usize> = Vec::new();
        let mut k: usize = 0;
        while k < n
            invariant
                k <= n,
                order@.len() == k,
                forall|j: int| 0 <= j < k ==> #[trigger] order@[j] == j,
            decreases n - k,
        {
            order.push(k);
            k += 1;
        }
        assert(order@ =~= places(n as nat));
        order
    } else {
        order_by_keys(files, true)
    }
}

/// The order for merging names every file once, and names the files
/// ascending by `min_ts`.
pub proof fn lemma_merge_order(files: Seq<InputFile>)
    requires
        files.len() <= usize::MAX,
    ensures
        forall|j: int|
            0 <= j < merge_order(files).len() ==> (#[trigger] merge_order(files)[j]) < files.len(),
        forall|k: int| 0 <= k < files.len() ==> #[trigger] names(merge_order(files), k),
        forall|j: int, l: int|
            0 <= j < l < merge_order(files).len() ==> files[(#[trigger] merge_order(
                files,
            )[j]) as int].metadata.min_ts <= files[(#[trigger] merge_order(
                files,
            )[l]) as int].metadata.min_ts,
{
    let order = merge_order(files);
    if ascending_by_min_ts(files) {
        assert forall|k: int| 0 <= k < files.len() implies #[trigger] names(order, k) by {
            assert(order[k] == k);
        }
    } else {
        lemma_key_order(merge_keys(files));
        assert forall|j: int, l: int| 0 <= j < l < order.len() implies files[(
        #[trigger] order[j]) as int].metadata.min_ts <= files[(
        #[trigger] order[l]) as int].metadata.min_ts by {
            assert(file_key_lt(merge_keys(files)[order[j] as int], merge_keys(files)[order[l] as int]));
        }
    }
}

} // verus!
