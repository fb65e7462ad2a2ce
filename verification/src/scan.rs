//! The folder scanner: which files of a folder belong to a symbol and a
//! time window, in which order they are read, and what they hold there.
//!
//! The caller lists the folder and reads the files; the scanner is given
//! what was found, as plain values.

use crate::dtf::{
    get_range_in_file, overlaps, parse_header, range_spec, read_meta, within_range, MetadataModel,
};
use crate::error::Error;
use crate::files::{file_keys, key_order, metadata_order, FileKeyModel, InputFile};
use crate::update::Update;
use vstd::prelude::*;
use vstd::string::StringExecFns;

verus! {

/// One entry of a folder, as the caller found it.
#[derive(Debug, PartialEq, Eq)]
pub enum FolderEntry {
    /// The entry could not be read from the folder.
    Failed,
    /// The entry's name is not valid Unicode.
    Unnamed,
    /// A file, with its bytes where they could be read.
    File { name: String, data: Option<Vec<u8>> },
}

/// A folder, as the caller found it: its path, and its entries unless the
/// folder could not be listed.
#[derive(Debug, PartialEq, Eq)]
pub struct Folder {
    pub path: String,
    pub entries: Option<Vec<FolderEntry>>,
}

/// A file of the folder that the scanner takes: the place of its entry,
/// its path and its header.
pub struct Hit {
    pub entry: int,
    pub path: Seq<char>,
    pub meta: MetadataModel,
}

/// The path of the entry `name` of `folder`.
pub open spec fn path_of(folder: Seq<char>, name: Seq<char>) -> Seq<char> {
    folder + seq!['/'] + name
}

/// The header of an entry, where the entry is a file that could be read
/// and starts with a well-formed header.
pub open spec fn probe(entry: FolderEntry) -> Option<MetadataModel> {
    match entry {
        FolderEntry::File { name, data: Some(bytes) } => parse_header(bytes@),
        _ => None,
    }
}

/// The entry is a file of `symbol` whose range meets the window.
pub open spec fn is_hit(entry: FolderEntry, symbol: Seq<char>, min_ts: u64, max_ts: u64) -> bool {
    match probe(entry) {
        Some(meta) => meta.symbol == symbol && overlaps(min_ts, max_ts, meta.min_ts, meta.max_ts),
        None => false,
    }
}

/// The files that the scanner takes, in the order of the entries.
pub open spec fn hits(
    folder: Seq<char>,
    entries: Seq<FolderEntry>,
    symbol: Seq<char>,
    min_ts: u64,
    max_ts: u64,
) -> Seq<Hit>
    decreases entries.len(),
{
    if entries.len() == 0 {
        Seq::empty()
    } else {
        let before = hits(folder, entries.drop_last(), symbol, min_ts, max_ts);
        let last = entries.last();
        if is_hit(last, symbol, min_ts, max_ts) {
            before.push(
                Hit {
                    entry: entries.len() - 1,
                    path: path_of(folder, last->name@),
                    meta: probe(last)->0,
                },
            )
        } else {
            before
        }
    }
}

/// The keys by which the files taken are ordered.
pub open spec fn hit_keys(found: Seq<Hit>) -> Seq<FileKeyModel> {
    Seq::new(
        found.len(),
        |k: int|
            FileKeyModel {
                min_ts: found[k].meta.min_ts,
                max_ts: found[k].meta.max_ts,
                count: found[k].meta.count,
                symbol: found[k].meta.symbol,
                path: found[k].path,
                index: k as usize,
            },
    )
}

/// The places of the files taken, in the order in which they are read.
pub open spec fn hit_order(found: Seq<Hit>) -> Seq<usize> {
    key_order(hit_keys(found))
}

/// The bytes of an entry that is a file that could be read.
pub open spec fn bytes_of(entry: FolderEntry) -> Seq<u8> {
    entry->data->0@
}

/// The updates that the files from place `k` of `order` on hold in the
/// window, one file after another; `None` where one of them is corrupt.
pub open spec fn gather(
    entries: Seq<FolderEntry>,
    found: Seq<Hit>,
    order: Seq<usize>,
    k: int,
    min_ts: u64,
    max_ts: u64,
) -> Option<Seq<Update>>
    decreases order.len() - k,
{
    if k < 0 || k >= order.len() {
        Some(Seq::empty())
    } else {
        match range_spec(bytes_of(entries[found[order[k] as int].entry]), min_ts, max_ts) {
            None => None,
            Some(here) => match gather(entries, found, order, k + 1, min_ts, max_ts) {
                None => None,
                Some(rest) => Some(here + rest),
            },
        }
    }
}

/// What a scan gives for a folder that could be listed.
pub open spec fn scan_spec(
    folder: Seq<char>,
    entries: Seq<FolderEntry>,
    symbol: Seq<char>,
    min_ts: u64,
    max_ts: u64,
) -> Option<Seq<Update>> {
    let found = hits(folder, entries, symbol, min_ts, max_ts);
    gather(entries, found, hit_order(found), 0, min_ts, max_ts)
}

/// The path of the entry `name` of `folder`.
pub fn entry_path(folder: &str, name: &str) -> (path: String)
    ensures
        path@ == path_of(folder@, name@),
{
    let mut path = folder.to_owned();
    path.append("/");
    path.append(name);
    proof {
        reveal_strlit("/");
        assert("/"@ =~= seq!['/']);
    }
    path
}

/// Probes one entry of `folder`, and hands out the file's bytes with its
/// path and header.
fn probe_entry<'a>(folder: &str, entry: &'a FolderEntry) -> (r: Result<
    Option<(InputFile, &'a Vec<u8>)>,
    Error,
>)
    ensures
        match r {
            Ok(Some((file, bytes))) => {
                &&& probe(*entry) == Some(file.metadata@)
                &&& file.filename@ == path_of(folder@, entry->name@)
                &&& *entry is File
                &&& entry->data == Some(*bytes)
            },
            Ok(None) => *entry is Unnamed,
            Err(e) => {
                &&& probe(*entry) is None
                &&& !(*entry is Unnamed)
                &&& e is CorruptFile <==> (*entry is File && entry->data is Some)
                &&& e is IoError <==> !(*entry is File && entry->data is Some)
            },
        },
{
    match entry {
        FolderEntry::Failed => Err(Error::IoError),
        FolderEntry::Unnamed => Ok(None),
        FolderEntry::File { name, data } => match data {
            None => Err(Error::IoError),
            Some(bytes) => match read_meta(bytes.as_slice()) {
                Err(_) => Err(Error::CorruptFile),
                Ok(metadata) => Ok(
                    Some(
                        (InputFile { filename: entry_path(folder, name.as_str()), metadata }, bytes),
                    ),
                ),
            },
        },
    }
}

/// Probes one entry of `folder`: the file's path and header. An entry
/// without a Unicode name gives nothing. Fails with `IoError` where the
/// entry or the file could not be read, and with `CorruptFile` where the
/// file does not start with a well-formed header.
pub fn parse_dtf_entry(folder: &str, entry: &FolderEntry) -> (r: Result<Option<InputFile>, Error>)
    ensures
        match r {
            Ok(Some(file)) => {
                &&& probe(*entry) == Some(file.metadata@)
                &&& file.filename@ == path_of(folder@, entry->name@)
            },
            Ok(None) => *entry is Unnamed,
            Err(e) => {
                &&& probe(*entry) is None
                &&& !(*entry is Unnamed)
                &&& e is CorruptFile <==> (*entry is File && entry->data is Some)
                &&& e is IoError <==> !(*entry is File && entry->data is Some)
            },
        },
{
    match probe_entry(folder, entry) {
        Ok(Some((file, _))) => Ok(Some(file)),
        Ok(None) => Ok(None),
        Err(e) => Err(e),
    }
}

/// The files of `entries` that a scan takes, in the order of the entries,
/// each with its bytes.
fn take_hits<'a>(
    folder: &str,
    entries: &'a Vec<FolderEntry>,
    symbol: &str,
    min_ts: u64,
    max_ts: u64,
) -> (r: (Vec<InputFile>, Vec<&'a Vec<u8>>))
    ensures
        r.0@.len() == r.1@.len(),
        r.0@.len() == hits(folder@, entries@, symbol@, min_ts, max_ts).len(),
        forall|k: int|
            0 <= k < r.0@.len() ==> {
                let hit = #[trigger] hits(folder@, entries@, symbol@, min_ts, max_ts)[k];
                &&& r.0@[k].filename@ == hit.path
                &&& r.0@[k].metadata@ == hit.meta
                &&& 0 <= hit.entry < entries@.len()
                &&& entries@[hit.entry] is File
                &&& entries@[hit.entry]->data == Some(*r.1@[k])
            },
{
    let wanted = symbol.to_owned();
    let ghost all = entries@;
    let mut found: Vec<InputFile> = Vec::new();
    let mut data: Vec<&Vec<u8>> = Vec::new();
    let mut i: usize = 0;
    assert(all.take(0) =~= Seq::<FolderEntry>::empty());
    while i < entries.len()
        invariant
            i <= all.len(),
            all == entries@,
            wanted@ == symbol@,
            found@.len() == data@.len(),
            found@.len() == hits(folder@, all.take(i as int), symbol@, min_ts, max_ts).len(),
            forall|k: int|
                0 <= k < found@.len() ==> {
                    let hit = #[trigger] hits(folder@, all.take(i as int), symbol@, min_ts, max_ts)[k];
                    &&& found@[k].filename@ == hit.path
                    &&& found@[k].metadata@ == hit.meta
                    &&& 0 <= hit.entry < i
                    &&& all[hit.entry] is File
                    &&& all[hit.entry]->data == Some(*data@[k])
                },
        decreases all.len() - i,
    {
        let ghost before = hits(folder@, all.take(i as int), symbol@, min_ts, max_ts);
        let ghost after = hits(folder@, all.take(i + 1), symbol@, min_ts, max_ts);
        proof {
            assert(all.take(i + 1).drop_last() =~= all.take(i as int));
            assert(all.take(i + 1).last() == all[i as int]);
        }
        match probe_entry(folder, &entries[i]) {
            Ok(Some((file, bytes))) => {
                if file.metadata.symbol == wanted && within_range(
                    min_ts,
                    max_ts,
                    file.metadata.min_ts,
                    file.metadata.max_ts,
                ) {
                    assert(is_hit(all[i as int], symbol@, min_ts, max_ts));
                    assert(after == before.push(after.last()));
                    found.push(file);
                    data.push(bytes);
                    assert forall|k: int| 0 <= k < found@.len() implies {
                        let hit = #[trigger] after[k];
                        &&& found@[k].filename@ == hit.path
                        &&& found@[k].metadata@ == hit.meta
                        &&& 0 <= hit.entry < i + 1
                        &&& all[hit.entry] is File
                        &&& all[hit.entry]->data == Some(*data@[k])
                    } by {
                        if k < before.len() {
                            assert(after[k] == before[k]);
                        }
                    }
                } else {
                    assert(!is_hit(all[i as int], symbol@, min_ts, max_ts));
                    assert(after == before);
                }
            },
            _ => {
                assert(!is_hit(all[i as int], symbol@, min_ts, max_ts));
                assert(after == before);
            },
        }
        i += 1;
    }
    assert(all.take(i as int) =~= all);
    (found, data)
}

/// The files that a scan of `folder` reads, in the order in which it
/// reads them: the files of `symbol` whose range meets the window
/// `[min_ts, max_ts]`, in file order. Entries that cannot be probed are
/// passed over. Fails with `IoError`, and only then, where the folder
/// could not be listed.
pub fn select_files(folder: &Folder, symbol: &str, min_ts: u64, max_ts: u64) -> (r: Result<
    Vec<InputFile>,
    Error,
>)
    ensures
        match r {
            Ok(files) => {
                let found = hits(folder.path@, folder.entries->0@, symbol@, min_ts, max_ts);
                let order = hit_order(found);
                &&& folder.entries is Some
                &&& files@.len() == order.len()
                &&& forall|k: int|
                    0 <= k < files@.len() ==> {
                        &&& (#[trigger] files@[k]).filename@ == found[order[k] as int].path
                        &&& files@[k].metadata@ == found[order[k] as int].meta
                    }
            },
            Err(e) => e is IoError && folder.entries is None,
        },
{
    let entries = match &folder.entries {
        None => {
            return Err(Error::IoError);
        },
        Some(entries) => entries,
    };
    let (found, _) = take_hits(folder.path.as_str(), entries, symbol, min_ts, max_ts);
    let ghost taken = hits(folder.path@, entries@, symbol@, min_ts, max_ts);
    let order = metadata_order(&found);
    proof {
        assert(file_keys(found@) =~= hit_keys(taken));
    }
    let mut files: Vec<InputFile> = Vec::new();
    let mut k: usize = 0;
    while k < order.len()
        invariant
            k <= order@.len(),
            files@.len() == k,
            found@.len() == taken.len(),
            forall|j: int| 0 <= j < order@.len() ==> (#[trigger] order@[j]) < found@.len(),
            forall|j: int|
                0 <= j < found@.len() ==> (#[trigger] found@[j]).filename@ == taken[j].path
                    && found@[j].metadata@ == taken[j].meta,
            forall|j: int|
                0 <= j < k ==> {
                    &&& (#[trigger] files@[j]).filename@ == taken[order@[j] as int].path
                    &&& files@[j].metadata@ == taken[order@[j] as int].meta
                },
        decreases order@.len() - k,
    {
        files.push(found[order[k]].clone());
        k += 1;
    }
    Ok(files)
}

/// The updates of `symbol` in the window `[min_ts, max_ts]` that the
/// files of `folder` hold. Entries that cannot be probed are passed over.
/// The files of `symbol` whose range meets the window are read in file
/// order, and what each holds in the window is put one after another;
/// nothing is taken out where files repeat each other.
///
/// Fails with `IoError` where the folder could not be listed, and with
/// `CorruptFile` where a file that is read is corrupt.
#[verifier::loop_isolation(false)]
pub fn scan_files_for_range(folder: &Folder, symbol: &str, min_ts: u64, max_ts: u64) -> (r: Result<
    Vec<Update>,
    Error,
>)
    ensures
        match r {
            Ok(updates) => {
                &&& folder.entries is Some
                &&& scan_spec(folder.path@, folder.entries->0@, symbol@, min_ts, max_ts) == Some(
                    updates@,
                )
            },
            Err(e) => if folder.entries is None {
                e is IoError
            } else {
                &&& e is CorruptFile
                &&& scan_spec(folder.path@, folder.entries->0@, symbol@, min_ts, max_ts) is None
            },
        },
{
    let entries = match &folder.entries {
        None => {
            return Err(Error::IoError);
        },
        Some(entries) => entries,
    };
    let ghost all = entries@;
    let (found, data) = take_hits(folder.path.as_str(), entries, symbol, min_ts, max_ts);
    let ghost taken = hits(folder.path@, all, symbol@, min_ts, max_ts);
    let order = metadata_order(&found);
    proof {
        assert(file_keys(found@) =~= hit_keys(taken));
    }
    let mut out: Vec<Update> = Vec::new();
    let mut k: usize = 0;
    while k < order.len()
        invariant
            k <= order@.len(),
            match gather(all, taken, order@, k as int, min_ts, max_ts) {
                None => gather(all, taken, order@, 0, min_ts, max_ts) is None,
                Some(rest) => gather(all, taken, order@, 0, min_ts, max_ts) == Some(out@ + rest),
            },
        decreases order@.len() - k,
    {
        let at: usize = order[k];
        assert(bytes_of(all[taken[at as int].entry]) == data@[at as int]@);
        match get_range_in_file(data[at].as_slice(), min_ts, max_ts) {
            Err(_) => {
                return Err(Error::CorruptFile);
            },
            Ok(mut here) => {
                let ghost rest = gather(all, taken, order@, k + 1, min_ts, max_ts);
                proof {
                    if rest is Some {
                        assert(out@ + (here@ + rest->0) =~= (out@ + here@) + rest->0);
                    }
                }
                out.append(&mut here);
            },
        }
        k += 1;
    }
    assert(out@ + Seq::<Update>::empty() =~= out@);
    Ok(out)
}

/// The counts that the headers of the probeable files of a folder name,
/// added up.
pub open spec fn total_count(entries: Seq<FolderEntry>) -> nat
    decreases entries.len(),
{
    if entries.len() == 0 {
        0
    } else {
        total_count(entries.drop_last()) + match probe(entries.last()) {
            Some(meta) => meta.count as nat,
            None => 0,
        }
    }
}

/// The first entries of a folder count no more than all of them.
pub proof fn lemma_total_count_grows(entries: Seq<FolderEntry>, i: int)
    requires
        0 <= i <= entries.len(),
    ensures
        total_count(entries.take(i)) <= total_count(entries),
    decreases entries.len(),
{
    if i == entries.len() {
        assert(entries.take(i) =~= entries);
    } else {
        lemma_total_count_grows(entries.drop_last(), i);
        assert(entries.drop_last().take(i) =~= entries.take(i));
    }
}

/// How many updates the probeable files of `folder` hold by their
/// headers. Entries that cannot be probed count as nothing.
///
/// Fails with `IoError` where the folder could not be listed, and with
/// `CorruptFile` where the headers name more updates than `usize` can
/// count.
#[verifier::loop_isolation(false)]
pub fn total_folder_updates_len(folder: &Folder) -> (r: Result<usize, Error>)
    ensures
        match r {
            Ok(total) => folder.entries is Some && total == total_count(folder.entries->0@),
            Err(e) => if folder.entries is None {
                e is IoError
            } else {
                e is CorruptFile && total_count(folder.entries->0@) > usize::MAX
            },
        },
{
    let entries = match &folder.entries {
        None => {
            return Err(Error::IoError);
        },
        Some(entries) => entries,
    };
    let ghost all = entries@;
    let mut total: usize = 0;
    let mut i: usize = 0;
    assert(all.take(0) =~= Seq::<FolderEntry>::empty());
    while i < entries.len()
        invariant
            i <= all.len(),
            all == entries@,
            total == total_count(all.take(i as int)),
        decreases all.len() - i,
    {
        proof {
            assert(all.take(i + 1).drop_last() =~= all.take(i as int));
            assert(all.take(i + 1).last() == all[i as int]);
            lemma_total_count_grows(all, i + 1);
        }
        match parse_dtf_entry(folder.path.as_str(), &entries[i]) {
            Ok(Some(file)) => {
                let count: u64 = file.metadata.count;
                if count > (usize::MAX - total) as u64 {
                    return Err(Error::CorruptFile);
                }
                total = total + count as usize;
            },
            _ => {},
        }
        i += 1;
    }
    assert(all.take(i as int) =~= all);
    Ok(total)
}

} // verus!
