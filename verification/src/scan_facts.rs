//! What holds of every scan: it gives the updates of the symbol in the
//! window, and gives them in order where the files do not overlap.

use crate::dtf::{decode_spec, range_spec};
use crate::files::{file_key_lt, key_order, lemma_key_order, names, numbered, FileKey, FileKeyModel};
use crate::order::{
    lemma_insert_at_place, lemma_place_exists, lemma_push_contains, lemma_sorted_distinct,
    lemma_sorted_distinct_is, same_keys, sorted_distinct,
};
use crate::scan::total_count;
use crate::merge_facts::{
    all_ts_within, lemma_concat_contains, lemma_filter_members, lemma_filter_sorted,
};
use crate::scan::{
    bytes_of, gather, hit_keys, hit_order, hits, is_hit, probe, scan_spec, FolderEntry, Hit,
};
use crate::update::{sorted, ts_within, update_le, Update};
use vstd::prelude::*;

verus! {

/// The updates that an entry holds: those of its file where the file
/// reads, none otherwise.
pub open spec fn updates_of(entry: FolderEntry) -> Seq<Update> {
    match entry {
        FolderEntry::File { name, data: Some(bytes) } => match decode_spec(bytes@, None) {
            Some(updates) => updates,
            None => Seq::empty(),
        },
        _ => Seq::empty(),
    }
}

/// The entry is a file of `symbol` that holds `u`.
pub open spec fn holds(entry: FolderEntry, symbol: Seq<char>, u: Update) -> bool {
    probe(entry) is Some && probe(entry)->0.symbol == symbol && updates_of(entry).contains(u)
}

/// Where the entry is a file with a header, its updates lie within the
/// range that the header names.
pub open spec fn honest(entry: FolderEntry) -> bool {
    probe(entry) is Some ==> all_ts_within(
        updates_of(entry),
        probe(entry)->0.min_ts as int,
        probe(entry)->0.max_ts as int,
    )
}

/// Some entry is a file of `symbol` that holds `u`.
pub open spec fn held_somewhere(entries: Seq<FolderEntry>, symbol: Seq<char>, u: Update) -> bool {
    exists|i: int| 0 <= i < entries.len() && holds(#[trigger] entries[i], symbol, u)
}

/// The files taken are the entries that are hits, each once.
pub proof fn lemma_hits(
    folder: Seq<char>,
    entries: Seq<FolderEntry>,
    symbol: Seq<char>,
    min_ts: u64,
    max_ts: u64,
)
    ensures
        forall|k: int|
            0 <= k < hits(folder, entries, symbol, min_ts, max_ts).len() ==> {
                let hit = #[trigger] hits(folder, entries, symbol, min_ts, max_ts)[k];
                &&& 0 <= hit.entry < entries.len()
                &&& is_hit(entries[hit.entry], symbol, min_ts, max_ts)
                &&& probe(entries[hit.entry]) == Some(hit.meta)
            },
        forall|i: int|
            0 <= i < entries.len() && is_hit(#[trigger] entries[i], symbol, min_ts, max_ts)
                ==> exists|k: int|
                0 <= k < hits(folder, entries, symbol, min_ts, max_ts).len() && (#[trigger] hits(
                    folder,
                    entries,
                    symbol,
                    min_ts,
                    max_ts,
                )[k]).entry == i,
    decreases entries.len(),
{
    let found = hits(folder, entries, symbol, min_ts, max_ts);
    if entries.len() > 0 {
        let head = entries.drop_last();
        let before = hits(folder, head, symbol, min_ts, max_ts);
        lemma_hits(folder, head, symbol, min_ts, max_ts);
        let last = entries.len() - 1;
        assert forall|k: int| 0 <= k < found.len() implies {
            let hit = #[trigger] found[k];
            &&& 0 <= hit.entry < entries.len()
            &&& is_hit(entries[hit.entry], symbol, min_ts, max_ts)
            &&& probe(entries[hit.entry]) == Some(hit.meta)
        } by {
            if k < before.len() {
                assert(found[k] == before[k]);
                assert(head[before[k].entry] == entries[before[k].entry]);
            }
        }
        assert forall|i: int|
            0 <= i < entries.len() && is_hit(
                #[trigger] entries[i],
                symbol,
                min_ts,
                max_ts,
            ) implies exists|k: int| 0 <= k < found.len() && (#[trigger] found[k]).entry == i by {
            if i < last {
                assert(head[i] == entries[i]);
                let k = choose|k: int| 0 <= k < before.len() && (#[trigger] before[k]).entry == i;
                assert(found[k].entry == i);
            } else {
                assert(found[before.len() as int].entry == i);
            }
        }
    }
}

/// The bytes of the file that is read at place `j` of `order`.
pub open spec fn bytes_at(
    entries: Seq<FolderEntry>,
    found: Seq<Hit>,
    order: Seq<usize>,
    j: int,
) -> Seq<u8> {
    bytes_of(entries[found[order[j] as int].entry])
}

/// What is gathered from place `k` of `order` on is what the files from
/// there on hold in the window.
pub proof fn lemma_gather_members(
    entries: Seq<FolderEntry>,
    found: Seq<Hit>,
    order: Seq<usize>,
    k: int,
    min_ts: u64,
    max_ts: u64,
)
    requires
        0 <= k <= order.len(),
        gather(entries, found, order, k, min_ts, max_ts) is Some,
    ensures
        forall|j: int|
            k <= j < order.len() ==> (#[trigger] range_spec(
                bytes_at(entries, found, order, j),
                min_ts,
                max_ts,
            )) is Some,
        forall|u: Update|
            #[trigger] gather(entries, found, order, k, min_ts, max_ts)->0.contains(u)
                <==> exists|j: int|
                k <= j < order.len() && (#[trigger] range_spec(
                    bytes_at(entries, found, order, j),
                    min_ts,
                    max_ts,
                ))->0.contains(u),
    decreases order.len() - k,
{
    let all = gather(entries, found, order, k, min_ts, max_ts)->0;
    if k < order.len() {
        let here = range_spec(bytes_at(entries, found, order, k), min_ts, max_ts)->0;
        let rest = gather(entries, found, order, k + 1, min_ts, max_ts)->0;
        lemma_gather_members(entries, found, order, k + 1, min_ts, max_ts);
        lemma_concat_contains(here, rest);
        assert(all == here + rest);
        assert forall|j: int| k <= j < order.len() implies (#[trigger] range_spec(
            bytes_at(entries, found, order, j),
            min_ts,
            max_ts,
        )) is Some by {
            if j > k {
                assert(k + 1 <= j);
            }
        }
        assert forall|u: Update| #[trigger] all.contains(u) <==> exists|j: int|
            k <= j < order.len() && (#[trigger] range_spec(
                bytes_at(entries, found, order, j),
                min_ts,
                max_ts,
            ))->0.contains(u) by {
            if all.contains(u) {
                if here.contains(u) {
                    assert(range_spec(bytes_at(entries, found, order, k), min_ts, max_ts)->0.contains(
                        u,
                    ));
                } else {
                    assert(rest.contains(u));
                    let j = choose|j: int|
                        k + 1 <= j < order.len() && (#[trigger] range_spec(
                            bytes_at(entries, found, order, j),
                            min_ts,
                            max_ts,
                        ))->0.contains(u);
                    assert(k <= j);
                }
            }
            if exists|j: int|
                k <= j < order.len() && (#[trigger] range_spec(
                    bytes_at(entries, found, order, j),
                    min_ts,
                    max_ts,
                ))->0.contains(u) {
                let j = choose|j: int|
                    k <= j < order.len() && (#[trigger] range_spec(
                        bytes_at(entries, found, order, j),
                        min_ts,
                        max_ts,
                    ))->0.contains(u);
                if j == k {
                    assert(here.contains(u));
                } else {
                    assert(k + 1 <= j);
                    assert(rest.contains(u));
                }
            }
        }
    }
}

/// What a file that is a hit holds in the window.
pub proof fn lemma_range_of_hit(
    entry: FolderEntry,
    symbol: Seq<char>,
    min_ts: u64,
    max_ts: u64,
)
    requires
        is_hit(entry, symbol, min_ts, max_ts),
        range_spec(bytes_of(entry), min_ts, max_ts) is Some,
    ensures
        range_spec(bytes_of(entry), min_ts, max_ts)->0 == updates_of(entry).filter(
            ts_within(min_ts as int, max_ts as int),
        ),
        decode_spec(bytes_of(entry), None) is Some,
{
}

/// A scan that succeeds gives the updates in the window that the files
/// of the symbol hold, and no others, where every file holds its updates
/// within the range that its header names.
pub proof fn lemma_scan_members(
    folder: Seq<char>,
    entries: Seq<FolderEntry>,
    symbol: Seq<char>,
    min_ts: u64,
    max_ts: u64,
)
    requires
        entries.len() <= usize::MAX,
        scan_spec(folder, entries, symbol, min_ts, max_ts) is Some,
        forall|i: int| 0 <= i < entries.len() ==> honest(#[trigger] entries[i]),
    ensures
        forall|u: Update|
            #[trigger] scan_spec(folder, entries, symbol, min_ts, max_ts)->0.contains(u) <==> (
            min_ts <= u.ts <= max_ts && held_somewhere(entries, symbol, u)),
{
    let found = hits(folder, entries, symbol, min_ts, max_ts);
    let order = hit_order(found);
    let result = scan_spec(folder, entries, symbol, min_ts, max_ts)->0;
    lemma_hits(folder, entries, symbol, min_ts, max_ts);
    lemma_hits_len(folder, entries, symbol, min_ts, max_ts);
    lemma_key_order(hit_keys(found));
    lemma_gather_members(entries, found, order, 0, min_ts, max_ts);
    assert forall|u: Update| #[trigger] result.contains(u) <==> (min_ts <= u.ts <= max_ts
        && held_somewhere(entries, symbol, u)) by {
        if result.contains(u) {
            let j = choose|j: int|
                0 <= j < order.len() && (#[trigger] range_spec(
                    bytes_at(entries, found, order, j),
                    min_ts,
                    max_ts,
                ))->0.contains(u);
            let hit = found[order[j] as int];
            let entry = entries[hit.entry];
            lemma_range_of_hit(entry, symbol, min_ts, max_ts);
            lemma_filter_members(updates_of(entry), ts_within(min_ts as int, max_ts as int));
            assert(holds(entry, symbol, u));
        }
        if min_ts <= u.ts <= max_ts && held_somewhere(entries, symbol, u) {
            let i = choose|i: int| 0 <= i < entries.len() && holds(#[trigger] entries[i], symbol, u);
            let entry = entries[i];
            assert(honest(entry));
            let at = choose|at: int| 0 <= at < updates_of(entry).len() && updates_of(entry)[at] == u;
            assert(probe(entry)->0.min_ts <= updates_of(entry)[at].ts <= probe(entry)->0.max_ts);
            assert(is_hit(entry, symbol, min_ts, max_ts));
            let k = choose|k: int| 0 <= k < found.len() && (#[trigger] found[k]).entry == i;
            assert(names(order, k));
            let j = choose|j: int| 0 <= j < order.len() && #[trigger] order[j] == k;
            assert(range_spec(bytes_at(entries, found, order, j), min_ts, max_ts) is Some);
            lemma_range_of_hit(entry, symbol, min_ts, max_ts);
            lemma_filter_members(updates_of(entry), ts_within(min_ts as int, max_ts as int));
            assert(range_spec(bytes_at(entries, found, order, j), min_ts, max_ts)->0.contains(u));
        }
    }
}

/// No more files are taken than there are entries.
pub proof fn lemma_hits_len(
    folder: Seq<char>,
    entries: Seq<FolderEntry>,
    symbol: Seq<char>,
    min_ts: u64,
    max_ts: u64,
)
    ensures
        hits(folder, entries, symbol, min_ts, max_ts).len() <= entries.len(),
    decreases entries.len(),
{
    if entries.len() > 0 {
        lemma_hits_len(folder, entries.drop_last(), symbol, min_ts, max_ts);
    }
}

/// What the file that is read at place `j` of `order` holds in the
/// window.
pub open spec fn piece(
    entries: Seq<FolderEntry>,
    found: Seq<Hit>,
    order: Seq<usize>,
    j: int,
    min_ts: u64,
    max_ts: u64,
) -> Seq<Update> {
    range_spec(bytes_at(entries, found, order, j), min_ts, max_ts)->0
}

/// Every update of the file read at place `j` is earlier than every
/// update of the file read at place `l`.
pub open spec fn earlier(
    entries: Seq<FolderEntry>,
    found: Seq<Hit>,
    order: Seq<usize>,
    j: int,
    l: int,
    min_ts: u64,
    max_ts: u64,
) -> bool {
    forall|x: Update, y: Update|
        #![trigger piece(entries, found, order, j, min_ts, max_ts).contains(x), piece(entries, found, order, l, min_ts, max_ts).contains(y)]
        piece(entries, found, order, j, min_ts, max_ts).contains(x) && piece(
            entries,
            found,
            order,
            l,
            min_ts,
            max_ts,
        ).contains(y) ==> x.ts < y.ts
}

/// What is gathered from place `k` on is ascending, where every file
/// gives an ascending piece and every piece is earlier than the later ones.
proof fn lemma_gather_sorted(
    entries: Seq<FolderEntry>,
    found: Seq<Hit>,
    order: Seq<usize>,
    k: int,
    min_ts: u64,
    max_ts: u64,
)
    requires
        0 <= k <= order.len(),
        gather(entries, found, order, k, min_ts, max_ts) is Some,
        forall|j: int|
            k <= j < order.len() ==> sorted(#[trigger] piece(entries, found, order, j, min_ts, max_ts)),
        forall|j: int, l: int|
            k <= j < l < order.len() ==> #[trigger] earlier(
                entries,
                found,
                order,
                j,
                l,
                min_ts,
                max_ts,
            ),
    ensures
        sorted(gather(entries, found, order, k, min_ts, max_ts)->0),
    decreases order.len() - k,
{
    if k < order.len() {
        let all = gather(entries, found, order, k, min_ts, max_ts)->0;
        let here = piece(entries, found, order, k, min_ts, max_ts);
        let rest = gather(entries, found, order, k + 1, min_ts, max_ts)->0;
        assert(all == here + rest);
        lemma_gather_sorted(entries, found, order, k + 1, min_ts, max_ts);
        lemma_gather_members(entries, found, order, k + 1, min_ts, max_ts);
        assert(sorted(here));
        assert forall|a: int, b: int| 0 <= a < b < all.len() implies update_le(
            #[trigger] all[a],
            #[trigger] all[b],
        ) by {
            if b < here.len() {
                assert(update_le(here[a], here[b]));
            } else if a >= here.len() {
                assert(update_le(rest[a - here.len()], rest[b - here.len()]));
            } else {
                let x = here[a];
                let y = rest[b - here.len()];
                assert(here.contains(x));
                assert(rest.contains(y));
                let l = choose|l: int|
                    k + 1 <= l < order.len() && (#[trigger] range_spec(
                        bytes_at(entries, found, order, l),
                        min_ts,
                        max_ts,
                    ))->0.contains(y);
                assert(earlier(entries, found, order, k, l, min_ts, max_ts));
                assert(piece(entries, found, order, l, min_ts, max_ts).contains(y));
                assert(x.ts < y.ts);
            }
        }
    }
}

/// No two of the files taken have a moment in common.
pub open spec fn apart(found: Seq<Hit>) -> bool {
    forall|a: int, b: int|
        0 <= a < found.len() && 0 <= b < found.len() && a != b ==> (#[trigger] found[a]).meta.max_ts
            < (#[trigger] found[b]).meta.min_ts || found[b].meta.max_ts < found[a].meta.min_ts
}

/// A scan that succeeds gives its updates in ascending order, where
/// every file holds its updates in ascending order and within the range
/// that its header names, and no two of the files taken have a moment in
/// common.
pub proof fn lemma_scan_sorted(
    folder: Seq<char>,
    entries: Seq<FolderEntry>,
    symbol: Seq<char>,
    min_ts: u64,
    max_ts: u64,
)
    requires
        entries.len() <= usize::MAX,
        scan_spec(folder, entries, symbol, min_ts, max_ts) is Some,
        forall|i: int| 0 <= i < entries.len() ==> honest(#[trigger] entries[i]),
        forall|i: int| 0 <= i < entries.len() ==> sorted(updates_of(#[trigger] entries[i])),
        apart(hits(folder, entries, symbol, min_ts, max_ts)),
    ensures
        sorted(scan_spec(folder, entries, symbol, min_ts, max_ts)->0),
{
    let found = hits(folder, entries, symbol, min_ts, max_ts);
    let order = hit_order(found);
    let ks = hit_keys(found);
    lemma_hits(folder, entries, symbol, min_ts, max_ts);
    lemma_hits_len(folder, entries, symbol, min_ts, max_ts);
    lemma_key_order(hit_keys(found));
    lemma_gather_members(entries, found, order, 0, min_ts, max_ts);
    assert forall|j: int| 0 <= j < order.len() implies {
        let entry = entries[found[order[j] as int].entry];
        &&& sorted(#[trigger] piece(entries, found, order, j, min_ts, max_ts))
        &&& piece(entries, found, order, j, min_ts, max_ts) == updates_of(entry).filter(
            ts_within(min_ts as int, max_ts as int),
        )
    } by {
        let entry = entries[found[order[j] as int].entry];
        assert(range_spec(bytes_at(entries, found, order, j), min_ts, max_ts) is Some);
        lemma_range_of_hit(entry, symbol, min_ts, max_ts);
        assert(sorted(updates_of(entry)));
        lemma_filter_sorted(updates_of(entry), ts_within(min_ts as int, max_ts as int));
    }
    assert forall|j: int, l: int| 0 <= j < l < order.len() implies #[trigger] earlier(
        entries,
        found,
        order,
        j,
        l,
        min_ts,
        max_ts,
    ) by {
        let a = order[j] as int;
        let b = order[l] as int;
        let first = entries[found[a].entry];
        let second = entries[found[b].entry];
        let pj = piece(entries, found, order, j, min_ts, max_ts);
        let pl = piece(entries, found, order, l, min_ts, max_ts);
        assert(file_key_lt(ks[a], ks[b]));
        assert(a != b);
        assert(found[a].meta.max_ts < found[b].meta.min_ts || found[b].meta.max_ts
            < found[a].meta.min_ts);
        assert(honest(first));
        assert(honest(second));
        assert(sorted(pj));
        assert(sorted(pl));
        lemma_filter_members(updates_of(first), ts_within(min_ts as int, max_ts as int));
        lemma_filter_members(updates_of(second), ts_within(min_ts as int, max_ts as int));
        assert forall|x: Update, y: Update| pj.contains(x) && pl.contains(y) implies x.ts
            < y.ts by {
            assert(updates_of(first).contains(x));
            assert(updates_of(second).contains(y));
            let i = choose|i: int| 0 <= i < updates_of(first).len() && updates_of(first)[i] == x;
            let k = choose|k: int| 0 <= k < updates_of(second).len() && updates_of(second)[k] == y;
            assert(found[a].meta.min_ts <= updates_of(first)[i].ts <= found[a].meta.max_ts);
            assert(found[b].meta.min_ts <= updates_of(second)[k].ts <= found[b].meta.max_ts);
            assert(ks[a].min_ts <= ks[b].min_ts);
        }
    }
    lemma_gather_sorted(entries, found, order, 0, min_ts, max_ts);
}

/// Two listings of a folder look alike to a scan: entry by entry they
/// have the same name and the same header, and where an entry is taken,
/// the same bytes.
pub open spec fn alike(
    a: Seq<FolderEntry>,
    b: Seq<FolderEntry>,
    symbol: Seq<char>,
    min_ts: u64,
    max_ts: u64,
) -> bool {
    &&& a.len() == b.len()
    &&& forall|i: int|
        0 <= i < a.len() ==> {
            &&& probe(#[trigger] a[i]) == probe(b[i])
            &&& probe(a[i]) is Some ==> a[i]->name@ == b[i]->name@
            &&& is_hit(a[i], symbol, min_ts, max_ts) ==> bytes_of(a[i]) == bytes_of(b[i])
        }
}

/// Listings that look alike give the same files to take.
pub proof fn lemma_alike_hits(
    folder: Seq<char>,
    a: Seq<FolderEntry>,
    b: Seq<FolderEntry>,
    symbol: Seq<char>,
    min_ts: u64,
    max_ts: u64,
)
    requires
        alike(a, b, symbol, min_ts, max_ts),
    ensures
        hits(folder, a, symbol, min_ts, max_ts) == hits(folder, b, symbol, min_ts, max_ts),
    decreases a.len(),
{
    if a.len() > 0 {
        let a0 = a.drop_last();
        let b0 = b.drop_last();
        assert(alike(a0, b0, symbol, min_ts, max_ts)) by {
            assert forall|i: int| 0 <= i < a0.len() implies {
                &&& probe(#[trigger] a0[i]) == probe(b0[i])
                &&& probe(a0[i]) is Some ==> a0[i]->name@ == b0[i]->name@
                &&& is_hit(a0[i], symbol, min_ts, max_ts) ==> bytes_of(a0[i]) == bytes_of(b0[i])
            } by {
                assert(a0[i] == a[i] && b0[i] == b[i]);
            }
        }
        lemma_alike_hits(folder, a0, b0, symbol, min_ts, max_ts);
        assert(probe(a[a.len() - 1]) == probe(b[b.len() - 1]));
    }
}

/// The same bytes at every place of `order` gather to the same.
proof fn lemma_alike_gather(
    a: Seq<FolderEntry>,
    b: Seq<FolderEntry>,
    found: Seq<Hit>,
    order: Seq<usize>,
    k: int,
    min_ts: u64,
    max_ts: u64,
)
    requires
        0 <= k <= order.len(),
        forall|j: int|
            0 <= j < order.len() ==> bytes_at(a, found, order, j) == #[trigger] bytes_at(
                b,
                found,
                order,
                j,
            ),
    ensures
        gather(a, found, order, k, min_ts, max_ts) == gather(b, found, order, k, min_ts, max_ts),
    decreases order.len() - k,
{
    if k < order.len() {
        lemma_alike_gather(a, b, found, order, k + 1, min_ts, max_ts);
        assert(bytes_at(a, found, order, k) == bytes_at(b, found, order, k));
    }
}

/// A scan looks at the header of every file, and at the body of the
/// files that it takes and of no other: listings that look alike give the
/// same result.
pub proof fn lemma_scan_reads_what_it_takes(
    folder: Seq<char>,
    a: Seq<FolderEntry>,
    b: Seq<FolderEntry>,
    symbol: Seq<char>,
    min_ts: u64,
    max_ts: u64,
)
    requires
        a.len() <= usize::MAX,
        alike(a, b, symbol, min_ts, max_ts),
    ensures
        scan_spec(folder, a, symbol, min_ts, max_ts) == scan_spec(folder, b, symbol, min_ts, max_ts),
{
    let found = hits(folder, a, symbol, min_ts, max_ts);
    let order = hit_order(found);
    lemma_alike_hits(folder, a, b, symbol, min_ts, max_ts);
    lemma_hits(folder, a, symbol, min_ts, max_ts);
    lemma_hits_len(folder, a, symbol, min_ts, max_ts);
    lemma_key_order(hit_keys(found));
    assert forall|j: int| 0 <= j < order.len() implies bytes_at(a, found, order, j)
        == #[trigger] bytes_at(b, found, order, j) by {
        let hit = found[order[j] as int];
        assert(is_hit(a[hit.entry], symbol, min_ts, max_ts));
    }
    lemma_alike_gather(a, b, found, order, 0, min_ts, max_ts);
}

/// What `f` gives at the places that `order` names, added up.
pub open spec fn sum_over(order: Seq<usize>, f: spec_fn(int) -> nat) -> nat
    decreases order.len(),
{
    if order.len() == 0 {
        0
    } else {
        f(order.first() as int) + sum_over(order.drop_first(), f)
    }
}

/// What `f` gives at the places below `n`, added up.
pub open spec fn sum_first(n: nat, f: spec_fn(int) -> nat) -> nat
    decreases n,
{
    if n == 0 {
        0
    } else {
        sum_first((n - 1) as nat, f) + f(n - 1)
    }
}

/// One more place in an order adds what `f` gives there.
pub proof fn lemma_sum_insert(order: Seq<usize>, p: int, x: usize, f: spec_fn(int) -> nat)
    requires
        0 <= p <= order.len(),
    ensures
        sum_over(order.insert(p, x), f) == sum_over(order, f) + f(x as int),
    decreases p,
{
    let q = order.insert(p, x);
    if p == 0 {
        assert(q.drop_first() =~= order);
        assert(q.first() == x);
    } else {
        lemma_sum_insert(order.drop_first(), p - 1, x, f);
        assert(q.drop_first() =~= order.drop_first().insert(p - 1, x));
        assert(q.first() == order.first());
    }
}

/// Functions that agree below `n` add up to the same below `n`.
pub proof fn lemma_sum_first_agree(n: nat, f: spec_fn(int) -> nat, g: spec_fn(int) -> nat)
    requires
        forall|k: int| 0 <= k < n ==> #[trigger] f(k) == g(k),
    ensures
        sum_first(n, f) == sum_first(n, g),
    decreases n,
{
    if n > 0 {
        lemma_sum_first_agree((n - 1) as nat, f, g);
        assert(f(n - 1) == g(n - 1));
    }
}

/// With one more key at the end, the order of numbered keys has one more
/// place, that of the new key, at the place where the key fits.
pub proof fn lemma_key_order_push(keys: Seq<FileKeyModel>) -> (p: int)
    requires
        numbered(keys),
        keys.len() > 0,
    ensures
        0 <= p <= key_order(keys.drop_last()).len(),
        key_order(keys) == key_order(keys.drop_last()).insert(p, (keys.len() - 1) as usize),
{
    let before = keys.drop_last();
    let last = keys.last();
    let r0 = sorted_distinct::<FileKey>(before);
    lemma_sorted_distinct::<FileKey>(before);
    assert(same_keys(r0, before));
    assert(!r0.contains(last)) by {
        if r0.contains(last) {
            assert(before.contains(last));
            let j = choose|j: int| 0 <= j < before.len() && before[j] == last;
            assert(keys[j].index == j);
        }
    }
    let p = lemma_place_exists::<FileKey>(r0, last);
    lemma_insert_at_place::<FileKey>(r0, p, last);
    let r = r0.insert(p, last);
    assert(keys =~= before.push(last));
    lemma_push_contains(before, last);
    assert(same_keys(r, keys)) by {
        assert forall|k: FileKeyModel| r.contains(k) <==> keys.contains(k) by {
            assert(r.contains(k) <==> (r0.contains(k) || k == last));
            assert(r0.contains(k) <==> before.contains(k));
        }
    }
    lemma_sorted_distinct_is::<FileKey>(keys, r);
    assert(key_order(keys) =~= key_order(before).insert(p, (keys.len() - 1) as usize));
    p
}

/// Added up in the order of the keys or from first to last, it is the
/// same sum.
pub proof fn lemma_order_sum(keys: Seq<FileKeyModel>, f: spec_fn(int) -> nat)
    requires
        numbered(keys),
    ensures
        sum_over(key_order(keys), f) == sum_first(keys.len(), f),
    decreases keys.len(),
{
    if keys.len() == 0 {
        let none = Seq::<FileKeyModel>::empty();
        lemma_sorted_distinct_is::<FileKey>(keys, none);
        assert(key_order(keys) =~= Seq::<usize>::empty());
    } else {
        let before = keys.drop_last();
        assert(numbered(before)) by {
            assert forall|k: int| 0 <= k < before.len() implies (#[trigger] before[k]).index
                == k by {
                assert(keys[k].index == k);
            }
        }
        let p = lemma_key_order_push(keys);
        lemma_order_sum(before, f);
        lemma_sum_insert(key_order(before), p, (keys.len() - 1) as usize, f);
    }
}

/// How many updates the file taken at place `k` of `found` holds in the
/// window.
pub open spec fn piece_len(
    entries: Seq<FolderEntry>,
    found: Seq<Hit>,
    min_ts: u64,
    max_ts: u64,
) -> spec_fn(int) -> nat {
    |k: int| range_spec(bytes_of(entries[found[k].entry]), min_ts, max_ts)->0.len()
}

/// The count that the header of the file taken at place `k` names.
pub open spec fn header_count(found: Seq<Hit>) -> spec_fn(int) -> nat {
    |k: int| found[k].meta.count as nat
}

/// Where every file from place `k` of `order` on reads, what is gathered
/// from there is as long as the pieces of these files together.
pub proof fn lemma_gather_len(
    entries: Seq<FolderEntry>,
    found: Seq<Hit>,
    order: Seq<usize>,
    k: int,
    min_ts: u64,
    max_ts: u64,
)
    requires
        0 <= k <= order.len(),
        forall|j: int|
            k <= j < order.len() ==> (#[trigger] range_spec(
                bytes_at(entries, found, order, j),
                min_ts,
                max_ts,
            )) is Some,
    ensures
        gather(entries, found, order, k, min_ts, max_ts) is Some,
        gather(entries, found, order, k, min_ts, max_ts)->0.len() == sum_over(
            order.skip(k),
            piece_len(entries, found, min_ts, max_ts),
        ),
    decreases order.len() - k,
{
    let f = piece_len(entries, found, min_ts, max_ts);
    if k < order.len() {
        lemma_gather_len(entries, found, order, k + 1, min_ts, max_ts);
        assert(range_spec(bytes_at(entries, found, order, k), min_ts, max_ts) is Some);
        assert(order.skip(k).first() == order[k]);
        assert(order.skip(k).drop_first() =~= order.skip(k + 1));
        assert(f(order[k] as int) == range_spec(
            bytes_at(entries, found, order, k),
            min_ts,
            max_ts,
        )->0.len());
    } else {
        assert(order.skip(k) =~= Seq::<usize>::empty());
    }
}

/// Where every entry with a header is a file of `symbol`, the counts of
/// the headers of a folder add up to the counts of the files that a scan
/// over all time takes.
pub proof fn lemma_total_is_sum_of_hits(
    folder: Seq<char>,
    entries: Seq<FolderEntry>,
    symbol: Seq<char>,
)
    requires
        forall|i: int|
            0 <= i < entries.len() && probe(#[trigger] entries[i]) is Some ==> probe(
                entries[i],
            )->0.symbol == symbol,
    ensures
        total_count(entries) == sum_first(
            hits(folder, entries, symbol, 0, u64::MAX).len(),
            header_count(hits(folder, entries, symbol, 0, u64::MAX)),
        ),
    decreases entries.len(),
{
    let found = hits(folder, entries, symbol, 0, u64::MAX);
    if entries.len() > 0 {
        let head = entries.drop_last();
        let before = hits(folder, head, symbol, 0, u64::MAX);
        assert forall|i: int| 0 <= i < head.len() && probe(#[trigger] head[i]) is Some implies probe(
            head[i],
        )->0.symbol == symbol by {
            assert(head[i] == entries[i]);
        }
        lemma_total_is_sum_of_hits(folder, head, symbol);
        let last = entries[entries.len() - 1];
        assert(last == entries.last());
        if probe(last) is Some {
            assert(is_hit(last, symbol, 0, u64::MAX));
            assert(found == before.push(found.last()));
            assert forall|k: int| 0 <= k < before.len() implies #[trigger] header_count(found)(k)
                == header_count(before)(k) by {
                assert(found[k] == before[k]);
            }
            lemma_sum_first_agree(before.len(), header_count(found), header_count(before));
        } else {
            assert(!is_hit(last, symbol, 0, u64::MAX));
            assert(found == before);
        }
    }
}

/// The counts that the headers of a folder name add up to the number of
/// updates that a scan of the folder over all time gives, where every
/// entry with a header is a file of `symbol` that reads.
pub proof fn lemma_total_is_scan_len(
    folder: Seq<char>,
    entries: Seq<FolderEntry>,
    symbol: Seq<char>,
)
    requires
        entries.len() <= usize::MAX,
        forall|i: int|
            0 <= i < entries.len() && probe(#[trigger] entries[i]) is Some ==> {
                &&& probe(entries[i])->0.symbol == symbol
                &&& decode_spec(bytes_of(entries[i]), None) is Some
            },
    ensures
        scan_spec(folder, entries, symbol, 0, u64::MAX) is Some,
        scan_spec(folder, entries, symbol, 0, u64::MAX)->0.len() == total_count(entries),
{
    let found = hits(folder, entries, symbol, 0, u64::MAX);
    let order = hit_order(found);
    let f = piece_len(entries, found, 0, u64::MAX);
    let g = header_count(found);
    lemma_hits(folder, entries, symbol, 0, u64::MAX);
    lemma_hits_len(folder, entries, symbol, 0, u64::MAX);
    lemma_key_order(hit_keys(found));
    assert forall|k: int| 0 <= k < found.len() implies #[trigger] f(k) == g(k) && range_spec(
        bytes_of(entries[found[k].entry]),
        0,
        u64::MAX,
    ) is Some by {
        let entry = entries[found[k].entry];
        let all = decode_spec(bytes_of(entry), None)->0;
        assert(probe(entry) == Some(found[k].meta));
        assert(decode_spec(bytes_of(entry), None) is Some);
        crate::merge_facts::lemma_filter_all(all, ts_within(0, u64::MAX as int));
    }
    assert forall|j: int| 0 <= j < order.len() implies (#[trigger] range_spec(
        bytes_at(entries, found, order, j),
        0,
        u64::MAX,
    )) is Some by {
        assert(f(order[j] as int) == g(order[j] as int));
    }
    lemma_gather_len(entries, found, order, 0, 0, u64::MAX);
    assert(order.skip(0) =~= order);
    lemma_order_sum(hit_keys(found), f);
    lemma_sum_first_agree(found.len(), f, g);
    lemma_total_is_sum_of_hits(folder, entries, symbol);
}

} // verus!
