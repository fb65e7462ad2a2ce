//! What holds of every merge: nothing is lost or made up, and files that
//! are fit to be merged give a strictly ascending result.

use crate::files::{ascending_by_min_ts, InputFile};
use crate::dtf::{
    decode_spec, file_bytes, lemma_round_trip, metadata_for, valid_symbol,
};
use crate::error::ErrorModel;
use crate::merge::{
    all_readable, all_updates, combine_spec, continuous, distinct_symbols, first_gap, gap_after,
    merge_from, merge_spec, next_min_ts, union_sorted, with_body_range, with_body_ranges,
};
use crate::order::{lemma_sorted_distinct, lemma_sorted_distinct_is, same_keys, sorted_distinct};
use crate::update::{sorted, strictly_sorted, ts_within, update_le, update_lt, Update};
use vstd::prelude::*;

verus! {

/// Every update of `s` has `lo <= ts <= hi`.
pub open spec fn all_ts_within(s: Seq<Update>, lo: int, hi: int) -> bool {
    forall|k: int| 0 <= k < s.len() ==> lo <= (#[trigger] s[k]).ts <= hi
}

/// What is in `a + b` is in `a` or in `b`.
pub proof fn lemma_concat_contains<A>(a: Seq<A>, b: Seq<A>)
    ensures
        forall|x: A| (a + b).contains(x) <==> (a.contains(x) || b.contains(x)),
{
    let c = a + b;
    assert forall|x: A| c.contains(x) <==> (a.contains(x) || b.contains(x)) by {
        if c.contains(x) {
            let i = choose|i: int| 0 <= i < c.len() && c[i] == x;
            if i < a.len() {
                assert(a[i] == x);
            } else {
                assert(b[i - a.len()] == x);
            }
        }
        if a.contains(x) {
            let i = choose|i: int| 0 <= i < a.len() && a[i] == x;
            assert(c[i] == x);
        }
        if b.contains(x) {
            let i = choose|i: int| 0 <= i < b.len() && b[i] == x;
            assert(c[a.len() + i] == x);
        }
    }
}

/// A filter keeps the updates that pass, and no others.
pub proof fn lemma_filter_members(s: Seq<Update>, pred: spec_fn(Update) -> bool)
    ensures
        forall|u: Update| #[trigger] s.filter(pred).contains(u) ==> s.contains(u) && pred(u),
        forall|u: Update| #[trigger] s.contains(u) && pred(u) ==> s.filter(pred).contains(u),
    decreases s.len(),
{
    reveal(Seq::filter);
    let f = s.filter(pred);
    if s.len() == 0 {
        assert(f =~= s);
        assert forall|u: Update| f.contains(u) <==> (s.contains(u) && pred(u)) by {
            if s.contains(u) {
                let k = choose|k: int| 0 <= k < s.len() && s[k] == u;
            }
        }
    } else {
        let s0 = s.drop_last();
        let x = s.last();
        let f0 = s0.filter(pred);
        lemma_filter_members(s0, pred);
        assert(s =~= s0.push(x));
        crate::order::lemma_push_contains(s0, x);
        crate::order::lemma_push_contains(f0, x);
        assert(f == if pred(x) {
            f0.push(x)
        } else {
            f0
        });
        assert forall|u: Update| f.contains(u) <==> (s.contains(u) && pred(u)) by {
            assert(s.contains(u) <==> (s0.contains(u) || u == x));
            assert(f0.contains(u) <==> (s0.contains(u) && pred(u)));
            assert(f0.push(x).contains(u) <==> (f0.contains(u) || u == x));
        }
    }
}

/// A filter keeps a strictly ascending sequence strictly ascending.
pub proof fn lemma_filter_strictly_sorted(s: Seq<Update>, pred: spec_fn(Update) -> bool)
    requires
        strictly_sorted(s),
    ensures
        strictly_sorted(s.filter(pred)),
    decreases s.len(),
{
    reveal(Seq::filter);
    if s.len() > 0 {
        let s0 = s.drop_last();
        let x = s.last();
        assert(strictly_sorted(s0)) by {
            assert forall|i: int, j: int| 0 <= i < j < s0.len() implies update_lt(
                #[trigger] s0[i],
                #[trigger] s0[j],
            ) by {
                assert(update_lt(s[i], s[j]));
            }
        }
        lemma_filter_strictly_sorted(s0, pred);
        lemma_filter_members(s0, pred);
        if pred(x) {
            let f0 = s0.filter(pred);
            let f = f0.push(x);
            assert forall|i: int, j: int| 0 <= i < j < f.len() implies update_lt(
                #[trigger] f[i],
                #[trigger] f[j],
            ) by {
                if j < f0.len() {
                    assert(update_lt(f0[i], f0[j]));
                } else {
                    assert(f0.contains(f0[i]));
                    assert(s0.contains(f0[i]));
                    let k = choose|k: int| 0 <= k < s0.len() && s0[k] == f0[i];
                    assert(update_lt(s[k], s[s.len() - 1]));
                }
            }
        }
    }
}

/// Where nothing passes, the filter gives nothing.
pub proof fn lemma_filter_none(s: Seq<Update>, pred: spec_fn(Update) -> bool)
    requires
        forall|k: int| 0 <= k < s.len() ==> !pred(#[trigger] s[k]),
    ensures
        s.filter(pred) == Seq::<Update>::empty(),
{
    lemma_filter_members(s, pred);
    let f = s.filter(pred);
    if f.len() > 0 {
        assert(f.contains(f[0]));
        let k = choose|k: int| 0 <= k < s.len() && s[k] == f[0];
        assert(!pred(s[k]));
    }
    assert(f =~= Seq::<Update>::empty());
}

/// Where everything passes, the filter gives everything.
pub proof fn lemma_filter_all(s: Seq<Update>, pred: spec_fn(Update) -> bool)
    requires
        forall|k: int| 0 <= k < s.len() ==> pred(#[trigger] s[k]),
    ensures
        s.filter(pred) == s,
    decreases s.len(),
{
    reveal(Seq::filter);
    if s.len() > 0 {
        let s0 = s.drop_last();
        assert forall|k: int| 0 <= k < s0.len() implies pred(#[trigger] s0[k]) by {
            assert(s0[k] == s[k]);
        }
        lemma_filter_all(s0, pred);
        assert(s =~= s0.push(s.last()));
    }
}

/// Two strictly ascending sequences, every update of the first below
/// every update of the second, make one strictly ascending sequence.
pub proof fn lemma_strictly_sorted_concat(a: Seq<Update>, b: Seq<Update>)
    requires
        strictly_sorted(a),
        strictly_sorted(b),
        forall|i: int, j: int|
            0 <= i < a.len() && 0 <= j < b.len() ==> update_lt(#[trigger] a[i], #[trigger] b[j]),
    ensures
        strictly_sorted(a + b),
{
    let c = a + b;
    assert forall|i: int, j: int| 0 <= i < j < c.len() implies update_lt(
        #[trigger] c[i],
        #[trigger] c[j],
    ) by {
        if j < a.len() {
            assert(update_lt(a[i], a[j]));
        } else if i < a.len() {
            assert(update_lt(a[i], b[j - a.len()]));
        } else {
            assert(update_lt(b[i - a.len()], b[j - a.len()]));
        }
    }
}

/// The union of two sequences is strictly ascending and holds what they
/// hold.
pub proof fn lemma_union_sorted(a: Seq<Update>, b: Seq<Update>)
    ensures
        strictly_sorted(union_sorted(a, b)),
        forall|u: Update|
            #[trigger] union_sorted(a, b).contains(u) <==> (a.contains(u) || b.contains(u)),
{
    lemma_sorted_distinct::<Update>(a + b);
    lemma_concat_contains(a, b);
    let d = union_sorted(a, b);
    assert(same_keys(d, a + b));
    assert forall|u: Update| d.contains(u) <==> (a.contains(u) || b.contains(u)) by {
        assert(d.contains(u) <==> (a + b).contains(u));
    }
    assert forall|i: int, j: int| 0 <= i < j < d.len() implies update_lt(
        #[trigger] d[i],
        #[trigger] d[j],
    ) by {
        assert(<Update as crate::order::TotalOrder>::key_lt(d[i], d[j]));
    }
}

/// A strictly ascending sequence is its own union with nothing, and with
/// itself.
pub proof fn lemma_union_of_sorted(s: Seq<Update>)
    requires
        strictly_sorted(s),
    ensures
        union_sorted(Seq::empty(), s) == s,
        union_sorted(s, Seq::empty()) == s,
        union_sorted(s, s) == s,
{
    assert(crate::order::ascending::<Update>(s)) by {
        assert forall|i: int, j: int| 0 <= i < j < s.len() implies <Update as crate::order::TotalOrder>::key_lt(
            #[trigger] s[i],
            #[trigger] s[j],
        ) by {
            assert(update_lt(s[i], s[j]));
        }
    }
    lemma_concat_contains(Seq::<Update>::empty(), s);
    lemma_concat_contains(s, Seq::<Update>::empty());
    lemma_concat_contains(s, s);
    lemma_sorted_distinct_is::<Update>(Seq::<Update>::empty() + s, s);
    lemma_sorted_distinct_is::<Update>(s + Seq::<Update>::empty(), s);
    lemma_sorted_distinct_is::<Update>(s + s, s);
}

/// Every update of `body` lies within the range that `file` names.
pub open spec fn within_header(file: InputFile, body: Seq<Update>) -> bool {
    all_ts_within(body, file.metadata.min_ts as int, file.metadata.max_ts as int)
}

/// The files from `i` on are fit to be merged, when the last file taken
/// ended at `prev_max`: they are ordered by `min_ts`; each file that has
/// updates holds them strictly ascending and within the range that its
/// header names; and the file after it starts later than `prev_max`, so
/// that no moment belongs to three files.
pub open spec fn ready_from(
    files: Seq<InputFile>,
    bodies: Seq<Seq<Update>>,
    i: int,
    prev_max: int,
) -> bool
    decreases files.len() - i,
{
    if i < 0 || i >= files.len() {
        true
    } else {
        &&& i + 1 < files.len() ==> files[i].metadata.min_ts <= files[i + 1].metadata.min_ts
        &&& if bodies[i].len() == 0 {
            ready_from(files, bodies, i + 1, prev_max)
        } else {
            &&& strictly_sorted(bodies[i])
            &&& within_header(files[i], bodies[i])
            &&& i + 1 < files.len() ==> prev_max < files[i + 1].metadata.min_ts
            &&& ready_from(files, bodies, i + 1, files[i].metadata.max_ts as int)
        }
    }
}

/// The files are fit to be merged in the order given.
pub open spec fn merge_ready(files: Seq<InputFile>, bodies: Seq<Seq<Update>>) -> bool {
    files.len() == bodies.len() && ready_from(files, bodies, 0, 0)
}

/// What the merge gives out from file `i` on is strictly ascending and
/// not before `floor`, where the files from `i` on are fit to be merged and
/// what is carried is strictly ascending between `floor` and `prev_max`.
proof fn lemma_merge_from_ascending(
    files: Seq<InputFile>,
    bodies: Seq<Seq<Update>>,
    i: int,
    prev_max: int,
    carry: Seq<Update>,
    floor: int,
)
    requires
        files.len() == bodies.len(),
        0 <= i <= files.len(),
        0 <= prev_max,
        ready_from(files, bodies, i, prev_max),
        strictly_sorted(carry),
        all_ts_within(carry, floor, prev_max),
        i < files.len() ==> floor <= files[i].metadata.min_ts,
    ensures
        strictly_sorted(merge_from(files, bodies, i, prev_max, carry)),
        all_ts_within(merge_from(files, bodies, i, prev_max, carry), floor, u64::MAX as int),
    decreases files.len() - i,
{
    if i >= files.len() {
    } else if bodies[i].len() == 0 {
        lemma_merge_from_ascending(files, bodies, i + 1, prev_max, carry, floor);
    } else {
        let body = bodies[i];
        let next_min = next_min_ts(files, i);
        let max_i = files[i].metadata.max_ts as int;
        let min_i = files[i].metadata.min_ts as int;
        let left = body.filter(ts_within(0, prev_max));
        let middle = body.filter(ts_within(prev_max + 1, next_min - 1));
        let right = body.filter(ts_within(next_min, u64::MAX as int));
        let united = union_sorted(carry, left);
        let rest = merge_from(files, bodies, i + 1, max_i, right);
        lemma_filter_members(body, ts_within(0, prev_max));
        lemma_filter_members(body, ts_within(prev_max + 1, next_min - 1));
        lemma_filter_members(body, ts_within(next_min, u64::MAX as int));
        lemma_filter_strictly_sorted(body, ts_within(prev_max + 1, next_min - 1));
        lemma_filter_strictly_sorted(body, ts_within(next_min, u64::MAX as int));
        lemma_union_sorted(carry, left);
        assert forall|u: Update| body.contains(u) implies min_i <= u.ts <= max_i by {
            let k = choose|k: int| 0 <= k < body.len() && body[k] == u;
            assert(min_i <= body[k].ts <= max_i);
        }
        assert(all_ts_within(united, floor, prev_max)) by {
            assert forall|k: int| 0 <= k < united.len() implies floor <= (#[trigger] united[k]).ts
                <= prev_max by {
                assert(united.contains(united[k]));
                if carry.contains(united[k]) {
                    let c = choose|c: int| 0 <= c < carry.len() && carry[c] == united[k];
                    assert(floor <= carry[c].ts <= prev_max);
                } else {
                    assert(left.contains(united[k]));
                }
            }
        }
        assert(all_ts_within(middle, if floor > prev_max + 1 { floor } else { prev_max + 1 }, next_min - 1)) by {
            assert forall|k: int| 0 <= k < middle.len() implies prev_max + 1 <= (
            #[trigger] middle[k]).ts <= next_min - 1 && floor <= middle[k].ts by {
                assert(middle.contains(middle[k]));
            }
        }
        assert(all_ts_within(right, next_min, max_i)) by {
            assert forall|k: int| 0 <= k < right.len() implies next_min <= (#[trigger] right[k]).ts
                <= max_i by {
                assert(right.contains(right[k]));
            }
        }
        lemma_merge_from_ascending(files, bodies, i + 1, max_i, right, next_min);
        if i + 1 >= files.len() {
            if right.len() > 0 {
                assert(next_min <= right[0].ts <= max_i);
            }
            assert(rest == right);
            assert(rest.len() == 0);
        }
        assert(strictly_sorted(united + middle)) by {
            assert forall|a: int, b: int|
                0 <= a < united.len() && 0 <= b < middle.len() implies update_lt(
                #[trigger] united[a],
                #[trigger] middle[b],
            ) by {
                assert(united[a].ts <= prev_max);
                assert(middle[b].ts >= prev_max + 1);
            }
            lemma_strictly_sorted_concat(united, middle);
        }
        let head = united + middle;
        assert(strictly_sorted(head + rest)) by {
            assert forall|a: int, b: int|
                0 <= a < head.len() && 0 <= b < rest.len() implies update_lt(
                #[trigger] head[a],
                #[trigger] rest[b],
            ) by {
                assert(rest[b].ts >= next_min);
                if a < united.len() {
                    assert(head[a] == united[a]);
                    assert(united[a].ts <= prev_max);
                } else {
                    assert(head[a] == middle[a - united.len()]);
                    assert(middle[a - united.len()].ts <= next_min - 1);
                }
            }
            lemma_strictly_sorted_concat(head, rest);
        }
        let out = head + rest;
        assert(out == merge_from(files, bodies, i, prev_max, carry));
        assert forall|k: int| 0 <= k < out.len() implies floor <= (#[trigger] out[k]).ts
            <= u64::MAX as int by {
            if k < united.len() {
                assert(out[k] == united[k]);
            } else if k < head.len() {
                assert(out[k] == middle[k - united.len()]);
            } else {
                assert(out[k] == rest[k - head.len()]);
                assert(rest[k - head.len()].ts >= next_min);
            }
        }
    }
}

/// Files that are fit to be merged give a strictly ascending result: it
/// is in order, and no update occurs in it twice.
pub proof fn lemma_merge_strictly_sorted(files: Seq<InputFile>, bodies: Seq<Seq<Update>>)
    requires
        merge_ready(files, bodies),
    ensures
        strictly_sorted(merge_spec(files, bodies)),
{
    lemma_merge_from_ascending(files, bodies, 0, 0, Seq::empty(), 0);
}

/// `u` is among the updates of some file from place `from` on.
pub open spec fn in_some_body(bodies: Seq<Seq<Update>>, from: int, u: Update) -> bool {
    exists|j: int| from <= j < bodies.len() && (#[trigger] bodies[j]).contains(u)
}

/// What the merge gives out from file `i` on is what is carried and what
/// the files from `i` on hold.
proof fn lemma_merge_from_members(
    files: Seq<InputFile>,
    bodies: Seq<Seq<Update>>,
    i: int,
    prev_max: int,
    carry: Seq<Update>,
)
    requires
        files.len() == bodies.len(),
        0 <= i <= files.len(),
        0 <= prev_max,
    ensures
        forall|u: Update|
            #[trigger] merge_from(files, bodies, i, prev_max, carry).contains(u) <==> (
            carry.contains(u) || in_some_body(bodies, i, u)),
    decreases files.len() - i,
{
    let out = merge_from(files, bodies, i, prev_max, carry);
    if i >= files.len() {
    } else if bodies[i].len() == 0 {
        let next = merge_from(files, bodies, i + 1, prev_max, carry);
        lemma_merge_from_members(files, bodies, i + 1, prev_max, carry);
        assert(out == next);
        assert forall|u: Update| #[trigger] out.contains(u) <==> (carry.contains(u)
            || in_some_body(bodies, i, u)) by {
            assert(next.contains(u) <==> (carry.contains(u) || in_some_body(bodies, i + 1, u)));
            assert(!bodies[i].contains(u));
            if in_some_body(bodies, i, u) {
                let j = choose|j: int| i <= j < bodies.len() && (#[trigger] bodies[j]).contains(u);
                assert(j != i);
                assert(in_some_body(bodies, i + 1, u));
            }
            if in_some_body(bodies, i + 1, u) {
                let j = choose|j: int|
                    i + 1 <= j < bodies.len() && (#[trigger] bodies[j]).contains(u);
                assert(bodies[j].contains(u));
            }
        }
    } else {
        let body = bodies[i];
        let next_min = next_min_ts(files, i);
        let max_i = files[i].metadata.max_ts as int;
        let left = body.filter(ts_within(0, prev_max));
        let middle = body.filter(ts_within(prev_max + 1, next_min - 1));
        let right = body.filter(ts_within(next_min, u64::MAX as int));
        let united = union_sorted(carry, left);
        let rest = merge_from(files, bodies, i + 1, max_i, right);
        lemma_filter_members(body, ts_within(0, prev_max));
        lemma_filter_members(body, ts_within(prev_max + 1, next_min - 1));
        lemma_filter_members(body, ts_within(next_min, u64::MAX as int));
        lemma_union_sorted(carry, left);
        lemma_merge_from_members(files, bodies, i + 1, max_i, right);
        lemma_concat_contains(united, middle);
        lemma_concat_contains(united + middle, rest);
        assert(out == united + middle + rest);
        assert forall|u: Update| #[trigger] out.contains(u) <==> (carry.contains(u)
            || in_some_body(bodies, i, u)) by {
            assert(out.contains(u) <==> (united.contains(u) || middle.contains(u) || rest.contains(
                u,
            )));
            assert(rest.contains(u) <==> (right.contains(u) || in_some_body(bodies, i + 1, u)));
            if in_some_body(bodies, i, u) {
                let j = choose|j: int| i <= j < bodies.len() && (#[trigger] bodies[j]).contains(u);
                if j == i {
                    assert(body.contains(u));
                    assert(left.contains(u) || middle.contains(u) || right.contains(u));
                } else {
                    assert(in_some_body(bodies, i + 1, u));
                }
            }
            if in_some_body(bodies, i + 1, u) {
                let j = choose|j: int|
                    i + 1 <= j < bodies.len() && (#[trigger] bodies[j]).contains(u);
                assert(bodies[j].contains(u));
            }
            if left.contains(u) || middle.contains(u) || right.contains(u) {
                assert(bodies[i].contains(u));
            }
        }
    }
}

/// The merge loses nothing and makes nothing up: its result holds the
/// updates of the files, and no others.
pub proof fn lemma_merge_members(files: Seq<InputFile>, bodies: Seq<Seq<Update>>)
    requires
        files.len() == bodies.len(),
    ensures
        forall|u: Update|
            #[trigger] merge_spec(files, bodies).contains(u) <==> in_some_body(bodies, 0, u),
{
    lemma_merge_from_members(files, bodies, 0, 0, Seq::empty());
}

/// What is in the concatenation of the bodies is in one of them.
pub proof fn lemma_flatten_members(bodies: Seq<Seq<Update>>)
    ensures
        forall|u: Update| #[trigger] bodies.flatten().contains(u) <==> in_some_body(bodies, 0, u),
    decreases bodies.len(),
{
    let all = bodies.flatten();
    if bodies.len() > 0 {
        let tail = bodies.drop_first();
        lemma_flatten_members(tail);
        lemma_concat_contains(bodies.first(), tail.flatten());
        assert forall|u: Update| #[trigger] all.contains(u) <==> in_some_body(bodies, 0, u) by {
            if in_some_body(bodies, 0, u) {
                let j = choose|j: int| 0 <= j < bodies.len() && (#[trigger] bodies[j]).contains(u);
                if j > 0 {
                    assert(tail[j - 1].contains(u));
                    assert(in_some_body(tail, 0, u));
                }
            }
            if in_some_body(tail, 0, u) {
                let j = choose|j: int| 0 <= j < tail.len() && (#[trigger] tail[j]).contains(u);
                assert(bodies[j + 1].contains(u));
            }
            if bodies.first().contains(u) {
                assert(bodies[0].contains(u));
            }
        }
    }
}

/// Files that are fit to be merged give the updates of all of them, each
/// once, in ascending order.
pub proof fn lemma_merge_is_union(files: Seq<InputFile>, bodies: Seq<Seq<Update>>)
    requires
        merge_ready(files, bodies),
    ensures
        merge_spec(files, bodies) == sorted_distinct::<Update>(bodies.flatten()),
{
    let merged = merge_spec(files, bodies);
    lemma_merge_strictly_sorted(files, bodies);
    lemma_merge_members(files, bodies);
    lemma_flatten_members(bodies);
    assert(crate::order::ascending::<Update>(merged)) by {
        assert forall|i: int, j: int| 0 <= i < j < merged.len() implies <Update as crate::order::TotalOrder>::key_lt(
            #[trigger] merged[i],
            #[trigger] merged[j],
        ) by {
            assert(update_lt(merged[i], merged[j]));
        }
    }
    assert(same_keys(merged, bodies.flatten())) by {
        assert forall|u: Update| merged.contains(u) <==> bodies.flatten().contains(u) by {
            assert(merged.contains(u) <==> in_some_body(bodies, 0, u));
        }
    }
    lemma_sorted_distinct_is::<Update>(bodies.flatten(), merged);
}

/// Merging a file with itself gives the file's updates, where these are
/// strictly ascending, lie within the range that the header names, and
/// none of them is at time zero.
pub proof fn lemma_merge_with_itself(file: InputFile, body: Seq<Update>)
    requires
        strictly_sorted(body),
        within_header(file, body),
        body.len() > 0 ==> file.metadata.min_ts > 0,
    ensures
        merge_spec(seq![file, file], seq![body, body]) == body,
{
    let files = seq![file, file];
    let bodies = seq![body, body];
    let empty = Seq::<Update>::empty();
    assert(files[0] == file && files[1] == file && files.len() == 2);
    assert(bodies[0] == body && bodies[1] == body && bodies.len() == 2);
    if body.len() == 0 {
        let step2 = merge_from(files, bodies, 2, 0, empty);
        let step1 = merge_from(files, bodies, 1, 0, empty);
        assert(step2 == empty);
        assert(step1 == step2);
        assert(merge_spec(files, bodies) == step1);
        assert(body =~= empty);
    } else {
        let min = file.metadata.min_ts as int;
        let max = file.metadata.max_ts as int;
        assert(min <= body[0].ts <= max);
        lemma_filter_none(body, ts_within(0, 0));
        lemma_filter_all(body, ts_within(min, u64::MAX as int));
        lemma_filter_all(body, ts_within(0, max));
        lemma_filter_none(body, ts_within(max + 1, max + 1 - 1));
        lemma_filter_none(body, ts_within(max + 1, u64::MAX as int));
        lemma_filter_none(body, ts_within(1, min - 1));
        lemma_union_of_sorted(empty);
        lemma_union_of_sorted(body);
        assert(next_min_ts(files, 0) == min);
        assert(next_min_ts(files, 1) == max + 1);
        let step2 = merge_from(files, bodies, 2, max, empty);
        let step1 = merge_from(files, bodies, 1, max, body);
        assert(step2 == empty);
        assert(step1 == union_sorted(body, body) + empty + step2);
        assert(step1 =~= body);
        assert(merge_spec(files, bodies) == union_sorted(empty, empty) + empty + step1);
        assert(empty + empty + body =~= body);
    }
}

/// No file reaches the start of a later one.
pub open spec fn disjoint_ranges(files: Seq<InputFile>) -> bool {
    forall|i: int, j: int|
        0 <= i < j < files.len() ==> (#[trigger] files[i]).metadata.max_ts < (
        #[trigger] files[j]).metadata.min_ts
}

/// The updates at time zero come first and are strictly ascending.
#[verifier::opaque]
pub open spec fn starts_clean(body: Seq<Update>) -> bool {
    let at_zero = body.filter(ts_within(0, 0));
    strictly_sorted(at_zero) && body == at_zero + body.filter(ts_within(1, u64::MAX as int))
}

/// Two filters that agree on every update of `s` give the same.
pub proof fn lemma_filter_agree(
    s: Seq<Update>,
    p: spec_fn(Update) -> bool,
    q: spec_fn(Update) -> bool,
)
    requires
        forall|k: int| 0 <= k < s.len() ==> p(#[trigger] s[k]) == q(s[k]),
    ensures
        s.filter(p) == s.filter(q),
    decreases s.len(),
{
    reveal(Seq::filter);
    if s.len() > 0 {
        let s0 = s.drop_last();
        assert forall|k: int| 0 <= k < s0.len() implies p(#[trigger] s0[k]) == q(s0[k]) by {
            assert(s0[k] == s[k]);
        }
        lemma_filter_agree(s0, p, q);
        assert(p(s[s.len() - 1]) == q(s[s.len() - 1]));
    }
}

/// Every file from place `i` on starts later than `t`.
pub open spec fn start_after(files: Seq<InputFile>, i: int, t: int) -> bool {
    forall|j: int| i <= j < files.len() ==> t < (#[trigger] files[j]).metadata.min_ts
}

/// Every file holds its updates within the range that its header names.
pub open spec fn all_within_header(files: Seq<InputFile>, bodies: Seq<Seq<Update>>) -> bool {
    forall|j: int| 0 <= j < files.len() ==> within_header(#[trigger] files[j], bodies[j])
}

/// One step of the merge on a file that nothing overlaps: all of its
/// updates are given out in between, none is held back or carried.
proof fn lemma_disjoint_step(body: Seq<Update>, min: int, max: int, prev_max: int, next_min: int)
    requires
        all_ts_within(body, min, max),
        prev_max < min,
        max < next_min,
    ensures
        body.filter(ts_within(0, prev_max)) == Seq::<Update>::empty(),
        body.filter(ts_within(prev_max + 1, next_min - 1)) == body,
        body.filter(ts_within(next_min, u64::MAX as int)) == Seq::<Update>::empty(),
{
    lemma_filter_none(body, ts_within(0, prev_max));
    lemma_filter_all(body, ts_within(prev_max + 1, next_min - 1));
    lemma_filter_none(body, ts_within(next_min, u64::MAX as int));
}

/// From file `i` on, files whose ranges do not touch and that start after
/// `prev_max` are given out one after another.
proof fn lemma_disjoint_from(
    files: Seq<InputFile>,
    bodies: Seq<Seq<Update>>,
    i: int,
    prev_max: int,
)
    requires
        files.len() == bodies.len(),
        0 <= i <= files.len(),
        0 <= prev_max,
        all_within_header(files, bodies),
        disjoint_ranges(files),
        start_after(files, i, prev_max),
    ensures
        merge_from(files, bodies, i, prev_max, Seq::empty()) == bodies.skip(i).flatten(),
    decreases files.len() - i,
{
    let empty = Seq::<Update>::empty();
    let out = merge_from(files, bodies, i, prev_max, empty);
    if i >= files.len() {
        assert(bodies.skip(i) =~= Seq::<Seq<Update>>::empty());
    } else {
        let body = bodies[i];
        let max_i = files[i].metadata.max_ts as int;
        let min_i = files[i].metadata.min_ts as int;
        let tail = bodies.skip(i + 1).flatten();
        assert(bodies.skip(i).first() == body);
        assert(bodies.skip(i).drop_first() =~= bodies.skip(i + 1));
        assert(bodies.skip(i).flatten() == body + tail);
        assert(within_header(files[i], bodies[i]));
        assert(prev_max < files[i].metadata.min_ts);
        assert(start_after(files, i + 1, max_i)) by {
            assert forall|j: int| i + 1 <= j < files.len() implies max_i < (
            #[trigger] files[j]).metadata.min_ts by {
                assert(files[i].metadata.max_ts < files[j].metadata.min_ts);
            }
        }
        if body.len() == 0 {
            assert(start_after(files, i + 1, prev_max));
            lemma_disjoint_from(files, bodies, i + 1, prev_max);
            assert(body + tail =~= tail);
        } else {
            let next_min = next_min_ts(files, i);
            assert(max_i < next_min) by {
                if i + 1 < files.len() {
                    assert(max_i < files[i + 1].metadata.min_ts);
                }
            }
            lemma_disjoint_step(body, min_i, max_i, prev_max, next_min);
            lemma_disjoint_from(files, bodies, i + 1, max_i);
            lemma_union_of_sorted(empty);
            assert(out == empty + body + tail);
            assert(empty + body =~= body);
        }
    }
}

/// The first step of the merge on a file that starts clean and ends
/// before `next_min`: all of its updates are given out, none is carried.
proof fn lemma_clean_step(body: Seq<Update>, max: int, next_min: int)
    requires
        all_ts_within(body, 0, max),
        max < next_min,
        starts_clean(body),
    ensures
        union_sorted(Seq::empty(), body.filter(ts_within(0, 0))) + body.filter(
            ts_within(1, next_min - 1),
        ) == body,
        body.filter(ts_within(next_min, u64::MAX as int)) == Seq::<Update>::empty(),
{
    lemma_later_updates(body, max, next_min);
    lemma_clean_start(body);
}

/// Of updates that end before `next_min`, those from time one on are
/// those from time one up to `next_min`, and none is at `next_min` or
/// later.
proof fn lemma_later_updates(body: Seq<Update>, max: int, next_min: int)
    requires
        all_ts_within(body, 0, max),
        max < next_min,
    ensures
        body.filter(ts_within(1, next_min - 1)) == body.filter(ts_within(1, u64::MAX as int)),
        body.filter(ts_within(next_min, u64::MAX as int)) == Seq::<Update>::empty(),
{
    assert forall|k: int| 0 <= k < body.len() implies ts_within(1, next_min - 1)(
        #[trigger] body[k],
    ) == ts_within(1, u64::MAX as int)(body[k]) by {
        assert(body[k].ts <= max);
    }
    lemma_filter_agree(body, ts_within(1, next_min - 1), ts_within(1, u64::MAX as int));
    lemma_filter_none(body, ts_within(next_min, u64::MAX as int));
}

/// Updates that start clean are those at time zero, which are their own
/// union, followed by the others.
proof fn lemma_clean_start(body: Seq<Update>)
    requires
        starts_clean(body),
    ensures
        union_sorted(Seq::empty(), body.filter(ts_within(0, 0))) + body.filter(
            ts_within(1, u64::MAX as int),
        ) == body,
{
    reveal(starts_clean);
    lemma_union_of_sorted(body.filter(ts_within(0, 0)));
}

/// Files whose ranges do not touch merge to their updates one file after
/// another, where every update lies within the range that its file's
/// header names and the first file starts clean.
pub proof fn lemma_merge_disjoint(files: Seq<InputFile>, bodies: Seq<Seq<Update>>)
    requires
        files.len() == bodies.len(),
        all_within_header(files, bodies),
        disjoint_ranges(files),
        files.len() > 0 ==> starts_clean(bodies[0]),
    ensures
        merge_spec(files, bodies) == bodies.flatten(),
{
    let empty = Seq::<Update>::empty();
    assert(bodies.skip(0) =~= bodies);
    if files.len() == 0 {
        assert(bodies.flatten() =~= empty);
    } else {
        let body = bodies[0];
        let max_0 = files[0].metadata.max_ts as int;
        let tail = bodies.skip(1).flatten();
        assert(bodies.first() == body);
        assert(bodies.drop_first() =~= bodies.skip(1));
        assert(bodies.flatten() == body + tail);
        assert(within_header(files[0], bodies[0]));
        assert(start_after(files, 1, max_0)) by {
            assert forall|j: int| 1 <= j < files.len() implies max_0 < (
            #[trigger] files[j]).metadata.min_ts by {
                assert(files[0].metadata.max_ts < files[j].metadata.min_ts);
            }
        }
        if body.len() == 0 {
            assert(start_after(files, 1, 0));
            lemma_disjoint_from(files, bodies, 1, 0);
            assert(merge_spec(files, bodies) == merge_from(files, bodies, 1, 0, empty));
            assert(body + tail =~= tail);
        } else {
            let next_min = next_min_ts(files, 0);
            assert(max_0 < next_min) by {
                if 1 < files.len() {
                    assert(max_0 < files[1].metadata.min_ts);
                }
            }
            assert(all_ts_within(body, 0, max_0));
            lemma_clean_step(body, max_0, next_min);
            lemma_disjoint_from(files, bodies, 1, max_0);
            let left = body.filter(ts_within(0, 0));
            let middle = body.filter(ts_within(1, next_min - 1));
            let right = body.filter(ts_within(next_min, u64::MAX as int));
            assert(merge_spec(files, bodies) == union_sorted(empty, left) + middle + merge_from(
                files,
                bodies,
                1,
                max_0,
                right,
            ));
        }
    }
}

/// What `first_gap` finds: the first place from `from` on whose file is
/// followed by a gap wider than `cutoff`, or nothing where there is none.
pub proof fn lemma_first_gap(files: Seq<InputFile>, cutoff: u64, from: int)
    requires
        0 <= from,
    ensures
        match first_gap(files, cutoff, from) {
            Some(k) => {
                &&& from <= k
                &&& k + 1 < files.len()
                &&& gap_after(files, k) > cutoff
                &&& forall|j: int|
                    from <= j < k ==> #[trigger] gap_after(files, j) <= cutoff
            },
            None => forall|j: int|
                from <= j && j + 1 < files.len() ==> #[trigger] gap_after(files, j) <= cutoff,
        },
    decreases files.len() - from,
{
    if from + 1 < files.len() && gap_after(files, from) <= cutoff {
        lemma_first_gap(files, cutoff, from + 1);
    }
}



/// Files that are fit to be merged give a result in which no update
/// occurs twice.
pub proof fn lemma_merge_no_repeats(files: Seq<InputFile>, bodies: Seq<Seq<Update>>)
    requires
        merge_ready(files, bodies),
    ensures
        forall|i: int, j: int|
            0 <= i < j < merge_spec(files, bodies).len() ==> (#[trigger] merge_spec(
                files,
                bodies,
            )[i]) != (#[trigger] merge_spec(files, bodies)[j]),
{
    lemma_merge_strictly_sorted(files, bodies);
    let merged = merge_spec(files, bodies);
    assert forall|i: int, j: int| 0 <= i < j < merged.len() implies (#[trigger] merged[i]) != (
    #[trigger] merged[j]) by {
        assert(update_lt(merged[i], merged[j]));
    }
}

/// One file alone merges to its own updates, where these lie within the
/// range that the header names and start clean.
pub proof fn lemma_merge_single(file: InputFile, body: Seq<Update>)
    requires
        within_header(file, body),
        starts_clean(body),
    ensures
        merge_spec(seq![file], seq![body]) == body,
{
    let files = seq![file];
    let bodies = seq![body];
    assert(files[0] == file && bodies[0] == body);
    lemma_merge_disjoint(files, bodies);
    assert(bodies.drop_first() =~= Seq::<Seq<Update>>::empty());
    assert(bodies.drop_first().flatten() =~= Seq::<Update>::empty());
    assert(bodies.first() == body);
    assert(bodies.flatten() =~= body);
}


/// Updates that are written in order lie within the range that the
/// header of their file names.
pub proof fn lemma_written_within_header(file: InputFile, updates: Seq<Update>)
    requires
        sorted(updates),
        file.metadata@ == metadata_for(file.metadata.symbol@, updates),
    ensures
        within_header(file, updates),
{
    assert forall|k: int| 0 <= k < updates.len() implies file.metadata.min_ts <= (
    #[trigger] updates[k]).ts <= file.metadata.max_ts by {
        if 0 < k {
            assert(update_le(updates[0], updates[k]));
        }
        if k < updates.len() - 1 {
            assert(update_le(updates[k], updates[updates.len() - 1]));
        }
    }
}


/// A filter keeps an ascending sequence ascending.
pub proof fn lemma_filter_sorted(s: Seq<Update>, pred: spec_fn(Update) -> bool)
    requires
        sorted(s),
    ensures
        sorted(s.filter(pred)),
    decreases s.len(),
{
    reveal(Seq::filter);
    if s.len() > 0 {
        let s0 = s.drop_last();
        let x = s.last();
        assert(sorted(s0)) by {
            assert forall|i: int, j: int| 0 <= i < j < s0.len() implies update_le(
                #[trigger] s0[i],
                #[trigger] s0[j],
            ) by {
                assert(update_le(s[i], s[j]));
            }
        }
        lemma_filter_sorted(s0, pred);
        lemma_filter_members(s0, pred);
        if pred(x) {
            let f0 = s0.filter(pred);
            let f = f0.push(x);
            assert forall|i: int, j: int| 0 <= i < j < f.len() implies update_le(
                #[trigger] f[i],
                #[trigger] f[j],
            ) by {
                if j < f0.len() {
                    assert(update_le(f0[i], f0[j]));
                } else {
                    assert(f0.contains(f0[i]));
                    assert(s0.contains(f0[i]));
                    let k = choose|k: int| 0 <= k < s0.len() && s0[k] == f0[i];
                    assert(update_le(s[k], s[s.len() - 1]));
                }
            }
        }
    }
}

/// Two ascending sequences, every update of the first earlier than every
/// update of the second, make one ascending sequence.
pub proof fn lemma_sorted_concat(a: Seq<Update>, b: Seq<Update>)
    requires
        sorted(a),
        sorted(b),
        forall|i: int, j: int|
            0 <= i < a.len() && 0 <= j < b.len() ==> (#[trigger] a[i]).ts < (#[trigger] b[j]).ts,
    ensures
        sorted(a + b),
{
    let c = a + b;
    assert forall|i: int, j: int| 0 <= i < j < c.len() implies update_le(
        #[trigger] c[i],
        #[trigger] c[j],
    ) by {
        if j < a.len() {
            assert(update_le(a[i], a[j]));
        } else if i < a.len() {
            assert(a[i].ts < b[j - a.len()].ts);
        } else {
            assert(update_le(b[i - a.len()], b[j - a.len()]));
        }
    }
}

/// The files from `i` on are in order, when the last file taken ended at
/// `prev_max`: as for files that are fit to be merged, but a file may hold
/// an update more than once.
pub open spec fn orderly_from(
    files: Seq<InputFile>,
    bodies: Seq<Seq<Update>>,
    i: int,
    prev_max: int,
) -> bool
    decreases files.len() - i,
{
    if i < 0 || i >= files.len() {
        true
    } else {
        &&& i + 1 < files.len() ==> files[i].metadata.min_ts <= files[i + 1].metadata.min_ts
        &&& if bodies[i].len() == 0 {
            orderly_from(files, bodies, i + 1, prev_max)
        } else {
            &&& sorted(bodies[i])
            &&& within_header(files[i], bodies[i])
            &&& i + 1 < files.len() ==> prev_max < files[i + 1].metadata.min_ts
            &&& orderly_from(files, bodies, i + 1, files[i].metadata.max_ts as int)
        }
    }
}

/// The files are in order: they ascend by `min_ts`, each holds its updates
/// in ascending order within the range that its header names, and no
/// moment belongs to three files.
pub open spec fn merge_orderly(files: Seq<InputFile>, bodies: Seq<Seq<Update>>) -> bool {
    files.len() == bodies.len() && orderly_from(files, bodies, 0, 0)
}

/// What the merge gives out from file `i` on is ascending and not before
/// `floor`, where the files from `i` on are in order and what is carried
/// is ascending between `floor` and `prev_max`.
proof fn lemma_merge_from_sorted(
    files: Seq<InputFile>,
    bodies: Seq<Seq<Update>>,
    i: int,
    prev_max: int,
    carry: Seq<Update>,
    floor: int,
)
    requires
        files.len() == bodies.len(),
        0 <= i <= files.len(),
        0 <= prev_max,
        orderly_from(files, bodies, i, prev_max),
        sorted(carry),
        all_ts_within(carry, floor, prev_max),
        i < files.len() ==> floor <= files[i].metadata.min_ts,
    ensures
        sorted(merge_from(files, bodies, i, prev_max, carry)),
        all_ts_within(merge_from(files, bodies, i, prev_max, carry), floor, u64::MAX as int),
    decreases files.len() - i,
{
    if i >= files.len() {
    } else if bodies[i].len() == 0 {
        lemma_merge_from_sorted(files, bodies, i + 1, prev_max, carry, floor);
    } else {
        let body = bodies[i];
        let next_min = next_min_ts(files, i);
        let max_i = files[i].metadata.max_ts as int;
        let min_i = files[i].metadata.min_ts as int;
        let left = body.filter(ts_within(0, prev_max));
        let middle = body.filter(ts_within(prev_max + 1, next_min - 1));
        let right = body.filter(ts_within(next_min, u64::MAX as int));
        let united = union_sorted(carry, left);
        let rest = merge_from(files, bodies, i + 1, max_i, right);
        lemma_filter_members(body, ts_within(0, prev_max));
        lemma_filter_members(body, ts_within(prev_max + 1, next_min - 1));
        lemma_filter_members(body, ts_within(next_min, u64::MAX as int));
        lemma_filter_sorted(body, ts_within(prev_max + 1, next_min - 1));
        lemma_filter_sorted(body, ts_within(next_min, u64::MAX as int));
        lemma_union_sorted(carry, left);
        assert(sorted(united)) by {
            assert forall|a: int, b: int| 0 <= a < b < united.len() implies update_le(
                #[trigger] united[a],
                #[trigger] united[b],
            ) by {
                assert(update_lt(united[a], united[b]));
            }
        }
        assert forall|u: Update| body.contains(u) implies min_i <= u.ts <= max_i by {
            let k = choose|k: int| 0 <= k < body.len() && body[k] == u;
            assert(min_i <= body[k].ts <= max_i);
        }
        assert(all_ts_within(united, floor, prev_max)) by {
            assert forall|k: int| 0 <= k < united.len() implies floor <= (#[trigger] united[k]).ts
                <= prev_max by {
                assert(united.contains(united[k]));
                if carry.contains(united[k]) {
                    let c = choose|c: int| 0 <= c < carry.len() && carry[c] == united[k];
                    assert(floor <= carry[c].ts <= prev_max);
                } else {
                    assert(left.contains(united[k]));
                }
            }
        }
        assert forall|k: int| 0 <= k < middle.len() implies prev_max + 1 <= (
        #[trigger] middle[k]).ts <= next_min - 1 && floor <= middle[k].ts by {
            assert(middle.contains(middle[k]));
        }
        assert(all_ts_within(right, next_min, max_i)) by {
            assert forall|k: int| 0 <= k < right.len() implies next_min <= (#[trigger] right[k]).ts
                <= max_i by {
                assert(right.contains(right[k]));
            }
        }
        lemma_merge_from_sorted(files, bodies, i + 1, max_i, right, next_min);
        if i + 1 >= files.len() {
            if right.len() > 0 {
                assert(next_min <= right[0].ts <= max_i);
            }
            assert(rest == right);
            assert(rest.len() == 0);
        }
        assert(sorted(united + middle)) by {
            assert forall|a: int, b: int|
                0 <= a < united.len() && 0 <= b < middle.len() implies (#[trigger] united[a]).ts < (
            #[trigger] middle[b]).ts by {
                assert(united[a].ts <= prev_max);
                assert(middle[b].ts >= prev_max + 1);
            }
            lemma_sorted_concat(united, middle);
        }
        let head = united + middle;
        assert(sorted(head + rest)) by {
            assert forall|a: int, b: int|
                0 <= a < head.len() && 0 <= b < rest.len() implies (#[trigger] head[a]).ts < (
            #[trigger] rest[b]).ts by {
                assert(rest[b].ts >= next_min);
                if a < united.len() {
                    assert(head[a] == united[a]);
                    assert(united[a].ts <= prev_max);
                } else {
                    assert(head[a] == middle[a - united.len()]);
                    assert(middle[a - united.len()].ts <= next_min - 1);
                }
            }
            lemma_sorted_concat(head, rest);
        }
        let out = head + rest;
        assert(out == merge_from(files, bodies, i, prev_max, carry));
        assert forall|k: int| 0 <= k < out.len() implies floor <= (#[trigger] out[k]).ts
            <= u64::MAX as int by {
            if k < united.len() {
                assert(out[k] == united[k]);
            } else if k < head.len() {
                assert(out[k] == middle[k - united.len()]);
            } else {
                assert(out[k] == rest[k - head.len()]);
                assert(rest[k - head.len()].ts >= next_min);
            }
        }
    }
}

/// Files that are in order give a result in ascending order, also where a
/// file holds an update more than once.
pub proof fn lemma_merge_sorted(files: Seq<InputFile>, bodies: Seq<Seq<Update>>)
    requires
        merge_orderly(files, bodies),
    ensures
        sorted(merge_spec(files, bodies)),
{
    lemma_merge_from_sorted(files, bodies, 0, 0, Seq::empty(), 0);
}



/// From file `i` on no moment belongs to three files, when the last file
/// taken ended at `prev_max`: the file after each file that has updates
/// starts later than the file before it ended.
pub open spec fn spaced_from(
    files: Seq<InputFile>,
    bodies: Seq<Seq<Update>>,
    i: int,
    prev_max: int,
) -> bool
    decreases files.len() - i,
{
    if i < 0 || i >= files.len() {
        true
    } else if bodies[i].len() == 0 {
        spaced_from(files, bodies, i + 1, prev_max)
    } else {
        &&& i + 1 < files.len() ==> prev_max < files[i + 1].metadata.min_ts
        &&& spaced_from(files, bodies, i + 1, files[i].metadata.max_ts as int)
    }
}

/// No moment belongs to three files.
pub open spec fn no_moment_in_three(files: Seq<InputFile>, bodies: Seq<Seq<Update>>) -> bool {
    spaced_from(files, bodies, 0, 0)
}

/// Every body is in ascending order.
pub open spec fn all_sorted(bodies: Seq<Seq<Update>>) -> bool {
    forall|k: int| 0 <= k < bodies.len() ==> sorted(#[trigger] bodies[k])
}

/// Files that ascend by `min_ts`, hold their updates in ascending order
/// within the range that their header names, and share no moment among
/// three, are in order.
pub proof fn lemma_orderly(
    files: Seq<InputFile>,
    bodies: Seq<Seq<Update>>,
    i: int,
    prev_max: int,
)
    requires
        files.len() == bodies.len(),
        0 <= i <= files.len(),
        ascending_by_min_ts(files),
        all_sorted(bodies),
        all_within_header(files, bodies),
        spaced_from(files, bodies, i, prev_max),
    ensures
        orderly_from(files, bodies, i, prev_max),
    decreases files.len() - i,
{
    if i < files.len() {
        assert(sorted(bodies[i]));
        assert(within_header(files[i], bodies[i]));
        if i + 1 < files.len() {
            assert(files[i].metadata.min_ts <= files[i + 1].metadata.min_ts);
        }
        if bodies[i].len() == 0 {
            lemma_orderly(files, bodies, i + 1, prev_max);
        } else {
            lemma_orderly(files, bodies, i + 1, files[i].metadata.max_ts as int);
        }
    }
}

/// The header of `file` agrees with `body`: it counts the updates and
/// names the `ts` of the first and of the last of them.
pub open spec fn header_agrees(file: InputFile, body: Seq<Update>) -> bool {
    file.metadata@ == metadata_for(file.metadata.symbol@, body)
}

/// Every header agrees with its body.
pub open spec fn headers_agree(files: Seq<InputFile>, bodies: Seq<Seq<Update>>) -> bool {
    forall|k: int| 0 <= k < files.len() ==> header_agrees(#[trigger] files[k], bodies[k])
}

/// A file whose header agrees with its body is the file with the range
/// of its body.
pub proof fn lemma_agreeing_header_is_kept(file: InputFile, body: Seq<Update>)
    requires
        header_agrees(file, body),
    ensures
        with_body_range(file, body) == file,
{
}

/// Files whose headers agree with their bodies are merged by the ranges
/// that their headers name.
pub proof fn lemma_agreeing_headers_are_kept(files: Seq<InputFile>, bodies: Seq<Seq<Update>>)
    requires
        headers_agree(files, bodies),
    ensures
        with_body_ranges(files, bodies) == files,
{
    assert forall|k: int| 0 <= k < files.len() implies with_body_ranges(files, bodies)[k]
        == files[k] by {
        assert(header_agrees(files[k], bodies[k]));
        lemma_agreeing_header_is_kept(files[k], bodies[k]);
    }
    assert(with_body_ranges(files, bodies) =~= files);
}

/// Updates in ascending order lie within the range of their body.
pub proof fn lemma_within_body_range(file: InputFile, body: Seq<Update>)
    requires
        sorted(body),
    ensures
        within_header(with_body_range(file, body), body),
{
    assert forall|k: int| 0 <= k < body.len() implies body[0].ts <= (#[trigger] body[k]).ts
        <= body[body.len() - 1].ts by {
        if 0 < k {
            assert(update_le(body[0], body[k]));
        }
        if k < body.len() - 1 {
            assert(update_le(body[k], body[body.len() - 1]));
        }
    }
}

/// Two or more files of one symbol are refused as discontinuous whenever,
/// in the list as given, one of them is followed by a gap wider than
/// `cutoff`. The error names the first such file and the one after it and
/// the milliseconds between them.
pub proof fn lemma_gap_is_refused(files: Seq<InputFile>, contents: Seq<Seq<u8>>, cutoff: u64)
    requires
        files.len() >= 2,
        contents.len() == files.len(),
        distinct_symbols(files).len() <= 1,
        !continuous(files, cutoff),
    ensures
        first_gap(files, cutoff, 0) is Some,
        ({
            let k = first_gap(files, cutoff, 0)->0;
            &&& 0 <= k && k + 1 < files.len()
            &&& files[k + 1].metadata.min_ts - files[k].metadata.max_ts > cutoff
            &&& forall|j: int| 0 <= j < k ==> #[trigger] gap_after(files, j) <= cutoff
            &&& combine_spec(files, contents, cutoff) == Result::<Seq<u8>, ErrorModel>::Err(
                ErrorModel::Discontinuous {
                    before: files[k].filename@,
                    after: files[k + 1].filename@,
                    gap: (files[k + 1].metadata.min_ts - files[k].metadata.max_ts) as u64,
                },
            )
        }),
{
    lemma_first_gap(files, cutoff, 0);
}

/// Files that follow each other closely enough are never refused as
/// discontinuous.
pub proof fn lemma_continuous_is_accepted(
    files: Seq<InputFile>,
    contents: Seq<Seq<u8>>,
    cutoff: u64,
)
    requires
        continuous(files, cutoff),
    ensures
        !(combine_spec(files, contents, cutoff) is Err && combine_spec(
            files,
            contents,
            cutoff,
        )->Err_0 is Discontinuous),
{
    lemma_first_gap(files, cutoff, 0);
}

/// Two or more files of one symbol that fits a header are combined
/// whenever they follow each other closely enough and their contents
/// read as files.
pub proof fn lemma_combine_succeeds(files: Seq<InputFile>, contents: Seq<Seq<u8>>, cutoff: u64)
    requires
        files.len() >= 2,
        contents.len() == files.len(),
        distinct_symbols(files).len() <= 1,
        continuous(files, cutoff),
        all_readable(contents),
        valid_symbol(files[0].metadata.symbol@),
    ensures
        combine_spec(files, contents, cutoff) is Ok,
{
    lemma_first_gap(files, cutoff, 0);
}

/// The file that combining gives reads back as the merged updates of the
/// files, each taken with the range of its body.
pub proof fn lemma_combined_file_reads_back(
    files: Seq<InputFile>,
    contents: Seq<Seq<u8>>,
    cutoff: u64,
)
    requires
        combine_spec(files, contents, cutoff) is Ok,
        merge_spec(with_body_ranges(files, all_updates(contents)), all_updates(contents)).len()
            <= u64::MAX,
    ensures
        decode_spec(combine_spec(files, contents, cutoff)->Ok_0, None) == Some(
            merge_spec(with_body_ranges(files, all_updates(contents)), all_updates(contents)),
        ),
{
    let merged = merge_spec(with_body_ranges(files, all_updates(contents)), all_updates(contents));
    lemma_round_trip(files[0].metadata.symbol@, merged, None);
}

/// The file that combining gives reads back strictly ascending, where the
/// files that go in, each with the range of its body, are fit to be
/// merged.
pub proof fn lemma_combined_file_is_ascending(
    files: Seq<InputFile>,
    contents: Seq<Seq<u8>>,
    cutoff: u64,
)
    requires
        combine_spec(files, contents, cutoff) is Ok,
        merge_ready(with_body_ranges(files, all_updates(contents)), all_updates(contents)),
        merge_spec(with_body_ranges(files, all_updates(contents)), all_updates(contents)).len()
            <= u64::MAX,
    ensures
        decode_spec(combine_spec(files, contents, cutoff)->Ok_0, None) is Some,
        strictly_sorted(decode_spec(combine_spec(files, contents, cutoff)->Ok_0, None)->0),
{
    lemma_combined_file_reads_back(files, contents, cutoff);
    lemma_merge_strictly_sorted(
        with_body_ranges(files, all_updates(contents)),
        all_updates(contents),
    );
}

/// The file that combining gives reads back in ascending order, where
/// every file that goes in holds its updates in ascending order, the files
/// ascend by the start of their bodies, and no moment belongs to three
/// files. A file may hold an update more than once.
pub proof fn lemma_combined_file_is_sorted(
    files: Seq<InputFile>,
    contents: Seq<Seq<u8>>,
    cutoff: u64,
)
    requires
        combine_spec(files, contents, cutoff) is Ok,
        all_sorted(all_updates(contents)),
        ascending_by_min_ts(with_body_ranges(files, all_updates(contents))),
        no_moment_in_three(
            with_body_ranges(files, all_updates(contents)),
            all_updates(contents),
        ),
        merge_spec(with_body_ranges(files, all_updates(contents)), all_updates(contents)).len()
            <= u64::MAX,
    ensures
        decode_spec(combine_spec(files, contents, cutoff)->Ok_0, None) is Some,
        sorted(decode_spec(combine_spec(files, contents, cutoff)->Ok_0, None)->0),
{
    let bodies = all_updates(contents);
    let taken = with_body_ranges(files, bodies);
    assert(all_within_header(taken, bodies)) by {
        assert forall|k: int| 0 <= k < taken.len() implies within_header(
            #[trigger] taken[k],
            bodies[k],
        ) by {
            assert(sorted(bodies[k]));
            lemma_within_body_range(files[k], bodies[k]);
        }
    }
    lemma_orderly(taken, bodies, 0, 0);
    lemma_merge_sorted(taken, bodies);
    lemma_combined_file_reads_back(files, contents, cutoff);
}

/// Updates in ascending order are those at time zero followed by the
/// others.
pub proof fn lemma_split_at_zero(body: Seq<Update>)
    requires
        sorted(body),
    ensures
        body.filter(ts_within(0, 0)) + body.filter(ts_within(1, u64::MAX as int)) == body,
    decreases body.len(),
{
    let low = ts_within(0, 0);
    let high = ts_within(1, u64::MAX as int);
    if body.len() == 0 {
        lemma_filter_all(body, low);
        lemma_filter_all(body, high);
        assert(body + body =~= body);
    } else {
        let head = body.drop_last();
        let x = body.last();
        assert(body =~= head.push(x));
        head.lemma_filter_push(x, low);
        head.lemma_filter_push(x, high);
        if x.ts == 0 {
            assert forall|k: int| 0 <= k < head.len() implies low(#[trigger] head[k]) && !high(
                head[k],
            ) by {
                assert(update_le(body[k], body[body.len() - 1]));
            }
            lemma_filter_all(head, low);
            lemma_filter_none(head, high);
            assert(head.push(x) + Seq::<Update>::empty() =~= body);
        } else {
            assert(sorted(head)) by {
                assert forall|i: int, j: int| 0 <= i < j < head.len() implies update_le(
                    #[trigger] head[i],
                    #[trigger] head[j],
                ) by {
                    assert(update_le(body[i], body[j]));
                }
            }
            lemma_split_at_zero(head);
            assert(head.filter(low) + head.filter(high).push(x) =~= (head.filter(low)
                + head.filter(high)).push(x));
        }
    }
}

/// Updates in strictly ascending order start clean.
pub proof fn lemma_strictly_sorted_starts_clean(body: Seq<Update>)
    requires
        strictly_sorted(body),
    ensures
        starts_clean(body),
{
    assert(sorted(body)) by {
        assert forall|i: int, j: int| 0 <= i < j < body.len() implies update_le(
            #[trigger] body[i],
            #[trigger] body[j],
        ) by {
            assert(update_lt(body[i], body[j]));
        }
    }
    lemma_split_at_zero(body);
    lemma_filter_strictly_sorted(body, ts_within(0, 0));
    lemma_starts_clean(body);
}

/// Updates start clean where those at time zero are strictly ascending
/// and come before the others.
pub proof fn lemma_starts_clean(body: Seq<Update>)
    requires
        strictly_sorted(body.filter(ts_within(0, 0))),
        body.filter(ts_within(0, 0)) + body.filter(ts_within(1, u64::MAX as int)) == body,
    ensures
        starts_clean(body),
{
    reveal(starts_clean);
}

/// File `k` ends before the file after it starts.
pub open spec fn ends_before_next(files: Seq<InputFile>, k: int) -> bool {
    files[k].metadata.max_ts < files[k + 1].metadata.min_ts
}

/// Every file ends before the file after it starts.
pub open spec fn neighbours_apart(files: Seq<InputFile>) -> bool {
    forall|k: int| 0 <= k && k + 1 < files.len() ==> #[trigger] ends_before_next(files, k)
}

/// No file ends before it starts.
pub open spec fn ranges_in_order(files: Seq<InputFile>) -> bool {
    forall|k: int|
        0 <= k < files.len() ==> (#[trigger] files[k]).metadata.min_ts <= files[k].metadata.max_ts
}

/// Every body is in strictly ascending order.
pub open spec fn all_strictly_sorted(bodies: Seq<Seq<Update>>) -> bool {
    forall|k: int| 0 <= k < bodies.len() ==> strictly_sorted(#[trigger] bodies[k])
}

/// Files that each end before the next one starts do not reach the start
/// of any later one.
pub proof fn lemma_neighbours_apart(files: Seq<InputFile>)
    requires
        neighbours_apart(files),
        ranges_in_order(files),
    ensures
        disjoint_ranges(files),
    decreases files.len(),
{
    if files.len() > 1 {
        let head = files.drop_last();
        let last = files.len() - 1;
        assert(neighbours_apart(head)) by {
            assert forall|k: int| 0 <= k && k + 1 < head.len() implies #[trigger] ends_before_next(
                head,
                k,
            ) by {
                assert(ends_before_next(files, k));
            }
        }
        assert(ranges_in_order(head)) by {
            assert forall|k: int| 0 <= k < head.len() implies (#[trigger] head[k]).metadata.min_ts
                <= head[k].metadata.max_ts by {
                assert(files[k].metadata.min_ts <= files[k].metadata.max_ts);
            }
        }
        lemma_neighbours_apart(head);
        assert(ends_before_next(files, last - 1));
        assert(files[last - 1].metadata.min_ts <= files[last - 1].metadata.max_ts);
        assert forall|i: int, j: int| 0 <= i < j < files.len() implies (
        #[trigger] files[i]).metadata.max_ts < (#[trigger] files[j]).metadata.min_ts by {
            if j < last {
                assert(head[i].metadata.max_ts < head[j].metadata.min_ts);
            } else if i < last - 1 {
                assert(head[i].metadata.max_ts < head[last - 1].metadata.min_ts);
            }
        }
    }
}

/// Files whose headers agree with bodies in strictly ascending order hold
/// their updates within the ranges that the headers name, and none ends
/// before it starts.
pub proof fn lemma_agreeing_headers_bound(files: Seq<InputFile>, bodies: Seq<Seq<Update>>)
    requires
        files.len() == bodies.len(),
        headers_agree(files, bodies),
        all_strictly_sorted(bodies),
    ensures
        all_within_header(files, bodies),
        ranges_in_order(files),
{
    assert forall|k: int| 0 <= k < files.len() implies within_header(
        #[trigger] files[k],
        bodies[k],
    ) && files[k].metadata.min_ts <= files[k].metadata.max_ts by {
        let body = bodies[k];
        assert(header_agrees(files[k], body));
        assert(strictly_sorted(body));
        assert(sorted(body)) by {
            assert forall|i: int, j: int| 0 <= i < j < body.len() implies update_le(
                #[trigger] body[i],
                #[trigger] body[j],
            ) by {
                assert(update_lt(body[i], body[j]));
            }
        }
        lemma_written_within_header(files[k], body);
        if body.len() > 1 {
            assert(update_le(body[0], body[body.len() - 1]));
        }
    }
}

/// Files of one symbol whose ranges do not touch are combined to their
/// updates one file after another, nothing dropped and nothing moved,
/// where the headers agree with the bodies, the bodies are in strictly
/// ascending order, and the files follow each other closely enough.
pub proof fn lemma_combined_disjoint(files: Seq<InputFile>, contents: Seq<Seq<u8>>, cutoff: u64)
    requires
        files.len() >= 2,
        contents.len() == files.len(),
        distinct_symbols(files).len() <= 1,
        valid_symbol(files[0].metadata.symbol@),
        all_readable(contents),
        headers_agree(files, all_updates(contents)),
        all_strictly_sorted(all_updates(contents)),
        neighbours_apart(files),
        continuous(files, cutoff),
    ensures
        combine_spec(files, contents, cutoff) == Result::<Seq<u8>, ErrorModel>::Ok(
            file_bytes(files[0].metadata.symbol@, all_updates(contents).flatten()),
        ),
{
    let bodies = all_updates(contents);
    lemma_agreeing_headers_are_kept(files, bodies);
    lemma_agreeing_headers_bound(files, bodies);
    lemma_neighbours_apart(files);
    assert(strictly_sorted(bodies[0]));
    lemma_strictly_sorted_starts_clean(bodies[0]);
    lemma_merge_disjoint(files, bodies);
    lemma_first_gap(files, cutoff, 0);
}

} // verus!
