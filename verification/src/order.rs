//! Strict total orders, and vectors kept in ascending order without repeats.

use vstd::prelude::*;

verus! {

/// How one value stands to another in a total order.
#[derive(Clone, Copy, Debug, PartialEq, Eq, Structural)]
pub enum Rank {
    Less,
    Equal,
    Greater,
}

/// A type whose values are ordered by a key under a strict total order.
pub trait TotalOrder: Sized {
    /// The mathematical value that a value is ordered by.
    type Key;

    /// The key of a value.
    spec fn key(&self) -> Self::Key;

    /// The strict order on keys.
    spec fn key_lt(a: Self::Key, b: Self::Key) -> bool;

    /// `key_lt` is irreflexive, transitive and total.
    proof fn lemma_strict_total(a: Self::Key, b: Self::Key, c: Self::Key)
        ensures
            !Self::key_lt(a, a),
            Self::key_lt(a, b) && Self::key_lt(b, c) ==> Self::key_lt(a, c),
            Self::key_lt(a, b) || a == b || Self::key_lt(b, a),
    ;

    /// Compares two values by their keys.
    fn rank(&self, other: &Self) -> (r: Rank)
        ensures
            r == Rank::Less <==> Self::key_lt(self.key(), other.key()),
            r == Rank::Equal <==> self.key() == other.key(),
            r == Rank::Greater <==> Self::key_lt(other.key(), self.key()),
    ;
}

/// The keys of the values of `v`, in the same order.
pub open spec fn keys<T: TotalOrder>(v: Seq<T>) -> Seq<T::Key> {
    Seq::new(v.len(), |i: int| v[i].key())
}

/// Every key is strictly below each later one.
pub open spec fn ascending<T: TotalOrder>(s: Seq<T::Key>) -> bool {
    forall|i: int, j: int| 0 <= i < j < s.len() ==> T::key_lt(#[trigger] s[i], #[trigger] s[j])
}

/// `a` and `b` hold the same keys, however often and in whatever order.
pub open spec fn same_keys<K>(a: Seq<K>, b: Seq<K>) -> bool {
    forall|k: K| a.contains(k) <==> b.contains(k)
}

/// `r` lists the keys that occur in `s`, each once, in ascending order.
pub open spec fn is_sorted_distinct<T: TotalOrder>(s: Seq<T::Key>, r: Seq<T::Key>) -> bool {
    ascending::<T>(r) && same_keys(r, s)
}

/// The keys that occur in `s`, each once, in ascending order.
pub open spec fn sorted_distinct<T: TotalOrder>(s: Seq<T::Key>) -> Seq<T::Key> {
    choose|r: Seq<T::Key>| is_sorted_distinct::<T>(s, r)
}

/// A sequence with one more key at its end holds that key and what it held.
pub proof fn lemma_push_contains<K>(s: Seq<K>, x: K)
    ensures
        forall|k: K| s.push(x).contains(k) <==> (s.contains(k) || k == x),
{
    let t = s.push(x);
    assert forall|k: K| t.contains(k) <==> (s.contains(k) || k == x) by {
        if t.contains(k) {
            let j = choose|j: int| 0 <= j < t.len() && t[j] == k;
            if j < s.len() {
                assert(s[j] == k);
            }
        }
        if s.contains(k) {
            let j = choose|j: int| 0 <= j < s.len() && s[j] == k;
            assert(t[j] == k);
        }
        assert(t[s.len() as int] == x);
    }
}

/// Two ascending sequences with the same keys are the same sequence.
pub proof fn lemma_ascending_unique<T: TotalOrder>(a: Seq<T::Key>, b: Seq<T::Key>)
    requires
        ascending::<T>(a),
        ascending::<T>(b),
        same_keys(a, b),
    ensures
        a == b,
    decreases a.len(),
{
    if a.len() == 0 {
        if b.len() > 0 {
            assert(b.contains(b[0]));
            assert(a.contains(b[0]));
        }
        assert(a =~= b);
    } else {
        let la = a.last();
        assert(a.contains(la));
        assert(b.contains(la));
        assert(b.len() > 0);
        let lb = b.last();
        assert(b.contains(lb));
        assert(a.contains(lb));
        let ja = choose|j: int| 0 <= j < a.len() && a[j] == lb;
        let jb = choose|j: int| 0 <= j < b.len() && b[j] == la;
        T::lemma_strict_total(la, lb, la);
        assert(la == lb) by {
            if ja < a.len() - 1 {
                assert(T::key_lt(a[ja], a[a.len() - 1]));
            }
            if jb < b.len() - 1 {
                assert(T::key_lt(b[jb], b[b.len() - 1]));
            }
        }
        let a0 = a.drop_last();
        let b0 = b.drop_last();
        assert forall|k: T::Key| a0.contains(k) <==> b0.contains(k) by {
            T::lemma_strict_total(k, la, k);
            if a0.contains(k) {
                let i = choose|i: int| 0 <= i < a0.len() && a0[i] == k;
                assert(a[i] == k);
                assert(T::key_lt(a[i], a[a.len() - 1]));
                assert(a.contains(k));
                let j = choose|j: int| 0 <= j < b.len() && b[j] == k;
                assert(j < b.len() - 1);
                assert(b0[j] == k);
            }
            if b0.contains(k) {
                let i = choose|i: int| 0 <= i < b0.len() && b0[i] == k;
                assert(b[i] == k);
                assert(T::key_lt(b[i], b[b.len() - 1]));
                assert(b.contains(k));
                let j = choose|j: int| 0 <= j < a.len() && a[j] == k;
                assert(j < a.len() - 1);
                assert(a0[j] == k);
            }
        }
        assert(ascending::<T>(a0)) by {
            assert forall|i: int, j: int| 0 <= i < j < a0.len() implies T::key_lt(
                #[trigger] a0[i],
                #[trigger] a0[j],
            ) by {
                assert(T::key_lt(a[i], a[j]));
            }
        }
        assert(ascending::<T>(b0)) by {
            assert forall|i: int, j: int| 0 <= i < j < b0.len() implies T::key_lt(
                #[trigger] b0[i],
                #[trigger] b0[j],
            ) by {
                assert(T::key_lt(b[i], b[j]));
            }
        }
        lemma_ascending_unique::<T>(a0, b0);
        assert(a =~= a0.push(la));
        assert(b =~= b0.push(lb));
    }
}

/// In an ascending sequence there is a place where `k` fits: all before it
/// are below `k`, all from it on are above `k` or `k` itself at that place.
pub proof fn lemma_place_exists<T: TotalOrder>(r: Seq<T::Key>, k: T::Key) -> (p: int)
    requires
        ascending::<T>(r),
    ensures
        0 <= p <= r.len(),
        forall|i: int| 0 <= i < p ==> T::key_lt(#[trigger] r[i], k),
        forall|i: int| p <= i < r.len() ==> !T::key_lt(#[trigger] r[i], k),
        r.contains(k) ==> p < r.len() && r[p] == k,
        !r.contains(k) ==> forall|i: int| p <= i < r.len() ==> T::key_lt(k, #[trigger] r[i]),
    decreases r.len(),
{
    if r.len() == 0 {
        0
    } else {
        let last = r.last();
        let r0 = r.drop_last();
        T::lemma_strict_total(last, k, last);
        if T::key_lt(last, k) {
            assert forall|i: int| 0 <= i < r.len() implies T::key_lt(#[trigger] r[i], k) by {
                T::lemma_strict_total(r[i], last, k);
                if i < r.len() - 1 {
                    assert(T::key_lt(r[i], r[r.len() - 1]));
                }
            }
            if r.contains(k) {
                let i = choose|i: int| 0 <= i < r.len() && r[i] == k;
                T::lemma_strict_total(k, k, k);
                assert(T::key_lt(r[i], k));
            }
            r.len() as int
        } else {
            assert(ascending::<T>(r0)) by {
                assert forall|i: int, j: int| 0 <= i < j < r0.len() implies T::key_lt(
                    #[trigger] r0[i],
                    #[trigger] r0[j],
                ) by {
                    assert(T::key_lt(r[i], r[j]));
                }
            }
            let p = lemma_place_exists::<T>(r0, k);
            assert forall|i: int| 0 <= i < p implies T::key_lt(#[trigger] r[i], k) by {
                assert(r0[i] == r[i]);
            }
            assert forall|i: int| p <= i < r.len() implies !T::key_lt(#[trigger] r[i], k) by {
                if i < r.len() - 1 {
                    assert(r0[i] == r[i]);
                }
            }
            if r.contains(k) {
                let i = choose|i: int| 0 <= i < r.len() && r[i] == k;
                T::lemma_strict_total(k, k, k);
                if i < r.len() - 1 {
                    assert(r0[i] == k);
                    assert(r0.contains(k));
                    assert(r[p] == r0[p]);
                } else {
                    // k is the last key: nothing before it is k
                    if p < r.len() - 1 {
                        assert(r0[p] == r[p]);
                        assert(!T::key_lt(r0[p], k));
                        assert(T::key_lt(r[p], r[r.len() - 1]));
                    }
                    assert(!r0.contains(k)) by {
                        if r0.contains(k) {
                            let j = choose|j: int| 0 <= j < r0.len() && r0[j] == k;
                            assert(T::key_lt(r[j], r[r.len() - 1]));
                        }
                    }
                    assert(p == r.len() - 1);
                }
            } else {
                assert(!r0.contains(k)) by {
                    if r0.contains(k) {
                        let j = choose|j: int| 0 <= j < r0.len() && r0[j] == k;
                        assert(r[j] == k);
                    }
                }
                assert forall|i: int| p <= i < r.len() implies T::key_lt(k, #[trigger] r[i]) by {
                    if i < r.len() - 1 {
                        assert(r0[i] == r[i]);
                    } else {
                        assert(r[i] == last);
                        assert(r.contains(last));
                    }
                }
            }
            p
        }
    }
}

/// Putting a key that is missing at its place keeps the sequence ascending
/// and adds just that key.
pub proof fn lemma_insert_at_place<T: TotalOrder>(r: Seq<T::Key>, p: int, k: T::Key)
    requires
        ascending::<T>(r),
        0 <= p <= r.len(),
        forall|i: int| 0 <= i < p ==> T::key_lt(#[trigger] r[i], k),
        forall|i: int| p <= i < r.len() ==> T::key_lt(k, #[trigger] r[i]),
    ensures
        ascending::<T>(r.insert(p, k)),
        forall|x: T::Key| r.insert(p, k).contains(x) <==> (r.contains(x) || x == k),
{
    let q = r.insert(p, k);
    assert forall|i: int, j: int| 0 <= i < j < q.len() implies T::key_lt(
        #[trigger] q[i],
        #[trigger] q[j],
    ) by {
        if j < p {
            assert(q[i] == r[i] && q[j] == r[j]);
        } else if j == p {
            assert(q[i] == r[i]);
        } else if i < p {
            assert(q[i] == r[i] && q[j] == r[j - 1]);
            T::lemma_strict_total(r[i], k, r[j - 1]);
        } else if i == p {
            assert(q[j] == r[j - 1]);
        } else {
            assert(q[i] == r[i - 1] && q[j] == r[j - 1]);
        }
    }
    assert forall|x: T::Key| q.contains(x) <==> (r.contains(x) || x == k) by {
        if q.contains(x) {
            let i = choose|i: int| 0 <= i < q.len() && q[i] == x;
            if i < p {
                assert(r[i] == x);
            } else if i > p {
                assert(r[i - 1] == x);
            }
        }
        if r.contains(x) {
            let i = choose|i: int| 0 <= i < r.len() && r[i] == x;
            if i < p {
                assert(q[i] == x);
            } else {
                assert(q[i + 1] == x);
            }
        }
        if x == k {
            assert(q[p] == k);
        }
    }
}

/// Every sequence of keys has its sorted list of distinct keys.
pub proof fn lemma_sorted_distinct<T: TotalOrder>(s: Seq<T::Key>)
    ensures
        is_sorted_distinct::<T>(s, sorted_distinct::<T>(s)),
    decreases s.len(),
{
    if s.len() == 0 {
        let r = Seq::<T::Key>::empty();
        assert(is_sorted_distinct::<T>(s, r));
    } else {
        let s0 = s.drop_last();
        let k = s.last();
        lemma_sorted_distinct::<T>(s0);
        let r0 = sorted_distinct::<T>(s0);
        let p = lemma_place_exists::<T>(r0, k);
        let r = if r0.contains(k) {
            r0
        } else {
            r0.insert(p, k)
        };
        if !r0.contains(k) {
            lemma_insert_at_place::<T>(r0, p, k);
        }
        assert forall|x: T::Key| r.contains(x) <==> s.contains(x) by {
            if s.contains(x) {
                let i = choose|i: int| 0 <= i < s.len() && s[i] == x;
                if i < s.len() - 1 {
                    assert(s0[i] == x);
                    assert(s0.contains(x));
                }
            }
            if s0.contains(x) {
                let i = choose|i: int| 0 <= i < s0.len() && s0[i] == x;
                assert(s[i] == x);
            }
            assert(s[s.len() - 1] == k);
        }
        assert(is_sorted_distinct::<T>(s, r));
    }
}

/// The sorted list of distinct keys is the only ascending sequence with the
/// keys of `s`.
pub proof fn lemma_sorted_distinct_is<T: TotalOrder>(s: Seq<T::Key>, r: Seq<T::Key>)
    requires
        is_sorted_distinct::<T>(s, r),
    ensures
        r == sorted_distinct::<T>(s),
{
    lemma_sorted_distinct::<T>(s);
    lemma_ascending_unique::<T>(r, sorted_distinct::<T>(s));
}

/// Puts `x` into an ascending vector at its place, unless a value with the
/// same key is there already. Says whether it was put in.
pub fn insert_unique<T: TotalOrder>(v: &mut Vec<T>, x: T) -> (inserted: bool)
    requires
        ascending::<T>(keys(old(v)@)),
    ensures
        ascending::<T>(keys(final(v)@)),
        forall|k: T::Key|
            keys(final(v)@).contains(k) <==> (keys(old(v)@).contains(k) || k == x.key()),
        inserted == !keys(old(v)@).contains(x.key()),
        !inserted ==> final(v)@ == old(v)@,
        inserted ==> exists|p: int| 0 <= p <= old(v)@.len() && final(v)@ == old(v)@.insert(p, x),
{
    let ghost ks = keys(v@);
    let ghost xk = x.key();
    let mut lo: usize = 0;
    let mut hi: usize = v.len();
    while lo < hi
        invariant
            *v == *old(v),
            ks == keys(v@),
            xk == x.key(),
            ascending::<T>(ks),
            0 <= lo <= hi <= v.len(),
            forall|i: int| 0 <= i < lo ==> T::key_lt(#[trigger] ks[i], xk),
            forall|i: int| hi <= i < ks.len() ==> T::key_lt(xk, #[trigger] ks[i]),
        decreases hi - lo,
    {
        let mid: usize = lo + (hi - lo) / 2;
        let r = v[mid].rank(&x);
        assert(ks[mid as int] == v@[mid as int].key());
        match r {
            Rank::Less => {
                proof {
                    assert forall|i: int| 0 <= i < mid + 1 implies T::key_lt(
                        #[trigger] ks[i],
                        xk,
                    ) by {
                        T::lemma_strict_total(ks[i], ks[mid as int], xk);
                        if i < mid {
                            assert(T::key_lt(ks[i], ks[mid as int]));
                        }
                    }
                }
                lo = mid + 1;
            },
            Rank::Equal => {
                assert(ks.contains(xk));
                return false;
            },
            Rank::Greater => {
                proof {
                    T::lemma_strict_total(ks[mid as int], xk, ks[mid as int]);
                    assert forall|i: int| mid <= i < ks.len() implies T::key_lt(
                        xk,
                        #[trigger] ks[i],
                    ) by {
                        T::lemma_strict_total(xk, ks[mid as int], ks[i]);
                        if mid < i {
                            assert(T::key_lt(ks[mid as int], ks[i]));
                        }
                    }
                }
                hi = mid;
            },
        }
    }
    proof {
        lemma_insert_at_place::<T>(ks, lo as int, xk);
        assert(!ks.contains(xk)) by {
            if ks.contains(xk) {
                let i = choose|i: int| 0 <= i < ks.len() && ks[i] == xk;
                T::lemma_strict_total(xk, xk, xk);
            }
        }
        assert(keys(v@.insert(lo as int, x)) =~= ks.insert(lo as int, xk));
    }
    v.insert(lo, x);
    true
}

} // verus!
