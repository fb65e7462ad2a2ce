//! The order of texts: byte by byte over their UTF-8 form, the first
//! difference deciding, a proper prefix before what it is a prefix of.

use crate::order::Rank;
use crate::order::TotalOrder;
use vstd::prelude::*;
use vstd::utf8::{encode_utf8, encode_utf8_decode_utf8};

verus! {

/// `a` comes strictly before `b`, byte by byte.
pub open spec fn bytes_lt(a: Seq<u8>, b: Seq<u8>) -> bool
    decreases a.len(),
{
    if b.len() == 0 {
        false
    } else if a.len() == 0 {
        true
    } else if a[0] != b[0] {
        a[0] < b[0]
    } else {
        bytes_lt(a.drop_first(), b.drop_first())
    }
}

/// `a` comes strictly before `b` as texts.
pub open spec fn text_lt(a: Seq<char>, b: Seq<char>) -> bool {
    bytes_lt(encode_utf8(a), encode_utf8(b))
}

/// No byte string comes before itself.
pub proof fn lemma_bytes_lt_irreflexive(a: Seq<u8>)
    ensures
        !bytes_lt(a, a),
    decreases a.len(),
{
    if a.len() > 0 {
        lemma_bytes_lt_irreflexive(a.drop_first());
    }
}

/// What comes before a byte string comes before all that this one comes
/// before.
pub proof fn lemma_bytes_lt_transitive(a: Seq<u8>, b: Seq<u8>, c: Seq<u8>)
    requires
        bytes_lt(a, b),
        bytes_lt(b, c),
    ensures
        bytes_lt(a, c),
    decreases a.len(),
{
    if a.len() > 0 && a[0] == b[0] && b[0] == c[0] {
        lemma_bytes_lt_transitive(a.drop_first(), b.drop_first(), c.drop_first());
    }
}

/// Of two different byte strings one comes before the other.
pub proof fn lemma_bytes_lt_total(a: Seq<u8>, b: Seq<u8>)
    ensures
        bytes_lt(a, b) || a == b || bytes_lt(b, a),
    decreases a.len(),
{
    if a.len() == 0 || b.len() == 0 {
        if a.len() == 0 && b.len() == 0 {
            assert(a =~= b);
        }
    } else if a[0] == b[0] {
        lemma_bytes_lt_total(a.drop_first(), b.drop_first());
        if a.drop_first() == b.drop_first() {
            assert(a =~= seq![a[0]] + a.drop_first());
            assert(b =~= seq![b[0]] + b.drop_first());
        }
    }
}

/// `text_lt` is irreflexive, transitive and total.
pub proof fn lemma_text_order(a: Seq<char>, b: Seq<char>, c: Seq<char>)
    ensures
        !text_lt(a, a),
        text_lt(a, b) && text_lt(b, c) ==> text_lt(a, c),
        text_lt(a, b) || a == b || text_lt(b, a),
{
    lemma_bytes_lt_irreflexive(encode_utf8(a));
    if text_lt(a, b) && text_lt(b, c) {
        lemma_bytes_lt_transitive(encode_utf8(a), encode_utf8(b), encode_utf8(c));
    }
    lemma_bytes_lt_total(encode_utf8(a), encode_utf8(b));
    encode_utf8_decode_utf8(a);
    encode_utf8_decode_utf8(b);
}

/// Compares two byte strings.
pub fn rank_bytes(a: &[u8], b: &[u8]) -> (r: Rank)
    ensures
        r == Rank::Less <==> bytes_lt(a@, b@),
        r == Rank::Equal <==> a@ == b@,
        r == Rank::Greater <==> bytes_lt(b@, a@),
{
    let mut i: usize = 0;
    proof {
        assert(a@.skip(0) =~= a@);
        assert(b@.skip(0) =~= b@);
    }
    while i < a.len() && i < b.len()
        invariant
            i <= a@.len(),
            i <= b@.len(),
            a@.take(i as int) == b@.take(i as int),
            bytes_lt(a@, b@) == bytes_lt(a@.skip(i as int), b@.skip(i as int)),
            bytes_lt(b@, a@) == bytes_lt(b@.skip(i as int), a@.skip(i as int)),
        decreases a@.len() - i,
    {
        let x: u8 = a[i];
        let y: u8 = b[i];
        proof {
            assert(a@.skip(i as int)[0] == x);
            assert(b@.skip(i as int)[0] == y);
            assert(a@.skip(i as int).drop_first() =~= a@.skip(i + 1));
            assert(b@.skip(i as int).drop_first() =~= b@.skip(i + 1));
        }
        if x < y {
            assert(a@ != b@) by {
                if a@ == b@ {
                    assert(a@[i as int] == b@[i as int]);
                }
            }
            return Rank::Less;
        }
        if x > y {
            assert(a@ != b@) by {
                if a@ == b@ {
                    assert(a@[i as int] == b@[i as int]);
                }
            }
            return Rank::Greater;
        }
        proof {
            assert(a@.take(i + 1) =~= a@.take(i as int).push(x));
            assert(b@.take(i + 1) =~= b@.take(i as int).push(y));
        }
        i += 1;
    }
    proof {
        lemma_bytes_lt_irreflexive(a@);
        if a@.len() == b@.len() {
            assert(a@ =~= a@.take(i as int));
            assert(b@ =~= b@.take(i as int));
        }
    }
    if a.len() < b.len() {
        Rank::Less
    } else if a.len() > b.len() {
        Rank::Greater
    } else {
        Rank::Equal
    }
}

/// Compares two texts.
pub fn rank_text(a: &str, b: &str) -> (r: Rank)
    ensures
        r == Rank::Less <==> text_lt(a@, b@),
        r == Rank::Equal <==> a@ == b@,
        r == Rank::Greater <==> text_lt(b@, a@),
{
    proof {
        encode_utf8_decode_utf8(a@);
        encode_utf8_decode_utf8(b@);
    }
    rank_bytes(a.as_bytes(), b.as_bytes())
}

impl TotalOrder for String {
    type Key = Seq<char>;

    open spec fn key(&self) -> Seq<char> {
        self@
    }

    open spec fn key_lt(a: Seq<char>, b: Seq<char>) -> bool {
        text_lt(a, b)
    }

    proof fn lemma_strict_total(a: Seq<char>, b: Seq<char>, c: Seq<char>) {
        lemma_text_order(a, b, c);
    }

    fn rank(&self, other: &String) -> (r: Rank) {
        rank_text(self.as_str(), other.as_str())
    }
}

} // verus!
