//! The update record, its total order and its canonical byte form.

use crate::endian::{
    get_u32, get_u64, le_bytes, le_value, lemma_le_bytes_len, lemma_le_bytes_of_value,
    lemma_le_value_bound, lemma_le_value_of_bytes, lemma_pow256_values, put_u32, put_u64,
};
use crate::order::Rank;
use crate::order::TotalOrder;
use vstd::prelude::*;

verus! {

/// Bytes that one update takes in canonical form.
pub const RECORD_SIZE: usize = 22;

/// One market event: a trade or a book quote.
///
/// `price` and `size` hold the bit patterns of IEEE-754 binary32 numbers
/// (what `f32::to_bits` gives). Two updates are equal when all six fields
/// are equal bit for bit.
#[derive(Clone, Copy, Debug, PartialEq, Eq, Hash, Structural)]
pub struct Update {
    /// Milliseconds since the epoch.
    pub ts: u64,
    /// Sequence number given by the feed.
    pub seq: u32,
    /// A trade if set, a book quote if not.
    pub is_trade: bool,
    /// For a quote: the bid side if set, the ask side if not.
    pub is_bid: bool,
    /// Bits of the price.
    pub price: u32,
    /// Bits of the size.
    pub size: u32,
}

/// Where a binary32 bit pattern stands among all of them when they are
/// ordered as numbers: negative numbers below positive ones, a larger
/// magnitude further from zero, minus zero just below zero.
pub open spec fn float_rank(bits: u32) -> int {
    if bits >= 0x8000_0000 {
        0x7FFF_FFFF - bits
    } else {
        bits as int
    }
}

/// The strict total order on updates: by `ts`, then `seq`, then `is_trade`,
/// `is_bid`, `price` and `size`, the first difference deciding.
pub open spec fn update_lt(a: Update, b: Update) -> bool {
    if a.ts != b.ts {
        a.ts < b.ts
    } else if a.seq != b.seq {
        a.seq < b.seq
    } else if a.is_trade != b.is_trade {
        b.is_trade
    } else if a.is_bid != b.is_bid {
        b.is_bid
    } else if a.price != b.price {
        float_rank(a.price) < float_rank(b.price)
    } else {
        float_rank(a.size) < float_rank(b.size)
    }
}

/// `a` is `b` or comes before it.
pub open spec fn update_le(a: Update, b: Update) -> bool {
    a == b || update_lt(a, b)
}

/// No update is above a later one.
pub open spec fn sorted(s: Seq<Update>) -> bool {
    forall|i: int, j: int| 0 <= i < j < s.len() ==> update_le(#[trigger] s[i], #[trigger] s[j])
}

/// Every update is strictly below each later one; so none occurs twice.
pub open spec fn strictly_sorted(s: Seq<Update>) -> bool {
    forall|i: int, j: int| 0 <= i < j < s.len() ==> update_lt(#[trigger] s[i], #[trigger] s[j])
}

/// The updates with `lo <= ts <= hi`.
pub open spec fn ts_within(lo: int, hi: int) -> spec_fn(Update) -> bool {
    |u: Update| lo <= u.ts <= hi
}

/// The contents of each vector.
pub open spec fn lists(vectors: Seq<Vec<Update>>) -> Seq<Seq<Update>> {
    Seq::new(vectors.len(), |i: int| vectors[i]@)
}

/// The byte of a flag.
pub open spec fn flag_byte(flag: bool) -> u8 {
    if flag {
        1
    } else {
        0
    }
}

/// The canonical form: the six fields in order, integers little-endian,
/// flags as one byte each.
pub open spec fn record_bytes(u: Update) -> Seq<u8> {
    le_bytes(u.ts as nat, 8) + le_bytes(u.seq as nat, 4) + seq![flag_byte(u.is_trade)]
        + seq![flag_byte(u.is_bid)] + le_bytes(u.price as nat, 4) + le_bytes(u.size as nat, 4)
}

/// The update that 22 bytes stand for, if any: both flag bytes must be 0 or 1.
pub open spec fn parse_record(bytes: Seq<u8>) -> Option<Update> {
    if bytes.len() == RECORD_SIZE && bytes[12] <= 1 && bytes[13] <= 1 {
        Some(
            Update {
                ts: le_value(bytes.subrange(0, 8)) as u64,
                seq: le_value(bytes.subrange(8, 12)) as u32,
                is_trade: bytes[12] == 1,
                is_bid: bytes[13] == 1,
                price: le_value(bytes.subrange(14, 18)) as u32,
                size: le_value(bytes.subrange(18, 22)) as u32,
            },
        )
    } else {
        None
    }
}

/// The canonical form is 22 bytes long and reads back as the update.
pub proof fn lemma_record_round_trip(u: Update)
    ensures
        record_bytes(u).len() == RECORD_SIZE,
        parse_record(record_bytes(u)) == Some(u),
{
    let b = record_bytes(u);
    lemma_pow256_values();
    lemma_le_bytes_len(u.ts as nat, 8);
    lemma_le_bytes_len(u.seq as nat, 4);
    lemma_le_bytes_len(u.price as nat, 4);
    lemma_le_bytes_len(u.size as nat, 4);
    lemma_le_value_of_bytes(u.ts as nat, 8);
    lemma_le_value_of_bytes(u.seq as nat, 4);
    lemma_le_value_of_bytes(u.price as nat, 4);
    lemma_le_value_of_bytes(u.size as nat, 4);
    assert(b.subrange(0, 8) =~= le_bytes(u.ts as nat, 8));
    assert(b.subrange(8, 12) =~= le_bytes(u.seq as nat, 4));
    assert(b.subrange(14, 18) =~= le_bytes(u.price as nat, 4));
    assert(b.subrange(18, 22) =~= le_bytes(u.size as nat, 4));
    assert(b[12] == flag_byte(u.is_trade));
    assert(b[13] == flag_byte(u.is_bid));
}

/// Bytes that read as an update are that update's canonical form.
pub proof fn lemma_record_parse_unique(bytes: Seq<u8>)
    requires
        parse_record(bytes) is Some,
    ensures
        record_bytes(parse_record(bytes)->0) == bytes,
{
    let u = parse_record(bytes)->0;
    lemma_pow256_values();
    lemma_le_value_bound(bytes.subrange(0, 8));
    lemma_le_value_bound(bytes.subrange(8, 12));
    lemma_le_value_bound(bytes.subrange(14, 18));
    lemma_le_value_bound(bytes.subrange(18, 22));
    lemma_le_bytes_of_value(bytes.subrange(0, 8));
    lemma_le_bytes_of_value(bytes.subrange(8, 12));
    lemma_le_bytes_of_value(bytes.subrange(14, 18));
    lemma_le_bytes_of_value(bytes.subrange(18, 22));
    assert(record_bytes(u) =~= bytes);
}

/// Different updates have different canonical forms.
pub proof fn lemma_record_bytes_injective(a: Update, b: Update)
    requires
        record_bytes(a) == record_bytes(b),
    ensures
        a == b,
{
    lemma_record_round_trip(a);
    lemma_record_round_trip(b);
}

impl TotalOrder for Update {
    type Key = Update;

    open spec fn key(&self) -> Update {
        *self
    }

    open spec fn key_lt(a: Update, b: Update) -> bool {
        update_lt(a, b)
    }

    proof fn lemma_strict_total(a: Update, b: Update, c: Update) {
    }

    fn rank(&self, other: &Update) -> (r: Rank) {
        if self.precedes(other) {
            Rank::Less
        } else if other.precedes(self) {
            Rank::Greater
        } else {
            Rank::Equal
        }
    }
}

/// The rank of a binary32 bit pattern, as a machine integer.
fn rank_of_bits(bits: u32) -> (r: i64)
    ensures
        r == float_rank(bits),
{
    if bits >= 0x8000_0000 {
        0x7FFF_FFFFi64 - (bits as i64)
    } else {
        bits as i64
    }
}

impl Update {
    /// An update of the six fields given.
    pub fn new(ts: u64, seq: u32, is_trade: bool, is_bid: bool, price: u32, size: u32) -> (u:
        Update)
        ensures
            u == (Update { ts, seq, is_trade, is_bid, price, size }),
    {
        Update { ts, seq, is_trade, is_bid, price, size }
    }

    /// Whether `self` comes strictly before `other` in the total order.
    pub fn precedes(&self, other: &Update) -> (r: bool)
        ensures
            r == update_lt(*self, *other),
    {
        if self.ts != other.ts {
            self.ts < other.ts
        } else if self.seq != other.seq {
            self.seq < other.seq
        } else if self.is_trade != other.is_trade {
            other.is_trade
        } else if self.is_bid != other.is_bid {
            other.is_bid
        } else if self.price != other.price {
            rank_of_bits(self.price) < rank_of_bits(other.price)
        } else {
            rank_of_bits(self.size) < rank_of_bits(other.size)
        }
    }

    /// How `self` stands to `other` in the total order; `Equal` only for
    /// the same update.
    pub fn compare(&self, other: &Update) -> (r: Rank)
        ensures
            r == Rank::Less <==> update_lt(*self, *other),
            r == Rank::Equal <==> *self == *other,
            r == Rank::Greater <==> update_lt(*other, *self),
    {
        self.rank(other)
    }

    /// Appends the canonical form of `self` to `out`.
    pub fn write_to(&self, out: &mut Vec<u8>)
        ensures
            final(out)@ == old(out)@ + record_bytes(*self),
    {
        let ghost before = out@;
        put_u64(out, self.ts);
        put_u32(out, self.seq);
        out.push(if self.is_trade { 1u8 } else { 0u8 });
        out.push(if self.is_bid { 1u8 } else { 0u8 });
        put_u32(out, self.price);
        put_u32(out, self.size);
        assert(out@ =~= before + record_bytes(*self));
    }

    /// The canonical form of `self`: 22 bytes that no other update has.
    pub fn to_bytes(&self) -> (bytes: Vec<u8>)
        ensures
            bytes@ == record_bytes(*self),
    {
        let mut bytes: Vec<u8> = Vec::new();
        self.write_to(&mut bytes);
        assert(bytes@ =~= record_bytes(*self));
        bytes
    }

    /// Reads an update from its canonical form. Gives `None` unless `bytes`
    /// is 22 bytes long with both flag bytes 0 or 1.
    pub fn from_bytes(bytes: &[u8]) -> (r: Option<Update>)
        ensures
            r == parse_record(bytes@),
    {
        if bytes.len() != RECORD_SIZE {
            return None;
        }
        let trade: u8 = bytes[12];
        let bid: u8 = bytes[13];
        if trade > 1 || bid > 1 {
            return None;
        }
        let ts = get_u64(bytes, 0);
        let seq = get_u32(bytes, 8);
        let price = get_u32(bytes, 14);
        let size = get_u32(bytes, 18);
        Some(Update { ts, seq, is_trade: trade == 1, is_bid: bid == 1, price, size })
    }
}

/// The updates of `updates` with `lo <= ts <= hi`, in their order.
pub fn select(updates: &Vec<Update>, lo: i128, hi: i128) -> (chosen: Vec<Update>)
    ensures
        chosen@ == updates@.filter(ts_within(lo as int, hi as int)),
{
    let n: usize = updates.len();
    let mut chosen: Vec<Update> = Vec::new();
    let mut i: usize = 0;
    proof {
        reveal(Seq::filter);
        assert(updates@.take(0).filter(ts_within(lo as int, hi as int)) =~= Seq::<Update>::empty());
    }
    while i < n
        invariant
            i <= n,
            n == updates@.len(),
            chosen@ == updates@.take(i as int).filter(ts_within(lo as int, hi as int)),
        decreases n - i,
    {
        let u = updates[i];
        proof {
            updates@.take(i as int).lemma_filter_push(u, ts_within(lo as int, hi as int));
            assert(updates@.take(i + 1) =~= updates@.take(i as int).push(u));
        }
        if lo <= u.ts as i128 && u.ts as i128 <= hi {
            chosen.push(u);
        }
        i += 1;
    }
    assert(updates@.take(n as int) =~= updates@);
    chosen
}

/// Update `i` is not above the update after it.
pub open spec fn in_order_at(s: Seq<Update>, i: int) -> bool {
    update_le(s[i], s[i + 1])
}

/// Neighbours in order make the whole sequence ascending.
pub proof fn lemma_sorted_by_neighbours(s: Seq<Update>)
    requires
        forall|i: int| 0 <= i && i + 1 < s.len() ==> #[trigger] in_order_at(s, i),
    ensures
        sorted(s),
    decreases s.len(),
{
    if s.len() > 1 {
        let s0 = s.drop_last();
        assert forall|i: int| 0 <= i && i + 1 < s0.len() implies #[trigger] in_order_at(s0, i) by {
            assert(in_order_at(s, i));
        }
        lemma_sorted_by_neighbours(s0);
        assert forall|i: int, j: int| 0 <= i < j < s.len() implies update_le(
            #[trigger] s[i],
            #[trigger] s[j],
        ) by {
            if j < s.len() - 1 {
                assert(update_le(s0[i], s0[j]));
            } else {
                let last = s.len() - 2;
                assert(in_order_at(s, last));
                if i < last {
                    assert(update_le(s0[i], s0[last]));
                }
            }
        }
    }
}

/// Whether no update of `updates` is above a later one.
pub fn is_sorted(updates: &Vec<Update>) -> (ok: bool)
    ensures
        ok == sorted(updates@),
{
    let n: usize = updates.len();
    let mut i: usize = 1;
    while i < n
        invariant
            1 <= i,
            n == updates@.len(),
            forall|k: int| 0 <= k && k + 1 < i ==> #[trigger] in_order_at(updates@, k),
        decreases n - i,
    {
        if updates[i].precedes(&updates[i - 1]) {
            assert(!update_le(updates@[i - 1], updates@[i as int]));
            return false;
        }
        i += 1;
    }
    proof {
        lemma_sorted_by_neighbours(updates@);
    }
    true
}

} // verus!
