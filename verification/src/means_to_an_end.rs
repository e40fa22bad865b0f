//! Means to an end: prices with their timestamps come in, and the mean
//! price over a span of time is asked for.

use crate::big_endian::{spec_encode_u32, spec_u32_at, write_u32};
use crate::buffer::{append, spec_bytes};
use bytes::BytesMut;
use vstd::prelude::*;

verus! {

/// What a client sends, in nine bytes: a letter and two numbers.
#[derive(Debug, PartialEq, Eq, Clone, Copy, Structural)]
pub enum Message {
    Insert { timestamp: i32, price: i32 },
    Query { mintime: i32, maxtime: i32 },
}

/// The nine bytes of a client begin with neither `I` nor `Q`.
#[derive(Debug, PartialEq, Eq, Clone, Copy, Structural)]
pub struct MessageInvalid;

/// The signed number that four bytes stand for, in two's complement.
pub open spec fn spec_signed(v: u32) -> i32 {
    if v < 0x8000_0000 {
        v as i32
    } else {
        (v - 0x1_0000_0000) as i32
    }
}

/// The unsigned number with the same four bytes as `v`.
pub open spec fn spec_unsigned(v: i32) -> u32 {
    if v >= 0 {
        v as u32
    } else {
        (v + 0x1_0000_0000) as u32
    }
}

/// The signed number that the four bytes of `b` from `at` on stand for.
pub open spec fn spec_i32_at(b: Seq<u8>, at: int) -> i32 {
    spec_signed(spec_u32_at(b, at))
}

/// The four bytes of `v`, most significant first.
pub open spec fn spec_encode_i32(v: i32) -> Seq<u8> {
    spec_encode_u32(spec_unsigned(v))
}

/// What nine bytes of a client say.
pub open spec fn spec_parse(chunk: Seq<u8>) -> Result<Message, MessageInvalid> {
    if chunk[0] == 0x49 {
        Ok(Message::Insert { timestamp: spec_i32_at(chunk, 1), price: spec_i32_at(chunk, 5) })
    } else if chunk[0] == 0x51 {
        Ok(Message::Query { mintime: spec_i32_at(chunk, 1), maxtime: spec_i32_at(chunk, 5) })
    } else {
        Err(MessageInvalid)
    }
}

/// Going from signed to unsigned and back changes nothing.
pub proof fn lemma_signed_round_trip(v: i32)
    ensures
        spec_signed(spec_unsigned(v)) == v,
{
}

/// Round trip: the four bytes of a number, wherever they stand, are read
/// back as it.
pub proof fn lemma_i32_round_trip(b: Seq<u8>, at: int, v: i32)
    requires
        0 <= at,
        at + 4 <= b.len(),
        b.subrange(at, at + 4) == spec_encode_i32(v),
    ensures
        spec_i32_at(b, at) == v,
{
    crate::big_endian::lemma_u32_round_trip(b, at, spec_unsigned(v));
}

/// The signed number that four bytes stand for.
fn signed(b0: u8, b1: u8, b2: u8, b3: u8) -> (v: i32)
    ensures
        v == spec_signed(
            (b0 as int * 0x100_0000 + b1 as int * 0x1_0000 + b2 as int * 0x100 + b3 as int) as u32,
        ),
{
    let raw: u32 = (b0 as u32) * 0x100_0000 + (b1 as u32) * 0x1_0000 + (b2 as u32) * 0x100 + (
    b3 as u32);
    if raw < 0x8000_0000 {
        raw as i32
    } else {
        (raw as i64 - 0x1_0000_0000) as i32
    }
}

/// Reads one message of a client.
pub fn parse(chunk: &[u8; 9]) -> (r: Result<Message, MessageInvalid>)
    ensures
        r == spec_parse(chunk@),
{
    let first = signed(chunk[1], chunk[2], chunk[3], chunk[4]);
    let second = signed(chunk[5], chunk[6], chunk[7], chunk[8]);
    if chunk[0] == 0x49 {
        Ok(Message::Insert { timestamp: first, price: second })
    } else if chunk[0] == 0x51 {
        Ok(Message::Query { mintime: first, maxtime: second })
    } else {
        Err(MessageInvalid)
    }
}

/// Writes answers, four bytes each.
pub struct I32Encoder;

impl I32Encoder {
    #[must_use]
    pub fn new() -> (encoder: I32Encoder) {
        I32Encoder
    }

    /// Appends the four bytes of `item` to `dst`.
    pub fn encode(&mut self, item: i32, dst: &mut BytesMut)
        ensures
            spec_bytes(*final(dst)) == spec_bytes(*old(dst)) + spec_encode_i32(item),
    {
        let raw: u32 = if item >= 0 {
            item as u32
        } else {
            (item as i64 + 0x1_0000_0000) as u32
        };
        let mut bytes: Vec<u8> = Vec::new();
        write_u32(&mut bytes, raw);
        assert(bytes@ =~= spec_encode_i32(item));
        append(dst, bytes.as_slice());
    }
}

impl Default for I32Encoder {
    fn default() -> (encoder: I32Encoder) {
        I32Encoder::new()
    }
}

/// A price at a time.
#[derive(Debug, PartialEq, Eq, Clone, Copy, Structural)]
pub struct Entry {
    pub timestamp: i32,
    pub price: i32,
}

/// The prices that were taken in, one for a timestamp.
pub struct Prices {
    items: Vec<Entry>,
}

/// How many of the entries lie in the span from `mintime` to `maxtime`.
pub open spec fn spec_count(items: Seq<Entry>, mintime: i32, maxtime: i32) -> int
    decreases items.len(),
{
    if items.len() == 0 {
        0
    } else {
        spec_count(items.drop_last(), mintime, maxtime) + if mintime <= items.last().timestamp
            <= maxtime {
            1int
        } else {
            0int
        }
    }
}

/// The sum of the prices of the entries that lie in the span from
/// `mintime` to `maxtime`.
pub open spec fn spec_total(items: Seq<Entry>, mintime: i32, maxtime: i32) -> int
    decreases items.len(),
{
    if items.len() == 0 {
        0
    } else {
        spec_total(items.drop_last(), mintime, maxtime) + if mintime <= items.last().timestamp
            <= maxtime {
            items.last().price as int
        } else {
            0int
        }
    }
}

/// The whole part of `total / count`, what lies behind the point being cut
/// off; 0 where nothing was counted.
pub open spec fn spec_quotient(total: int, count: int) -> int {
    if count <= 0 {
        0
    } else if total >= 0 {
        total / count
    } else {
        -((-total) / count)
    }
}

/// The mean price over the span from `mintime` to `maxtime`.
pub open spec fn spec_mean(items: Seq<Entry>, mintime: i32, maxtime: i32) -> int {
    spec_quotient(spec_total(items, mintime, maxtime), spec_count(items, mintime, maxtime))
}

/// The entries after a price came in: a price that was held for that
/// timestamp is replaced, at its place; a new one goes to the end.
pub open spec fn spec_insert(items: Seq<Entry>, entry: Entry) -> Seq<Entry>
    decreases items.len(),
{
    if items.len() == 0 {
        seq![entry]
    } else if items[0].timestamp == entry.timestamp {
        items.update(0, entry)
    } else {
        seq![items[0]] + spec_insert(items.skip(1), entry)
    }
}

/// The sum of prices lies between the least and the largest price, times
/// their number.
proof fn lemma_total_bounds(items: Seq<Entry>, mintime: i32, maxtime: i32)
    ensures
        0 <= spec_count(items, mintime, maxtime) <= items.len(),
        -0x8000_0000 * spec_count(items, mintime, maxtime) <= spec_total(items, mintime, maxtime)
            <= 0x7fff_ffff * spec_count(items, mintime, maxtime),
    decreases items.len(),
{
    if items.len() > 0 {
        lemma_total_bounds(items.drop_last(), mintime, maxtime);
    }
}

/// A mean of prices is a price.
pub proof fn lemma_mean_is_a_price(items: Seq<Entry>, mintime: i32, maxtime: i32)
    ensures
        -0x8000_0000 <= spec_mean(items, mintime, maxtime) <= 0x7fff_ffff,
{
    lemma_total_bounds(items, mintime, maxtime);
    let total = spec_total(items, mintime, maxtime);
    let count = spec_count(items, mintime, maxtime);
    if count > 0 {
        if total >= 0 {
            assert(total / count <= 0x7fff_ffff) by (nonlinear_arith)
                requires
                    count > 0,
                    0 <= total <= 0x7fff_ffff * count,
            ;
            assert(total / count >= 0) by (nonlinear_arith)
                requires
                    count > 0,
                    0 <= total,
            ;
        } else {
            assert((-total) / count <= 0x8000_0000) by (nonlinear_arith)
                requires
                    count > 0,
                    0 <= -total <= 0x8000_0000 * count,
            ;
            assert((-total) / count >= 0) by (nonlinear_arith)
                requires
                    count > 0,
                    0 <= -total,
            ;
        }
    }
}

impl View for Prices {
    type V = Seq<Entry>;

    closed spec fn view(&self) -> Seq<Entry> {
        self.items@
    }
}

impl Prices {
    /// No prices.
    pub fn new() -> (prices: Prices)
        ensures
            prices@ == Seq::<Entry>::empty(),
    {
        Prices { items: Vec::new() }
    }

    /// Takes in the price at a time. A price that was held for that time
    /// is replaced.
    pub fn insert(&mut self, timestamp: i32, price: i32)
        ensures
            final(self)@ == spec_insert(old(self)@, Entry { timestamp, price }),
    {
        let entry = Entry { timestamp, price };
        let mut i: usize = 0;
        while i < self.items.len()
            invariant
                i <= self.items@.len(),
                self.items@ == old(self).items@,
                entry == (Entry { timestamp, price }),
                forall|j: int| 0 <= j < i ==> self.items@[j].timestamp != timestamp,
            decreases self.items@.len() - i,
        {
            if self.items[i].timestamp == timestamp {
                proof {
                    lemma_insert_replaces(old(self).items@, entry, i as int);
                }
                self.items[i] = entry;
                assert(self.items@ =~= old(self).items@.update(i as int, entry));
                return ;
            }
            i += 1;
        }
        self.items.push(entry);
        proof {
            lemma_insert_appends(old(self).items@, entry);
        }
    }

    /// The mean price over the span from `mintime` to `maxtime`, both
    /// included: the sum of the prices divided by their number, without what
    /// is behind the point; 0 where no price lies in the span.
    pub fn mean(&self, mintime: i32, maxtime: i32) -> (mean: i32)
        ensures
            mean == spec_mean(self@, mintime, maxtime),
    {
        let mut count: u128 = 0;
        let mut total: i128 = 0;
        let mut i: usize = 0;
        while i < self.items.len()
            invariant
                i <= self.items@.len(),
                count == spec_count(self.items@.take(i as int), mintime, maxtime),
                total == spec_total(self.items@.take(i as int), mintime, maxtime),
                0 <= count <= i,
                -0x8000_0000 * count <= total <= 0x7fff_ffff * count,
            decreases self.items@.len() - i,
        {
            proof {
                assert(self.items@.take(i + 1).drop_last() =~= self.items@.take(i as int));
            }
            let entry = self.items[i];
            if mintime <= entry.timestamp && entry.timestamp <= maxtime {
                count = count + 1;
                total = total + entry.price as i128;
            }
            i += 1;
        }
        proof {
            assert(self.items@.take(i as int) =~= self.items@);
            lemma_mean_is_a_price(self@, mintime, maxtime);
        }
        if count == 0 {
            0
        } else if total >= 0 {
            ((total as u128) / count) as i32
        } else {
            let whole: u128 = ((-total) as u128) / count;
            (-(whole as i64)) as i32
        }
    }
}

/// Where the entry at `i` is the first with the timestamp of `entry`, the
/// new price takes its place.
proof fn lemma_insert_replaces(items: Seq<Entry>, entry: Entry, i: int)
    requires
        0 <= i < items.len(),
        items[i].timestamp == entry.timestamp,
        forall|j: int| 0 <= j < i ==> items[j].timestamp != entry.timestamp,
    ensures
        spec_insert(items, entry) == items.update(i, entry),
    decreases i,
{
    if i > 0 {
        let rest = items.skip(1);
        assert forall|j: int| 0 <= j < i - 1 implies rest[j].timestamp != entry.timestamp by {
            assert(rest[j] == items[j + 1]);
        }
        lemma_insert_replaces(rest, entry, i - 1);
        assert(seq![items[0]] + rest.update(i - 1, entry) =~= items.update(i, entry));
    }
}

/// Where no entry has the timestamp of `entry`, the new price goes to the
/// end.
proof fn lemma_insert_appends(items: Seq<Entry>, entry: Entry)
    requires
        forall|j: int| 0 <= j < items.len() ==> items[j].timestamp != entry.timestamp,
    ensures
        spec_insert(items, entry) == items.push(entry),
    decreases items.len(),
{
    if items.len() > 0 {
        let rest = items.skip(1);
        assert forall|j: int| 0 <= j < rest.len() implies rest[j].timestamp
            != entry.timestamp by {
            assert(rest[j] == items[j + 1]);
        }
        lemma_insert_appends(rest, entry);
        assert(seq![items[0]] + rest.push(entry) =~= items.push(entry));
    } else {
        assert(seq![entry] =~= items.push(entry));
    }
}

} // verus!
