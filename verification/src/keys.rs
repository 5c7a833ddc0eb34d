//! The keys of the two persisted indices. Orders are keyed by id, eight
//! bytes, least significant first. Price levels are keyed by price and then
//! arrival number, each eight bytes, most significant first, so that a store
//! which sorts keys bytewise walks them by price and, within a price, in
//! arrival order.

use vstd::prelude::*;

verus! {

/// The number that `bytes` spell, most significant byte first.
pub open spec fn be_value(bytes: Seq<u8>) -> nat
    decreases bytes.len(),
{
    if bytes.len() == 0 {
        0
    } else {
        be_value(bytes.drop_last()) * 256 + bytes.last() as nat
    }
}

/// The last `width` base-256 digits of `value`, most significant first.
pub open spec fn be_bytes(value: nat, width: nat) -> Seq<u8>
    decreases width,
{
    if width == 0 {
        Seq::empty()
    } else {
        be_bytes(value / 256, (width - 1) as nat).push((value % 256) as u8)
    }
}

/// 256 to the power `width`: one more than the largest number that `width`
/// bytes spell.
pub open spec fn span(width: nat) -> nat
    decreases width,
{
    if width == 0 {
        1
    } else {
        256 * span((width - 1) as nat)
    }
}

/// Eight bytes spell exactly the numbers of `u64`.
pub proof fn lemma_span_of_eight()
    ensures
        span(7) == 0x100_0000_0000_0000,
        span(8) == 0x1_0000_0000_0000_0000,
{
    reveal_with_fuel(span, 9);
}

/// `be_bytes` gives `width` bytes, and they spell `value` where `value` fits.
pub proof fn lemma_be_bytes_value(value: nat, width: nat)
    ensures
        be_bytes(value, width).len() == width,
        value < span(width) ==> be_value(be_bytes(value, width)) == value,
    decreases width,
{
    if width > 0 {
        lemma_be_bytes_value(value / 256, (width - 1) as nat);
        let shorter = be_bytes(value / 256, (width - 1) as nat);
        assert(be_bytes(value, width).drop_last() =~= shorter);
    }
}

/// Bytes spell a number that fits their width, and `be_bytes` of that number
/// gives the bytes back.
pub proof fn lemma_be_value_bytes(bytes: Seq<u8>)
    ensures
        be_value(bytes) < span(bytes.len()),
        be_bytes(be_value(bytes), bytes.len()) == bytes,
    decreases bytes.len(),
{
    if bytes.len() > 0 {
        lemma_be_value_bytes(bytes.drop_last());
        let high = be_value(bytes.drop_last());
        let value = be_value(bytes);
        assert(value / 256 == high && value % 256 == bytes.last());
        assert(be_bytes(value, bytes.len()) =~= bytes);
    }
}

/// Whether `a` and `b` agree before place `at` and `a` is the smaller there:
/// by its byte, or by ending where `b` goes on.
pub open spec fn smaller_at(a: Seq<u8>, b: Seq<u8>, at: int) -> bool {
    &&& 0 <= at <= a.len()
    &&& at < b.len()
    &&& forall|i: int| 0 <= i < at ==> a[i] == b[i]
    &&& at < a.len() ==> a[at] < b[at]
}

/// Whether `a` sorts before `b` bytewise: at the first place where they
/// differ `a` has the smaller byte, or `a` ends there and `b` goes on.
pub open spec fn sorts_before(a: Seq<u8>, b: Seq<u8>) -> bool {
    exists|at: int| smaller_at(a, b, at)
}

/// Among bytes of one length, to be smaller at a place is to be smaller
/// there without the last byte, or to agree up to the last byte and be
/// smaller in it.
proof fn lemma_smaller_at_without_last(a: Seq<u8>, b: Seq<u8>, at: int)
    requires
        a.len() == b.len(),
        a.len() > 0,
    ensures
        at < a.len() - 1 ==> (smaller_at(a, b, at) <==> smaller_at(
            a.drop_last(),
            b.drop_last(),
            at,
        )),
        at == a.len() - 1 ==> (smaller_at(a, b, at) <==> (a.drop_last() == b.drop_last()
            && a.last() < b.last())),
        at >= a.len() ==> !smaller_at(a, b, at) && !smaller_at(a.drop_last(), b.drop_last(), at),
        at == a.len() - 1 ==> !smaller_at(a.drop_last(), b.drop_last(), at),
{
    let high_a = a.drop_last();
    let high_b = b.drop_last();
    if 0 <= at < a.len() - 1 {
        if smaller_at(high_a, high_b, at) {
            assert forall|i: int| 0 <= i < at implies a[i] == b[i] by {
                assert(high_a[i] == high_b[i]);
            }
        }
    } else if at == a.len() - 1 {
        if smaller_at(a, b, at) {
            assert(high_a =~= high_b);
        }
        if high_a == high_b && a.last() < b.last() {
            assert forall|i: int| 0 <= i < at implies a[i] == b[i] by {
                assert(high_a[i] == high_b[i]);
            }
        }
    }
}

/// Bytes of one length sort bytewise as the numbers they spell, and spell
/// the same number only when they are the same bytes.
pub proof fn lemma_bytewise_order_is_numeric(a: Seq<u8>, b: Seq<u8>)
    requires
        a.len() == b.len(),
    ensures
        sorts_before(a, b) <==> be_value(a) < be_value(b),
        a == b <==> be_value(a) == be_value(b),
    decreases a.len(),
{
    if a.len() == 0 {
        assert(a =~= b);
    } else {
        let high_a = a.drop_last();
        let high_b = b.drop_last();
        lemma_bytewise_order_is_numeric(high_a, high_b);
        if high_a == high_b && a.last() == b.last() {
            assert(a =~= high_a.push(a.last()));
            assert(b =~= high_b.push(b.last()));
        }
        if sorts_before(a, b) {
            let at = choose|at: int| smaller_at(a, b, at);
            lemma_smaller_at_without_last(a, b, at);
        }
        if be_value(a) < be_value(b) {
            if be_value(high_a) < be_value(high_b) {
                let at = choose|at: int| smaller_at(high_a, high_b, at);
                lemma_smaller_at_without_last(a, b, at);
            } else {
                lemma_smaller_at_without_last(a, b, a.len() - 1);
            }
        }
    }
}

/// Bytes put behind others spell the number of the first, moved up by the
/// width of the second, plus the number of the second.
pub proof fn lemma_be_value_concat(high: Seq<u8>, low: Seq<u8>)
    ensures
        be_value(high + low) == be_value(high) * span(low.len()) + be_value(low),
    decreases low.len(),
{
    if low.len() == 0 {
        assert(span(0) == 1);
    } else {
        lemma_be_value_concat(high, low.drop_last());
        assert((high + low).drop_last() =~= high + low.drop_last());
        let h = be_value(high);
        let w = span((low.len() - 1) as nat);
        let rest = be_value(low.drop_last());
        assert((h * w + rest) * 256 == h * (256 * w) + rest * 256) by (nonlinear_arith);
    }
}

/// The key of an order in the index of orders: its id in eight bytes, least
/// significant first.
pub open spec fn order_key_of(id: u64) -> Seq<u8> {
    be_bytes(id as nat, 8).reverse()
}

/// The key of an order in the index of price levels: its price and then its
/// arrival number, each in eight bytes, most significant first.
pub open spec fn price_level_key_of(price: u64, sequence: u64) -> Seq<u8> {
    be_bytes(price as nat, 8) + be_bytes(sequence as nat, 8)
}

/// Price-level keys sort bytewise by price and, within one price, by arrival
/// number; and two orders have the same key only with the same price and
/// arrival number.
pub proof fn lemma_price_level_keys_sort_by_price_then_arrival(
    price_a: u64,
    sequence_a: u64,
    price_b: u64,
    sequence_b: u64,
)
    ensures
        sorts_before(
            price_level_key_of(price_a, sequence_a),
            price_level_key_of(price_b, sequence_b),
        ) <==> (price_a < price_b || (price_a == price_b && sequence_a < sequence_b)),
        price_level_key_of(price_a, sequence_a) == price_level_key_of(price_b, sequence_b) <==> (
        price_a == price_b && sequence_a == sequence_b),
{
    let a = price_level_key_of(price_a, sequence_a);
    let b = price_level_key_of(price_b, sequence_b);
    lemma_span_of_eight();
    lemma_be_bytes_value(price_a as nat, 8);
    lemma_be_bytes_value(sequence_a as nat, 8);
    lemma_be_bytes_value(price_b as nat, 8);
    lemma_be_bytes_value(sequence_b as nat, 8);
    lemma_be_value_concat(be_bytes(price_a as nat, 8), be_bytes(sequence_a as nat, 8));
    lemma_be_value_concat(be_bytes(price_b as nat, 8), be_bytes(sequence_b as nat, 8));
    lemma_bytewise_order_is_numeric(a, b);
}

/// Appends the last `width` base-256 digits of `value` to `out`, most
/// significant first.
fn push_be_bytes(value: u64, width: u8, out: &mut Vec<u8>)
    ensures
        final(out)@ == old(out)@ + be_bytes(value as nat, width as nat),
    decreases width,
{
    if width > 0 {
        push_be_bytes(value / 256, width - 1, out);
        out.push((value % 256) as u8);
    }
}

/// Appends the last `width` base-256 digits of `value` to `out`, least
/// significant first.
fn push_le_bytes(value: u64, width: u8, out: &mut Vec<u8>)
    ensures
        final(out)@ == old(out)@ + be_bytes(value as nat, width as nat).reverse(),
    decreases width,
{
    if width > 0 {
        out.push((value % 256) as u8);
        push_le_bytes(value / 256, width - 1, out);
    }
}

/// Reads the number that the eight bytes from `start` on spell, most
/// significant first.
fn read_be_u64(bytes: &Vec<u8>, start: usize) -> (value: u64)
    requires
        start + 8 <= bytes@.len(),
    ensures
        value == be_value(bytes@.subrange(start as int, start + 8)),
{
    let mut value: u64 = 0;
    let mut read: usize = 0;
    proof {
        lemma_span_of_eight();
    }
    while read < 8
        invariant
            read <= 8,
            start + 8 <= bytes.len(),
            value == be_value(bytes@.subrange(start as int, start + read)),
            value < span(read as nat),
            span(8) == 0x1_0000_0000_0000_0000,
        decreases 8 - read,
    {
        let byte = bytes[start + read];
        proof {
            let longer = bytes@.subrange(start as int, start + read + 1);
            assert(longer.drop_last() =~= bytes@.subrange(start as int, start + read));
            lemma_span_grows(read as nat + 1, 8);
        }
        value = value * 256 + byte as u64;
        read = read + 1;
    }
    value
}

/// Reads the number that the eight bytes of `bytes` spell, least significant
/// first.
fn read_le_u64(bytes: &Vec<u8>) -> (value: u64)
    requires
        bytes@.len() == 8,
    ensures
        value == be_value(bytes@.reverse()),
{
    let mut value: u64 = 0;
    let mut read: usize = 0;
    let ghost turned = bytes@.reverse();
    proof {
        lemma_span_of_eight();
    }
    while read < 8
        invariant
            read <= 8,
            bytes@.len() == 8,
            turned == bytes@.reverse(),
            value == be_value(turned.subrange(0, read as int)),
            value < span(read as nat),
            span(8) == 0x1_0000_0000_0000_0000,
        decreases 8 - read,
    {
        let byte = bytes[7 - read];
        proof {
            let longer = turned.subrange(0, read + 1);
            assert(longer.drop_last() =~= turned.subrange(0, read as int));
            lemma_span_grows(read as nat + 1, 8);
        }
        value = value * 256 + byte as u64;
        read = read + 1;
    }
    proof {
        assert(turned.subrange(0, 8) =~= turned);
    }
    value
}

/// A wider span is no smaller.
pub proof fn lemma_span_grows(narrow: nat, wide: nat)
    requires
        narrow <= wide,
    ensures
        span(narrow) <= span(wide),
        span(narrow) > 0,
    decreases wide,
{
    if narrow < wide {
        lemma_span_grows(narrow, (wide - 1) as nat);
    } else if narrow > 0 {
        lemma_span_grows((narrow - 1) as nat, (narrow - 1) as nat);
    }
}

/// The key under which the order with `id` is kept in the index of orders.
pub fn order_key(id: u64) -> (key: Vec<u8>)
    ensures
        key@ == order_key_of(id),
        key@.len() == 8,
{
    let mut key: Vec<u8> = Vec::new();
    push_le_bytes(id, 8, &mut key);
    proof {
        lemma_be_bytes_value(id as nat, 8);
    }
    key
}

/// The order id that `key` stands for: `Some` for the eight bytes of an
/// order key, `None` for any other length.
pub fn decode_order_key(key: &Vec<u8>) -> (id: Option<u64>)
    ensures
        id.is_some() <==> key@.len() == 8,
        id.is_some() ==> order_key_of(id.unwrap()) == key@,
        forall|other: u64| order_key_of(other) == key@ ==> id == Some(other),
{
    proof {
        assert forall|other: u64| order_key_of(other) == key@ implies key@.len() == 8 by {
            lemma_be_bytes_value(other as nat, 8);
        }
    }
    if key.len() != 8 {
        return None;
    }
    let id = read_le_u64(key);
    proof {
        lemma_order_key_decodes(id, key@);
        assert forall|other: u64| order_key_of(other) == key@ implies id == other by {
            lemma_span_of_eight();
            lemma_be_bytes_value(other as nat, 8);
            assert(be_bytes(other as nat, 8).reverse().reverse() =~= be_bytes(other as nat, 8));
        }
    }
    Some(id)
}

/// Eight bytes are the order key of the number they spell read backwards.
proof fn lemma_order_key_decodes(id: u64, key: Seq<u8>)
    requires
        key.len() == 8,
        id == be_value(key.reverse()),
    ensures
        order_key_of(id) == key,
{
    lemma_be_value_bytes(key.reverse());
}

/// The key under which an order with `price` and arrival number `sequence`
/// is kept in the index of price levels.
pub fn price_level_key(price: u64, sequence: u64) -> (key: Vec<u8>)
    ensures
        key@ == price_level_key_of(price, sequence),
        key@.len() == 16,
{
    let mut key: Vec<u8> = Vec::new();
    push_be_bytes(price, 8, &mut key);
    push_be_bytes(sequence, 8, &mut key);
    proof {
        lemma_be_bytes_value(price as nat, 8);
        lemma_be_bytes_value(sequence as nat, 8);
    }
    key
}

/// The price and arrival number that `key` stands for: `Some` for the
/// sixteen bytes of a price-level key, `None` for any other length.
pub fn decode_price_level_key(key: &Vec<u8>) -> (entry: Option<(u64, u64)>)
    ensures
        entry.is_some() <==> key@.len() == 16,
        entry.is_some() ==> price_level_key_of(entry.unwrap().0, entry.unwrap().1) == key@,
        forall|price: u64, sequence: u64|
            price_level_key_of(price, sequence) == key@ ==> entry == Some((price, sequence)),
{
    proof {
        assert forall|price: u64, sequence: u64|
            price_level_key_of(price, sequence) == key@ implies key@.len() == 16 by {
            lemma_be_bytes_value(price as nat, 8);
            lemma_be_bytes_value(sequence as nat, 8);
        }
    }
    if key.len() != 16 {
        return None;
    }
    let price = read_be_u64(key, 0);
    let sequence = read_be_u64(key, 8);
    proof {
        let high = key@.subrange(0, 8);
        let low = key@.subrange(8, 16);
        lemma_be_value_bytes(high);
        lemma_be_value_bytes(low);
        assert(key@ =~= high + low);
        assert forall|p: u64, s: u64| price_level_key_of(p, s) == key@ implies price == p
            && sequence == s by {
            lemma_price_level_keys_sort_by_price_then_arrival(p, s, price, sequence);
        }
    }
    Some((price, sequence))
}

} // verus!
