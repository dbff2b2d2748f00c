//! Variable-length quantities: big-endian base-128 numbers in which every
//! byte but the last has its high bit set.
use vstd::arithmetic::div_mod::{lemma_add_mod_noop, lemma_mul_mod_noop_left};
use vstd::prelude::*;

verus! {

/// The number of values of the 64-bit accumulator: a quantity is decoded
/// modulo this.
pub open spec fn wrap() -> nat {
    0x1_0000_0000_0000_0000
}

/// The index of the first byte at or behind `from` whose high bit is clear.
pub open spec fn closing_byte(bytes: Seq<u8>, from: nat) -> Option<nat>
    decreases bytes.len() - from,
{
    if from >= bytes.len() {
        None
    } else if bytes[from as int] < 0x80 {
        Some(from)
    } else {
        closing_byte(bytes, from + 1)
    }
}

/// The number that the low seven bits of each of `digits` spell in base 128,
/// most significant digit first.
pub open spec fn base128(digits: Seq<u8>) -> nat
    decreases digits.len(),
{
    if digits.len() == 0 {
        0
    } else {
        base128(digits.drop_last()) * 128 + (digits.last() % 128) as nat
    }
}

/// The variable-length quantity at the front of `bytes`: its value in the
/// 64-bit accumulator, and the number of bytes it takes. `None` where the
/// bytes end before a byte with a clear high bit.
pub open spec fn var_length(bytes: Seq<u8>) -> Option<(u64, nat)> {
    match closing_byte(bytes, 0) {
        Some(last) => Some(((base128(bytes.take(last + 1 as int)) % wrap()) as u64, (last + 1) as nat)),
        None => None,
    }
}

/// The closing byte is the first byte from `from` on whose high bit is clear.
pub proof fn lemma_closing_byte(bytes: Seq<u8>, from: nat)
    ensures
        match closing_byte(bytes, from) {
            Some(last) => {
                &&& from <= last < bytes.len()
                &&& bytes[last as int] < 0x80
                &&& forall|j: int| from <= j < last ==> bytes[j] >= 0x80
            },
            None => forall|j: int| from <= j < bytes.len() ==> bytes[j] >= 0x80,
        },
    decreases bytes.len() - from,
{
    if from < bytes.len() && bytes[from as int] >= 0x80 {
        lemma_closing_byte(bytes, from + 1);
    }
}

/// A quantity takes at least one byte and no more than there are.
pub proof fn lemma_var_length_size(bytes: Seq<u8>)
    ensures
        var_length(bytes) matches Some((_, k)) ==> 1 <= k <= bytes.len(),
{
    lemma_closing_byte(bytes, 0);
}

/// The accumulator after one more byte: shifted left by seven bits, with the
/// byte's low seven bits put in.
pub open spec fn pushed(acc: u64, byte: u8) -> u64 {
    (acc << 7) | ((byte & 0x7F) as u64)
}

/// Shifting `byte` into an accumulator that holds `digits` gives what
/// `digits` followed by `byte` spell.
pub proof fn lemma_pushed(digits: Seq<u8>, acc: u64, byte: u8)
    requires
        acc == base128(digits) % wrap(),
    ensures
        pushed(acc, byte) == base128(digits.push(byte)) % wrap(),
{
    let low: u64 = (byte % 128) as u64;
    assert(pushed(acc, byte) as int == (acc as int * 128 + (byte % 128) as int) % 0x1_0000_0000_0000_0000) by {
        assert(((acc << 7) | ((byte & 0x7F) as u64)) as int == (acc as int * 128 + (byte % 128) as int)
            % 0x1_0000_0000_0000_0000) by (bit_vector);
    }
    assert(digits.push(byte).drop_last() == digits);
    assert(digits.push(byte).last() == byte);
    let whole: int = base128(digits) as int;
    assert(base128(digits.push(byte)) == whole * 128 + low);
    lemma_mul_mod_noop_left(whole, 128, wrap() as int);
    lemma_add_mod_noop(whole * 128, low as int, wrap() as int);
    lemma_add_mod_noop(acc * 128, low as int, wrap() as int);
}

/// The digits of `value` in base 128, most significant first, each with its
/// high bit set.
pub open spec fn leading_bytes(value: nat) -> Seq<u8>
    decreases value,
{
    if value < 128 {
        seq![(value + 128) as u8]
    } else {
        leading_bytes(value / 128).push((value % 128 + 128) as u8)
    }
}

/// The shortest variable-length quantity that spells `value`.
pub open spec fn encoding(value: nat) -> Seq<u8> {
    if value < 128 {
        seq![value as u8]
    } else {
        leading_bytes(value / 128).push((value % 128) as u8)
    }
}

/// The leading bytes of a quantity all have their high bit set, and spell
/// the value they were made from.
pub proof fn lemma_leading_bytes(value: nat)
    ensures
        leading_bytes(value).len() >= 1,
        forall|i: int| 0 <= i < leading_bytes(value).len() ==> leading_bytes(value)[i] >= 0x80,
        base128(leading_bytes(value)) == value,
    decreases value,
{
    if value < 128 {
        let only = seq![(value + 128) as u8];
        assert(only.drop_last() =~= Seq::<u8>::empty());
        assert(base128(only.drop_last()) == 0);
    } else {
        lemma_leading_bytes(value / 128);
        let front = leading_bytes(value / 128);
        let all = front.push((value % 128 + 128) as u8);
        assert(all.drop_last() =~= front);
    }
}

/// A quantity is found whole in front of whatever follows it.
pub proof fn lemma_closing_byte_found(bytes: Seq<u8>, from: nat, last: nat)
    requires
        from <= last < bytes.len(),
        bytes[last as int] < 0x80,
        forall|j: int| from <= j < last ==> bytes[j] >= 0x80,
    ensures
        closing_byte(bytes, from) == Some(last),
    decreases last - from,
{
    if from < last {
        lemma_closing_byte_found(bytes, from + 1, last);
    }
}

/// Decoding what encodes a value gives the value back, with the number of
/// bytes of its encoding, whatever bytes follow.
pub proof fn lemma_var_length_of_encoding(value: nat, rest: Seq<u8>)
    requires
        value < wrap(),
    ensures
        var_length(encoding(value) + rest) == Some((value as u64, encoding(value).len())),
        1 <= encoding(value).len(),
{
    let code = encoding(value);
    let bytes = code + rest;
    if value < 128 {
        lemma_closing_byte_found(bytes, 0, 0);
        assert(bytes.take(1) =~= code);
        assert(code.drop_last() =~= Seq::<u8>::empty());
        assert(base128(code.drop_last()) == 0);
        assert(base128(code) == value);
    } else {
        lemma_leading_bytes(value / 128);
        let front = leading_bytes(value / 128);
        let last: nat = front.len();
        assert forall|j: int| 0 <= j < last implies bytes[j] >= 0x80 by {
            assert(bytes[j] == front[j]);
        }
        lemma_closing_byte_found(bytes, 0, last);
        assert(bytes.take(last + 1 as int) =~= code);
        assert(code.drop_last() =~= front);
        assert(base128(code) == (value / 128) * 128 + value % 128);
    }
}

/// A quantity does not change with the bytes that follow it.
pub proof fn lemma_var_length_prefix(bytes: Seq<u8>, rest: Seq<u8>)
    requires
        var_length(bytes) is Some,
    ensures
        var_length(bytes + rest) == var_length(bytes),
{
    lemma_closing_byte(bytes, 0);
    let last: nat = closing_byte(bytes, 0).unwrap();
    let all = bytes + rest;
    assert forall|j: int| 0 <= j < last implies all[j] >= 0x80 by {
        assert(all[j] == bytes[j]);
    }
    lemma_closing_byte_found(all, 0, last);
    assert(all.take(last + 1 as int) =~= bytes.take(last + 1 as int));
}

} // verus!
