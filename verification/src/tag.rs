//! The public attributes that a signing key is derived from.
use crate::expiration::Timestamp;
use vstd::prelude::*;

verus! {

/// The label that separates these endorsements from every other use of the hash:
/// `20240215_Signal_GroupSendEndorsement`.
pub const TAG_LABEL: [u8; 36] = [
    50, 48, 50, 52, 48, 50, 49, 53, 95,
    83, 105, 103, 110, 97, 108, 95,
    71, 114, 111, 117, 112, 83, 101, 110, 100,
    69, 110, 100, 111, 114, 115, 101, 109, 101, 110, 116,
];

/// The number that `bytes` spell, most significant byte first.
pub open spec fn big_endian_value(bytes: Seq<u8>) -> nat
    decreases bytes.len(),
{
    if bytes.len() == 0 {
        0
    } else {
        big_endian_value(bytes.drop_last()) * 256 + bytes.last() as nat
    }
}

/// The "tag info", or public attributes, of an endorsement: what a stateful hash object has to be
/// created with, and what it has to absorb, before a signing key is derived from it.
pub struct TagInfo {
    /// The label that the hash object is created with.
    pub label: [u8; 36],
    /// What it absorbs before it is ratcheted.
    pub input: [u8; 8],
}

impl TagInfo {
    /// This is the tag info of endorsements that expire at `expiration`.
    pub open spec fn is_for(self, expiration: Timestamp) -> bool {
        &&& self.label@ == TAG_LABEL@
        &&& big_endian_value(self.input@) == expiration
    }
}

/// The eight bytes of `value`, most significant byte first.
fn to_be_bytes(value: u64) -> (bytes: [u8; 8])
    ensures
        big_endian_value(bytes@) == value,
{
    let mut bytes: [u8; 8] = [0; 8];
    let mut shift: u64 = 0x100000000000000;
    let mut i: usize = 0;
    proof {
        assert(place_value(7) == 0x100000000000000 && place_value(8) == 0x10000000000000000) by {
            reveal_with_fuel(place_value, 10);
        }
        assert(bytes@.take(0) =~= Seq::empty());
    }
    while i < 8
        invariant
            i <= 8,
            i < 8 ==> shift == place_value(7 - i),
            big_endian_value(bytes@.take(i as int)) == value as int / place_value(8 - i),
        decreases 8 - i,
    {
        let ghost before = bytes@;
        proof {
            lemma_place_values(7 - i);
            lemma_one_more_byte(value as int, 7 - i);
        }
        bytes[i] = (value / shift % 0x100) as u8;
        proof {
            assert(bytes@.take(i + 1).drop_last() =~= before.take(i as int));
        }
        shift = shift / 0x100;
        i += 1;
    }
    assert(bytes@.take(8) =~= bytes@);
    bytes
}

impl TagInfo {
    /// The tag info of endorsements that expire at `expiration`.
    pub fn for_expiration(expiration: Timestamp) -> (tag: TagInfo)
        ensures
            tag.is_for(expiration),
            tag.label@ == TAG_LABEL@,
            tag.input@[0] == expiration / 0x100000000000000,
            tag.input@[1] == expiration / 0x1000000000000 % 0x100,
            tag.input@[2] == expiration / 0x10000000000 % 0x100,
            tag.input@[3] == expiration / 0x100000000 % 0x100,
            tag.input@[4] == expiration / 0x1000000 % 0x100,
            tag.input@[5] == expiration / 0x10000 % 0x100,
            tag.input@[6] == expiration / 0x100 % 0x100,
            tag.input@[7] == expiration % 0x100,
    {
        let tag = TagInfo { label: TAG_LABEL, input: to_be_bytes(expiration) };
        proof {
            lemma_tag_bytes(tag, expiration);
        }
        tag
    }
}

/// The label and the eight bytes that a tag info holds.
pub proof fn lemma_tag_bytes(tag: TagInfo, expiration: Timestamp)
    requires
        tag.is_for(expiration),
    ensures
        tag.label@ == TAG_LABEL@,
        expiration == tag.input@[0] * 0x100000000000000 + tag.input@[1] * 0x1000000000000
            + tag.input@[2] * 0x10000000000 + tag.input@[3] * 0x100000000
            + tag.input@[4] * 0x1000000 + tag.input@[5] * 0x10000 + tag.input@[6] * 0x100
            + tag.input@[7],
        tag.input@[0] == expiration / 0x100000000000000,
        tag.input@[1] == expiration / 0x1000000000000 % 0x100,
        tag.input@[2] == expiration / 0x10000000000 % 0x100,
        tag.input@[3] == expiration / 0x100000000 % 0x100,
        tag.input@[4] == expiration / 0x1000000 % 0x100,
        tag.input@[5] == expiration / 0x10000 % 0x100,
        tag.input@[6] == expiration / 0x100 % 0x100,
        tag.input@[7] == expiration % 0x100,
{
    lemma_spelled_number(tag, expiration);
    let value = expiration as int;
    let b0 = tag.input@[0] as int;
    let b1 = tag.input@[1] as int;
    let b2 = tag.input@[2] as int;
    let b3 = tag.input@[3] as int;
    let b4 = tag.input@[4] as int;
    let b5 = tag.input@[5] as int;
    let b6 = tag.input@[6] as int;
    let b7 = tag.input@[7] as int;
    lemma_byte(
        value,
        0x100000000000000,
        0,
        b0,
        b1 * 0x1000000000000 + b2 * 0x10000000000 + b3 * 0x100000000 + b4 * 0x1000000
            + b5 * 0x10000 + b6 * 0x100 + b7,
    );
    lemma_byte(
        value,
        0x1000000000000,
        b0,
        b1,
        b2 * 0x10000000000 + b3 * 0x100000000 + b4 * 0x1000000 + b5 * 0x10000 + b6 * 0x100 + b7,
    );
    lemma_byte(
        value,
        0x10000000000,
        b0 * 0x100 + b1,
        b2,
        b3 * 0x100000000 + b4 * 0x1000000 + b5 * 0x10000 + b6 * 0x100 + b7,
    );
    lemma_byte(
        value,
        0x100000000,
        b0 * 0x10000 + b1 * 0x100 + b2,
        b3,
        b4 * 0x1000000 + b5 * 0x10000 + b6 * 0x100 + b7,
    );
    lemma_byte(
        value,
        0x1000000,
        b0 * 0x1000000 + b1 * 0x10000 + b2 * 0x100 + b3,
        b4,
        b5 * 0x10000 + b6 * 0x100 + b7,
    );
    lemma_byte(
        value,
        0x10000,
        b0 * 0x100000000 + b1 * 0x1000000 + b2 * 0x10000 + b3 * 0x100 + b4,
        b5,
        b6 * 0x100 + b7,
    );
    lemma_byte(
        value,
        0x100,
        b0 * 0x10000000000 + b1 * 0x100000000 + b2 * 0x1000000 + b3 * 0x10000 + b4 * 0x100 + b5,
        b6,
        b7,
    );
    lemma_byte(
        value,
        1,
        b0 * 0x1000000000000 + b1 * 0x10000000000 + b2 * 0x100000000 + b3 * 0x1000000
            + b4 * 0x10000 + b5 * 0x100 + b6,
        b7,
        0,
    );
}

/// A number is the sum of the bytes that spell it, each times its place value.
proof fn lemma_spelled_number(tag: TagInfo, expiration: Timestamp)
    requires
        tag.is_for(expiration),
    ensures
        expiration == tag.input@[0] * 0x100000000000000 + tag.input@[1] * 0x1000000000000
            + tag.input@[2] * 0x10000000000 + tag.input@[3] * 0x100000000
            + tag.input@[4] * 0x1000000 + tag.input@[5] * 0x10000 + tag.input@[6] * 0x100
            + tag.input@[7],
{
    reveal_with_fuel(big_endian_value, 9);
    let bytes = tag.input@;
    assert(bytes.drop_last() =~= bytes.take(7));
    assert(bytes.take(7).drop_last() =~= bytes.take(6));
    assert(bytes.take(6).drop_last() =~= bytes.take(5));
    assert(bytes.take(5).drop_last() =~= bytes.take(4));
    assert(bytes.take(4).drop_last() =~= bytes.take(3));
    assert(bytes.take(3).drop_last() =~= bytes.take(2));
    assert(bytes.take(2).drop_last() =~= bytes.take(1));
    assert(bytes.take(1).drop_last() =~= bytes.take(0));
}

/// The byte of `value` at the place with the value `place`, between those before and after it.
proof fn lemma_byte(value: int, place: int, before: int, byte: int, after: int)
    requires
        0 <= before,
        0 <= byte < 0x100,
        0 <= after < place,
        value == (before * 0x100 + byte) * place + after,
    ensures
        value / place % 0x100 == byte,
        before == 0 ==> value / place == byte,
{
    vstd::arithmetic::div_mod::lemma_fundamental_div_mod_converse(
        value,
        place,
        before * 0x100 + byte,
        after,
    );
}

/// Endorsements with different expirations have different tag infos, and those with the same
/// expiration have the same one.
pub proof fn law_tag_info_identifies_expiration(
    first: TagInfo,
    second: TagInfo,
    first_expiration: Timestamp,
    second_expiration: Timestamp,
)
    requires
        first.is_for(first_expiration),
        second.is_for(second_expiration),
    ensures
        first_expiration == second_expiration <==> first == second,
{
    if first_expiration == second_expiration {
        lemma_big_endian_injective(first.input@, second.input@);
        assert(first.label =~= second.label);
        assert(first.input =~= second.input);
    }
}

/// Byte strings of one length that spell the same number are the same.
proof fn lemma_big_endian_injective(a: Seq<u8>, b: Seq<u8>)
    requires
        a.len() == b.len(),
        big_endian_value(a) == big_endian_value(b),
    ensures
        a == b,
    decreases a.len(),
{
    if a.len() > 0 {
        lemma_big_endian_injective(a.drop_last(), b.drop_last());
        assert(a =~= a.drop_last().push(a.last()));
        assert(b =~= b.drop_last().push(b.last()));
    } else {
        assert(a =~= b);
    }
}

/// What a byte counts for that has `k` bytes behind it: 256 to the power of `k`.
spec fn place_value(k: int) -> int
    decreases k,
{
    if k <= 0 {
        1
    } else {
        place_value(k - 1) * 256
    }
}

proof fn lemma_place_values(k: int)
    requires
        0 <= k <= 7,
    ensures
        0 < place_value(k) <= 0x100000000000000,
{
    reveal_with_fuel(place_value, 9);
}

/// Dividing by a smaller place value brings one more byte into view.
proof fn lemma_one_more_byte(value: int, k: int)
    requires
        0 <= value,
        0 <= k <= 7,
    ensures
        value / place_value(k) == value / place_value(k + 1) * 256 + value / place_value(k) % 256,
{
    lemma_place_values(k);
    vstd::arithmetic::div_mod::lemma_div_denominator(value, place_value(k), 256);
}

} // verus!
