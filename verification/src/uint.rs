//! Unsigned integers as CoAP options carry them: big-endian, without leading zero bytes.
use vstd::prelude::*;

verus! {

/// The number that big-endian `bytes` spell.
pub open spec fn be_value(bytes: Seq<u8>) -> nat
    decreases bytes.len(),
{
    if bytes.len() == 0 {
        0
    } else {
        be_value(bytes.drop_last()) * 256 + bytes.last() as nat
    }
}

/// The shortest big-endian spelling of `value`; zero is the empty string.
pub open spec fn uint_bytes(value: nat) -> Seq<u8>
    decreases value,
{
    if value == 0 {
        Seq::empty()
    } else {
        uint_bytes(value / 256).push((value % 256) as u8)
    }
}

/// The number an option value of at most `width` bytes carries; a longer value carries none.
pub open spec fn decode_uint(bytes: Seq<u8>, width: nat) -> Option<nat> {
    if bytes.len() <= width {
        Some(be_value(bytes))
    } else {
        None
    }
}

/// Reading the shortest spelling of a number gives the number back.
pub proof fn law_uint_round_trip(value: nat)
    ensures
        be_value(uint_bytes(value)) == value,
    decreases value,
{
    if value != 0 {
        law_uint_round_trip(value / 256);
        let bytes = uint_bytes(value);
        assert(bytes.drop_last() =~= uint_bytes(value / 256));
    }
}

/// The spelling of a number starts with no zero byte.
pub proof fn law_uint_no_leading_zero(value: nat)
    requires
        value > 0,
    ensures
        uint_bytes(value).len() > 0,
        uint_bytes(value)[0] != 0,
    decreases value,
{
    if value >= 256 {
        law_uint_no_leading_zero(value / 256);
    } else {
        assert(uint_bytes(value / 256) =~= Seq::<u8>::empty());
    }
}

/// A number below 2^16 takes at most two bytes, one below 2^32 at most four.
pub proof fn lemma_uint_width(value: nat)
    ensures
        value < 0x1_0000 ==> uint_bytes(value).len() <= 2,
        value < 0x1_0000_0000 ==> uint_bytes(value).len() <= 4,
{
    reveal_with_fuel(uint_bytes, 5);
}

/// Two bytes spell a number below 2^16, four bytes one below 2^32.
pub proof fn lemma_be_value_bound(bytes: Seq<u8>)
    ensures
        bytes.len() <= 2 ==> be_value(bytes) < 0x1_0000,
        bytes.len() <= 4 ==> be_value(bytes) < 0x1_0000_0000,
{
    reveal_with_fuel(be_value, 5);
}

/// Encodes a length as an option value.
pub fn encode_coap_uint(value: usize) -> (bytes: Vec<u8>)
    ensures
        bytes@ == uint_bytes(value as nat),
    decreases value,
{
    if value == 0 {
        Vec::new()
    } else {
        let mut bytes = encode_coap_uint(value / 256);
        bytes.push((value % 256) as u8);
        bytes
    }
}

} // verus!
