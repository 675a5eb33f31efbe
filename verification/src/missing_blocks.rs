//! The payload of a missing-block report: `application/missing-blocks+cbor-seq`, a sequence of
//! CBOR unsigned integers, one for each missing block.
use crate::uint::be_value;
use vstd::prelude::*;

verus! {

/// The payload is no sequence of CBOR unsigned integers of at most 32 bits.
#[derive(Debug, Clone, Copy, PartialEq, Eq, Structural)]
pub struct InvalidMissingBlocks;

/// The shortest CBOR item for an unsigned integer.
pub open spec fn cbor_uint(value: u32) -> Seq<u8> {
    if value < 24 {
        seq![value as u8]
    } else if value < 0x100 {
        seq![24u8, value as u8]
    } else if value < 0x1_0000 {
        seq![25u8, (value / 0x100) as u8, (value % 0x100) as u8]
    } else {
        seq![
            26u8,
            (value / 0x100_0000) as u8,
            (value / 0x1_0000 % 0x100) as u8,
            (value / 0x100 % 0x100) as u8,
            (value % 0x100) as u8,
        ]
    }
}

/// The items for a list of numbers, one after the other.
pub open spec fn cbor_sequence(values: Seq<u32>) -> Seq<u8>
    decreases values.len(),
{
    if values.len() == 0 {
        Seq::empty()
    } else {
        cbor_uint(values[0]) + cbor_sequence(values.skip(1))
    }
}

/// How many bytes follow the first byte of an unsigned integer item; none if it starts another
/// kind of item.
pub open spec fn cbor_tail_len(first: u8) -> Option<nat> {
    if first < 24 {
        Some(0)
    } else if first == 24 {
        Some(1)
    } else if first == 25 {
        Some(2)
    } else if first == 26 {
        Some(4)
    } else if first == 27 {
        Some(8)
    } else {
        None
    }
}

/// The number at the start of `bytes` and the length of its item, for a whole unsigned integer
/// item of at most 32 bits.
pub open spec fn cbor_head(bytes: Seq<u8>) -> Option<(u32, nat)> {
    if bytes.len() == 0 {
        None
    } else {
        match cbor_tail_len(bytes[0]) {
            Some(tail) => if bytes.len() <= tail {
                None
            } else {
                let value = if tail == 0 {
                    bytes[0] as nat
                } else {
                    be_value(bytes.subrange(1, 1 + tail as int))
                };
                if value <= u32::MAX {
                    Some((value as u32, 1 + tail))
                } else {
                    None
                }
            },
            None => None,
        }
    }
}

/// The numbers that `bytes` list; none if some part of them is no such item.
pub open spec fn cbor_numbers(bytes: Seq<u8>) -> Option<Seq<u32>>
    decreases bytes.len(),
{
    if bytes.len() == 0 {
        Some(Seq::empty())
    } else {
        match cbor_head(bytes) {
            Some((value, len)) => match cbor_numbers(bytes.skip(len as int)) {
                Some(rest) => Some(seq![value] + rest),
                None => None,
            },
            None => None,
        }
    }
}

proof fn lemma_head_of_item(value: u32, rest: Seq<u8>)
    ensures
        cbor_head(cbor_uint(value) + rest) == Some((value, cbor_uint(value).len())),
{
    reveal_with_fuel(be_value, 5);
    let item = cbor_uint(value);
    let bytes = item + rest;
    assert(bytes[0] == item[0]);
    if value >= 24 {
        let tail = cbor_tail_len(item[0])->0;
        let digits = bytes.subrange(1, 1 + tail as int);
        assert(digits =~= item.subrange(1, item.len() as int));
        if value < 0x100 {
            assert(digits =~= seq![value as u8]);
            assert(be_value(digits) == value) by {
                assert(digits.drop_last() =~= Seq::<u8>::empty());
            }
        } else if value < 0x1_0000 {
            let d1 = digits.drop_last();
            assert(d1.drop_last() =~= Seq::<u8>::empty());
            assert(be_value(d1) == value / 0x100);
            assert(be_value(digits) == value);
        } else {
            let d1 = digits.drop_last();
            let d2 = d1.drop_last();
            let d3 = d2.drop_last();
            assert(d3.drop_last() =~= Seq::<u8>::empty());
            assert(be_value(d3) == value / 0x100_0000);
            assert(be_value(d2) == value / 0x1_0000);
            assert(be_value(d1) == value / 0x100);
            assert(be_value(digits) == value);
        }
    }
}

/// Reading a written list of numbers gives the list back.
pub proof fn law_missing_blocks_round_trip(values: Seq<u32>)
    ensures
        cbor_numbers(cbor_sequence(values)) == Some(values),
    decreases values.len(),
{
    if values.len() > 0 {
        let rest = values.skip(1);
        let bytes = cbor_sequence(values);
        law_missing_blocks_round_trip(rest);
        lemma_head_of_item(values[0], cbor_sequence(rest));
        assert(bytes.skip(cbor_uint(values[0]).len() as int) =~= cbor_sequence(rest));
        assert(seq![values[0]] + rest =~= values);
    }
}

fn push_item(out: &mut Vec<u8>, value: u32)
    ensures
        final(out)@ == old(out)@ + cbor_uint(value),
{
    if value < 24 {
        out.push(value as u8);
    } else if value < 0x100 {
        out.push(24);
        out.push(value as u8);
    } else if value < 0x1_0000 {
        out.push(25);
        out.push((value / 0x100) as u8);
        out.push((value % 0x100) as u8);
    } else {
        out.push(26);
        out.push((value / 0x100_0000) as u8);
        out.push((value / 0x1_0000 % 0x100) as u8);
        out.push((value / 0x100 % 0x100) as u8);
        out.push((value % 0x100) as u8);
    }
    assert(out@ =~= old(out)@ + cbor_uint(value));
}

/// Encodes block numbers as a CBOR sequence.
pub fn encode(blocks: &[u32]) -> (bytes: Vec<u8>)
    ensures
        bytes@ == cbor_sequence(blocks@),
{
    let mut bytes: Vec<u8> = Vec::new();
    let mut i: usize = 0;
    assert(blocks@.skip(0) =~= blocks@);
    assert(bytes@ + cbor_sequence(blocks@) =~= cbor_sequence(blocks@));
    while i < blocks.len()
        invariant
            i <= blocks@.len(),
            bytes@ + cbor_sequence(blocks@.skip(i as int)) == cbor_sequence(blocks@),
        decreases blocks@.len() - i,
    {
        let ghost before = bytes@;
        push_item(&mut bytes, blocks[i]);
        assert(blocks@.skip(i as int).skip(1) =~= blocks@.skip(i + 1));
        assert(before + (cbor_uint(blocks@[i as int]) + cbor_sequence(blocks@.skip(i + 1)))
            =~= bytes@ + cbor_sequence(blocks@.skip(i + 1)));
        i += 1;
    }
    assert(bytes@ + cbor_sequence(blocks@.skip(i as int)) =~= bytes@);
    bytes
}

/// The big-endian number in `bytes[from..to]`.
fn read_be(bytes: &[u8], from: usize, to: usize) -> (value: u64)
    requires
        from <= to <= bytes@.len(),
        to - from <= 8,
    ensures
        value == be_value(bytes@.subrange(from as int, to as int)),
{
    let mut value: u64 = 0;
    let mut i: usize = from;
    assert(bytes@.subrange(from as int, from as int) =~= Seq::<u8>::empty());
    proof {
        lemma_powers();
    }
    while i < to
        invariant
            from <= i <= to <= bytes@.len(),
            to - from <= 8,
            value == be_value(bytes@.subrange(from as int, i as int)),
            value < power256((i - from) as nat),
            power256(8) == 0x1_0000_0000_0000_0000,
        decreases to - i,
    {
        let ghost done = bytes@.subrange(from as int, i as int);
        let ghost more = bytes@.subrange(from as int, i + 1);
        proof {
            assert(more.drop_last() =~= done);
            lemma_power_monotone((i + 1 - from) as nat, 8);
        }
        value = value * 256 + bytes[i] as u64;
        i += 1;
    }
    value
}

spec fn power256(n: nat) -> nat
    decreases n,
{
    if n == 0 {
        1
    } else {
        256 * power256((n - 1) as nat)
    }
}

proof fn lemma_powers()
    ensures
        power256(8) == 0x1_0000_0000_0000_0000,
{
    reveal_with_fuel(power256, 9);
}

proof fn lemma_power_monotone(a: nat, b: nat)
    requires
        a <= b,
    ensures
        power256(a) <= power256(b),
    decreases b,
{
    if a < b {
        lemma_power_monotone(a, (b - 1) as nat);
    }
}

/// Decodes a CBOR sequence of block numbers.
pub fn decode(bytes: &[u8]) -> (blocks: Result<Vec<u32>, InvalidMissingBlocks>)
    ensures
        blocks matches Ok(list) ==> cbor_numbers(bytes@) == Some(list@),
        blocks is Err ==> cbor_numbers(bytes@) is None,
{
    let mut list: Vec<u32> = Vec::new();
    let mut at: usize = 0;
    assert(bytes@.skip(0) =~= bytes@);
    assert(cbor_numbers(bytes@) matches Some(rest) ==> list@ + rest =~= rest);
    while at < bytes.len()
        invariant
            at <= bytes@.len(),
            cbor_numbers(bytes@) == (match cbor_numbers(bytes@.skip(at as int)) {
                Some(rest) => Some(list@ + rest),
                None => None,
            }),
        decreases bytes@.len() - at,
    {
        let ghost here = bytes@.skip(at as int);
        let first = bytes[at];
        let tail: usize = if first < 24 {
            0
        } else if first == 24 {
            1
        } else if first == 25 {
            2
        } else if first == 26 {
            4
        } else if first == 27 {
            8
        } else {
            return Err(InvalidMissingBlocks);
        };
        if bytes.len() - at <= tail {
            return Err(InvalidMissingBlocks);
        }
        let value: u64 = if tail == 0 {
            first as u64
        } else {
            read_be(bytes, at + 1, at + 1 + tail)
        };
        proof {
            assert(here.subrange(1, 1 + tail as int) =~= bytes@.subrange(
                at + 1,
                at + 1 + tail as int,
            ));
        }
        if value > u32::MAX as u64 {
            return Err(InvalidMissingBlocks);
        }
        let ghost before = list@;
        list.push(value as u32);
        proof {
            let len = 1 + tail as int;
            assert(here.skip(len) =~= bytes@.skip(at + len));
            match cbor_numbers(bytes@.skip(at + len)) {
                Some(rest) => {
                    assert(before + (seq![value as u32] + rest) =~= list@ + rest);
                },
                None => {},
            }
        }
        at += 1 + tail;
    }
    assert(bytes@.skip(at as int) =~= Seq::<u8>::empty());
    assert(list@ + Seq::<u32>::empty() =~= list@);
    Ok(list)
}

} // verus!
