//! Reading requests for missing blocks, and the tag that tells request bodies apart.
use crate::missing_blocks::cbor_numbers;
use crate::missing_blocks::decode;
use crate::packet::add_option;
use crate::packet::all_blocks;
use crate::packet::decode_block;
use crate::packet::get_option;
use crate::packet::new_packet;
use crate::packet::packet_contents;
use crate::packet::payload;
use crate::packet::set_token;
use crate::packet::set_type;
use crate::packet::BlockValue;
use crate::packet::Message;
use crate::packet::MessageKind;
use crate::packet::Q_BLOCK1;
use crate::packet::Q_BLOCK2;
use crate::packet::REQUEST_TAG;
use crate::table::copy_bytes;
use coap_lite::Packet;
use vstd::prelude::*;

verus! {

/// The block numbers in a list of block options, without the values that do not decode.
pub open spec fn block_numbers(values: Seq<Seq<u8>>) -> Seq<u32>
    decreases values.len(),
{
    if values.len() == 0 {
        Seq::empty()
    } else {
        let before = block_numbers(values.drop_last());
        match decode_block(values.last()) {
            Some(block) => before.push(block.num as u32),
            None => before,
        }
    }
}

/// The blocks that a message asks for: for a response body those of its Q-Block2 options, for a
/// request body those that its payload lists. A payload that lists no numbers asks for nothing.
pub open spec fn requested(message: Message, option: u16) -> Seq<u32> {
    if option == Q_BLOCK2 {
        block_numbers(message.values(Q_BLOCK2))
    } else if option == Q_BLOCK1 {
        match cbor_numbers(message.payload) {
            Some(numbers) => numbers,
            None => Seq::empty(),
        }
    } else {
        Seq::empty()
    }
}

/// The tag of the request body that a message belongs to; no tag counts as an empty one.
pub open spec fn spec_request_tag(message: Message) -> Seq<u8> {
    match message.first_value(REQUEST_TAG) {
        Some(tag) => tag,
        None => Seq::empty(),
    }
}

/// What reports on a request body start from: a non-confirmable message with the token of the
/// request, and with its tag unless that is empty.
pub open spec fn spec_report_template(token: Seq<u8>, tag: Seq<u8>) -> Message {
    let base = Message::fresh().with_kind(MessageKind::NonConfirmable).with_token(token);
    if tag.len() > 0 {
        base.with_option(REQUEST_TAG, tag)
    } else {
        base
    }
}

/// The block numbers that a request for missing blocks asks for. `option` is the block option of
/// the transfer.
pub fn parse_missing_request(pdu: &Packet, option: u16) -> (blocks: Vec<u32>)
    ensures
        blocks@ == requested(packet_contents(*pdu), option),
{
    if option == Q_BLOCK2 {
        match all_blocks(pdu, Q_BLOCK2) {
            Some(blocks) => {
                let ghost values = packet_contents(*pdu).options[Q_BLOCK2];
                numbers_of(&blocks, Ghost(values))
            },
            None => Vec::new(),
        }
    } else if option == Q_BLOCK1 {
        match decode(payload(pdu).as_slice()) {
            Ok(blocks) => blocks,
            Err(_) => Vec::new(),
        }
    } else {
        Vec::new()
    }
}

/// The numbers of the blocks in a list of decoded options, without those that did not decode.
fn numbers_of(blocks: &Vec<Option<BlockValue>>, Ghost(values): Ghost<Seq<Seq<u8>>>) -> (numbers: Vec<
    u32,
>)
    requires
        blocks@ == values.map_values(|bytes: Seq<u8>| decode_block(bytes)),
    ensures
        numbers@ == block_numbers(values),
{
    let mut numbers: Vec<u32> = Vec::new();
    let mut i: usize = 0;
    assert(values.take(0) =~= Seq::<Seq<u8>>::empty());
    while i < blocks.len()
        invariant
            i <= blocks@.len(),
            blocks@ == values.map_values(|bytes: Seq<u8>| decode_block(bytes)),
            numbers@ == block_numbers(values.take(i as int)),
        decreases blocks@.len() - i,
    {
        proof {
            let taken = values.take(i + 1);
            assert(taken.drop_last() =~= values.take(i as int));
            assert(taken.last() == values[i as int]);
        }
        if let Some(block) = blocks[i] {
            numbers.push(block.num as u32);
        }
        i += 1;
    }
    assert(values.take(i as int) =~= values);
    numbers
}

/// The tag of the request body that `packet` belongs to, empty where it carries none.
pub fn request_tag_of(packet: &Packet) -> (tag: Vec<u8>)
    ensures
        tag@ == spec_request_tag(packet_contents(*packet)),
{
    match get_option(packet, REQUEST_TAG) {
        Some(values) => {
            assert(values@.len() == values@.map_values(|value: Vec<u8>| value@).len());
            if values.len() > 0 {
                assert(values@.map_values(|value: Vec<u8>| value@)[0] == values@[0]@);
                copy_bytes(values[0].as_slice())
            } else {
                Vec::new()
            }
        },
        None => Vec::new(),
    }
}

/// A packet for reports on the request body with this token and tag.
pub fn report_template(token: Vec<u8>, tag: &[u8]) -> (packet: Packet)
    requires
        token@.len() % 256 < 16,
    ensures
        packet_contents(packet) == spec_report_template(token@, tag@),
{
    let mut packet = new_packet();
    set_type(&mut packet, MessageKind::NonConfirmable);
    set_token(&mut packet, token);
    if tag.len() > 0 {
        add_option(&mut packet, REQUEST_TAG, copy_bytes(tag));
    }
    packet
}

} // verus!
