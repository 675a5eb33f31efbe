//! CoAP messages as the rest of the library sees them.
//!
//! A [`Packet`] is a value of the `coap_lite` crate, opaque to Verus. [`Message`] is what it
//! holds, [`packet_contents`] names the message that a packet holds, and the wrappers below
//! state each operation of the crate as a change of that message.
use crate::body::block_len;
use crate::uint::decode_uint;
use crate::uint::law_uint_round_trip;
use crate::uint::lemma_be_value_bound;
use crate::uint::lemma_uint_width;
use crate::uint::uint_bytes;
use coap_lite::CoapOption;
use coap_lite::MessageClass;
use coap_lite::MessageType;
use coap_lite::Packet;
use coap_lite::error::InvalidBlockValue;
use coap_lite::error::MessageError;
use coap_lite::option_value::OptionValueU16;
use coap_lite::option_value::OptionValueU32;
use vstd::arithmetic::power2::lemma2_to64;
use vstd::prelude::*;

verus! {

/// Option number of `ETag`.
pub const ETAG: u16 = 4;

/// Option number of `Observe`.
pub const OBSERVE: u16 = 6;

/// Option number of `Content-Format`.
pub const CONTENT_FORMAT: u16 = 12;

/// Option number of `Q-Block1`: the blocks of a request body.
pub const Q_BLOCK1: u16 = 19;

/// Option number of `Block1`.
pub const BLOCK1: u16 = 27;

/// Option number of `Block2`.
pub const BLOCK2: u16 = 23;

/// Option number of `Size2`.
pub const SIZE2: u16 = 28;

/// Option number of `Q-Block2`: the blocks of a response body.
pub const Q_BLOCK2: u16 = 31;

/// Option number of `Size1`.
pub const SIZE1: u16 = 60;

/// Option number of `Request-Tag`, which tells the blocks of one Q-Block1 request
/// body from those of another.
pub const REQUEST_TAG: u16 = 292;

/// Content-Format number of `application/missing-blocks+cbor-seq`.
pub const MISSING_BLOCKS_CBOR_SEQ: u16 = 272;

/// Response code 4.08, Request Entity Incomplete.
pub const REQUEST_ENTITY_INCOMPLETE: u8 = 0x88;

/// The smallest number that the wire form of an option spells with two more bytes.
pub const TWO_BYTE_FIELD: u16 = 269;

/// The option that announces the length of a body whose blocks carry `option`.
pub open spec fn spec_size_option(option: u16) -> u16 {
    if option == Q_BLOCK1 {
        SIZE1
    } else {
        SIZE2
    }
}

/// The option that announces the length of a body whose blocks carry `option`: Size1 for a
/// request body, Size2 for a response body.
pub fn size_option(option: u16) -> (number: u16)
    ensures
        number == spec_size_option(option),
{
    if option == Q_BLOCK1 {
        SIZE1
    } else {
        SIZE2
    }
}

/// What a packet holds.
#[verifier::ext_equal]
pub struct Message {
    /// Version (two bits), type (two bits) and token length (four bits).
    pub first: u8,
    /// The code as it goes on the wire.
    pub code: u8,
    /// What the code makes the message.
    pub role: Role,
    /// The message ID.
    pub id: u16,
    pub token: Seq<u8>,
    /// The values of each option, in the order in which they were added. An option that was
    /// added and cleared again is there with no values.
    pub options: Map<u16, Seq<Seq<u8>>>,
    pub payload: Seq<u8>,
}

/// What a code makes of a message. A packet can also hold a code as a bare number, which makes it
/// none of the first two, whatever the number.
pub enum Role {
    /// An empty message, which is sent without its payload.
    Empty,
    /// A request with one of the seven methods.
    Request,
    /// Any other message.
    Other,
}

/// What a code makes of a message that is read with it.
pub open spec fn role_of(code: u8) -> Role {
    if code == 0 {
        Role::Empty
    } else if code <= 7 {
        Role::Request
    } else {
        Role::Other
    }
}

/// The byte orders of machines.
pub enum ByteOrder {
    /// The lowest byte comes first.
    Little,
    /// The highest byte comes first.
    Big,
}

/// The four message types.
#[derive(Debug, Clone, Copy, PartialEq, Eq, Structural)]
pub enum MessageKind {
    Confirmable,
    NonConfirmable,
    Acknowledgement,
    Reset,
}

impl MessageKind {
    /// The two bits that stand for the type in the first byte.
    pub open spec fn bits(self) -> nat {
        match self {
            MessageKind::Confirmable => 0,
            MessageKind::NonConfirmable => 1,
            MessageKind::Acknowledgement => 2,
            MessageKind::Reset => 3,
        }
    }
}

impl Message {
    /// The message that a fresh packet holds: version 1, confirmable, GET.
    pub open spec fn fresh() -> Message {
        Message {
            first: 0x40,
            code: 0x01,
            role: Role::Request,
            id: 0,
            token: Seq::empty(),
            options: Map::empty(),
            payload: Seq::empty(),
        }
    }

    /// Whether the option is there, be it without values.
    pub open spec fn has(self, number: u16) -> bool {
        self.options.dom().contains(number)
    }

    /// The values of an option, none where it is absent.
    pub open spec fn values(self, number: u16) -> Seq<Seq<u8>> {
        if self.has(number) {
            self.options[number]
        } else {
            Seq::empty()
        }
    }

    /// The first value of an option.
    pub open spec fn first_value(self, number: u16) -> Option<Seq<u8>> {
        if self.values(number).len() > 0 {
            Some(self.values(number)[0])
        } else {
            None
        }
    }

    /// The block in the first value of an option, where there is one that decodes.
    pub open spec fn first_block(self, number: u16) -> Option<BlockValue> {
        match self.first_value(number) {
            Some(bytes) => decode_block(bytes),
            None => None,
        }
    }

    /// The number in the first value of an option, where there is one of at most four bytes.
    pub open spec fn first_u32(self, number: u16) -> Option<u32> {
        match self.first_value(number) {
            Some(bytes) => match decode_uint(bytes, 4) {
                Some(value) => Some(value as u32),
                None => None,
            },
            None => None,
        }
    }

    /// The message with one more value of an option.
    pub open spec fn with_option(self, number: u16, value: Seq<u8>) -> Message {
        Message { options: self.options.insert(number, self.values(number).push(value)), ..self }
    }

    /// The message with the values of an option taken away.
    pub open spec fn without_values(self, number: u16) -> Message {
        Message {
            options: if self.has(number) {
                self.options.insert(number, Seq::empty())
            } else {
                self.options
            },
            ..self
        }
    }

    /// The message with another payload.
    pub open spec fn with_payload(self, payload: Seq<u8>) -> Message {
        Message { payload, ..self }
    }

    /// The message with another code.
    pub open spec fn with_code(self, code: u8) -> Message {
        Message { code, role: role_of(code), ..self }
    }

    /// The message with another type.
    pub open spec fn with_kind(self, kind: MessageKind) -> Message {
        Message {
            first: ((self.first / 64) * 64 + kind.bits() * 16 + self.first % 16) as u8,
            ..self
        }
    }

    /// The message with another token, its length noted in the first byte.
    pub open spec fn with_token(self, token: Seq<u8>) -> Message {
        Message { first: ((self.first / 16) * 16 + token.len() % 256) as u8, token, ..self }
    }

    /// Whether the wire form keeps the message: the token has the length that the first byte
    /// notes, the message is what its code says, and an empty one has no payload to drop.
    pub open spec fn wire_safe(self) -> bool {
        &&& self.token.len() == self.first % 16
        &&& self.token.len() <= 8
        &&& self.role == role_of(self.code)
        &&& self.role is Empty ==> self.payload.len() == 0
    }

    /// Whether the wire form spells every option with one-byte numbers: no value is longer than
    /// they can say, and no option is further from the one before it.
    pub open spec fn short_fields(self) -> bool {
        &&& forall|number: u16, i: int|
            0 <= i < self.values(number).len() ==> (#[trigger] self.values(number)[i]).len()
                < TWO_BYTE_FIELD
        &&& forall|number: u16|
            number >= TWO_BYTE_FIELD && (#[trigger] self.values(number)).len() > 0 ==> exists|
                before: u16,
            |
                before < number < before + TWO_BYTE_FIELD && (#[trigger] self.values(before)).len()
                    > 0
    }

    /// Whether a machine reads the wire form as the message. One whose highest byte comes first
    /// misreads numbers of two bytes.
    pub open spec fn readable(self, machine: ByteOrder) -> bool {
        self.wire_safe() && (machine is Little || self.short_fields())
    }

    /// The message without the options that have no values, which the wire form does not show.
    pub open spec fn as_sent(self) -> Message {
        Message {
            options: self.options.restrict(
                Set::new(|number: u16| self.has(number) && self.options[number].len() > 0),
            ),
            ..self
        }
    }
}

/// A block option: which block of a body, whether more follow, and how large blocks are.
#[derive(Debug, Clone, Copy, PartialEq, Eq, Structural)]
pub struct BlockValue {
    pub num: u16,
    pub more: bool,
    /// Blocks are 2^(size_exponent + 4) bytes.
    pub size_exponent: u8,
}

/// The number that an option value for `block` carries: twelve bits of block number, one for
/// `more`, three for the size.
pub open spec fn block_scalar(block: BlockValue) -> nat {
    (block.num as nat * 16) % 0x1_0000 + (if block.more {
        8nat
    } else {
        0nat
    }) + block.size_exponent as nat % 8
}

/// The option value for `block`.
pub open spec fn block_bytes(block: BlockValue) -> Seq<u8> {
    uint_bytes(block_scalar(block))
}

/// The block that an option value carries; a value of more than two bytes carries none.
pub open spec fn decode_block(bytes: Seq<u8>) -> Option<BlockValue> {
    match decode_uint(bytes, 2) {
        Some(scalar) => Some(
            BlockValue {
                num: (scalar / 16) as u16,
                more: (scalar / 8) % 2 == 1,
                size_exponent: (scalar % 8) as u8,
            },
        ),
        None => None,
    }
}

/// The exponent of the largest block size not above `size`.
pub open spec fn size_exponent_of(size: nat) -> nat
    decreases size,
{
    if size < 32 {
        0
    } else {
        1 + size_exponent_of(size / 2)
    }
}

/// The block option for block `num` in blocks of at most `size` bytes, where one can say so.
pub open spec fn block_for(num: nat, more: bool, size: nat) -> Option<BlockValue> {
    if 0 < size < 4096 && num < 0x1_0000 {
        Some(BlockValue { num: num as u16, more, size_exponent: size_exponent_of(size) as u8 })
    } else {
        None
    }
}

/// Reading a written block option gives the block back, for block numbers that fit twelve bits.
pub proof fn law_block_round_trip(block: BlockValue)
    requires
        block.num < 4096,
        block.size_exponent < 8,
    ensures
        decode_block(block_bytes(block)) == Some(block),
{
    let scalar = block_scalar(block);
    law_uint_round_trip(scalar);
    lemma_uint_width(scalar);
}

/// The block sizes that a block option can state are written as themselves.
pub proof fn lemma_size_exponent(szx: u8)
    requires
        szx < 8,
    ensures
        size_exponent_of(block_len(szx)) == szx,
{
    lemma2_to64();
    reveal_with_fuel(size_exponent_of, 9);
}

/// A block option that was read has a size exponent below eight and a block number below 4096.
pub proof fn lemma_decoded_block(bytes: Seq<u8>)
    ensures
        decode_block(bytes) matches Some(block) ==> block.size_exponent < 8 && block.num < 4096,
{
    lemma_be_value_bound(bytes);
}

/// The type of a packet.
#[verifier::external_type_specification]
#[verifier::external_body]
pub struct ExPacket(coap_lite::Packet);

/// The error of `Packet::to_bytes`.
#[verifier::external_type_specification]
#[verifier::external_body]
pub struct ExMessageError(coap_lite::error::MessageError);

/// The error of `BlockValue::new`.
#[verifier::external_type_specification]
#[verifier::external_body]
pub struct ExInvalidBlockValue(coap_lite::error::InvalidBlockValue);

/// The message that a packet holds.
pub uninterp spec fn packet_contents(packet: Packet) -> Message;

/// The bytes that `Packet::to_bytes` makes of a message, none where it refuses to.
pub uninterp spec fn wire_encoding(message: Message) -> Option<Seq<u8>>;

/// The message that `Packet::from_bytes` reads from bytes on a machine with a byte order, none
/// where they hold no message to it.
pub uninterp spec fn wire_decoding(bytes: Seq<u8>, machine: ByteOrder) -> Option<Message>;

/// How many bytes follow the first byte of an option for a half of it that says so.
pub open spec fn field_extra(half: u8) -> int {
    if half == 13 {
        1
    } else {
        0
    }
}

/// Whether options are spelled without two-byte lengths and two-byte distances, as far as they can
/// be read.
pub open spec fn options_are_short(bytes: Seq<u8>) -> bool
    decreases bytes.len(),
{
    if bytes.len() == 0 || bytes[0] == 255 {
        true
    } else {
        let distance = bytes[0] / 16;
        let length = bytes[0] % 16;
        let head = 1 + field_extra(distance) + field_extra(length);
        if distance == 14 || length == 14 {
            false
        } else if distance == 15 || length == 15 || bytes.len() < head {
            true
        } else {
            let end = head + if length == 13 {
                bytes[head - 1] + 13
            } else {
                length as int
            };
            bytes.len() < end || options_are_short(bytes.skip(end))
        }
    }
}

/// Whether bytes spell their options without two-byte lengths and two-byte distances: header and
/// token are followed by such options, or are not whole.
pub open spec fn has_short_fields(bytes: Seq<u8>) -> bool {
    bytes.len() < 4 || bytes[0] % 16 > 8 || bytes.len() < 4 + bytes[0] % 16 || options_are_short(
        bytes.skip(4 + bytes[0] % 16),
    )
}

/// Whether `message` may be what bytes read as: it is what machines of one byte order read, and
/// what all machines read where the bytes have no two-byte fields.
pub open spec fn reads_as(bytes: Seq<u8>, message: Option<Message>) -> bool {
    let little = wire_decoding(bytes, ByteOrder::Little);
    let big = wire_decoding(bytes, ByteOrder::Big);
    &&& message == little || message == big
    &&& has_short_fields(bytes) ==> message == little && message == big
}

/// Whether bytes read as the message on every machine that can read it.
pub open spec fn spells(bytes: Seq<u8>, message: Message) -> bool {
    forall|machine: ByteOrder|
        message.readable(machine) ==> #[trigger] wire_decoding(bytes, machine) == Some(
            message.as_sent(),
        )
}

/// What an optional packet holds.
pub open spec fn contents_of(packet: Option<Packet>) -> Option<Message> {
    match packet {
        Some(packet) => Some(packet_contents(packet)),
        None => None,
    }
}

/// `Packet::new`: a packet with a default header, no token, no options and no payload.
#[verifier::external_body]
pub(crate) fn new_packet() -> (packet: Packet)
    ensures
        packet_contents(packet) == Message::fresh(),
{
    Packet::new()
}

/// `Packet::clone`: a packet that holds the same message.
#[verifier::external_body]
pub(crate) fn clone_packet(packet: &Packet) -> (copy: Packet)
    ensures
        packet_contents(copy) == packet_contents(*packet),
{
    packet.clone()
}

/// `Packet::to_bytes`: the wire form of the packet, refused where it is over the crate's size
/// limit. If the wire form keeps the message, `Packet::from_bytes` reads it back as the same
/// message, without options that have no values. It does so on every machine if the options of the
/// message are near each other and short. Others are written with two-byte fields, which are read
/// in the byte order of the machine, so that only machines whose lowest byte comes first read them
/// as they were written.
#[verifier::external_body]
pub(crate) fn to_bytes(packet: &Packet) -> (bytes: Result<Vec<u8>, MessageError>)
    ensures
        bytes matches Ok(b) ==> wire_encoding(packet_contents(*packet)) == Some(b@),
        bytes is Err ==> wire_encoding(packet_contents(*packet)) is None,
        bytes matches Ok(b) ==> spells(b@, packet_contents(*packet)),
{
    packet.to_bytes()
}

/// `Packet::from_bytes`: the packet that the bytes spell, if they spell one. Two-byte fields are
/// read in the byte order of the machine: of bytes with such fields the packet is one of the two
/// that they spell.
#[verifier::external_body]
pub(crate) fn from_bytes(bytes: &[u8]) -> (packet: Option<Packet>)
    ensures
        contents_of(packet) == wire_decoding(bytes@, ByteOrder::Little) || contents_of(packet)
            == wire_decoding(bytes@, ByteOrder::Big),
        has_short_fields(bytes@) ==> contents_of(packet) == wire_decoding(bytes@, ByteOrder::Little)
            && contents_of(packet) == wire_decoding(bytes@, ByteOrder::Big),
{
    Packet::from_bytes(bytes).ok()
}

/// `Packet::get_token`. A packet takes a token of at most fifteen bytes, counted modulo 256.
#[verifier::external_body]
pub(crate) fn get_token(packet: &Packet) -> (token: Vec<u8>)
    ensures
        token@ == packet_contents(*packet).token,
        token@.len() % 256 < 16,
{
    packet.get_token().to_vec()
}

/// `Packet::set_token`: replaces the token and notes its length in the header. It panics on a
/// length that does not fit four bits.
#[verifier::external_body]
pub(crate) fn set_token(packet: &mut Packet, token: Vec<u8>)
    requires
        token@.len() % 256 < 16,
    ensures
        packet_contents(*final(packet)) == packet_contents(*old(packet)).with_token(token@),
{
    packet.set_token(token)
}

/// `Header::set_type`: replaces the message type.
#[verifier::external_body]
pub(crate) fn set_type(packet: &mut Packet, kind: MessageKind)
    ensures
        packet_contents(*final(packet)) == packet_contents(*old(packet)).with_kind(kind),
{
    packet.header.set_type(match kind {
        MessageKind::Confirmable => MessageType::Confirmable,
        MessageKind::NonConfirmable => MessageType::NonConfirmable,
        MessageKind::Acknowledgement => MessageType::Acknowledgement,
        MessageKind::Reset => MessageType::Reset,
    })
}

/// `MessageClass::from`, stored as the packet's code: the code that goes on the wire is the
/// given one, and the message is what that code says.
#[verifier::external_body]
pub(crate) fn set_code(packet: &mut Packet, code: u8)
    ensures
        packet_contents(*final(packet)) == packet_contents(*old(packet)).with_code(code),
{
    packet.header.code = MessageClass::from(code);
}

/// The packet's `payload`.
#[verifier::external_body]
pub(crate) fn payload(packet: &Packet) -> (payload: &Vec<u8>)
    ensures
        payload@ == packet_contents(*packet).payload,
{
    &packet.payload
}

/// Replaces the packet's `payload`.
#[verifier::external_body]
pub(crate) fn set_payload(packet: &mut Packet, payload: Vec<u8>)
    ensures
        packet_contents(*final(packet)) == packet_contents(*old(packet)).with_payload(payload@),
{
    packet.payload = payload;
}

/// `Packet::get_option`: the values of an option in order, none where it is absent.
#[verifier::external_body]
pub(crate) fn get_option(packet: &Packet, number: u16) -> (values: Option<Vec<Vec<u8>>>)
    ensures
        values is Some == packet_contents(*packet).has(number),
        values matches Some(v) ==> v@.map_values(|value: Vec<u8>| value@) == packet_contents(
            *packet,
        ).options[number],
{
    packet.get_option(CoapOption::from(number)).map(|values| values.iter().cloned().collect())
}

/// `Packet::add_option`: appends a value to the values of an option.
#[verifier::external_body]
pub(crate) fn add_option(packet: &mut Packet, number: u16, value: Vec<u8>)
    ensures
        packet_contents(*final(packet)) == packet_contents(*old(packet)).with_option(
            number,
            value@,
        ),
{
    packet.add_option(CoapOption::from(number), value)
}

/// `Packet::clear_option`: takes the values of an option away. The option stays, without values.
#[verifier::external_body]
pub(crate) fn clear_option(packet: &mut Packet, number: u16)
    ensures
        packet_contents(*final(packet)) == packet_contents(*old(packet)).without_values(number),
{
    packet.clear_option(CoapOption::from(number))
}

/// `Packet::add_option_as` for a number of at most 32 bits: appends its shortest spelling.
#[verifier::external_body]
pub(crate) fn add_u32_option(packet: &mut Packet, number: u16, value: u32)
    ensures
        packet_contents(*final(packet)) == packet_contents(*old(packet)).with_option(
            number,
            uint_bytes(value as nat),
        ),
{
    packet.add_option_as::<OptionValueU32>(CoapOption::from(number), OptionValueU32(value))
}

/// `Packet::add_option_as` for a number of at most 16 bits: appends its shortest spelling.
#[verifier::external_body]
pub(crate) fn add_u16_option(packet: &mut Packet, number: u16, value: u16)
    ensures
        packet_contents(*final(packet)) == packet_contents(*old(packet)).with_option(
            number,
            uint_bytes(value as nat),
        ),
{
    packet.add_option_as::<OptionValueU16>(CoapOption::from(number), OptionValueU16(value))
}

/// `Packet::add_option_as` for a block: appends the block's option value.
#[verifier::external_body]
pub(crate) fn add_block_option(packet: &mut Packet, number: u16, block: BlockValue)
    ensures
        packet_contents(*final(packet)) == packet_contents(*old(packet)).with_option(
            number,
            block_bytes(block),
        ),
{
    packet.add_option_as(
        CoapOption::from(number),
        coap_lite::block_handler::BlockValue {
            num: block.num,
            more: block.more,
            size_exponent: block.size_exponent,
        },
    )
}

/// `Packet::get_first_option_as` for a block: the block in the first value of an option, none
/// where the option has no value or the value does not decode.
#[verifier::external_body]
pub(crate) fn first_block(packet: &Packet, number: u16) -> (block: Option<BlockValue>)
    ensures
        block == packet_contents(*packet).first_block(number),
{
    packet.get_first_option_as::<coap_lite::block_handler::BlockValue>(CoapOption::from(number))
        .and_then(|block| block.ok())
        .map(
            |block|
                BlockValue {
                    num: block.num,
                    more: block.more,
                    size_exponent: block.size_exponent,
                },
        )
}

/// `Packet::get_first_option_as` for a number of at most 32 bits: the number in the first value
/// of an option, none where the option has no value or the value is too long.
#[verifier::external_body]
pub(crate) fn first_u32(packet: &Packet, number: u16) -> (value: Option<u32>)
    ensures
        value == packet_contents(*packet).first_u32(number),
{
    packet.get_first_option_as::<OptionValueU32>(CoapOption::from(number))
        .and_then(|value| value.ok())
        .map(|value| value.0)
}

/// `Packet::get_options_as` for blocks: each value of an option decoded, none where the option
/// is absent; a value that does not decode stands as `None`.
#[verifier::external_body]
pub(crate) fn all_blocks(packet: &Packet, number: u16) -> (blocks: Option<Vec<Option<BlockValue>>>)
    ensures
        blocks is Some == packet_contents(*packet).has(number),
        blocks matches Some(v) ==> v@ == packet_contents(*packet).options[number].map_values(
            |bytes: Seq<u8>| decode_block(bytes),
        ),
{
    packet.get_options_as::<coap_lite::block_handler::BlockValue>(CoapOption::from(number)).map(
        |blocks|
            blocks.into_iter().map(
                |block|
                    block.ok().map(
                        |b| BlockValue { num: b.num, more: b.more, size_exponent: b.size_exponent },
                    ),
            ).collect(),
    )
}

/// `BlockValue::new`: the block option for block `num` in blocks of at most `size` bytes. It is
/// refused where the number does not fit 16 bits, or the size is 0 or at least 4096.
#[verifier::external_body]
pub(crate) fn new_block(num: usize, more: bool, size: usize) -> (block: Result<
    BlockValue,
    InvalidBlockValue,
>)
    ensures
        block matches Ok(b) ==> block_for(num as nat, more, size as nat) == Some(b),
        block is Err ==> block_for(num as nat, more, size as nat) is None,
{
    coap_lite::block_handler::BlockValue::new(num, more, size).map(
        |block|
            BlockValue { num: block.num, more: block.more, size_exponent: block.size_exponent },
    )
}

} // verus!
