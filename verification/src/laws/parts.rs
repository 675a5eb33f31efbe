//! Laws of the smaller calls: numbers, lists of blocks, tables, addresses and errors.
use crate::address::all_coap_group;
use crate::address::group_change;
use crate::address::lemma_first_index;
use crate::address::Endpoint;
use crate::address::EndpointKey;
use crate::address::GroupChange;
use crate::address::IpAddress;
use crate::address::MulticastGroups;
use crate::block_wise::BAD_REQUEST;
use crate::block_wise::CONTINUE;
use crate::block_wise::INTERNAL_SERVER_ERROR;
use crate::block_wise::REQUEST_ENTITY_TOO_LARGE;
use crate::body::block_count;
use crate::body::block_len;
use crate::body::block_of;
use crate::body::block_size;
use crate::body::count_blocks;
use crate::body::lemma_block_bounds;
use crate::body::lemma_block_count;
use crate::body::lemma_block_of_byte;
use crate::body::lemma_small_sizes;
use crate::config::QBlockConfig;
use crate::config::QBlockError;
use crate::config::QBlockErrorKind;
use crate::missing_blocks::cbor_sequence;
use crate::missing_blocks::cbor_uint;
use crate::missing_blocks::decode;
use crate::missing_blocks::encode;
use crate::missing_blocks::law_missing_blocks_round_trip;
use crate::missing_blocks::InvalidMissingBlocks;
use crate::packet::packet_contents;
use crate::packet::size_option;
use crate::packet::BLOCK1;
use crate::packet::BLOCK2;
use crate::packet::CONTENT_FORMAT;
use crate::packet::ETAG;
use crate::packet::MISSING_BLOCKS_CBOR_SEQ;
use crate::packet::OBSERVE;
use crate::packet::Q_BLOCK1;
use crate::packet::Q_BLOCK2;
use crate::packet::REQUEST_ENTITY_INCOMPLETE;
use crate::packet::REQUEST_TAG;
use crate::packet::SIZE1;
use crate::packet::SIZE2;
use crate::range_set::RBLOCK_CNT;
use crate::receiver::RecoveryOutcome;
use crate::request::CONTENT;
use crate::request::TEXT_PLAIN;
use crate::server::URI_PATH;
use crate::table::bytes_equal;
use crate::table::copy_bytes;
use crate::table::Table;
use crate::time::from_nanos;
use crate::time::nanos;
use crate::uint::be_value;
use crate::uint::encode_coap_uint;
use crate::uint::law_uint_no_leading_zero;
use crate::uint::law_uint_round_trip;
use crate::uint::uint_bytes;
use std::time::Duration;
use vstd::arithmetic::div_mod::lemma_fundamental_div_mod;
use vstd::arithmetic::power2::lemma2_to64;
use vstd::arithmetic::power2::lemma_pow2_unfold;
use vstd::prelude::*;

verus! {

/// The numbers of options, codes and formats are the registered ones.
pub proof fn law_numbers_are_the_registered_ones()
    ensures
        ETAG == 4,
        OBSERVE == 6,
        URI_PATH == 11,
        CONTENT_FORMAT == 12,
        Q_BLOCK1 == 19,
        BLOCK2 == 23,
        BLOCK1 == 27,
        SIZE2 == 28,
        Q_BLOCK2 == 31,
        SIZE1 == 60,
        REQUEST_TAG == 292,
        MISSING_BLOCKS_CBOR_SEQ == 272,
        TEXT_PLAIN == 0,
        CONTENT == 0x45,
        CONTINUE == 0x5F,
        BAD_REQUEST == 0x80,
        REQUEST_ENTITY_INCOMPLETE == 0x88,
        REQUEST_ENTITY_TOO_LARGE == 0x8D,
        INTERNAL_SERVER_ERROR == 0xA0,
        RBLOCK_CNT == 10,
{
}

/// The length of a request body is announced in Size1, and that of any other body in Size2.
pub proof fn law_length_has_its_option(option: u16, number: u16)
    requires
        call_ensures(size_option, (option,), number),
    ensures
        option == 19 ==> number == 60,
        option != 19 ==> number == 28,
{
}

/// A number is spelled in base 256, highest byte first, without leading zeros; zero is spelled by
/// nothing.
pub proof fn law_numbers_are_spelled_in_bytes(value: usize, bytes: Vec<u8>)
    requires
        call_ensures(encode_coap_uint, (value,), bytes),
    ensures
        value == 0 ==> bytes@.len() == 0,
        value > 0 ==> bytes@.len() > 0 && bytes@[0] != 0 && bytes@.last() as nat == value as nat
            % 256,
        value > 0 && value < 256 ==> bytes@.len() == 1,
        be_value(bytes@) == value,
{
    law_uint_round_trip(value as nat);
    if value > 0 {
        law_uint_no_leading_zero(value as nat);
        if value < 256 {
            assert(uint_bytes(value as nat / 256) =~= Seq::<u8>::empty());
        }
    }
}

/// The value of bytes counts the first by how many follow it.
pub proof fn law_bytes_count_by_their_place(bytes: Seq<u8>, more: Seq<u8>)
    ensures
        be_value(seq![]) == 0,
        forall|b: u8| be_value(#[trigger] seq![b]) == b,
        more.len() == 1 ==> be_value(bytes + more) == 256 * be_value(bytes) + be_value(more),
        more.len() == 2 ==> be_value(bytes + more) == 65536 * be_value(bytes) + be_value(more),
{
    reveal_with_fuel(be_value, 3);
    assert forall|b: u8| be_value(#[trigger] seq![b]) == b by {
        assert(seq![b].drop_last() =~= Seq::<u8>::empty());
    }
    if more.len() == 1 {
        let all = bytes + more;
        assert(all.drop_last() =~= bytes);
        assert(more.drop_last() =~= Seq::<u8>::empty());
    }
    if more.len() == 2 {
        let all = bytes + more;
        let front = all.drop_last();
        assert(front.drop_last() =~= bytes);
        assert(front.last() == more[0]);
        assert(more.drop_last().drop_last() =~= Seq::<u8>::empty());
        assert(more.drop_last().last() == more[0]);
    }
}

/// A block is 16 bytes long for the size exponent zero, and each exponent more doubles it.
pub proof fn law_block_sizes_double(szx: u8, size: usize, doubled: usize, least: usize)
    requires
        szx + 5 < usize::BITS,
        call_ensures(block_size, (0,), least),
        call_ensures(block_size, (szx,), size),
        call_ensures(block_size, ((szx + 1) as u8,), doubled),
    ensures
        least == 16,
        doubled == 2 * size,
        block_len(szx) == size,
{
    lemma2_to64();
    lemma_pow2_unfold((szx + 5) as nat);
}

/// A body spans the fewest blocks that hold it, and an empty one spans one.
pub proof fn law_fewest_blocks_hold_a_body(len: usize, size: usize, count: usize)
    requires
        size > 0,
        call_ensures(count_blocks, (len, size), count),
    ensures
        count >= 1,
        len <= count * size,
        count > 1 ==> (count - 1) * size < len,
{
    lemma_block_count(len as nat, size as nat);
    lemma_block_bounds(len as nat, size as nat, (count - 1) as nat);
    let c = count as int;
    let s = size as int;
    assert((c - 1) * s + s == c * s) by (nonlinear_arith);
}

/// The blocks of a body are its bytes, one block after the other: each byte is in just one block,
/// at its place.
pub proof fn law_blocks_are_the_body(body: Seq<u8>, szx: u8, i: int)
    requires
        szx < 8,
        0 <= i < body.len(),
    ensures
        ({
            let size = block_len(szx);
            let n = (i / (size as int)) as nat;
            let at = i % (size as int);
            &&& n < block_count(body.len(), size)
            &&& at < block_of(body, size, n).len()
            &&& block_of(body, size, n)[at] == body[i]
            &&& block_of(body, size, n).len() <= size
        }),
{
    let size = block_len(szx);
    lemma_small_sizes(szx);
    lemma_block_of_byte(body.len(), size, i as nat);
    lemma_fundamental_div_mod(i, size as int);
    let q = i / (size as int);
    assert(size * q == q * size) by (nonlinear_arith);
}

/// Reading a list of block numbers gives back what was written, and nothing shorter spells it: a
/// number below 24 takes one byte, below 2^8 two, below 2^16 three, and else five.
pub proof fn law_lists_of_blocks_read_back(
    blocks: &[u32],
    bytes: Vec<u8>,
    written: &[u8],
    read: Result<Vec<u32>, InvalidMissingBlocks>,
)
    requires
        call_ensures(encode, (blocks,), bytes),
        written@ == bytes@,
        call_ensures(decode, (written,), read),
    ensures
        read is Ok,
        read->Ok_0@ == blocks@,
        blocks@.len() == 1 ==> bytes@.len() == (if blocks@[0] < 24 {
            1nat
        } else if blocks@[0] < 0x100 {
            2
        } else if blocks@[0] < 0x1_0000 {
            3
        } else {
            5
        }),
        blocks@.len() == 1 ==> bytes@[0] == (if blocks@[0] < 24 {
            blocks@[0] as u8
        } else if blocks@[0] < 0x100 {
            24
        } else if blocks@[0] < 0x1_0000 {
            25
        } else {
            26
        }),
{
    law_missing_blocks_round_trip(blocks@);
    if blocks@.len() == 1 {
        reveal_with_fuel(cbor_sequence, 2);
        assert(blocks@.skip(1) =~= Seq::<u32>::empty());
        assert(bytes@ =~= cbor_uint(blocks@[0]));
    }
}

/// Lists that follow each other are one list, written and read: what two stretches of whole items
/// spell is what both spell, and the numbers of two lists are spelled one after the other.
pub proof fn law_lists_join(one: Seq<u32>, other: Seq<u32>)
    ensures
        cbor_sequence(one + other) == cbor_sequence(one) + cbor_sequence(other),
    decreases one.len(),
{
    if one.len() == 0 {
        assert(one + other =~= other);
        assert(cbor_sequence(one) + cbor_sequence(other) =~= cbor_sequence(other));
    } else {
        assert((one + other).skip(1) =~= one.skip(1) + other);
        law_lists_join(one.skip(1), other);
        assert(cbor_sequence(one + other) =~= cbor_sequence(one) + cbor_sequence(other));
    }
}

/// One item at the front of a list of block numbers: below 24 it is its own number; 24, 25, 26 and
/// 27 say that the number stands in the next one, two, four or eight bytes. A list that starts with
/// anything else, breaks off, or names a number of more than 32 bits is refused.
pub proof fn law_lists_are_read_item_by_item(
    bytes: &[u8],
    read: Result<Vec<u32>, InvalidMissingBlocks>,
    rest: &[u8],
    later: Result<Vec<u32>, InvalidMissingBlocks>,
    tail: nat,
)
    requires
        bytes@.len() > 0,
        call_ensures(decode, (bytes,), read),
        call_ensures(decode, (rest,), later),
        tail == (if bytes@[0] < 24 {
            0nat
        } else if bytes@[0] == 24 {
            1
        } else if bytes@[0] == 25 {
            2
        } else if bytes@[0] == 26 {
            4
        } else {
            8
        }),
        bytes@.len() > tail ==> rest@ == bytes@.skip(1 + tail as int),
    ensures
        ({
            let number = if tail == 0 {
                bytes@[0] as nat
            } else {
                be_value(bytes@.subrange(1, 1 + tail as int))
            };
            &&& bytes@[0] > 27 || bytes@.len() <= tail ==> read is Err
            &&& bytes@[0] <= 27 && bytes@.len() > tail && (number > u32::MAX || later is Err)
                ==> read is Err
            &&& bytes@[0] <= 27 && bytes@.len() > tail && number <= u32::MAX && later is Ok
                ==> read is Ok && read->Ok_0@ == seq![number as u32] + later->Ok_0@
        }),
{
}

/// Nothing spells an empty list.
pub proof fn law_no_bytes_are_an_empty_list(
    bytes: &[u8],
    read: Result<Vec<u32>, InvalidMissingBlocks>,
)
    requires
        bytes@.len() == 0,
        call_ensures(decode, (bytes,), read),
    ensures
        read is Ok,
        read->Ok_0@.len() == 0,
{
}

/// A table gives back what was put in under a key, last, and loses it when it is taken out. Other
/// keys keep what they have.
pub proof fn law_tables_keep_their_entries<V>(
    table: &mut Table<V>,
    key: Vec<u8>,
    value: V,
    emptied: &mut Table<V>,
    taken: Option<V>,
    looked_up: &[u8],
    found: Option<&V>,
    found_then: Option<&V>,
    found_before: Option<&V>,
    fresh: Table<V>,
    len: usize,
)
    requires
        call_ensures(Table::<V>::new, (), fresh),
        call_ensures(Table::<V>::len, (&fresh,), len),
        old(table).wf(),
        old(emptied).wf(),
        old(emptied)@ == old(table)@,
        call_ensures(Table::<V>::insert, (table, key, value), ()),
        exists|k: &[u8]| k@ == key@ && call_ensures(Table::<V>::remove, (emptied, k), taken),
        call_ensures(Table::<V>::get, (&*old(table), looked_up), found_before),
        call_ensures(Table::<V>::get, (&*final(table), looked_up), found),
        call_ensures(Table::<V>::get, (&*final(emptied), looked_up), found_then),
    ensures
        fresh.wf(),
        len == 0,
        forall|k: Seq<u8>| !fresh@.dom().contains(k),
        looked_up@ == key@ ==> found is Some && *found->0 == value && found_then is None
            && taken is Some == found_before is Some,
        looked_up@ == key@ && taken is Some ==> taken->0 == *found_before->0,
        looked_up@ != key@ ==> found is Some == found_before is Some && found_then is Some
            == found_before is Some,
        looked_up@ != key@ && found_before is Some ==> *found->0 == *found_before->0
            && *found_then->0 == *found_before->0,
{
}

/// Byte strings are equal if and only if they have the same bytes, and a copy of one is equal to
/// it.
pub proof fn law_copies_are_equal(a: &[u8], b: &[u8], equal: bool, copy: Vec<u8>)
    requires
        call_ensures(bytes_equal, (a, b), equal),
        call_ensures(copy_bytes, (a,), copy),
    ensures
        equal <==> a@.len() == b@.len() && forall|i: int| 0 <= i < a@.len() ==> a@[i] == b@[i],
        copy@.len() == a@.len(),
        forall|i: int| 0 <= i < a@.len() ==> copy@[i] == a@[i],
{
    if a@.len() == b@.len() && forall|i: int| 0 <= i < a@.len() ==> a@[i] == b@[i] {
        assert(a@ =~= b@);
    }
}

/// What cannot be named is bad input; every other error of a transfer is bad data.
pub proof fn law_errors_have_their_kind(error: &QBlockError, kind: QBlockErrorKind)
    requires
        call_ensures(QBlockError::kind, (error,), kind),
    ensures
        kind == QBlockErrorKind::InvalidInput <==> error is Block,
        kind == QBlockErrorKind::InvalidData <==> error is Encode || error is SizeChanged
            || error is BodyTooLong,
{
}

/// The addresses of groups are those whose first four bits are 1110, for IPv4, and whose first
/// eight bits are ones, for IPv6.
pub proof fn law_groups_have_their_prefix(address: &IpAddress, multicast: bool)
    requires
        call_ensures(IpAddress::is_multicast, (address,), multicast),
    ensures
        *address matches IpAddress::V4(ip) ==> (multicast <==> ip / 0x1000_0000 == 0xE),
        *address matches IpAddress::V6(ip) ==> (multicast <==> ip
            / 0x1_0000_0000_0000_0000_0000_0000_0000_00 == 0xFF),
{
}

/// A socket joins and leaves groups of its own family only: an IPv4 group on the interface of its
/// own address, and an IPv6 group on any.
pub proof fn law_sockets_join_groups_of_their_family(
    local: Endpoint,
    group: IpAddress,
    change: Option<GroupChange>,
)
    requires
        call_ensures(group_change, (local, group), change),
    ensures
        change is Some <==> (local is V4) == (group is V4),
        match (local, group) {
            (Endpoint::V4 { ip, .. }, IpAddress::V4(address)) => change == Some(
                GroupChange::V4 { group: address, interface: ip },
            ),
            (Endpoint::V6 { .. }, IpAddress::V6(address)) => change == Some(
                GroupChange::V6 { group: address },
            ),
            _ => true,
        },
{
}

/// The group of all CoAP nodes is 224.0.1.187 for an IPv4 socket, and for an IPv6 socket the group
/// ff00::fd with the scope in its place. It is a group that the socket can join.
pub proof fn law_all_nodes_have_a_group(
    local: Endpoint,
    segment: u8,
    group: IpAddress,
    multicast: bool,
    change: Option<GroupChange>,
)
    requires
        segment <= 0xf,
        call_ensures(all_coap_group, (local, segment), group),
        call_ensures(IpAddress::is_multicast, (&group,), multicast),
        call_ensures(group_change, (local, group), change),
    ensures
        multicast,
        change is Some,
        local is V4 ==> group == IpAddress::V4((224 * 0x100_0000 + 256 + 187) as u32),
        local is V6 ==> group is V6 && group->V6_0 % 0x1_0000_0000_0000_0000_0000_0000_0000 == 0xFD
            && group->V6_0 / 0x1_0000_0000_0000_0000_0000_0000_0000 == 0xFF00 + segment,
{
}

/// The list of groups grows by the one that is joined, and loses the first entry of the one that is
/// left; the others stay in their order. Leaving a group that was not joined changes nothing.
pub proof fn law_groups_are_listed_while_joined(
    joining: &mut MulticastGroups,
    leaving: &mut MulticastGroups,
    address: IpAddress,
    known: bool,
    at: int,
    fresh: MulticastGroups,
)
    requires
        call_ensures(MulticastGroups::new, (), fresh),
        call_ensures(MulticastGroups::joined, (joining, address), ()),
        call_ensures(MulticastGroups::left, (leaving, address), known),
        old(leaving)@.contains(address) ==> 0 <= at < old(leaving)@.len() && old(leaving)@[at]
            == address && forall|i: int| 0 <= i < at ==> old(leaving)@[i] != address,
    ensures
        fresh@.len() == 0,
        final(joining)@.len() == old(joining)@.len() + 1,
        final(joining)@.last() == address,
        forall|i: int| 0 <= i < old(joining)@.len() ==> final(joining)@[i] == old(joining)@[i],
        known <==> old(leaving)@.contains(address),
        !known ==> final(leaving)@ == old(leaving)@,
        known ==> final(leaving)@.len() + 1 == old(leaving)@.len(),
        known ==> forall|i: int| 0 <= i < at ==> final(leaving)@[i] == old(leaving)@[i],
        known ==> forall|i: int|
            at <= i < final(leaving)@.len() ==> final(leaving)@[i] == old(leaving)@[i + 1],
{
    if old(leaving)@.contains(address) {
        lemma_first_index(old(leaving)@, address, at);
    }
}

/// An endpoint is spelled out by its family and all its numbers.
pub proof fn law_endpoints_are_spelled_out(endpoint: &Endpoint, key: EndpointKey)
    requires
        call_ensures(Endpoint::key, (endpoint,), key),
    ensures
        match *endpoint {
            Endpoint::V4 { ip, port } => key.0 == 4 && key.1 == ip && key.2 == port,
            Endpoint::V6 { ip, port, flowinfo, scope_id } => key.0 == 6 && key.1 == ip && key.2
                == port && key.3 == flowinfo && key.4 == scope_id,
        },
{
}

/// A copy of what a poll said says the same.
pub proof fn law_copied_outcomes_say_the_same(outcome: &RecoveryOutcome, copy: RecoveryOutcome)
    requires
        call_ensures(<RecoveryOutcome as Clone>::clone, (outcome,), copy),
    ensures
        outcome is Wait == copy is Wait,
        outcome is Resend == copy is Resend,
        outcome is Expired == copy is Expired,
        outcome is Wait ==> outcome->Wait_0 == copy->Wait_0,
        outcome is Resend ==> packet_contents(outcome->Resend_0) == packet_contents(copy->Resend_0),
{
}

/// A span of so many nanoseconds lasts so many nanoseconds.
pub proof fn law_spans_last_their_nanoseconds(n: u128, span: Duration)
    requires
        n <= u64::MAX * 1_000_000_000 + 999_999_999,
        call_ensures(from_nanos, (n,), span),
    ensures
        nanos(span) == n,
        call_requires(from_nanos, (n,)),
{
}

/// The settings by default: bursts of ten blocks, two seconds between them, four seconds before the
/// first request for missing blocks, and four such requests.
pub proof fn law_settings_by_default(config: QBlockConfig)
    requires
        call_ensures(<QBlockConfig as Default>::default, (), config),
    ensures
        config.max_payloads == 10,
        nanos(config.non_timeout) == 2 * 1_000_000_000,
        nanos(config.non_receive_timeout) == 4 * 1_000_000_000,
        config.non_max_retransmit == 4,
        nanos(config.non_partial_timeout) == 247 * 1_000_000_000,
        config.probing_rate == 1,
        config.nstart == 1,
        nanos(config.non_probing_wait) == 247 * 1_000_000_000,
{
}

} // verus!
