//! Probe packets: an IPv4 header, a sequence number behind it, and the flow in the last byte.

use crate::ipv4::{
    checksum, checksum_holds, header_checksum, word, word_sum, set_checksum, set_destination,
    set_header_length, set_next_level_protocol, set_source, set_total_length, set_ttl, set_version,
};
use vstd::arithmetic::power::{lemma_pow0, lemma_pow1, lemma_pow_adds, pow};
use vstd::prelude::*;

verus! {

/// The largest packet that the link carries.
pub const MTU: usize = 1500;

/// The bytes of an IPv4 header without options.
pub const IP_HEADER_LEN: usize = 20;

/// The sequence number and the flow.
pub const MIN_PAYLOAD_LEN: usize = 9;

/// What the tunnel adds to each packet.
pub const VPN_HEADER_LEN: usize = 80;

/// Where the source address stands in a packet.
pub const IP_SRC_ADDR_OFFSET: usize = 12;

/// Where the destination address stands in a packet.
pub const IP_DST_ADDR_OFFSET: usize = 16;

/// The version in the header's first field.
pub const IP_VERSION: u8 = 4;

/// The number of UDP among the protocols that IPv4 carries.
pub const UDP_PROTOCOL: u8 = 17;

/// The address whose packets the receiver counts.
pub const IP_ADDR_LISTEN_TO: [u8; 4] = [10, 7, 0, 4];

/// `n` zero bytes.
pub open spec fn zeros(n: int) -> Seq<u8> {
    Seq::new(n as nat, |i: int| 0u8)
}

/// The header of a UDP probe of `total` bytes, with `check` in its checksum word.
pub open spec fn header(src: Seq<u8>, dst: Seq<u8>, total: int, check: int) -> Seq<u8> {
    seq![
        0x45u8,
        0u8,
        (total / 256) as u8,
        (total % 256) as u8,
        0u8,
        0u8,
        0u8,
        0u8,
        64u8,
        17u8,
        (check / 256) as u8,
        (check % 256) as u8,
        src[0],
        src[1],
        src[2],
        src[3],
        dst[0],
        dst[1],
        dst[2],
        dst[3],
    ]
}

/// The header of a probe with the checksum that belongs to it.
pub open spec fn summed_header(src: Seq<u8>, dst: Seq<u8>, total: int) -> Seq<u8> {
    header(src, dst, total, header_checksum(header(src, dst, total, 0)))
}

/// A probe of `total` bytes before its sequence number is written: the header, then zeros, with
/// the flow in the last byte.
pub open spec fn blank_packet(src: Seq<u8>, dst: Seq<u8>, flow: u8, total: int) -> Seq<u8> {
    (summed_header(src, dst, total) + zeros(total - 20)).update(total - 1, flow)
}

/// Builds a probe of `pkt_len` bytes: header fields, header checksum, and the flow in the last
/// byte. Everything else is zero.
pub fn get_ipv4_packet(ip_src: [u8; 4], ip_dst: [u8; 4], flow: u8, pkt_len: usize) -> (packet: Vec<
    u8,
>)
    requires
        IP_HEADER_LEN <= pkt_len <= MTU,
    ensures
        packet@ == blank_packet(ip_src@, ip_dst@, flow, pkt_len as int),
        packet@.len() == pkt_len,
        packet@[2] * 256 + packet@[3] == pkt_len,
        packet@[pkt_len - 1] == flow,
{
    let mut ip_buff: Vec<u8> = vec![0u8; pkt_len];
    assert(ip_buff@ =~= zeros(pkt_len as int));
    set_version(&mut ip_buff, IP_VERSION);
    set_header_length(&mut ip_buff, (IP_HEADER_LEN / 4) as u8);
    set_total_length(&mut ip_buff, pkt_len as u16);
    set_ttl(&mut ip_buff, 64);
    set_next_level_protocol(&mut ip_buff, UDP_PROTOCOL);
    set_source(&mut ip_buff, ip_src);
    set_destination(&mut ip_buff, ip_dst);
    let ghost bare = header(ip_src@, ip_dst@, pkt_len as int, 0);
    assert(ip_buff@ =~= bare + zeros(pkt_len - 20));
    assert(word_sum(ip_buff@) == word_sum(bare));
    let sum: u16 = checksum(&ip_buff);
    set_checksum(&mut ip_buff, sum);
    assert(ip_buff@ =~= summed_header(ip_src@, ip_dst@, pkt_len as int) + zeros(pkt_len - 20));
    ip_buff.set(pkt_len - 1, flow);
    ip_buff
}

/// The low `len` bytes of `n`, most significant byte first.
pub open spec fn be_bytes(n: nat, len: nat) -> Seq<u8>
    decreases len,
{
    if len == 0 {
        Seq::empty()
    } else {
        be_bytes(n / 256, (len - 1) as nat).push((n % 256) as u8)
    }
}

/// The number that the bytes of `s` spell, most significant byte first.
pub open spec fn be_value(s: Seq<u8>) -> nat
    decreases s.len(),
{
    if s.len() == 0 {
        0
    } else {
        be_value(s.drop_last()) * 256 + s.last() as nat
    }
}

/// `packet` with its sequence number set to `seq`: eight bytes behind the header.
pub open spec fn with_sequence(packet: Seq<u8>, seq: nat) -> Seq<u8> {
    packet.take(20) + be_bytes(seq, 8) + packet.skip(28)
}

/// The sequence number that `packet` carries.
pub open spec fn carried_sequence(packet: Seq<u8>) -> nat {
    be_value(packet.subrange(20, 28))
}

/// What a sequence number of 64 bits becomes in a machine word.
pub open spec fn in_machine_word(n: nat) -> nat {
    n % (usize::MAX as nat + 1)
}

/// The number that the eight bytes of `b` from `i` on spell, the first of them counting most.
pub open spec fn number_at(b: Seq<u8>, i: int) -> int {
    b[i] * 0x100_0000_0000_0000 + b[i + 1] * 0x1_0000_0000_0000 + b[i + 2] * 0x100_0000_0000 + b[i
        + 3] * 0x1_0000_0000 + b[i + 4] * 0x100_0000 + b[i + 5] * 0x1_0000 + b[i + 6] * 0x100 + b[i
        + 7]
}

/// The probe number `seq` of a flow, as it goes out.
pub open spec fn probe(src: Seq<u8>, dst: Seq<u8>, flow: u8, total: int, seq: nat) -> Seq<u8> {
    with_sequence(blank_packet(src, dst, flow, total), seq)
}

/// The packet's source is the address that is listened to.
pub open spec fn comes_from_peer(packet: Seq<u8>) -> bool {
    packet.subrange(12, 16) == IP_ADDR_LISTEN_TO@
}

/// The packet's destination is the address that is listened to.
pub open spec fn goes_to_peer(packet: Seq<u8>) -> bool {
    packet.subrange(16, 20) == IP_ADDR_LISTEN_TO@
}

/// Writes `seq` into the eight bytes behind the header and leaves the rest as it is.
pub fn encode_sequence_num(arr: &mut Vec<u8>, seq: usize)
    requires
        old(arr)@.len() >= IP_HEADER_LEN + 8,
    ensures
        final(arr)@ == with_sequence(old(arr)@, seq as nat),
        final(arr)@.len() == old(arr)@.len(),
        number_at(final(arr)@, 20) == seq,
        forall|i: int|
            0 <= i < 20 || 28 <= i < old(arr)@.len() ==> final(arr)@[i] == #[trigger] old(arr)@[i],
{
    let n: u64 = seq as u64;
    arr.set(IP_HEADER_LEN, ((n >> 56) & 0xFF) as u8);
    arr.set(IP_HEADER_LEN + 1, ((n >> 48) & 0xFF) as u8);
    arr.set(IP_HEADER_LEN + 2, ((n >> 40) & 0xFF) as u8);
    arr.set(IP_HEADER_LEN + 3, ((n >> 32) & 0xFF) as u8);
    arr.set(IP_HEADER_LEN + 4, ((n >> 24) & 0xFF) as u8);
    arr.set(IP_HEADER_LEN + 5, ((n >> 16) & 0xFF) as u8);
    arr.set(IP_HEADER_LEN + 6, ((n >> 8) & 0xFF) as u8);
    arr.set(IP_HEADER_LEN + 7, (n & 0xFF) as u8);
    proof {
        lemma_shifted_bytes(n);
        reveal_with_fuel(be_bytes, 9);
        assert(arr@ =~= with_sequence(old(arr)@, seq as nat));
        sequence_is_big_endian(old(arr)@, seq);
    }
}

/// The sequence number in the eight bytes behind the header, cut down to a machine word where
/// that is narrower.
pub fn decode_sequence_num(arr: &[u8]) -> (seq: usize)
    requires
        arr@.len() >= IP_HEADER_LEN + 8,
    ensures
        seq == in_machine_word(carried_sequence(arr@)),
        seq == number_at(arr@, 20) % (usize::MAX + 1),
{
    let b0: u8 = arr[IP_HEADER_LEN];
    let b1: u8 = arr[IP_HEADER_LEN + 1];
    let b2: u8 = arr[IP_HEADER_LEN + 2];
    let b3: u8 = arr[IP_HEADER_LEN + 3];
    let b4: u8 = arr[IP_HEADER_LEN + 4];
    let b5: u8 = arr[IP_HEADER_LEN + 5];
    let b6: u8 = arr[IP_HEADER_LEN + 6];
    let b7: u8 = arr[IP_HEADER_LEN + 7];
    let seq: u64 = (b0 as u64) << 56 | (b1 as u64) << 48 | (b2 as u64) << 40 | (b3 as u64) << 32 | (
    b4 as u64) << 24 | (b5 as u64) << 16 | (b6 as u64) << 8 | b7 as u64;
    proof {
        assert(seq == b0 * 0x100_0000_0000_0000 + b1 * 0x1_0000_0000_0000 + b2 * 0x100_0000_0000
            + b3 * 0x1_0000_0000 + b4 * 0x100_0000 + b5 * 0x1_0000 + b6 * 0x100 + b7)
            by (bit_vector)
            requires
                seq == (b0 as u64) << 56 | (b1 as u64) << 48 | (b2 as u64) << 40 | (b3 as u64)
                    << 32 | (b4 as u64) << 24 | (b5 as u64) << 16 | (b6 as u64) << 8 | b7 as u64,
        ;
        assert(seq as nat == carried_sequence(arr@)) by {
            reveal_with_fuel(be_value, 9);
        }
        lemma_cast_is_machine_word(seq);
        lemma_carried_is_big_endian(arr@);
    }
    seq as usize
}

/// The packet comes from (or, with `is_dest`, goes to) the address that is listened to.
pub fn is_ip_addr_matching(buff: &[u8], is_dest: bool) -> (matching: bool)
    requires
        buff@.len() >= (if is_dest {
            IP_DST_ADDR_OFFSET
        } else {
            IP_SRC_ADDR_OFFSET
        }) + 4,
    ensures
        matching == (if is_dest {
            goes_to_peer(buff@)
        } else {
            comes_from_peer(buff@)
        }),
        !is_dest ==> (matching <==> buff@[12] == 10 && buff@[13] == 7 && buff@[14] == 0 && buff@[15]
            == 4),
        is_dest ==> (matching <==> buff@[16] == 10 && buff@[17] == 7 && buff@[18] == 0 && buff@[19]
            == 4),
{
    let offset: usize = if is_dest {
        IP_DST_ADDR_OFFSET
    } else {
        IP_SRC_ADDR_OFFSET
    };
    let expected: [u8; 4] = IP_ADDR_LISTEN_TO;
    let matching = buff[offset] == expected[0] && buff[offset + 1] == expected[1] && buff[offset
        + 2] == expected[2] && buff[offset + 3] == expected[3];
    proof {
        let field = buff@.subrange(offset as int, offset + 4);
        if matching {
            assert(field =~= expected@);
        } else {
            assert(field[0] == buff@[offset as int]);
            assert(field[1] == buff@[offset + 1]);
            assert(field[2] == buff@[offset + 2]);
            assert(field[3] == buff@[offset + 3]);
        }
    }
    matching
}

proof fn lemma_shifted_bytes(n: u64)
    ensures
        ((n >> 56) & 0xFF) as u8 == n / 256 / 256 / 256 / 256 / 256 / 256 / 256 % 256,
        ((n >> 48) & 0xFF) as u8 == n / 256 / 256 / 256 / 256 / 256 / 256 % 256,
        ((n >> 40) & 0xFF) as u8 == n / 256 / 256 / 256 / 256 / 256 % 256,
        ((n >> 32) & 0xFF) as u8 == n / 256 / 256 / 256 / 256 % 256,
        ((n >> 24) & 0xFF) as u8 == n / 256 / 256 / 256 % 256,
        ((n >> 16) & 0xFF) as u8 == n / 256 / 256 % 256,
        ((n >> 8) & 0xFF) as u8 == n / 256 % 256,
        (n & 0xFF) as u8 == n % 256,
{
    assert(((n >> 56) & 0xFF) as u8 == n / 0x100_0000_0000_0000u64 % 256) by (bit_vector);
    assert(((n >> 48) & 0xFF) as u8 == n / 0x1_0000_0000_0000u64 % 256) by (bit_vector);
    assert(((n >> 40) & 0xFF) as u8 == n / 0x100_0000_0000u64 % 256) by (bit_vector);
    assert(((n >> 32) & 0xFF) as u8 == n / 0x1_0000_0000u64 % 256) by (bit_vector);
    assert(((n >> 24) & 0xFF) as u8 == n / 0x100_0000u64 % 256) by (bit_vector);
    assert(((n >> 16) & 0xFF) as u8 == n / 0x1_0000u64 % 256) by (bit_vector);
    assert(((n >> 8) & 0xFF) as u8 == n / 0x100u64 % 256) by (bit_vector);
    assert((n & 0xFF) as u8 == n % 256) by (bit_vector);
}

proof fn lemma_cast_is_machine_word(n: u64)
    ensures
        n as usize == in_machine_word(n as nat),
{
    assert(usize::BITS == 32 ==> n as usize == n % 0x1_0000_0000) by (bit_vector);
    assert(usize::BITS == 64 ==> n as usize == n) by (bit_vector);
    vstd::layout::unsigned_int_max_values();
    vstd::arithmetic::power2::lemma2_to64();
    assert(usize::BITS == 32 || usize::BITS == 64);
    if n <= usize::MAX {
        vstd::arithmetic::div_mod::lemma_small_mod(n as nat, usize::MAX as nat + 1);
    }
}

proof fn lemma_be_bytes_read_back(n: nat, len: nat)
    requires
        n < pow(256, len),
    ensures
        be_bytes(n, len).len() == len,
        be_value(be_bytes(n, len)) == n,
    decreases len,
{
    if len == 0 {
        lemma_pow0(256);
    } else {
        lemma_pow_adds(256, 1, (len - 1) as nat);
        lemma_pow1(256);
        lemma_be_bytes_read_back(n / 256, (len - 1) as nat);
        assert(be_bytes(n, len).drop_last() =~= be_bytes(n / 256, (len - 1) as nat));
    }
}

proof fn lemma_be_value_written_back(s: Seq<u8>)
    ensures
        be_bytes(be_value(s), s.len()) == s,
    decreases s.len(),
{
    if s.len() == 0 {
        assert(be_bytes(be_value(s), 0) =~= s);
    } else {
        lemma_be_value_written_back(s.drop_last());
        assert(be_value(s) / 256 == be_value(s.drop_last()));
        assert(be_value(s) % 256 == s.last());
        assert(be_bytes(be_value(s), s.len()) =~= s);
    }
}

proof fn lemma_sequence_fits(seq: usize)
    ensures
        (seq as nat) < pow(256, 8),
        in_machine_word(seq as nat) == seq,
{
    assert(pow(256, 8) == 0x1_0000_0000_0000_0000) by {
        reveal_with_fuel(pow, 9);
    }
    vstd::arithmetic::div_mod::lemma_small_mod(seq as nat, usize::MAX as nat + 1);
}

/// Writing a sequence number into a packet and reading it gives the number back, and no byte
/// outside its eight has changed.
pub proof fn sequence_reads_back(packet: Seq<u8>, seq: usize)
    requires
        packet.len() >= 28,
    ensures
        in_machine_word(carried_sequence(with_sequence(packet, seq as nat))) == seq,
        with_sequence(packet, seq as nat).len() == packet.len(),
        forall|i: int|
            0 <= i < 20 || 28 <= i < packet.len() ==> with_sequence(packet, seq as nat)[i]
                == #[trigger] packet[i],
{
    lemma_sequence_fits(seq);
    lemma_be_bytes_read_back(seq as nat, 8);
    assert(with_sequence(packet, seq as nat).subrange(20, 28) =~= be_bytes(seq as nat, 8));
}

/// Writing back the sequence number that a packet carries changes nothing.
pub proof fn sequence_writes_back(packet: Seq<u8>)
    requires
        packet.len() >= 28,
    ensures
        with_sequence(packet, carried_sequence(packet)) == packet,
{
    lemma_be_value_written_back(packet.subrange(20, 28));
    assert(with_sequence(packet, carried_sequence(packet)) =~= packet);
}

/// Of two sequence numbers written into a packet the later one stays.
pub proof fn last_sequence_stays(packet: Seq<u8>, first: usize, second: usize)
    requires
        packet.len() >= 28,
    ensures
        with_sequence(with_sequence(packet, first as nat), second as nat) == with_sequence(
            packet,
            second as nat,
        ),
{
    lemma_sequence_fits(first);
    lemma_be_bytes_read_back(first as nat, 8);
    assert(with_sequence(with_sequence(packet, first as nat), second as nat) =~= with_sequence(
        packet,
        second as nat,
    ));
}

/// A probe that has room for its payload carries its sequence number, its flow and its two
/// addresses side by side: none of them overwrites another.
pub proof fn probe_carries_all(src: [u8; 4], dst: [u8; 4], flow: u8, total: int, seq: usize)
    requires
        IP_HEADER_LEN + MIN_PAYLOAD_LEN <= total <= MTU,
    ensures
        probe(src@, dst@, flow, total, seq as nat).len() == total,
        in_machine_word(carried_sequence(probe(src@, dst@, flow, total, seq as nat))) == seq,
        probe(src@, dst@, flow, total, seq as nat).last() == flow,
        probe(src@, dst@, flow, total, seq as nat).subrange(12, 16) == src@,
        probe(src@, dst@, flow, total, seq as nat).subrange(16, 20) == dst@,
        comes_from_peer(probe(src@, dst@, flow, total, seq as nat)) == (src@
            == IP_ADDR_LISTEN_TO@),
        goes_to_peer(probe(src@, dst@, flow, total, seq as nat)) == (dst@ == IP_ADDR_LISTEN_TO@),
{
    let blank = blank_packet(src@, dst@, flow, total);
    let p = probe(src@, dst@, flow, total, seq as nat);
    sequence_reads_back(blank, seq);
    assert(p.last() == blank.last());
    assert(p.subrange(12, 16) =~= src@);
    assert(p.subrange(16, 20) =~= dst@);
}

/// The header of a probe passes the check that IPv4 makes of it as soon as the flow, in the last
/// byte, stands behind the header.
pub proof fn blank_packet_checksum_holds(src: [u8; 4], dst: [u8; 4], flow: u8, total: int)
    requires
        IP_HEADER_LEN < total <= MTU,
    ensures
        checksum_holds(blank_packet(src@, dst@, flow, total)),
{
    let bare = header(src@, dst@, total, 0);
    let p = blank_packet(src@, dst@, flow, total);
    let sum = word_sum(bare);
    let check = header_checksum(bare);
    assert(0 <= check <= 65535);
    assert(word_sum(p) == sum);
    assert(word(p, 5) == check);
    if sum != 0 {
        assert(sum + check == 65535 * (1 + (sum - 1) / 65535));
    }
}

/// Writing a sequence number leaves the check that IPv4 makes of the header as it was, so the
/// header of every probe passes it.
pub proof fn probe_checksum_holds(src: [u8; 4], dst: [u8; 4], flow: u8, total: int, seq: usize)
    requires
        IP_HEADER_LEN + 8 <= total <= MTU,
    ensures
        checksum_holds(probe(src@, dst@, flow, total, seq as nat)),
{
    let blank = blank_packet(src@, dst@, flow, total);
    let p = probe(src@, dst@, flow, total, seq as nat);
    blank_packet_checksum_holds(src, dst, flow, total);
    sequence_reads_back(blank, seq);
    assert forall|i: int| 0 <= i < 10 implies #[trigger] word(p, i) == word(blank, i) by {
        assert(p[2 * i] == blank[2 * i]);
        assert(p[2 * i + 1] == blank[2 * i + 1]);
    }
}

proof fn lemma_carried_is_big_endian(packet: Seq<u8>)
    requires
        packet.len() >= 28,
    ensures
        carried_sequence(packet) == number_at(packet, 20),
{
    let b = packet.subrange(20, 28);
    reveal_with_fuel(be_value, 9);
    assert(b[0] == packet[20] && b[1] == packet[21] && b[2] == packet[22] && b[3] == packet[23]);
    assert(b[4] == packet[24] && b[5] == packet[25] && b[6] == packet[26] && b[7] == packet[27]);
}

/// The sequence number stands in the eight bytes behind the header, the most significant byte
/// first: those bytes spell the number that was written, and the number that is carried is the
/// one that they spell, whatever wrote them.
pub proof fn sequence_is_big_endian(packet: Seq<u8>, seq: usize)
    requires
        packet.len() >= 28,
    ensures
        number_at(with_sequence(packet, seq as nat), 20) == seq,
        carried_sequence(packet) == number_at(packet, 20),
        with_sequence(packet, seq as nat).len() == packet.len(),
        forall|i: int|
            0 <= i < 20 || 28 <= i < packet.len() ==> with_sequence(packet, seq as nat)[i]
                == #[trigger] packet[i],
{
    let written = with_sequence(packet, seq as nat);
    sequence_reads_back(packet, seq);
    lemma_sequence_fits(seq);
    lemma_be_bytes_read_back(seq as nat, 8);
    assert(written.subrange(20, 28) =~= be_bytes(seq as nat, 8));
    lemma_carried_is_big_endian(written);
    lemma_carried_is_big_endian(packet);
}

/// A packet says of itself what it is: IPv4, a header of five words, as many bytes as there are,
/// no fragment of another, 64 hops at most, UDP, from `src` to `dst`. Its last byte is the flow,
/// which takes the place of the last address byte where there is no byte behind the header, and
/// what is between them is zero.
pub proof fn packet_describes_itself(src: [u8; 4], dst: [u8; 4], flow: u8, total: int)
    requires
        20 <= total <= 1500,
    ensures
        ({
            let p = blank_packet(src@, dst@, flow, total);
            &&& p.len() == total
            &&& p[0] / 16 == 4 && p[0] % 16 == 5 && p[1] == 0
            &&& p[2] * 256 + p[3] == p.len()
            &&& p[4] == 0 && p[5] == 0 && p[6] == 0 && p[7] == 0
            &&& p[8] == 64 && p[9] == 17
            &&& p[12] == src[0] && p[13] == src[1] && p[14] == src[2] && p[15] == src[3]
            &&& p[16] == dst[0] && p[17] == dst[1] && p[18] == dst[2]
            &&& p.len() > 20 ==> p[19] == dst[3]
            &&& p[p.len() - 1] == flow
            &&& forall|i: int| 20 <= i < p.len() - 1 ==> #[trigger] p[i] == 0
        }),
{
}

/// A probe with its sequence number is the packet without it but for the eight bytes behind the
/// header, so it says the same of itself; from a length of 29 bytes on it also carries its flow.
pub proof fn probe_describes_itself(src: [u8; 4], dst: [u8; 4], flow: u8, total: int, seq: usize)
    requires
        28 <= total <= 1500,
    ensures
        ({
            let p = probe(src@, dst@, flow, total, seq as nat);
            &&& p.len() == total
            &&& p[0] / 16 == 4 && p[0] % 16 == 5 && p[1] == 0
            &&& p[2] * 256 + p[3] == p.len()
            &&& p[4] == 0 && p[5] == 0 && p[6] == 0 && p[7] == 0
            &&& p[8] == 64 && p[9] == 17
            &&& p[12] == src[0] && p[13] == src[1] && p[14] == src[2] && p[15] == src[3]
            &&& p[16] == dst[0] && p[17] == dst[1] && p[18] == dst[2] && p[19] == dst[3]
            &&& number_at(p, 20) == seq
            &&& p.len() > 28 ==> p[p.len() - 1] == flow
            &&& forall|i: int| 28 <= i < p.len() - 1 ==> #[trigger] p[i] == 0
        }),
{
    let blank = blank_packet(src@, dst@, flow, total);
    let p = probe(src@, dst@, flow, total, seq as nat);
    packet_describes_itself(src, dst, flow, total);
    sequence_is_big_endian(blank, seq);
    assert forall|i: int| 28 <= i < p.len() - 1 implies #[trigger] p[i] == 0 by {
        assert(p[i] == blank[i]);
    }
}

/// The ten words of the header, each of two bytes with the first counting more, sum up to a
/// multiple of 65535 that is not zero. That is what IPv4 asks of a header with its checksum.
pub proof fn header_words_sum_up(src: [u8; 4], dst: [u8; 4], flow: u8, total: int)
    requires
        21 <= total <= 1500,
    ensures
        ({
            let p = blank_packet(src@, dst@, flow, total);
            let sum = (p[0] + p[2] + p[4] + p[6] + p[8] + p[10] + p[12] + p[14] + p[16] + p[18])
                * 256 + p[1] + p[3] + p[5] + p[7] + p[9] + p[11] + p[13] + p[15] + p[17] + p[19];
            sum > 0 && sum % 65535 == 0
        }),
{
    let p = blank_packet(src@, dst@, flow, total);
    blank_packet_checksum_holds(src, dst, flow, total);
    let sum = word_sum(p) + word(p, 5);
    assert(sum > 0);
    assert((sum - 1) % 65535 == 65534);
}

/// A packet counts as one of the peer by its bytes 12 to 15 alone, and as one to the peer by its
/// bytes 16 to 19.
pub proof fn peer_is_told_by_address(packet: Seq<u8>)
    requires
        packet.len() >= 16,
    ensures
        comes_from_peer(packet) <==> packet[12] == 10 && packet[13] == 7 && packet[14] == 0
            && packet[15] == 4,
        packet.len() >= 20 ==> (goes_to_peer(packet) <==> packet[16] == 10 && packet[17] == 7
            && packet[18] == 0 && packet[19] == 4),
{
    let peer = IP_ADDR_LISTEN_TO;
    let src = packet.subrange(12, 16);
    assert(src[0] == packet[12] && src[1] == packet[13]);
    assert(src[2] == packet[14] && src[3] == packet[15]);
    if packet[12] == 10 && packet[13] == 7 && packet[14] == 0 && packet[15] == 4 {
        assert(src =~= peer@);
    }
    if packet.len() >= 20 {
        let dst = packet.subrange(16, 20);
        assert(dst[0] == packet[16] && dst[1] == packet[17]);
        assert(dst[2] == packet[18] && dst[3] == packet[19]);
        if packet[16] == 10 && packet[17] == 7 && packet[18] == 0 && packet[19] == 4 {
            assert(dst =~= peer@);
        }
    }
}

/// The words of the header still sum up when the sequence number is written.
pub proof fn probe_words_sum_up(src: [u8; 4], dst: [u8; 4], flow: u8, total: int, seq: usize)
    requires
        28 <= total <= 1500,
    ensures
        ({
            let p = probe(src@, dst@, flow, total, seq as nat);
            let sum = (p[0] + p[2] + p[4] + p[6] + p[8] + p[10] + p[12] + p[14] + p[16] + p[18])
                * 256 + p[1] + p[3] + p[5] + p[7] + p[9] + p[11] + p[13] + p[15] + p[17] + p[19];
            sum > 0 && sum % 65535 == 0
        }),
{
    let blank = blank_packet(src@, dst@, flow, total);
    let p = probe(src@, dst@, flow, total, seq as nat);
    header_words_sum_up(src, dst, flow, total);
    sequence_is_big_endian(blank, seq);
    assert(forall|i: int| 0 <= i < 20 ==> p[i] == #[trigger] blank[i]);
}

} // verus!
