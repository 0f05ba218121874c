//! The fields of an IPv4 header, written and summed by `pnet`.
//!
//! A header here is the first twenty bytes of a buffer. Each function below makes one call into
//! `pnet` on the whole buffer; its contract says which bytes that call reads or writes.

use vstd::prelude::*;

verus! {

/// The 16-bit word number `i` of `b`, most significant byte first.
pub open spec fn word(b: Seq<u8>, i: int) -> int {
    b[2 * i] * 256 + b[2 * i + 1]
}

/// The sum of the words of the twenty-byte header, without the checksum word.
pub open spec fn word_sum(b: Seq<u8>) -> int {
    word(b, 0) + word(b, 1) + word(b, 2) + word(b, 3) + word(b, 4) + word(b, 6) + word(b, 7) + word(
        b,
        8,
    ) + word(b, 9)
}

/// The 16-bit one's complement sum whose plain sum is `sum`: the number in `1..=65535` that
/// differs from `sum` by a multiple of 65535, or zero where `sum` is zero.
pub open spec fn folded(sum: int) -> int {
    if sum == 0 {
        0
    } else {
        1 + (sum - 1) % 65535
    }
}

/// The checksum of the twenty-byte header at the start of `b`, its own word left out.
pub open spec fn header_checksum(b: Seq<u8>) -> int {
    65535 - folded(word_sum(b))
}

/// A receiver accepts the header at the start of `b`: with the checksum word counted in, the
/// one's complement sum is all ones.
pub open spec fn checksum_holds(b: Seq<u8>) -> bool {
    folded(word_sum(b) + word(b, 5)) == 65535
}

/// `pnet::packet::ipv4::MutableIpv4Packet::set_version`: writes the upper four bits of the first
/// byte and leaves the rest of the buffer as it is.
#[verifier::external_body]
pub(crate) fn set_version(buf: &mut Vec<u8>, version: u8)
    requires
        old(buf)@.len() >= 20,
        version < 16,
    ensures
        final(buf)@ == old(buf)@.update(0, (version * 16 + old(buf)@[0] % 16) as u8),
{
    pnet::packet::ipv4::MutableIpv4Packet::new(buf).unwrap().set_version(version);
}

/// `pnet::packet::ipv4::MutableIpv4Packet::set_header_length`: writes the lower four bits of the
/// first byte and leaves the rest of the buffer as it is.
#[verifier::external_body]
pub(crate) fn set_header_length(buf: &mut Vec<u8>, words: u8)
    requires
        old(buf)@.len() >= 20,
        words < 16,
    ensures
        final(buf)@ == old(buf)@.update(0, (old(buf)@[0] / 16 * 16 + words) as u8),
{
    pnet::packet::ipv4::MutableIpv4Packet::new(buf).unwrap().set_header_length(words);
}

/// `pnet::packet::ipv4::MutableIpv4Packet::set_total_length`: writes bytes 2 and 3, most
/// significant byte first, and leaves the rest of the buffer as it is.
#[verifier::external_body]
pub(crate) fn set_total_length(buf: &mut Vec<u8>, length: u16)
    requires
        old(buf)@.len() >= 20,
    ensures
        final(buf)@ == old(buf)@.update(2, (length / 256) as u8).update(3, (length % 256) as u8),
{
    pnet::packet::ipv4::MutableIpv4Packet::new(buf).unwrap().set_total_length(length);
}

/// `pnet::packet::ipv4::MutableIpv4Packet::set_ttl`: writes byte 8 and leaves the rest of the
/// buffer as it is.
#[verifier::external_body]
pub(crate) fn set_ttl(buf: &mut Vec<u8>, ttl: u8)
    requires
        old(buf)@.len() >= 20,
    ensures
        final(buf)@ == old(buf)@.update(8, ttl),
{
    pnet::packet::ipv4::MutableIpv4Packet::new(buf).unwrap().set_ttl(ttl);
}

/// `pnet::packet::ipv4::MutableIpv4Packet::set_next_level_protocol`: writes the number of the
/// protocol into byte 9 and leaves the rest of the buffer as it is.
#[verifier::external_body]
pub(crate) fn set_next_level_protocol(buf: &mut Vec<u8>, protocol: u8)
    requires
        old(buf)@.len() >= 20,
    ensures
        final(buf)@ == old(buf)@.update(9, protocol),
{
    pnet::packet::ipv4::MutableIpv4Packet::new(buf).unwrap().set_next_level_protocol(
        pnet::packet::ip::IpNextHeaderProtocol(protocol),
    );
}

/// `pnet::packet::ipv4::MutableIpv4Packet::set_source`: writes bytes 12 to 15 in the order of
/// the address and leaves the rest of the buffer as it is.
#[verifier::external_body]
pub(crate) fn set_source(buf: &mut Vec<u8>, addr: [u8; 4])
    requires
        old(buf)@.len() >= 20,
    ensures
        final(buf)@ == old(buf)@.update(12, addr@[0]).update(13, addr@[1]).update(
            14,
            addr@[2],
        ).update(15, addr@[3]),
{
    pnet::packet::ipv4::MutableIpv4Packet::new(buf).unwrap().set_source(addr.into());
}

/// `pnet::packet::ipv4::MutableIpv4Packet::set_destination`: writes bytes 16 to 19 in the order
/// of the address and leaves the rest of the buffer as it is.
#[verifier::external_body]
pub(crate) fn set_destination(buf: &mut Vec<u8>, addr: [u8; 4])
    requires
        old(buf)@.len() >= 20,
    ensures
        final(buf)@ == old(buf)@.update(16, addr@[0]).update(17, addr@[1]).update(
            18,
            addr@[2],
        ).update(19, addr@[3]),
{
    pnet::packet::ipv4::MutableIpv4Packet::new(buf).unwrap().set_destination(addr.into());
}

/// `pnet::packet::ipv4::MutableIpv4Packet::set_checksum`: writes bytes 10 and 11, most
/// significant byte first, and leaves the rest of the buffer as it is.
#[verifier::external_body]
pub(crate) fn set_checksum(buf: &mut Vec<u8>, checksum: u16)
    requires
        old(buf)@.len() >= 20,
    ensures
        final(buf)@ == old(buf)@.update(10, (checksum / 256) as u8).update(
            11,
            (checksum % 256) as u8,
        ),
{
    pnet::packet::ipv4::MutableIpv4Packet::new(buf).unwrap().set_checksum(checksum);
}

/// `pnet::packet::ipv4::checksum` on a header whose length field says five words of four bytes:
/// the complement of the one's complement sum of the header's 16-bit words, the checksum word
/// left out.
#[verifier::external_body]
pub(crate) fn checksum(buf: &Vec<u8>) -> (sum: u16)
    requires
        buf@.len() >= 20,
        buf@[0] % 16 == 5,
    ensures
        sum == header_checksum(buf@),
{
    pnet::packet::ipv4::checksum(&pnet::packet::ipv4::Ipv4Packet::new(buf).unwrap())
}

} // verus!
