use sender_receiver::packet::{
    decode_sequence_num, encode_sequence_num, get_ipv4_packet, is_ip_addr_matching,
};

fn header_sum(packet: &[u8]) -> u32 {
    let mut sum: u32 = 0;
    for i in 0..10 {
        sum += u32::from(packet[2 * i]) * 256 + u32::from(packet[2 * i + 1]);
    }
    while sum > 0xFFFF {
        sum = sum / 0x1_0000 + sum % 0x1_0000;
    }
    sum
}

#[test]
fn packet_header_is_exact() {
    let packet = get_ipv4_packet([10, 7, 0, 4], [10, 7, 0, 5], 3, 100);
    assert_eq!(packet.len(), 100);
    assert_eq!(
        packet[..20],
        [69, 0, 0, 100, 0, 0, 0, 0, 64, 17, 102, 115, 10, 7, 0, 4, 10, 7, 0, 5]
    );
    assert!(packet[20..99].iter().all(|b| *b == 0));
    assert_eq!(packet[99], 3);
}

#[test]
fn longest_packet_header_is_exact() {
    let packet = get_ipv4_packet([192, 168, 0, 1], [192, 168, 0, 199], 255, 1500);
    assert_eq!(packet.len(), 1500);
    assert_eq!(
        packet[..20],
        [69, 0, 5, 220, 0, 0, 0, 0, 64, 17, 242, 248, 192, 168, 0, 1, 192, 168, 0, 199]
    );
    assert_eq!(packet[1499], 255);
}

#[test]
fn shortest_packet_loses_its_last_address_byte_to_the_flow() {
    let packet = get_ipv4_packet([0, 0, 0, 0], [1, 2, 3, 4], 9, 20);
    assert_eq!(
        packet,
        vec![69, 0, 0, 20, 0, 0, 0, 0, 64, 17, 118, 212, 0, 0, 0, 0, 1, 2, 3, 9]
    );
}

#[test]
fn blank_packet_checksum_is_kept_from_the_flow() {
    for len in [21, 22, 27, 28, 1500] {
        let packet = get_ipv4_packet([10, 7, 0, 4], [10, 7, 0, 5], 201, len);
        assert_eq!(packet.len(), len);
        assert_eq!(header_sum(&packet), 0xFFFF);
        assert_eq!(packet[9], 17);
        assert_eq!(packet[len - 1], 201);
    }
    let shortest = get_ipv4_packet([10, 7, 0, 4], [10, 7, 0, 5], 201, 20);
    assert_ne!(header_sum(&shortest), 0xFFFF);
}

#[test]
fn header_checksum_holds() {
    for (src, dst, len) in [
        ([10, 7, 0, 4], [10, 7, 0, 5], 29),
        ([255, 255, 255, 255], [255, 255, 255, 255], 29),
        ([0, 0, 0, 0], [0, 0, 0, 0], 1500),
        ([1, 2, 3, 4], [250, 251, 252, 253], 777),
    ] {
        let mut packet = get_ipv4_packet(src, dst, 1, len);
        encode_sequence_num(&mut packet, usize::MAX);
        assert_eq!(header_sum(&packet), 0xFFFF);
    }
}

#[test]
fn sequence_bytes_are_big_endian() {
    let mut packet = vec![7u8; 30];
    encode_sequence_num(&mut packet, 0x0102_0304_0506_0708);
    assert_eq!(packet[..20], [7u8; 20]);
    assert_eq!(packet[20..28], [1, 2, 3, 4, 5, 6, 7, 8]);
    assert_eq!(packet[28..], [7, 7]);
}

#[test]
fn sequence_number_comes_back() {
    for seq in [0, 1, 255, 256, 65_535, 1_000_000, usize::MAX / 2, usize::MAX] {
        let mut packet = get_ipv4_packet([10, 7, 0, 4], [10, 7, 0, 5], 42, 29);
        encode_sequence_num(&mut packet, seq);
        assert_eq!(decode_sequence_num(&packet), seq);
        assert_eq!(packet[28], 42);
    }
}

#[test]
fn sequence_number_is_read_most_significant_byte_first() {
    let mut packet = vec![0u8; 28];
    packet[20] = 0x80;
    packet[27] = 0x01;
    assert_eq!(decode_sequence_num(&packet), 0x8000_0000_0000_0001);
}

#[test]
fn writing_back_the_carried_sequence_changes_nothing() {
    let packet: Vec<u8> = (0..40).collect();
    let mut again = packet.clone();
    encode_sequence_num(&mut again, decode_sequence_num(&packet));
    assert_eq!(again, packet);
}

#[test]
fn later_sequence_number_stays() {
    let mut once = vec![3u8; 28];
    let mut twice = once.clone();
    encode_sequence_num(&mut once, 5);
    encode_sequence_num(&mut twice, usize::MAX);
    encode_sequence_num(&mut twice, 5);
    assert_eq!(once, twice);
}

#[test]
fn address_is_matched_at_its_place() {
    let from_peer = get_ipv4_packet([10, 7, 0, 4], [1, 2, 3, 4], 0, 29);
    assert!(is_ip_addr_matching(&from_peer, false));
    assert!(!is_ip_addr_matching(&from_peer, true));
    let to_peer = get_ipv4_packet([1, 2, 3, 4], [10, 7, 0, 4], 0, 29);
    assert!(!is_ip_addr_matching(&to_peer, false));
    assert!(is_ip_addr_matching(&to_peer, true));
    let near = get_ipv4_packet([10, 7, 0, 5], [10, 7, 1, 4], 0, 29);
    assert!(!is_ip_addr_matching(&near, false));
    assert!(!is_ip_addr_matching(&near, true));
    assert!(is_ip_addr_matching(&from_peer[..16], false));
}
