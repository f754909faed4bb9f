use wol_rs::targets::{packet_for, prepare_packets, TargetError};
use wol_rs::hex::hex_dump;
use wol_rs::{
    magic_packet, magic_packet_array, magic_packet_with_password,
    magic_packet_with_password_array, ParseError, ALT_BROADCAST_PORT, BROADCAST_PORT,
    MAGIC_PACKET_LEN, MAGIC_PACKET_WITH_PASSWORD_LEN,
};

#[test]
fn magic_packet_has_correct_length_and_header() {
    let mac = [0x01, 0x02, 0x03, 0x04, 0x05, 0x06];
    let pkt = magic_packet(mac);
    assert_eq!(pkt.len(), MAGIC_PACKET_LEN);
    assert_eq!(&pkt[..6], &[0xFF; 6]);
    for chunk in pkt[6..].chunks(6) {
        assert_eq!(chunk, &mac);
    }
}

#[test]
fn secureon_appends_six_bytes() {
    let pkt = magic_packet_with_password([1; 6], [9; 6]);
    assert_eq!(pkt.len(), MAGIC_PACKET_WITH_PASSWORD_LEN);
    assert_eq!(&pkt[pkt.len() - 6..], &[9; 6]);
}

#[test]
fn ports_and_lengths_are_the_documented_ones() {
    assert_eq!(BROADCAST_PORT, 9);
    assert_eq!(ALT_BROADCAST_PORT, 7);
    assert_eq!(MAGIC_PACKET_LEN, 102);
    assert_eq!(MAGIC_PACKET_WITH_PASSWORD_LEN, 108);
}

#[test]
fn magic_packet_layout_byte_by_byte() {
    let mac = [0xA4, 0x83, 0xE7, 0x11, 0x22, 0x33];
    let pkt = magic_packet(mac);
    for i in 0..6 {
        assert_eq!(pkt[i], 0xFF);
    }
    for k in 0..16 {
        for j in 0..6 {
            assert_eq!(pkt[6 + 6 * k + j], mac[j]);
        }
    }
}

#[test]
fn password_packet_is_plain_packet_then_password() {
    let mac = [0x00, 0x11, 0x22, 0x33, 0x44, 0x55];
    let pw = [0xDE, 0xAD, 0xBE, 0xEF, 0xDE, 0xAD];
    let plain = magic_packet(mac);
    let with = magic_packet_with_password(mac, pw);
    assert_eq!(&with[..102], &plain[..]);
    assert_eq!(&with[102..], &pw);
}

#[test]
fn array_variants_match_the_vec_ones() {
    let mac = [0xA4, 0x83, 0xE7, 0x11, 0x22, 0x33];
    let pw = [0xDE, 0xAD, 0xBE, 0xEF, 0xDE, 0xAD];
    let arr = magic_packet_array(mac);
    assert_eq!(arr.len(), MAGIC_PACKET_LEN);
    assert_eq!(&arr[..], &magic_packet(mac)[..]);
    assert_eq!(arr[..6], [0xFF; 6]);
    let arr_pw = magic_packet_with_password_array(mac, pw);
    assert_eq!(arr_pw.len(), MAGIC_PACKET_WITH_PASSWORD_LEN);
    assert_eq!(&arr_pw[..], &magic_packet_with_password(mac, pw)[..]);
}

#[test]
fn hex_dump_of_a_packet_is_204_upper_case_digits() {
    let pkt = magic_packet([0xAA, 0xBB, 0xCC, 0xDD, 0xEE, 0xFF]);
    let line = hex_dump(&pkt);
    assert_eq!(line.len(), 204);
    assert!(line.starts_with("FFFFFFFFFFFF"));
    assert_eq!(&line[12..24], "AABBCCDDEEFF");
    assert_eq!(hex_dump(&[0x00, 0x0a, 0xf0, 0x9C]), "000AF09C");
    assert_eq!(hex_dump(&[]), "");
}

#[test]
fn hex_dump_with_password_ends_with_it() {
    let pkt = magic_packet_with_password(
        [0x00, 0x11, 0x22, 0x33, 0x44, 0x55],
        [0xDE, 0xAD, 0xBE, 0xEF, 0xDE, 0xAD],
    );
    let line = hex_dump(&pkt);
    assert_eq!(line.len(), 216);
    assert!(line.ends_with("DEADBEEFDEAD"));
}

#[test]
fn packet_for_picks_the_password_variant() {
    let mac = [1, 2, 3, 4, 5, 6];
    assert_eq!(packet_for(mac, None), magic_packet(mac));
    assert_eq!(packet_for(mac, Some([7; 6])), magic_packet_with_password(mac, [7; 6]));
}

#[test]
fn prepare_packets_builds_one_packet_per_mac() {
    let macs = vec!["aa:bb:cc:dd:ee:ff".to_string(), "11:22:33:44:55:66".to_string()];
    let pkts = prepare_packets(&macs, None).unwrap();
    assert_eq!(pkts.len(), 2);
    assert_eq!(pkts[0], magic_packet([0xAA, 0xBB, 0xCC, 0xDD, 0xEE, 0xFF]));
    assert_eq!(pkts[1], magic_packet([0x11, 0x22, 0x33, 0x44, 0x55, 0x66]));
}

#[test]
fn prepare_packets_mixed_spellings_give_the_same_packet() {
    let macs: Vec<String> =
        ["aa:bb:cc:dd:ee:ff", "aa-bb-cc-dd-ee-ff", "aabb.ccdd.eeff", "aabbccddeeff"]
            .iter()
            .map(|s| s.to_string())
            .collect();
    let pkts = prepare_packets(&macs, None).unwrap();
    assert_eq!(pkts.len(), 4);
    for p in &pkts[1..] {
        assert_eq!(p, &pkts[0]);
    }
}

#[test]
fn prepare_packets_appends_the_password() {
    let macs = vec!["00:11:22:33:44:55".to_string()];
    let pkts = prepare_packets(&macs, Some("DE:AD:BE:EF:DE:AD")).unwrap();
    assert_eq!(pkts.len(), 1);
    assert_eq!(pkts[0].len(), 108);
    assert_eq!(&pkts[0][102..], &[0xDE, 0xAD, 0xBE, 0xEF, 0xDE, 0xAD]);
}

#[test]
fn prepare_packets_reports_the_password_first() {
    let macs = vec!["not-a-mac!".to_string()];
    assert_eq!(
        prepare_packets(&macs, Some("nope")),
        Err(TargetError::Password(ParseError::InvalidChar('n')))
    );
}

#[test]
fn prepare_packets_reports_the_first_bad_mac() {
    let macs = vec![
        "aa:bb:cc:dd:ee:ff".to_string(),
        "aa:bb".to_string(),
        "zz".to_string(),
    ];
    assert_eq!(prepare_packets(&macs, None), Err(TargetError::Mac(1, ParseError::TooShort)));
    let none: Vec<String> = Vec::new();
    assert_eq!(prepare_packets(&none, None), Ok(Vec::new()));
}
