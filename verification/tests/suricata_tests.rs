use lib::suricata::{
    be16, be32, json_after_buffer, json_after_init, log_sink, JsonStep, safe_cstring_bytes, IPV4Hdr, IPV6Hdr, LogSink, Packet,
    PacketL3, SCJsonBuilder, PACKET_L3_IPV4, PACKET_L3_IPV6, SC_LOG_ERROR, SC_LOG_NOTICE,
};

fn v4(len: u16) -> IPV4Hdr {
    IPV4Hdr {
        ip_verhl: 0x45,
        ip_tos: 0,
        ip_len: len,
        ip_id: 1,
        ip_off: 0,
        ip_ttl: 64,
        ip_proto: 6,
        ip_csum: 0,
        ip_addrs: [0; 4],
    }
}

fn v6(plen: u16) -> IPV6Hdr {
    IPV6Hdr { ip6_un1_flow: 0x6000_0000, ip6_un1_plen: plen, ip6_un1_nxt: 17, ip6_un1_hlim: 64, ip6_addrs: [0; 16] }
}

fn packet(type_: i32, ip4h: Option<IPV4Hdr>, ip6h: Option<IPV6Hdr>, ts: u64) -> Packet {
    Packet {
        proto: 6,
        ts,
        l3: PacketL3 { type_, csum_set: false, csum: 0, ip4h, ip6h },
        pcap_cnt: 1,
    }
}

#[test]
fn ipv4_packet_length_is_the_total_length() {
    assert_eq!(packet(PACKET_L3_IPV4, Some(v4(1500)), None, 0).ip_packet(), Some(1500));
}

#[test]
fn ipv6_packet_length_adds_the_fixed_header() {
    assert_eq!(packet(PACKET_L3_IPV6, None, Some(v6(1200)), 0).ip_packet(), Some(1240));
    assert_eq!(packet(PACKET_L3_IPV6, None, Some(v6(65495)), 0).ip_packet(), Some(65535));
}

#[test]
fn missing_or_other_headers_give_no_ip_packet() {
    assert_eq!(packet(PACKET_L3_IPV4, None, None, 0).ip_packet(), None);
    assert_eq!(packet(PACKET_L3_IPV6, None, None, 0).ip_packet(), None);
    assert_eq!(packet(0, Some(v4(20)), None, 0).ip_packet(), None);
    assert_eq!(packet(3, None, Some(v6(8)), 0).ip_packet(), None);
}

#[test]
fn header_of_the_other_family_is_not_read() {
    assert_eq!(packet(PACKET_L3_IPV4, None, Some(v6(8)), 0).ip_packet(), None);
}

#[test]
fn timestamp_in_milliseconds() {
    let ts = (250_000u64 << 44) | 1_700_000_000;
    assert_eq!(packet(0, None, None, ts).timestamp_millis(), 1_700_000_000_250);
    assert_eq!(packet(0, None, None, 0).timestamp_millis(), 0);
    assert_eq!(packet(0, None, None, (999u64 << 44) | 3).timestamp_millis(), 3000);
}

#[test]
fn timestamp_at_the_field_limits() {
    let ts = u64::MAX;
    assert_eq!(
        packet(0, None, None, ts).timestamp_millis(),
        ((1u64 << 44) - 1) * 1000 + ((1u64 << 20) - 1) / 1000
    );
}

#[test]
fn nul_bytes_are_dropped_from_log_text() {
    assert_eq!(safe_cstring_bytes(b"a\0b\0\0c"), b"abc".to_vec());
    assert_eq!(safe_cstring_bytes(b"plain"), b"plain".to_vec());
    assert_eq!(safe_cstring_bytes(b"\0\0"), Vec::<u8>::new());
}

#[test]
fn errors_go_to_the_error_log() {
    assert_eq!(log_sink(SC_LOG_ERROR), LogSink::Error);
    assert_eq!(log_sink(SC_LOG_NOTICE), LogSink::Regular);
}

#[test]
fn json_builder_must_be_present() {
    assert!(SCJsonBuilder::new(0).is_none());
    assert_eq!(SCJsonBuilder::new(0x40).map(|b| b.as_ptr()), Some(0x40));
}

#[test]
fn json_serializer_must_initialise() {
    assert_eq!(json_after_init(0), JsonStep::Serialize);
    assert_eq!(json_after_init(-1), JsonStep::Stop);
}

#[test]
fn json_buffer_must_hold_bytes_and_serializer_is_terminated() {
    assert_eq!(json_after_buffer(true, 10), JsonStep::EmitAndTerminate);
    assert_eq!(json_after_buffer(true, 0), JsonStep::Terminate);
    assert_eq!(json_after_buffer(false, 10), JsonStep::Terminate);
}

#[test]
fn big_endian_reads() {
    assert_eq!(be16(0x05, 0xdc), 1500);
    assert_eq!(be16(0xff, 0xff), u16::MAX);
    assert_eq!(be32(0x60, 0x01, 0x02, 0x03), 0x6001_0203);
}

#[test]
fn ipv4_header_from_wire_bytes() {
    let bytes: [u8; 20] = [
        0x45, 0x00, 0x05, 0xdc, 0x12, 0x34, 0x40, 0x00, 64, 6, 0xab, 0xcd, 192, 168, 0, 1, 10, 0,
        0, 2,
    ];
    let h = IPV4Hdr::from_be_bytes(&bytes);
    assert_eq!(h.ip_verhl, 0x45);
    assert_eq!(h.ip_len, 1500);
    assert_eq!(h.ip_id, 0x1234);
    assert_eq!(h.ip_off, 0x4000);
    assert_eq!(h.ip_ttl, 64);
    assert_eq!(h.ip_proto, 6);
    assert_eq!(h.ip_csum, 0xabcd);
    assert_eq!(h.ip_addrs, [0xc0a8, 0x0001, 0x0a00, 0x0002]);
    assert_eq!(packet(PACKET_L3_IPV4, Some(h), None, 0).ip_packet(), Some(1500));
}

#[test]
fn ipv6_header_from_wire_bytes() {
    let mut bytes = [0u8; 40];
    bytes[0] = 0x60;
    bytes[3] = 0x07;
    bytes[4] = 0x04;
    bytes[5] = 0xb0;
    bytes[6] = 17;
    bytes[7] = 64;
    bytes[8] = 0x20;
    bytes[9] = 0x01;
    bytes[39] = 0x01;
    let h = IPV6Hdr::from_be_bytes(&bytes);
    assert_eq!(h.ip6_un1_flow, 0x6000_0007);
    assert_eq!(h.ip6_un1_plen, 1200);
    assert_eq!(h.ip6_un1_nxt, 17);
    assert_eq!(h.ip6_un1_hlim, 64);
    assert_eq!(h.ip6_addrs[0], 0x2001);
    assert_eq!(h.ip6_addrs[15], 0x0001);
    assert_eq!(packet(PACKET_L3_IPV6, None, Some(h), 0).ip_packet(), Some(1240));
}
