use ens_dns::name::{DnsLabel, DnsName, DnsQuestion};
use ens_dns::wire::{DnsFlags, DnsHeader, Opcode, ParseError, Parseable, RCode};

fn sample_header() -> DnsHeader {
    DnsHeader {
        id: 1,
        flags: DnsFlags { qr: true, opcode: Opcode::Query, aa: false, tc: false, rd: false, ra: false, rcode: RCode::NoError },
        qd_count: 0,
        an_count: 0,
        ar_count: 0,
        ns_count: 0,
    }
}

fn header_round_trips() {
    let header = sample_header();
    let serialized = header.serialize();
    let parsed = DnsHeader::parse(&serialized).unwrap().1;
    assert_eq!(header, parsed);
}

#[test]
fn dns_test_dnsheader_serialize_idempotent() {
    header_round_trips();
}

#[test]
fn dns_test_dnsheader_parse_idempotent() {
    header_round_trips();
}

#[test]
fn internal_test_dnsheader_serialize_idempotent() {
    header_round_trips();
}

#[test]
fn internal_test_dnsheader_parse_idempotent() {
    header_round_trips();
}

#[test]
fn mod_test_dnsheader_serialize_idempotent() {
    header_round_trips();
}

#[test]
fn mod_test_dnsheader_parse_idempotent() {
    header_round_trips();
}

#[test]
fn header_wire_layout() {
    let header = DnsHeader {
        id: 0x1234,
        flags: DnsFlags { qr: true, opcode: Opcode::Other(2), aa: true, tc: false, rd: true, ra: true, rcode: RCode::ServerFailure },
        qd_count: 3,
        an_count: 0x0102,
        ns_count: 7,
        ar_count: 9,
    };
    let bytes = header.serialize();
    // qr=1 opcode=0010 aa=1 tc=0 rd=1 | ra=1 z=000 rcode=0010
    assert_eq!(bytes, vec![0x12, 0x34, 0x95, 0x82, 0x00, 0x03, 0x01, 0x02, 0, 0, 0, 0]);
}

#[test]
fn header_parse_reads_all_counts_and_leaves_rest() {
    let bytes = [0xab, 0xcd, 0x01, 0x00, 0x00, 0x01, 0x00, 0x02, 0x00, 0x03, 0x00, 0x04, 0xee];
    let (rest, h) = DnsHeader::parse(&bytes).unwrap();
    assert_eq!(rest, &[0xee][..]);
    assert_eq!(h.id, 0xabcd);
    assert!(h.flags.rd);
    assert!(!h.flags.qr);
    assert_eq!((h.qd_count, h.an_count, h.ns_count, h.ar_count), (1, 2, 3, 4));
}

#[test]
fn header_parse_short_input_is_incomplete() {
    assert_eq!(DnsHeader::parse(&[0u8; 11]).unwrap_err(), ParseError::Incomplete);
    assert_eq!(DnsHeader::parse(&[]).unwrap_err(), ParseError::Incomplete);
}

#[test]
fn header_round_trip_with_nonzero_counts() {
    let h = DnsHeader {
        id: 65535,
        flags: DnsFlags { qr: false, opcode: Opcode::Other(15), aa: true, tc: true, rd: true, ra: false, rcode: RCode::Other(15) },
        qd_count: 12,
        an_count: 65535,
        ns_count: 0,
        ar_count: 0,
    };
    assert_eq!(DnsHeader::parse(&h.serialize()).unwrap().1, h);
}

#[test]
fn flags_round_trip_all_combinations() {
    let opcodes = [Opcode::Query, Opcode::Other(1), Opcode::Other(7), Opcode::Other(15)];
    let rcodes = [RCode::NoError, RCode::FormatError, RCode::ServerFailure, RCode::Other(3), RCode::Other(15)];
    for bits in 0u8..32 {
        for opcode in opcodes {
            for rcode in rcodes {
                let f = DnsFlags {
                    qr: bits & 1 != 0,
                    opcode,
                    aa: bits & 2 != 0,
                    tc: bits & 4 != 0,
                    rd: bits & 8 != 0,
                    ra: bits & 16 != 0,
                    rcode,
                };
                let bytes = f.serialize();
                let (rest, g) = DnsFlags::parse(&bytes).unwrap();
                assert!(rest.is_empty());
                assert_eq!(f, g);
            }
        }
    }
}

#[test]
fn flags_reserved_bits_are_ignored_and_written_zero() {
    let (_, f) = DnsFlags::parse(&[0x00, 0x70]).unwrap();
    assert_eq!(f, DnsFlags { qr: false, opcode: Opcode::Query, aa: false, tc: false, rd: false, ra: false, rcode: RCode::NoError });
    assert_eq!(f.serialize(), vec![0, 0]);
}

#[test]
fn flags_parse_needs_two_bytes() {
    assert_eq!(DnsFlags::parse(&[0x80]).unwrap_err(), ParseError::Incomplete);
}

#[test]
fn codes_convert_both_ways() {
    assert_eq!(Opcode::from(0u16), Opcode::Query);
    assert_eq!(Opcode::from(9u16), Opcode::Other(9));
    assert_eq!(u16::from(Opcode::Other(9)), 9);
    assert_eq!(RCode::from(1u16), RCode::FormatError);
    assert_eq!(RCode::from(2u16), RCode::ServerFailure);
    assert_eq!(RCode::from(11u16), RCode::Other(11));
    assert_eq!(u16::from(RCode::NoError), 0);
    assert_eq!(u16::from(RCode::Other(11)), 11);
}

#[test]
fn label_wire_form() {
    let l = DnsLabel::from("eth".to_string());
    assert_eq!(l.label, b"eth".to_vec());
    assert_eq!(l.serialize(), vec![3, b'e', b't', b'h']);
    let (rest, back) = DnsLabel::parse(&[3, b'e', b't', b'h', 9]).unwrap();
    assert_eq!(back, l);
    assert_eq!(rest, &[9][..]);
    assert_eq!(DnsLabel::parse(&[4, b'e', b't', b'h']).unwrap_err(), ParseError::Incomplete);
}

#[test]
fn name_wire_form() {
    let n = DnsName::from("example.eth".to_string());
    let bytes = n.serialize();
    assert_eq!(bytes, b"\x07example\x03eth\x00".to_vec());
    let (rest, back) = DnsName::parse(&bytes).unwrap();
    assert!(rest.is_empty());
    assert_eq!(back, n);
}

#[test]
fn name_round_trip_with_longest_label() {
    let long = "a".repeat(255);
    let n = DnsName::from(format!("{}.b", long));
    let bytes = n.serialize();
    assert_eq!(bytes[0], 255);
    assert_eq!(bytes.len(), 1 + 255 + 2 + 1);
    let (rest, back) = DnsName::parse(&bytes).unwrap();
    assert!(rest.is_empty());
    assert_eq!(back, n);
}

#[test]
fn name_parse_stops_at_empty_label() {
    let (rest, n) = DnsName::parse(&[1, b'a', 0, 5, 6]).unwrap();
    assert_eq!(n.labels.len(), 1);
    assert_eq!(rest, &[5, 6][..]);
    let (_, empty) = DnsName::parse(&[0]).unwrap();
    assert!(empty.labels.is_empty());
    assert_eq!(DnsName::parse(&[1, b'a']).unwrap_err(), ParseError::Incomplete);
}

#[test]
fn question_wire_form() {
    let q = DnsQuestion { qname: DnsName::from("a.eth".to_string()), qtype: 16, qclass: 1 };
    let bytes = q.serialize();
    assert_eq!(bytes, b"\x01a\x03eth\x00\x00\x10\x00\x01".to_vec());
    let (rest, back) = DnsQuestion::parse(&bytes).unwrap();
    assert!(rest.is_empty());
    assert_eq!(back, q);
    assert_eq!(DnsQuestion::parse(&bytes[..bytes.len() - 1]).unwrap_err(), ParseError::Incomplete);
}

#[test]
fn non_utf8_label_is_rejected() {
    assert_eq!(DnsLabel::parse(&[2, 0xff, 0xfe]).unwrap_err(), ParseError::InvalidLabel);
    assert_eq!(DnsName::parse(&[1, b'a', 1, 0xc3, 0]).unwrap_err(), ParseError::InvalidLabel);
    let (_, ok) = DnsName::parse(&[2, 0xc3, 0xbc, 0]).unwrap();
    assert_eq!(ok.labels[0].label, "ü".as_bytes().to_vec());
    assert_eq!(DnsQuestion::parse(&[1, 0x80, 0, 0, 16, 0, 1]).unwrap_err(), ParseError::InvalidLabel);
}
