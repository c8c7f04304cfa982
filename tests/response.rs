use ens_dns::name::{DnsName, DnsQuestion};
use ens_dns::response::{
    address_record, answer_for, generate_dns_response_packet, parse_dns_query, parse_questions, txt_answer, AddrHead,
    DnsError,
};
use ens_dns::service::{ens_record_services, resolution_request, resolved_answer};
use ens_dns::wire::{DnsFlags, DnsHeader, Opcode, Parseable, RCode};

fn request_header(qd_count: u16) -> DnsHeader {
    DnsHeader {
        id: 1,
        flags: DnsFlags { qr: true, opcode: Opcode::Query, aa: false, tc: false, rd: false, ra: false, rcode: RCode::NoError },
        qd_count,
        an_count: 0,
        ar_count: 0,
        ns_count: 0,
    }
}

fn zero_question_packet_is_header_only() {
    let questions = vec![];
    let packet = generate_dns_response_packet(questions, request_header(0), vec![]);
    // Only the header is present, no questions or answers
    assert_eq!(packet.len(), 12);
}

fn one_txt_question_packet(name: &str) {
    let questions = vec![DnsQuestion {
        qname: DnsName::from(name.to_string()),
        qtype: 16, // TXT Record
        qclass: 1, // IN (Internet)
    }];
    let answers = vec![Some("dummy_answer".to_string())];
    let packet = generate_dns_response_packet(questions, request_header(1), answers);
    // Header + serialized question + serialized answer
    assert!(packet.len() > 12);
}

#[test]
fn dns_test_generate_dns_response_packet_zero_questions() {
    zero_question_packet_is_header_only();
}

#[test]
fn internal_test_generate_dns_response_packet_zero_questions() {
    zero_question_packet_is_header_only();
}

#[test]
fn mod_test_generate_dns_response_packet_zero_questions() {
    zero_question_packet_is_header_only();
}

#[test]
fn dns_test_generate_dns_response_packet_one_txt_question() {
    one_txt_question_packet("example.eth");
}

#[test]
fn internal_test_generate_dns_response_packet_one_txt_question() {
    one_txt_question_packet("example.eth");
}

#[test]
fn mod_test_generate_dns_response_packet_one_txt_question() {
    one_txt_question_packet("example.com");
}

fn txt_question(name: &str) -> DnsQuestion {
    DnsQuestion { qname: DnsName::from(name.to_string()), qtype: 16, qclass: 1 }
}

#[test]
fn single_txt_answer() {
    let q = txt_question("example.eth");
    let qbytes = q.serialize();
    let packet = generate_dns_response_packet(vec![q], request_header(1), vec![Some("hello".to_string())]);
    assert!(packet.len() > 12);
    let (_, h) = DnsHeader::parse(&packet).unwrap();
    assert_eq!(h.an_count, 1);
    assert_eq!(h.qd_count, 1);
    assert_eq!(h.id, 1);
    assert!(h.flags.qr && h.flags.ra && !h.flags.aa && !h.flags.tc && !h.flags.rd);
    assert_eq!(h.flags.opcode, Opcode::Query);
    assert_eq!(h.flags.rcode, RCode::NoError);
    let mut expected = packet[..12].to_vec();
    expected.extend_from_slice(&qbytes);
    expected.extend_from_slice(&qbytes[..qbytes.len() - 4]);
    expected.extend_from_slice(&[0, 16, 0, 1, 0, 0, 1, 44, 0, 6, 5, b'h', b'e', b'l', b'l', b'o']);
    assert_eq!(packet, expected);
    assert_eq!(&packet[packet.len() - 6..], &[5, b'h', b'e', b'l', b'l', b'o']);
}

#[test]
fn no_answer_case() {
    let q = txt_question("example.eth");
    let qbytes = q.serialize();
    let packet = generate_dns_response_packet(vec![q], request_header(1), vec![None]);
    let (rest, h) = DnsHeader::parse(&packet).unwrap();
    assert_eq!(h.an_count, 0);
    assert_eq!(rest, &qbytes[..]);
}

#[test]
fn response_copies_id_and_rd() {
    let mut req = request_header(0);
    req.id = 0xbeef;
    req.flags.rd = true;
    req.flags.opcode = Opcode::Other(4);
    req.ns_count = 5;
    let packet = generate_dns_response_packet(vec![], req, vec![]);
    assert_eq!(packet, vec![0xbe, 0xef, 0x81, 0x80, 0, 0, 0, 0, 0, 0, 0, 0]);
}

#[test]
fn unsupported_type_gets_no_record() {
    let q = DnsQuestion { qname: DnsName::from("a.eth".to_string()), qtype: 15, qclass: 1 };
    assert_eq!(answer_for(&q, "anything"), None);
    let qbytes = q.serialize();
    let packet = generate_dns_response_packet(vec![q], request_header(1), vec![Some("x".to_string())]);
    assert_eq!(packet.len(), 12 + qbytes.len());
    assert_eq!(DnsHeader::parse(&packet).unwrap().1.an_count, 0);
}

#[test]
fn txt_record_length_bytes_wrap() {
    let q = txt_question("a");
    let text = "x".repeat(300);
    let r = txt_answer(&q, &text);
    let head = 3 + 2 + 2 + 4;
    assert_eq!(&r[head..head + 2], &[0x01, 0x2d]);
    assert_eq!(r[head + 2], (300 % 256) as u8);
    assert_eq!(r.len(), head + 2 + 1 + 300);
}

#[test]
fn a_record_from_multiaddr() {
    let q = DnsQuestion { qname: DnsName::from("a.eth".to_string()), qtype: 1, qclass: 1 };
    let r = answer_for(&q, "/ip4/1.2.3.4/tcp/80").unwrap();
    let name = q.qname.serialize();
    let mut expected = name.clone();
    expected.extend_from_slice(&[0, 1, 0, 1, 0, 0, 1, 44, 0, 4, 1, 2, 3, 4]);
    assert_eq!(r, expected);
    assert_eq!(answer_for(&q, "/ip4/9.8.7.6/udp/53").unwrap()[name.len() + 10..], [9, 8, 7, 6]);
    // a single protocol is not enough
    assert_eq!(answer_for(&q, "/ip4/9.8.7.6"), None);
}

#[test]
fn aaaa_record_from_multiaddr() {
    let q = DnsQuestion { qname: DnsName::from("a.eth".to_string()), qtype: 28, qclass: 1 };
    let r = answer_for(&q, "/ip6/2001:db8::1/tcp/443").unwrap();
    let name_len = q.qname.serialize().len();
    assert_eq!(&r[name_len..name_len + 10], &[0, 28, 0, 1, 0, 0, 1, 44, 0, 16]);
    let mut octets = [0u8; 16];
    octets[0] = 0x20;
    octets[1] = 0x01;
    octets[2] = 0x0d;
    octets[3] = 0xb8;
    octets[15] = 1;
    assert_eq!(&r[name_len + 10..], &octets);
}

#[test]
fn address_family_mismatch_gives_nothing() {
    let a = DnsQuestion { qname: DnsName::from("a.eth".to_string()), qtype: 1, qclass: 1 };
    let aaaa = DnsQuestion { qname: DnsName::from("a.eth".to_string()), qtype: 28, qclass: 1 };
    assert_eq!(answer_for(&a, "/ip6/::1/tcp/1"), None);
    assert_eq!(answer_for(&aaaa, "/ip4/1.2.3.4/tcp/1"), None);
    assert_eq!(answer_for(&a, "not a multiaddr"), None);
    assert_eq!(answer_for(&a, "/dns4/example.com/tcp/1"), None);
    let packet = generate_dns_response_packet(vec![a.clone()], request_header(1), vec![Some("garbage".to_string())]);
    assert_eq!(packet.len(), 12 + a.serialize().len());
    let bare = generate_dns_response_packet(vec![a.clone()], request_header(1), vec![Some("/ip4/1.2.3.4".to_string())]);
    assert_eq!(bare.len(), 12 + a.serialize().len());
    assert_eq!(DnsHeader::parse(&bare).unwrap().1.an_count, 0);
}

#[test]
fn address_record_errors() {
    let q = DnsQuestion { qname: DnsName::from("a".to_string()), qtype: 1, qclass: 1 };
    let err = "nope".parse::<multiaddr::Multiaddr>().unwrap_err();
    assert!(matches!(address_record(&q, Err(err)), Err(DnsError::InvalidMultiaddr(Some(_)))));
    assert!(matches!(address_record(&q, Ok((1, AddrHead::Ip4([1, 2, 3, 4])))), Err(DnsError::InvalidMultiaddr(None))));
    assert!(matches!(address_record(&q, Ok((2, AddrHead::Other))), Err(DnsError::InvalidMultiaddr(None))));
    assert!(matches!(address_record(&q, Ok((3, AddrHead::Ip6([0; 16])))), Err(DnsError::InvalidMultiaddr(None))));
    let ok = address_record(&q, Ok((2, AddrHead::Ip4([10, 0, 0, 1])))).unwrap();
    assert_eq!(&ok[ok.len() - 6..], &[0, 4, 10, 0, 0, 1]);
}

#[test]
fn query_parsing() {
    let q1 = txt_question("a.eth");
    let q2 = DnsQuestion { qname: DnsName::from("b".to_string()), qtype: 1, qclass: 1 };
    let mut data = request_header(2).serialize();
    data.extend_from_slice(&q1.serialize());
    data.extend_from_slice(&q2.serialize());
    let (h, qs) = parse_dns_query(&data).unwrap();
    assert_eq!(h.qd_count, 2);
    assert_eq!(qs, vec![q1.clone(), q2]);
    assert!(parse_dns_query(&data[..5]).is_none());
}

#[test]
fn question_parsing_stops_at_first_failure() {
    let q1 = txt_question("a.eth");
    let mut data = q1.serialize();
    data.extend_from_slice(&[3, b'x']);
    let qs = parse_questions(&data, 3);
    assert_eq!(qs, vec![q1.clone()]);
    assert_eq!(parse_questions(&data, 0), vec![]);
    let mut header = request_header(3).serialize();
    header.extend_from_slice(&data);
    let (_, qs) = parse_dns_query(&header).unwrap();
    let packet = generate_dns_response_packet(qs, request_header(3), vec![None]);
    assert_eq!(DnsHeader::parse(&packet).unwrap().1.qd_count, 1);
}

#[test]
fn service_selection() {
    let services = ens_record_services();
    assert_eq!(services.len(), 17);
    assert_eq!(services[11], DnsName::from("com.github".to_string()));
    let txt = DnsQuestion { qname: DnsName::from("avatar.alice.eth".to_string()), qtype: 16, qclass: 1 };
    assert_eq!(resolution_request(&txt, &services), Some(("avatar.alice.eth".to_string(), "avatar".to_string())));
    let gh = DnsQuestion { qname: DnsName::from("com.github.bob.eth".to_string()), qtype: 16, qclass: 1 };
    assert_eq!(resolution_request(&gh, &services), Some(("com.github.bob.eth".to_string(), "com.github".to_string())));
    let bare = DnsQuestion { qname: DnsName::from("email".to_string()), qtype: 16, qclass: 1 };
    assert_eq!(resolution_request(&bare, &services), Some((String::new(), "email".to_string())));
    let trailing = DnsQuestion { qname: DnsName::from("bob.eth.avatar".to_string()), qtype: 16, qclass: 1 };
    assert_eq!(resolution_request(&trailing, &services), None);
    let none = DnsQuestion { qname: DnsName::from("bob.eth".to_string()), qtype: 16, qclass: 1 };
    assert_eq!(resolution_request(&none, &services), None);
    let a = DnsQuestion { qname: DnsName::from("bob.eth".to_string()), qtype: 1, qclass: 1 };
    assert_eq!(resolution_request(&a, &services), Some(("bob.eth".to_string(), "A".to_string())));
    let aaaa = DnsQuestion { qname: DnsName::from("bob.eth.AAAA".to_string()), qtype: 28, qclass: 1 };
    assert_eq!(resolution_request(&aaaa, &services), Some(("bob.eth".to_string(), "AAAA".to_string())));
}

#[test]
fn resolved_values() {
    assert_eq!(resolved_answer(Some("v".to_string())), Some("v".to_string()));
    assert_eq!(resolved_answer(Some(String::new())), None);
    assert_eq!(resolved_answer(None), None);
}
