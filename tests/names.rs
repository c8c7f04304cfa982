use ens_dns::name::{DnsLabel, DnsName};

fn name(s: &str) -> DnsName {
    DnsName::from(s.to_string())
}

#[test]
fn from_splits_on_dots() {
    let n = name("foo.bar.eth");
    let labels: Vec<Vec<u8>> = n.labels.iter().map(|l| l.label.clone()).collect();
    assert_eq!(labels, vec![b"foo".to_vec(), b"bar".to_vec(), b"eth".to_vec()]);
    assert_eq!(name("").labels.len(), 1);
    assert_eq!(name("a..b").labels.len(), 3);
}

#[test]
fn suffix_matching() {
    assert!(!name("avatar.alice.eth").is_label_of(&name("avatar")));
    assert!(name("avatar").is_label_of(&name("avatar.alice.eth")));
    assert!(name("avatar.alice").is_label_of(&name("avatar.alice.eth")));
    assert!(name("avatar.alice.eth").is_label_of(&name("avatar.alice.eth")));
    assert!(!name("alice.eth").is_label_of(&name("avatar.alice.eth")));
    assert!(!name("eth").is_label_of(&name("avatar.alice.eth")));
    assert!(!name("alice").is_label_of(&name("avatar.alice.eth")));
    assert!(DnsName { labels: vec![] }.is_label_of(&name("x.y")));
    assert_eq!(name("avatar.alice.eth").remove_prefix_labels(&name("avatar")), None);
}

#[test]
fn remove_prefix_labels_strips_suffix() {
    let stripped = name("avatar.alice.eth").remove_prefix_labels(&name("eth")).unwrap();
    assert_eq!(stripped, name("avatar.alice"));
    assert_eq!(name("avatar.alice.eth").remove_prefix_labels(&name("avatar")), None);
    let all = name("alice.eth").remove_prefix_labels(&name("alice.eth")).unwrap();
    assert!(all.labels.is_empty());
    assert_eq!(name("eth").remove_prefix_labels(&name("alice.eth")), None);
}

#[test]
fn punycode_label_decodes() {
    let l = DnsLabel::from("xn--mnchen-3ya".to_string());
    assert_eq!(l.punycode_decode(), Some("münchen".to_string()));
    let plain = DnsLabel::from("eth".to_string());
    assert_eq!(plain.punycode_decode(), Some("eth".to_string()));
}

#[test]
fn punycode_label_failures() {
    let bad_utf8 = DnsLabel { label: vec![0xff, 0xfe] };
    assert_eq!(bad_utf8.punycode_decode(), None);
    let bad_puny = DnsLabel { label: b"xn--a-".to_vec() };
    let _ = bad_puny.punycode_decode();
    let non_ascii = DnsLabel { label: "xn--ü".as_bytes().to_vec() };
    assert_eq!(non_ascii.punycode_decode(), None);
}

#[test]
fn name_punycode_decode_joins_labels() {
    assert_eq!(name("xn--mnchen-3ya.eth").punycode_decode(), Some("münchen.eth".to_string()));
    assert_eq!(name("alice.eth").punycode_decode(), Some("alice.eth".to_string()));
    assert_eq!(DnsName { labels: vec![] }.punycode_decode(), Some(String::new()));
    let broken = DnsName { labels: vec![DnsLabel::from("ok".to_string()), DnsLabel { label: vec![0xc3] }] };
    assert_eq!(broken.punycode_decode(), None);
}
