//! Which ENS name and text-record key a question asks for: the record type
//! picks the key for addresses, and otherwise the first known service whose
//! labels start the query name.

use vstd::prelude::*;
use vstd::utf8::encode_utf8;
use crate::name::{is_leading, is_suffix, name_text, split_dots, DnsName, DnsQuestion, QuestionView};
use crate::response::{TYPE_A, TYPE_AAAA};

verus! {

/// The labels that a dotted text spells.
pub open spec fn labels_of(text: Seq<char>) -> Seq<Seq<u8>> {
    split_dots(encode_utf8(text))
}

/// The ENS text-record keys that questions may ask for, in order of
/// precedence.
pub open spec fn ens_service_texts() -> Seq<Seq<char>> {
    seq![
        "_atproto"@,
        "avatar"@,
        "description"@,
        "display"@,
        "email"@,
        "keywords"@,
        "mail"@,
        "notice"@,
        "location"@,
        "phone"@,
        "url"@,
        "com.github"@,
        "com.peepeth"@,
        "com.linkedin"@,
        "com.twitter"@,
        "io.keybase"@,
        "org.telegram"@,
    ]
}

/// The table of known services, as names.
pub fn ens_record_services() -> (r: Vec<DnsName>)
    ensures
        r@.map_values(|n: DnsName| n@) == ens_service_texts().map_values(|t: Seq<char>| labels_of(t)),
{
    let texts = [
        "_atproto",
        "avatar",
        "description",
        "display",
        "email",
        "keywords",
        "mail",
        "notice",
        "location",
        "phone",
        "url",
        "com.github",
        "com.peepeth",
        "com.linkedin",
        "com.twitter",
        "io.keybase",
        "org.telegram",
    ];
    assert(texts@.map_values(|t: &str| t@) =~= ens_service_texts());
    let mut r: Vec<DnsName> = Vec::new();
    let mut i: usize = 0;
    while i < texts.len()
        invariant
            texts@.map_values(|t: &str| t@) == ens_service_texts(),
            i <= texts@.len(),
            r@.map_values(|n: DnsName| n@) == ens_service_texts().take(i as int).map_values(
                |t: Seq<char>| labels_of(t),
            ),
        decreases texts@.len() - i,
    {
        let ghost before = r@.map_values(|n: DnsName| n@);
        assert(texts@[i as int]@ == ens_service_texts()[i as int]);
        let n = DnsName::from_text(texts[i]);
        let ghost nv = n@;
        r.push(n);
        assert(r@.map_values(|n: DnsName| n@) =~= before.push(nv));
        assert(ens_service_texts().take(i as int + 1).map_values(|t: Seq<char>| labels_of(t))
            =~= ens_service_texts().take(i as int).map_values(|t: Seq<char>| labels_of(t)).push(nv));
        i = i + 1;
        assert(r@.map_values(|n: DnsName| n@) =~= ens_service_texts().take(i as int).map_values(
            |t: Seq<char>| labels_of(t),
        ));
    }
    assert(ens_service_texts().take(17) =~= ens_service_texts());
    r
}

/// The position of the first service whose labels start `name`, or -1.
pub open spec fn first_service(services: Seq<Seq<Seq<u8>>>, name: Seq<Seq<u8>>) -> int
    decreases services.len(),
{
    if services.len() == 0 {
        -1
    } else if is_leading(services[0], name) {
        0
    } else {
        let r = first_service(services.drop_first(), name);
        if r < 0 {
            -1
        } else {
            r + 1
        }
    }
}

/// The service a question belongs to: the key `A` or `AAAA` for address
/// questions, otherwise the first known service whose labels start its name.
pub open spec fn service_of(q: QuestionView, services: Seq<Seq<Seq<u8>>>) -> Option<Seq<Seq<u8>>> {
    if q.qtype == TYPE_A {
        Some(labels_of("A"@))
    } else if q.qtype == TYPE_AAAA {
        Some(labels_of("AAAA"@))
    } else if first_service(services, q.qname) < 0 {
        None
    } else {
        Some(services[first_service(services, q.qname)])
    }
}

/// The ENS name and the record key to resolve for a question: the name is
/// the query name less the service's labels where they end it, and both go
/// to text; `None` where no service fits or a label has no text.
pub open spec fn resolution_target(q: QuestionView, services: Seq<Seq<Seq<u8>>>) -> Option<(Seq<char>, Seq<char>)> {
    match service_of(q, services) {
        None => None,
        Some(svc) => {
            let name = if is_suffix(svc, q.qname) {
                q.qname.take(q.qname.len() - svc.len())
            } else {
                q.qname
            };
            match (name_text(name), name_text(svc)) {
                (Some(n), Some(f)) => Some((n, f)),
                _ => None,
            }
        },
    }
}

/// The first service in `services` whose labels start `name`.
fn find_service(services: &Vec<DnsName>, name: &DnsName) -> (r: Option<usize>)
    ensures
        r is None <==> first_service(services@.map_values(|n: DnsName| n@), name@) < 0,
        r matches Some(i) ==> i == first_service(services@.map_values(|n: DnsName| n@), name@) && i
            < services@.len(),
{
    let ghost ss = services@.map_values(|n: DnsName| n@);
    let mut i: usize = 0;
    assert(ss.skip(0) =~= ss);
    while i < services.len()
        invariant
            ss == services@.map_values(|n: DnsName| n@),
            i <= ss.len(),
            first_service(ss, name@) == if first_service(ss.skip(i as int), name@) < 0 {
                -1
            } else {
                first_service(ss.skip(i as int), name@) + i
            },
        decreases ss.len() - i,
    {
        assert(ss.skip(i as int)[0] == services@[i as int]@);
        if services[i].is_label_of(name) {
            return Some(i);
        }
        assert(ss.skip(i as int).drop_first() =~= ss.skip(i as int + 1));
        i = i + 1;
    }
    None
}

/// The ENS name and record key that the answer provider resolves for
/// `question`, as texts (see `resolution_target`).
pub fn resolution_request(question: &DnsQuestion, services: &Vec<DnsName>) -> (r: Option<(String, String)>)
    ensures
        match r {
            Some((n, f)) => resolution_target(question@, services@.map_values(|s: DnsName| s@)) == Some(
                (n@, f@),
            ),
            None => resolution_target(question@, services@.map_values(|s: DnsName| s@)) is None,
        },
{
    let ghost ss = services@.map_values(|s: DnsName| s@);
    let address_service;
    let svc: &DnsName = if question.qtype == TYPE_A {
        address_service = DnsName::from_text("A");
        &address_service
    } else if question.qtype == TYPE_AAAA {
        address_service = DnsName::from_text("AAAA");
        &address_service
    } else {
        match find_service(services, &question.qname) {
            Some(i) => &services[i],
            None => {
                return None;
            },
        }
    };
    assert(service_of(question@, ss) == Some(svc@));
    let stripped = question.qname.remove_prefix_labels(svc);
    let name_text = match &stripped {
        Some(n) => n.punycode_decode(),
        None => question.qname.punycode_decode(),
    };
    let name_text = match name_text {
        Some(t) => t,
        None => {
            return None;
        },
    };
    let field_text = match svc.punycode_decode() {
        Some(t) => t,
        None => {
            return None;
        },
    };
    Some((name_text, field_text))
}

/// What the provider's resolved value answers: nothing where resolution
/// failed or gave an empty value.
pub fn resolved_answer(value: Option<String>) -> (r: Option<String>)
    ensures
        match value {
            Some(v) => if v@.len() > 0 {
                r == Some(v)
            } else {
                r is None
            },
            None => r is None,
        },
{
    match value {
        Some(v) => if v.as_str().is_empty() {
            None
        } else {
            Some(v)
        },
        None => None,
    }
}

} // verus!
