//! Building the response to a query: the header, the echoed questions, and
//! one answer record per resolved value, as TXT, A or AAAA data.

use vstd::prelude::*;
use vstd::utf8::encode_utf8;
use crate::name::{name_wire, question_wire, DnsQuestion, QuestionView};
use crate::wire::{be16, be32, extend_bytes, push_u16, push_u32, DnsFlags, DnsHeader, Opcode, Parseable, RCode};

verus! {

/// Record type of a host address.
pub const TYPE_A: u16 = 1;

/// Record type of text strings.
pub const TYPE_TXT: u16 = 16;

/// Record type of an IPv6 host address.
pub const TYPE_AAAA: u16 = 28;

/// The Internet class.
pub const CLASS_IN: u16 = 1;

/// Seconds that a resolver may cache an answer.
pub const ANSWER_TTL: u32 = 300;

/// The first protocol of a multiaddress, as far as an address record needs it.
#[derive(Debug, Clone, Copy, PartialEq, Eq)]
pub enum AddrHead {
    Ip4([u8; 4]),
    Ip6([u8; 16]),
    Other,
}

#[verifier::external_type_specification]
#[verifier::external_body]
pub struct ExMultiaddrError(multiaddr::Error);

/// The number of protocols of a multiaddress string and its first
/// protocol, or `None` where the string is not a multiaddress.
pub uninterp spec fn multiaddr_head(s: Seq<char>) -> Option<(usize, AddrHead)>;

/// Relies on multiaddr's `Multiaddr::from_str` and `Multiaddr::iter` (its
/// protocols in order, counted and the first one read): both depend on the
/// string alone.
#[verifier::external_body]
fn parse_multiaddr(s: &str) -> (r: Result<(usize, AddrHead), multiaddr::Error>)
    ensures
        match r {
            Ok(v) => multiaddr_head(s@) == Some(v),
            Err(_) => multiaddr_head(s@) is None,
        },
{
    let m = s.parse::<multiaddr::Multiaddr>()?;
    let head = match m.iter().next() {
        Some(multiaddr::Protocol::Ip4(a)) => AddrHead::Ip4(a.octets()),
        Some(multiaddr::Protocol::Ip6(a)) => AddrHead::Ip6(a.octets()),
        _ => AddrHead::Other,
    };
    Ok((m.iter().count(), head))
}

/// Why a resolved value gives no address record.
#[derive(Debug)]
pub enum DnsError {
    /// The value is not a multiaddress (with the parser's error), has fewer
    /// than two protocols, or its first protocol is not the address family
    /// that the record type asks for.
    InvalidMultiaddr(Option<multiaddr::Error>),
}

/// The address bytes that an A or AAAA record carries for a parsed
/// multiaddress: it must have at least 2 protocols, the first being IPv4
/// for A and IPv6 for AAAA.
pub open spec fn address_rdata(qtype: u16, head: Option<(usize, AddrHead)>) -> Option<Seq<u8>> {
    match head {
        Some((count, AddrHead::Ip4(o))) => if qtype == TYPE_A && count >= 2 {
            Some(o@)
        } else {
            None
        },
        Some((count, AddrHead::Ip6(o))) => if qtype == TYPE_AAAA && count >= 2 {
            Some(o@)
        } else {
            None
        },
        _ => None,
    }
}

pub open spec fn ok_value<T, E>(r: Result<T, E>) -> Option<T> {
    match r {
        Ok(v) => Some(v),
        Err(_) => None,
    }
}

/// A resource record: owner name, type, class IN, TTL, data length, data.
pub open spec fn resource_record(name: Seq<Seq<u8>>, rtype: u16, rdlength: u16, rdata: Seq<u8>) -> Seq<u8> {
    name_wire(name) + be16(rtype) + be16(CLASS_IN) + be32(ANSWER_TTL) + be16(rdlength) + rdata
}

/// A TXT record holding one string: its length byte, then its bytes. The
/// length byte and the data length wrap for strings over 254 bytes.
pub open spec fn txt_record(name: Seq<Seq<u8>>, text: Seq<u8>) -> Seq<u8> {
    resource_record(
        name,
        TYPE_TXT,
        ((text.len() + 1) % 65536) as u16,
        seq![(text.len() % 256) as u8] + text,
    )
}

/// The record that answers question `q` with the resolved value `a`: a TXT
/// record of its UTF-8 bytes, an A or AAAA record of the address it holds,
/// or none (another record type, or no address of the right family).
pub open spec fn answer_record(q: QuestionView, a: Seq<char>) -> Option<Seq<u8>> {
    if q.qtype == TYPE_TXT {
        Some(txt_record(q.qname, encode_utf8(a)))
    } else if q.qtype == TYPE_A || q.qtype == TYPE_AAAA {
        match address_rdata(q.qtype, multiaddr_head(a)) {
            Some(o) => Some(resource_record(q.qname, q.qtype, o.len() as u16, o)),
            None => None,
        }
    } else {
        None
    }
}

/// A resolved value as its text.
pub open spec fn opt_text(a: Option<String>) -> Option<Seq<char>> {
    match a {
        Some(s) => Some(s@),
        None => None,
    }
}

/// The record for one question and what the provider gave for it, if any.
pub open spec fn record_for(q: QuestionView, a: Option<Seq<char>>) -> Option<Seq<u8>> {
    match a {
        Some(t) => answer_record(q, t),
        None => None,
    }
}

/// The first `n` questions on the wire, in order.
pub open spec fn questions_wire(qs: Seq<QuestionView>, n: int) -> Seq<u8>
    decreases n,
{
    if n <= 0 {
        Seq::empty()
    } else {
        questions_wire(qs, n - 1) + question_wire(qs[n - 1])
    }
}

/// The answer records for the first `n` questions, in order.
pub open spec fn answers_wire(qs: Seq<QuestionView>, ans: Seq<Option<Seq<char>>>, n: int) -> Seq<u8>
    decreases n,
{
    if n <= 0 {
        Seq::empty()
    } else {
        answers_wire(qs, ans, n - 1) + match record_for(qs[n - 1], ans[n - 1]) {
            Some(r) => r,
            None => Seq::empty(),
        }
    }
}

/// How many of the first `n` questions get an answer record.
pub open spec fn answers_count(qs: Seq<QuestionView>, ans: Seq<Option<Seq<char>>>, n: int) -> nat
    decreases n,
{
    if n <= 0 {
        0
    } else {
        answers_count(qs, ans, n - 1) + if record_for(qs[n - 1], ans[n - 1]) is Some {
            1nat
        } else {
            0nat
        }
    }
}

/// The header of a response: a standard-query response with recursion
/// available and no error, which keeps the request's id and recursion-desired
/// bit and counts `qd` questions and `an` answers.
pub open spec fn response_header(request: DnsHeader, qd: nat, an: nat) -> DnsHeader {
    DnsHeader {
        id: request.id,
        flags: DnsFlags {
            qr: true,
            opcode: Opcode::Query,
            aa: false,
            tc: false,
            rd: request.flags.rd,
            ra: true,
            rcode: RCode::NoError,
        },
        qd_count: qd as u16,
        an_count: an as u16,
        ns_count: 0,
        ar_count: 0,
    }
}

/// The response to `request` with questions `qs`, where `ans[i]` is what the
/// provider gave for `qs[i]`: the header, the questions, then the answers.
pub open spec fn response_packet(
    request: DnsHeader,
    qs: Seq<QuestionView>,
    ans: Seq<Option<Seq<char>>>,
) -> Seq<u8> {
    DnsHeader::serialize_spec(response_header(request, qs.len(), answers_count(qs, ans, qs.len() as int)))
        + questions_wire(qs, qs.len() as int) + answers_wire(qs, ans, qs.len() as int)
}

/// Appends the fields that every record for `question` starts with: its
/// name, type `rtype`, class IN and the TTL.
fn push_record_head(dst: &mut Vec<u8>, question: &DnsQuestion, rtype: u16)
    ensures
        final(dst)@ == old(dst)@ + name_wire(question.qname@) + be16(rtype) + be16(CLASS_IN) + be32(
            ANSWER_TTL,
        ),
{
    let name = question.qname.serialize();
    extend_bytes(dst, name.as_slice(), 0, name.len());
    assert(name@.subrange(0, name@.len() as int) =~= name@);
    push_u16(dst, rtype);
    push_u16(dst, CLASS_IN);
    push_u32(dst, ANSWER_TTL);
}

/// The TXT record that answers `question` with `text`.
pub fn txt_answer(question: &DnsQuestion, text: &str) -> (r: Vec<u8>)
    ensures
        r@ == txt_record(question.qname@, encode_utf8(text@)),
{
    let b = text.as_bytes();
    let mut r: Vec<u8> = Vec::new();
    push_record_head(&mut r, question, TYPE_TXT);
    push_u16(&mut r, ((b.len() % 65536 + 1) % 65536) as u16);
    r.push((b.len() % 256) as u8);
    extend_bytes(&mut r, b, 0, b.len());
    assert(b@.subrange(0, b@.len() as int) =~= b@);
    assert(((b@.len() % 65536 + 1) % 65536) == ((b@.len() + 1) % 65536));
    assert(r@ =~= txt_record(question.qname@, encode_utf8(text@)));
    r
}

/// The A or AAAA record that answers `question` from a parsed multiaddress
/// (`parsed` is what the multiaddress parser gave for the resolved value:
/// its number of protocols and its first protocol).
pub fn address_record(question: &DnsQuestion, parsed: Result<(usize, AddrHead), multiaddr::Error>) -> (r:
    Result<Vec<u8>, DnsError>)
    ensures
        r is Ok <==> address_rdata(question.qtype, ok_value(parsed)) is Some,
        r matches Ok(v) ==> {
            let o = address_rdata(question.qtype, ok_value(parsed)).unwrap();
            v@ == resource_record(question.qname@, question.qtype, o.len() as u16, o)
        },
{
    let (count, head) = match parsed {
        Ok(p) => p,
        Err(e) => {
            return Err(DnsError::InvalidMultiaddr(Some(e)));
        },
    };
    if count < 2 {
        return Err(DnsError::InvalidMultiaddr(None));
    }
    let mut r: Vec<u8> = Vec::new();
    match head {
        AddrHead::Ip4(o) => {
            if question.qtype != TYPE_A {
                return Err(DnsError::InvalidMultiaddr(None));
            }
            push_record_head(&mut r, question, question.qtype);
            push_u16(&mut r, 4);
            extend_bytes(&mut r, &o, 0, 4);
            assert(o@.subrange(0, 4) =~= o@);
        },
        AddrHead::Ip6(o) => {
            if question.qtype != TYPE_AAAA {
                return Err(DnsError::InvalidMultiaddr(None));
            }
            push_record_head(&mut r, question, question.qtype);
            push_u16(&mut r, 16);
            extend_bytes(&mut r, &o, 0, 16);
            assert(o@.subrange(0, 16) =~= o@);
        },
        AddrHead::Other => {
            return Err(DnsError::InvalidMultiaddr(None));
        },
    }
    Ok(r)
}

/// The record that answers `question` with the resolved value `answer`, if
/// its record type has one.
pub fn answer_for(question: &DnsQuestion, answer: &str) -> (r: Option<Vec<u8>>)
    ensures
        match r {
            Some(v) => answer_record(question@, answer@) == Some(v@),
            None => answer_record(question@, answer@) is None,
        },
{
    if question.qtype == TYPE_TXT {
        Some(txt_answer(question, answer))
    } else if question.qtype == TYPE_A || question.qtype == TYPE_AAAA {
        match address_record(question, parse_multiaddr(answer)) {
            Ok(v) => Some(v),
            Err(_) => None,
        }
    } else {
        None
    }
}

/// Builds the response to the request header `request_header` with
/// `questions`, where `answers[i]` is what the answer provider gave for
/// `questions[i]`: the header (see `response_header`), every question echoed,
/// then one record per answer that its record type can carry.
pub fn generate_dns_response_packet(
    questions: Vec<DnsQuestion>,
    request_header: DnsHeader,
    answers: Vec<Option<String>>,
) -> (r: Vec<u8>)
    requires
        questions@.len() == answers@.len(),
        questions@.len() <= 0xffff,
    ensures
        r@ == response_packet(
            request_header,
            questions@.map_values(|q: DnsQuestion| q@),
            answers@.map_values(|a: Option<String>| opt_text(a)),
        ),
{
    let ghost qs = questions@.map_values(|q: DnsQuestion| q@);
    let ghost ans = answers@.map_values(|a: Option<String>| opt_text(a));
    let n = questions.len();
    let mut body: Vec<u8> = Vec::new();
    let mut i: usize = 0;
    while i < n
        invariant
            n == questions@.len(),
            qs == questions@.map_values(|q: DnsQuestion| q@),
            i <= n,
            body@ == questions_wire(qs, i as int),
        decreases n - i,
    {
        let w = questions[i].serialize();
        extend_bytes(&mut body, w.as_slice(), 0, w.len());
        assert(w@.subrange(0, w@.len() as int) =~= w@);
        i = i + 1;
        assert(body@ =~= questions_wire(qs, i as int));
    }
    let mut an_count: u16 = 0;
    let mut j: usize = 0;
    while j < n
        invariant
            n == questions@.len(),
            n == answers@.len(),
            n <= 0xffff,
            qs == questions@.map_values(|q: DnsQuestion| q@),
            ans == answers@.map_values(|a: Option<String>| opt_text(a)),
            j <= n,
            body@ == questions_wire(qs, n as int) + answers_wire(qs, ans, j as int),
            an_count as nat == answers_count(qs, ans, j as int),
            an_count <= j,
        decreases n - j,
    {
        let ghost b0 = body@;
        match &answers[j] {
            Some(a) => {
                match answer_for(&questions[j], a.as_str()) {
                    Some(rec) => {
                        extend_bytes(&mut body, rec.as_slice(), 0, rec.len());
                        assert(rec@.subrange(0, rec@.len() as int) =~= rec@);
                        an_count = an_count + 1;
                    },
                    None => {
                        assert(body@ =~= b0 + Seq::<u8>::empty());
                    },
                }
            },
            None => {
                assert(body@ =~= b0 + Seq::<u8>::empty());
            },
        }
        j = j + 1;
        assert(body@ =~= questions_wire(qs, n as int) + answers_wire(qs, ans, j as int));
    }
    let header = DnsHeader {
        id: request_header.id,
        flags: DnsFlags {
            qr: true,
            opcode: Opcode::Query,
            aa: false,
            tc: false,
            rd: request_header.flags.rd,
            ra: true,
            rcode: RCode::NoError,
        },
        qd_count: n as u16,
        an_count,
        ns_count: 0,
        ar_count: 0,
    };
    assert(header == response_header(request_header, qs.len(), answers_count(qs, ans, qs.len() as int)));
    let mut r = header.serialize();
    extend_bytes(&mut r, body.as_slice(), 0, body.len());
    assert(body@.subrange(0, body@.len() as int) =~= body@);
    assert(r@ =~= response_packet(request_header, qs, ans));
    r
}

/// The first `n` questions at the front of `b`, read one after another;
/// reading stops at the first that cannot be read.
pub open spec fn parsed_questions(b: Seq<u8>, n: nat) -> Seq<QuestionView>
    decreases n,
{
    if n == 0 {
        Seq::empty()
    } else {
        match DnsQuestion::parse_spec(b) {
            None => Seq::empty(),
            Some((rest, q)) => seq![q] + parsed_questions(rest, (n - 1) as nat),
        }
    }
}

/// Reads up to `qd_count` questions from the front of `data`, stopping at
/// the first one that cannot be read.
pub fn parse_questions(data: &[u8], qd_count: u16) -> (r: Vec<DnsQuestion>)
    ensures
        r@.map_values(|q: DnsQuestion| q@) == parsed_questions(data@, qd_count as nat),
{
    let mut questions: Vec<DnsQuestion> = Vec::new();
    let mut rest: &[u8] = data;
    let mut k: u16 = 0;
    while k < qd_count
        invariant
            k <= qd_count,
            parsed_questions(data@, qd_count as nat) == questions@.map_values(|q: DnsQuestion| q@)
                + parsed_questions(rest@, (qd_count - k) as nat),
        decreases qd_count - k,
    {
        let ghost before = questions@.map_values(|q: DnsQuestion| q@);
        match DnsQuestion::parse(rest) {
            Ok((next, q)) => {
                let ghost qv = q@;
                questions.push(q);
                assert(questions@.map_values(|q: DnsQuestion| q@) =~= before.push(qv));
                assert(before + (seq![qv] + parsed_questions(next@, (qd_count - k - 1) as nat))
                    =~= before.push(qv) + parsed_questions(next@, (qd_count - k - 1) as nat));
                rest = next;
            },
            Err(_) => {
                assert(before + Seq::<QuestionView>::empty() =~= before);
                return questions;
            },
        }
        k = k + 1;
    }
    assert(questions@.map_values(|q: DnsQuestion| q@) + Seq::<QuestionView>::empty()
        =~= questions@.map_values(|q: DnsQuestion| q@));
    questions
}

/// Reads a query packet: its header, then the questions it announces, as
/// far as they can be read. `None` where the header cannot be read, in which
/// case no response is sent.
pub fn parse_dns_query(data: &[u8]) -> (r: Option<(DnsHeader, Vec<DnsQuestion>)>)
    ensures
        r is None <==> DnsHeader::parse_spec(data@) is None,
        r matches Some((h, qs)) ==> h == DnsHeader::parse_spec(data@).unwrap().1
            && qs@.map_values(|q: DnsQuestion| q@) == parsed_questions(
            DnsHeader::parse_spec(data@).unwrap().0,
            h.qd_count as nat,
        ),
{
    match DnsHeader::parse(data) {
        Ok((rest, header)) => {
            let questions = parse_questions(rest, header.qd_count);
            Some((header, questions))
        },
        Err(_) => None,
    }
}

/// A response to a request without questions is the header alone, 12 bytes.
pub proof fn lemma_zero_question_packet(request: DnsHeader)
    ensures
        response_packet(request, Seq::empty(), Seq::empty()).len() == 12,
        response_packet(request, Seq::empty(), Seq::empty()) == DnsHeader::serialize_spec(
            response_header(request, 0, 0),
        ),
{
    let p = response_packet(request, Seq::empty(), Seq::empty());
    assert(p =~= DnsHeader::serialize_spec(response_header(request, 0, 0)));
}

/// Where the provider gives no value for any question, the response counts
/// no answers and holds only the header and the echoed questions.
pub proof fn lemma_unanswered_packet(request: DnsHeader, qs: Seq<QuestionView>, ans: Seq<Option<Seq<char>>>)
    requires
        qs.len() == ans.len(),
        forall|i: int| 0 <= i < ans.len() ==> (#[trigger] ans[i]) is None,
    ensures
        response_header(request, qs.len(), answers_count(qs, ans, qs.len() as int)).an_count == 0,
        response_packet(request, qs, ans) == DnsHeader::serialize_spec(response_header(request, qs.len(), 0))
            + questions_wire(qs, qs.len() as int),
{
    lemma_no_records(qs, ans, qs.len() as int);
    assert(response_packet(request, qs, ans) =~= DnsHeader::serialize_spec(
        response_header(request, qs.len(), 0),
    ) + questions_wire(qs, qs.len() as int));
}

proof fn lemma_no_records(qs: Seq<QuestionView>, ans: Seq<Option<Seq<char>>>, n: int)
    requires
        n <= ans.len(),
        forall|i: int| 0 <= i < ans.len() ==> (#[trigger] ans[i]) is None,
    ensures
        answers_count(qs, ans, n) == 0,
        answers_wire(qs, ans, n) == Seq::<u8>::empty(),
    decreases n,
{
    if n > 0 {
        lemma_no_records(qs, ans, n - 1);
        assert(ans[n - 1] is None);
        assert(answers_wire(qs, ans, n) =~= Seq::<u8>::empty());
    }
}

} // verus!
