//! Labels and names: their wire form, the suffix relation between names, and
//! their text form, including punycode for internationalised labels.

use vstd::prelude::*;
use vstd::utf8::{decode_utf8, encode_utf8, valid_utf8};
use vstd::string::StringExecFns;
use crate::wire::{be16, extend_bytes, from_be16, read_u16, u16_bytes, ParseError, Parseable};

verus! {

/// The text that an ASCII-compatible punycode string decodes to, or `None`
/// where it is not valid punycode.
pub uninterp spec fn punycode_decoded(s: Seq<char>) -> Option<Seq<char>>;

/// Relies on punycode::decode: its result depends on the input string alone.
#[verifier::external_body]
fn punycode_to_unicode(s: &str) -> (r: Option<String>)
    ensures
        match r {
            Some(t) => punycode_decoded(s@) == Some(t@),
            None => punycode_decoded(s@) is None,
        },
{
    punycode::decode(s).ok()
}

/// Relies on String::from_utf8: it succeeds exactly on valid UTF-8, and then
/// holds the characters that the bytes encode.
#[verifier::external_body]
fn string_from_utf8(b: Vec<u8>) -> (r: Option<String>)
    ensures
        r is Some <==> valid_utf8(b@),
        r matches Some(t) ==> t@ == decode_utf8(b@),
{
    String::from_utf8(b).ok()
}

/// The byte `.` that separates labels in text.
pub const DOT: u8 = 0x2e;

/// The pieces of a byte string between its `.` bytes, left to right; an
/// empty string is one empty piece.
pub open spec fn split_dots(b: Seq<u8>) -> Seq<Seq<u8>>
    decreases b.len(),
{
    if b.len() == 0 {
        seq![Seq::<u8>::empty()]
    } else {
        let prev = split_dots(b.drop_last());
        if b.last() == DOT {
            prev.push(Seq::<u8>::empty())
        } else {
            prev.update(prev.len() - 1, prev.last().push(b.last()))
        }
    }
}

/// The ACE prefix `xn--` of a punycode label.
pub open spec fn ace_prefix() -> Seq<u8> {
    seq![0x78u8, 0x6eu8, 0x2du8, 0x2du8]
}

/// The text of a label: after an `xn--` prefix, the punycode decoding of the
/// rest; otherwise the label's bytes read as UTF-8.
pub open spec fn label_text(l: Seq<u8>) -> Option<Seq<char>> {
    if l.len() >= 4 && l.take(4) == ace_prefix() {
        if valid_utf8(l.skip(4)) {
            punycode_decoded(decode_utf8(l.skip(4)))
        } else {
            None
        }
    } else if valid_utf8(l) {
        Some(decode_utf8(l))
    } else {
        None
    }
}

/// Texts joined with `.` between them.
pub open spec fn join_dots(parts: Seq<Seq<char>>) -> Seq<char>
    decreases parts.len(),
{
    if parts.len() == 0 {
        Seq::empty()
    } else if parts.len() == 1 {
        parts[0]
    } else {
        join_dots(parts.drop_last()) + seq!['.'] + parts.last()
    }
}

/// The text of a name: the texts of its labels joined with `.`, or `None`
/// where a label has none.
pub open spec fn name_text(ls: Seq<Seq<u8>>) -> Option<Seq<char>> {
    if forall|i: int| 0 <= i < ls.len() ==> (#[trigger] label_text(ls[i])) is Some {
        Some(join_dots(ls.map_values(|l: Seq<u8>| label_text(l).unwrap())))
    } else {
        None
    }
}

/// A label on the wire: a length byte, then the bytes.
pub open spec fn label_wire(l: Seq<u8>) -> Seq<u8> {
    seq![(l.len() % 256) as u8] + l
}

/// Labels on the wire, each after its length byte, then a zero byte.
pub open spec fn name_wire(ls: Seq<Seq<u8>>) -> Seq<u8>
    decreases ls.len(),
{
    if ls.len() == 0 {
        seq![0u8]
    } else {
        label_wire(ls[0]) + name_wire(ls.drop_first())
    }
}

/// The labels at the front of `b` up to and including an empty label, and
/// what follows them; `None` where the input ends first or a label is not
/// valid UTF-8.
pub open spec fn name_parse(b: Seq<u8>) -> Option<(Seq<u8>, Seq<Seq<u8>>)>
    decreases b.len(),
{
    if b.len() == 0 {
        None
    } else if b.len() < 1 + b[0] as int {
        None
    } else if !valid_utf8(b.subrange(1, 1 + b[0] as int)) {
        None
    } else if b[0] == 0 {
        Some((b.skip(1), Seq::empty()))
    } else {
        match name_parse(b.skip(1 + b[0] as int)) {
            None => None,
            Some((rest, ls)) => Some((rest, seq![b.subrange(1, 1 + b[0] as int)] + ls)),
        }
    }
}

/// `prefix` is a leading run of the labels of `name`.
pub open spec fn is_leading(prefix: Seq<Seq<u8>>, name: Seq<Seq<u8>>) -> bool {
    prefix.len() <= name.len() && name.take(prefix.len() as int) == prefix
}

/// `suffix` is a trailing run of the labels of `name`.
pub open spec fn is_suffix(suffix: Seq<Seq<u8>>, name: Seq<Seq<u8>>) -> bool {
    suffix.len() <= name.len() && name.skip(name.len() - suffix.len()) == suffix
}

/// One label of a domain name: a byte string, at most 255 bytes on the wire.
#[derive(Debug, PartialEq, Eq, Hash, Clone)]
pub struct DnsLabel {
    pub label: Vec<u8>,
}

impl View for DnsLabel {
    type V = Seq<u8>;

    open spec fn view(&self) -> Seq<u8> {
        self.label@
    }
}

impl From<String> for DnsLabel {
    /// The bytes of the text; `DnsLabel::from_text` states the result.
    fn from(label: String) -> DnsLabel {
        DnsLabel::from_text(label.as_str())
    }
}

impl vstd::std_specs::convert::FromSpecImpl<String> for DnsLabel {
    open spec fn obeys_from_spec() -> bool {
        false
    }

    open spec fn from_spec(label: String) -> DnsLabel {
        vstd::pervasive::arbitrary()
    }
}

impl DnsLabel {
    /// The label whose bytes are the UTF-8 form of `text`.
    pub fn from_text(text: &str) -> (r: DnsLabel)
        ensures
            r@ == encode_utf8(text@),
    {
        let b = text.as_bytes();
        let mut label: Vec<u8> = Vec::new();
        extend_bytes(&mut label, b, 0, b.len());
        assert(label@ =~= encode_utf8(text@));
        DnsLabel { label }
    }

    /// A label with the same bytes.
    pub fn duplicate(&self) -> (r: DnsLabel)
        ensures
            r@ == self@,
    {
        let mut label: Vec<u8> = Vec::new();
        extend_bytes(&mut label, self.label.as_slice(), 0, self.label.len());
        assert(label@ =~= self@);
        DnsLabel { label }
    }

    /// The text of this label: punycode-decoded after an `xn--` prefix,
    /// otherwise its bytes as UTF-8; `None` where that fails.
    pub fn punycode_decode(&self) -> (r: Option<String>)
        ensures
            match r {
                Some(t) => label_text(self@) == Some(t@),
                None => label_text(self@) is None,
            },
    {
        let l = self.label.as_slice();
        if l.len() >= 4 && l[0] == 0x78 && l[1] == 0x6e && l[2] == 0x2d && l[3] == 0x2d {
            assert(l@.take(4) =~= ace_prefix());
            let mut tail: Vec<u8> = Vec::new();
            extend_bytes(&mut tail, l, 4, l.len());
            assert(tail@ =~= l@.skip(4));
            match string_from_utf8(tail) {
                Some(t) => punycode_to_unicode(t.as_str()),
                None => None,
            }
        } else {
            assert(!(l@.len() >= 4 && l@.take(4) == ace_prefix())) by {
                if l@.len() >= 4 && l@.take(4) == ace_prefix() {
                    assert(l@[0] == l@.take(4)[0]);
                    assert(l@[1] == l@.take(4)[1]);
                    assert(l@[2] == l@.take(4)[2]);
                    assert(l@[3] == l@.take(4)[3]);
                }
            }
            let mut bytes: Vec<u8> = Vec::new();
            extend_bytes(&mut bytes, l, 0, l.len());
            assert(bytes@ =~= l@);
            string_from_utf8(bytes)
        }
    }
}

impl Parseable for DnsLabel {
    /// A length byte, then that many bytes, which must be valid UTF-8.
    open spec fn parse_spec(input: Seq<u8>) -> Option<(Seq<u8>, Seq<u8>)> {
        if input.len() == 0 || input.len() < 1 + input[0] as int {
            None
        } else if !valid_utf8(input.subrange(1, 1 + input[0] as int)) {
            None
        } else {
            Some((input.skip(1 + input[0] as int), input.subrange(1, 1 + input[0] as int)))
        }
    }

    /// The length byte holds the length modulo 256.
    open spec fn serialize_spec(l: Seq<u8>) -> Seq<u8> {
        label_wire(l)
    }

    fn parse(input: &[u8]) -> (r: Result<(&[u8], DnsLabel), ParseError>) {
        if input.len() == 0 || input.len() < 1 + input[0] as usize {
            return Err(ParseError::Incomplete);
        }
        let end = 1 + input[0] as usize;
        let mut probe: Vec<u8> = Vec::new();
        extend_bytes(&mut probe, input, 1, end);
        if string_from_utf8(probe).is_none() {
            return Err(ParseError::InvalidLabel);
        }
        let mut label: Vec<u8> = Vec::new();
        extend_bytes(&mut label, input, 1, end);
        let (_, rest) = input.split_at(end);
        Ok((rest, DnsLabel { label }))
    }

    fn serialize(&self) -> (r: Vec<u8>) {
        let mut r: Vec<u8> = Vec::new();
        r.push((self.label.len() % 256) as u8);
        extend_bytes(&mut r, self.label.as_slice(), 0, self.label.len());
        assert(r@ =~= label_wire(self@));
        r
    }
}

/// A domain name: its labels, most significant first (`foo.bar.eth` is
/// `[foo, bar, eth]`).
#[derive(Debug, PartialEq, Eq, Clone)]
pub struct DnsName {
    pub labels: Vec<DnsLabel>,
}

impl View for DnsName {
    type V = Seq<Seq<u8>>;

    open spec fn view(&self) -> Seq<Seq<u8>> {
        self.labels@.map_values(|l: DnsLabel| l@)
    }
}

impl From<String> for DnsName {
    /// The name that the text spells; `DnsName::from_text` states the result.
    fn from(name: String) -> DnsName {
        DnsName::from_text(name.as_str())
    }
}

impl vstd::std_specs::convert::FromSpecImpl<String> for DnsName {
    open spec fn obeys_from_spec() -> bool {
        false
    }

    open spec fn from_spec(name: String) -> DnsName {
        vstd::pervasive::arbitrary()
    }
}

impl DnsName {
    /// The name whose labels are the pieces of `text` between its dots, in
    /// UTF-8; an empty text gives one empty label.
    pub fn from_text(text: &str) -> (r: DnsName)
        ensures
            r@ == split_dots(encode_utf8(text@)),
    {
        let b = text.as_bytes();
        let ghost bs = b@;
        let mut labels: Vec<DnsLabel> = Vec::new();
        let mut cur: Vec<u8> = Vec::new();
        let mut i: usize = 0;
        assert(bs.take(0) =~= Seq::<u8>::empty());
        assert(labels@.map_values(|l: DnsLabel| l@).push(cur@) =~= split_dots(bs.take(0)));
        while i < b.len()
            invariant
                b@ == bs,
                i <= bs.len(),
                labels@.map_values(|l: DnsLabel| l@).push(cur@) == split_dots(bs.take(i as int)),
            decreases bs.len() - i,
        {
            let ghost before = labels@.map_values(|l: DnsLabel| l@);
            assert(bs.take(i as int + 1).drop_last() =~= bs.take(i as int));
            if b[i] == DOT {
                let done = DnsLabel { label: cur };
                labels.push(done);
                cur = Vec::new();
                assert(labels@.map_values(|l: DnsLabel| l@) =~= before.push(done@));
            } else {
                cur.push(b[i]);
            }
            i = i + 1;
            assert(labels@.map_values(|l: DnsLabel| l@).push(cur@) =~= split_dots(bs.take(i as int)));
        }
        assert(bs.take(bs.len() as int) =~= bs);
        let last = DnsLabel { label: cur };
        let ghost before = labels@.map_values(|l: DnsLabel| l@);
        labels.push(last);
        assert(labels@.map_values(|l: DnsLabel| l@) =~= before.push(last@));
        DnsName { labels }
    }

    /// This name's labels are the first labels of `other`, compared byte
    /// for byte (`avatar` is a label of `avatar.alice.eth`). An empty name is
    /// a label of every name.
    pub fn is_label_of(&self, other: &DnsName) -> (r: bool)
        ensures
            r == is_leading(self@, other@),
    {
        let n = self.labels.len();
        if n > other.labels.len() {
            return false;
        }
        let mut i: usize = 0;
        while i < n
            invariant
                n == self@.len(),
                n <= other@.len(),
                i <= n,
                forall|j: int| 0 <= j < i ==> self@[j] == other@[j],
            decreases n - i,
        {
            if !bytes_equal(&self.labels[i].label, &other.labels[i].label) {
                assert(other@.take(n as int)[i as int] != self@[i as int]);
                return false;
            }
            i = i + 1;
        }
        assert(other@.take(n as int) =~= self@);
        true
    }

    /// `suffix`'s labels are the last labels of this name, compared byte for
    /// byte.
    fn ends_with(&self, suffix: &DnsName) -> (r: bool)
        ensures
            r == is_suffix(suffix@, self@),
    {
        let n = suffix.labels.len();
        let m = self.labels.len();
        if n > m {
            return false;
        }
        let off = m - n;
        let mut i: usize = 0;
        while i < n
            invariant
                n == suffix@.len(),
                m == self@.len(),
                off == m - n,
                i <= n,
                forall|j: int| 0 <= j < i ==> suffix@[j] == self@[off + j],
            decreases n - i,
        {
            if !bytes_equal(&suffix.labels[i].label, &self.labels[off + i].label) {
                assert(self@.skip(off as int)[i as int] != suffix@[i as int]);
                return false;
            }
            i = i + 1;
        }
        assert(self@.skip(off as int) =~= suffix@);
        true
    }

    /// The labels of this name in front of `suffix`, where `suffix` is a
    /// trailing run of them (`[avatar, alice, eth]` less `[eth]` is
    /// `[avatar, alice]`); `None` where it is not.
    pub fn remove_prefix_labels(&self, suffix: &DnsName) -> (r: Option<DnsName>)
        ensures
            r is Some <==> is_suffix(suffix@, self@),
            r matches Some(n) ==> n@ == self@.take(self@.len() - suffix@.len()),
    {
        if !self.ends_with(suffix) {
            return None;
        }
        let keep = self.labels.len() - suffix.labels.len();
        let mut labels: Vec<DnsLabel> = Vec::new();
        let mut i: usize = 0;
        while i < keep
            invariant
                keep <= self@.len(),
                i <= keep,
                labels@.map_values(|l: DnsLabel| l@) == self@.take(i as int),
            decreases keep - i,
        {
            let ghost before = labels@.map_values(|l: DnsLabel| l@);
            let l = self.labels[i].duplicate();
            labels.push(l);
            assert(labels@.map_values(|l: DnsLabel| l@) =~= before.push(l@));
            i = i + 1;
            assert(labels@.map_values(|l: DnsLabel| l@) =~= self@.take(i as int));
        }
        Some(DnsName { labels })
    }

    /// The text of this name: the text of each label, joined with `.`;
    /// `None` where some label has no text.
    pub fn punycode_decode(&self) -> (r: Option<String>)
        ensures
            match r {
                Some(t) => name_text(self@) == Some(t@),
                None => name_text(self@) is None,
            },
    {
        let ghost ls = self@;
        let ghost texts = ls.map_values(|l: Seq<u8>| label_text(l).unwrap());
        let mut out = String::new();
        let mut i: usize = 0;
        while i < self.labels.len()
            invariant
                ls == self@,
                texts == ls.map_values(|l: Seq<u8>| label_text(l).unwrap()),
                i <= ls.len(),
                forall|j: int| 0 <= j < i ==> (#[trigger] label_text(ls[j])) is Some,
                out@ == join_dots(texts.take(i as int)),
            decreases ls.len() - i,
        {
            assert(ls[i as int] == self.labels@[i as int]@);
            let t = match self.labels[i].punycode_decode() {
                Some(t) => t,
                None => {
                    assert(label_text(ls[i as int]) is None);
                    return None;
                },
            };
            assert(texts.take(i as int + 1).drop_last() =~= texts.take(i as int));
            if i > 0 {
                proof {
                    reveal_strlit(".");
                }
                out.append(".");
            }
            out.append(t.as_str());
            i = i + 1;
            assert(texts.take(i as int).last() == t@);
            assert(out@ =~= join_dots(texts.take(i as int)));
        }
        assert(texts.take(ls.len() as int) =~= texts);
        Some(out)
    }
}

/// The two byte strings are equal.
pub fn bytes_equal(a: &Vec<u8>, b: &Vec<u8>) -> (r: bool)
    ensures
        r == (a@ == b@),
{
    if a.len() != b.len() {
        return false;
    }
    let mut i: usize = 0;
    while i < a.len()
        invariant
            a@.len() == b@.len(),
            i <= a@.len(),
            forall|j: int| 0 <= j < i ==> a@[j] == b@[j],
        decreases a@.len() - i,
    {
        if a[i] != b[i] {
            return false;
        }
        i = i + 1;
    }
    assert(a@ =~= b@);
    true
}

impl Parseable for DnsName {
    /// Length-prefixed labels up to a zero-length one, which ends the name
    /// and is not among its labels.
    open spec fn parse_spec(input: Seq<u8>) -> Option<(Seq<u8>, Seq<Seq<u8>>)> {
        name_parse(input)
    }

    /// Each label after its length byte, then a zero byte.
    open spec fn serialize_spec(ls: Seq<Seq<u8>>) -> Seq<u8> {
        name_wire(ls)
    }

    fn parse(input: &[u8]) -> (r: Result<(&[u8], DnsName), ParseError>) {
        let mut labels: Vec<DnsLabel> = Vec::new();
        let mut rest: &[u8] = input;
        loop
            invariant
                name_parse(input@) == match name_parse(rest@) {
                    None => None,
                    Some((after, ls)) => Some((after, labels@.map_values(|l: DnsLabel| l@) + ls)),
                },
            decreases rest@.len(),
        {
            let (next, label) = match DnsLabel::parse(rest) {
                Ok(p) => p,
                Err(e) => {
                    return Err(e);
                },
            };
            if label.label.len() == 0 {
                assert(labels@.map_values(|l: DnsLabel| l@) + Seq::<Seq<u8>>::empty() =~= labels@.map_values(
                    |l: DnsLabel| l@,
                ));
                return Ok((next, DnsName { labels }));
            }
            let ghost before = labels@.map_values(|l: DnsLabel| l@);
            let ghost l = label@;
            labels.push(label);
            assert(labels@.map_values(|l: DnsLabel| l@) =~= before.push(l));
            assert forall|ls: Seq<Seq<u8>>| before + (seq![l] + ls) == before.push(l) + ls by {
                assert(before + (seq![l] + ls) =~= before.push(l) + ls);
            }
            rest = next;
        }
    }

    fn serialize(&self) -> (r: Vec<u8>) {
        let ghost ls = self@;
        let mut r: Vec<u8> = Vec::new();
        let mut i: usize = 0;
        assert(ls.skip(0) =~= ls);
        while i < self.labels.len()
            invariant
                ls == self@,
                i <= ls.len(),
                r@ + name_wire(ls.skip(i as int)) == name_wire(ls),
            decreases ls.len() - i,
        {
            let ghost r0 = r@;
            let w = self.labels[i].serialize();
            assert(w@ == label_wire(ls[i as int]));
            extend_bytes(&mut r, w.as_slice(), 0, w.len());
            assert(w@.subrange(0, w@.len() as int) =~= w@);
            assert(ls.skip(i as int).drop_first() =~= ls.skip(i as int + 1));
            assert(r0 + name_wire(ls.skip(i as int)) =~= r@ + name_wire(ls.skip(i as int + 1)));
            i = i + 1;
        }
        r.push(0);
        assert(ls.skip(ls.len() as int) =~= Seq::<Seq<u8>>::empty());
        assert(r@ =~= name_wire(ls));
        r
    }
}

/// Writing a name whose labels are all non-empty, at most 255 bytes long
/// and valid UTF-8 (ASCII labels among them), and reading it back, gives the
/// same labels; whatever follows the name is left untouched.
pub proof fn lemma_name_round_trip(ls: Seq<Seq<u8>>, rest: Seq<u8>)
    requires
        forall|i: int| 0 <= i < ls.len() ==> 0 < (#[trigger] ls[i]).len() <= 255 && valid_utf8(ls[i]),
    ensures
        DnsName::parse_spec(DnsName::serialize_spec(ls) + rest) == Some((rest, ls)),
    decreases ls.len(),
{
    let b = name_wire(ls) + rest;
    if ls.len() == 0 {
        assert(b.skip(1) =~= rest);
        assert(b.subrange(1, 1) =~= Seq::<u8>::empty());
    } else {
        let tail = ls.drop_first();
        assert forall|i: int| 0 <= i < tail.len() implies 0 < (#[trigger] tail[i]).len() <= 255
            && valid_utf8(tail[i]) by {
            assert(tail[i] == ls[i + 1]);
        }
        lemma_name_round_trip(tail, rest);
        let n = ls[0].len() as int;
        assert(b[0] == n as u8);
        assert(b.skip(1 + n) =~= name_wire(tail) + rest);
        assert(b.subrange(1, 1 + n) =~= ls[0]);
        assert(seq![ls[0]] + tail =~= ls);
    }
}

/// A question as its parts' models.
pub struct QuestionView {
    pub qname: Seq<Seq<u8>>,
    pub qtype: u16,
    pub qclass: u16,
}

/// One entry of the question section: a name, a record type and a class.
#[derive(Debug, PartialEq, Eq, Clone)]
pub struct DnsQuestion {
    pub qname: DnsName,
    pub qtype: u16,
    pub qclass: u16,
}

impl View for DnsQuestion {
    type V = QuestionView;

    open spec fn view(&self) -> QuestionView {
        QuestionView { qname: self.qname@, qtype: self.qtype, qclass: self.qclass }
    }
}

/// A question on the wire: its name, then type and class as big-endian words.
pub open spec fn question_wire(q: QuestionView) -> Seq<u8> {
    name_wire(q.qname) + be16(q.qtype) + be16(q.qclass)
}

impl Parseable for DnsQuestion {
    open spec fn parse_spec(input: Seq<u8>) -> Option<(Seq<u8>, QuestionView)> {
        match name_parse(input) {
            None => None,
            Some((after, ls)) => if after.len() < 4 {
                None
            } else {
                Some(
                    (
                        after.skip(4),
                        QuestionView {
                            qname: ls,
                            qtype: from_be16(after[0], after[1]),
                            qclass: from_be16(after[2], after[3]),
                        },
                    ),
                )
            },
        }
    }

    open spec fn serialize_spec(q: QuestionView) -> Seq<u8> {
        question_wire(q)
    }

    fn parse(input: &[u8]) -> (r: Result<(&[u8], DnsQuestion), ParseError>) {
        let (after, qname) = match DnsName::parse(input) {
            Ok(p) => p,
            Err(e) => {
                return Err(e);
            },
        };
        if after.len() < 4 {
            return Err(ParseError::Incomplete);
        }
        let qtype = read_u16(after[0], after[1]);
        let qclass = read_u16(after[2], after[3]);
        let (_, rest) = after.split_at(4);
        Ok((rest, DnsQuestion { qname, qtype, qclass }))
    }

    fn serialize(&self) -> (r: Vec<u8>) {
        let mut r = self.qname.serialize();
        let t = u16_bytes(self.qtype);
        r.push(t[0]);
        r.push(t[1]);
        let c = u16_bytes(self.qclass);
        r.push(c[0]);
        r.push(c[1]);
        assert(r@ =~= question_wire(self@));
        r
    }
}

} // verus!
