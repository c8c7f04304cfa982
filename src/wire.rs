//! The fixed 12-byte DNS header, its bit-packed flags word, and the codec
//! contract shared by every wire type.

use vstd::prelude::*;

verus! {

/// Why bytes could not be read as a wire value.
#[derive(Debug, Clone, Copy, PartialEq, Eq, Structural)]
pub enum ParseError {
    /// The input ended before the value did.
    Incomplete,
    /// A label's bytes are not valid UTF-8.
    InvalidLabel,
}

/// A value with a binary wire form: `parse` reads one from the front of a
/// byte string and hands back what follows it; `serialize` never fails.
pub trait Parseable: Sized + View {
    /// The value at the front of `input` and the bytes after it, or `None`
    /// where `input` does not start with one.
    spec fn parse_spec(input: Seq<u8>) -> Option<(Seq<u8>, Self::V)>;

    /// The wire form of a value.
    spec fn serialize_spec(v: Self::V) -> Seq<u8>;

    fn parse(input: &[u8]) -> (r: Result<(&[u8], Self), ParseError>)
        ensures
            match r {
                Ok((rest, v)) => Self::parse_spec(input@) == Some((rest@, v@)),
                Err(_) => Self::parse_spec(input@) is None,
            },
    ;

    fn serialize(&self) -> (r: Vec<u8>)
        ensures
            r@ == Self::serialize_spec(self@),
    ;
}

/// Big-endian bytes of a 16-bit integer.
pub open spec fn be16(x: u16) -> Seq<u8> {
    seq![(x / 256) as u8, (x % 256) as u8]
}

/// The 16-bit integer whose big-endian bytes are `hi`, `lo`.
pub open spec fn from_be16(hi: u8, lo: u8) -> u16 {
    (hi as u16 * 256 + lo as u16) as u16
}

/// Big-endian bytes of a 32-bit integer.
pub open spec fn be32(x: u32) -> Seq<u8> {
    seq![(x / 0x1000000) as u8, (x / 0x10000 % 256) as u8, (x / 256 % 256) as u8, (x % 256) as u8]
}

/// Appends `src[start..end]` to `dst`.
pub(crate) fn extend_bytes(dst: &mut Vec<u8>, src: &[u8], start: usize, end: usize)
    requires
        start <= end <= src@.len(),
    ensures
        final(dst)@ == old(dst)@ + src@.subrange(start as int, end as int),
{
    let ghost d0 = dst@;
    let mut i: usize = start;
    while i < end
        invariant
            start <= i <= end <= src@.len(),
            dst@ == d0 + src@.subrange(start as int, i as int),
        decreases end - i,
    {
        dst.push(src[i]);
        i = i + 1;
        assert(dst@ =~= d0 + src@.subrange(start as int, i as int));
    }
}

pub(crate) fn u16_bytes(x: u16) -> (r: [u8; 2])
    ensures
        r@ == be16(x),
{
    let r = [(x / 256) as u8, (x % 256) as u8];
    assert(r@ =~= be16(x));
    r
}

pub(crate) fn u32_bytes(x: u32) -> (r: [u8; 4])
    ensures
        r@ == be32(x),
{
    let r = [(x / 0x1000000) as u8, (x / 0x10000 % 256) as u8, (x / 256 % 256) as u8, (x % 256) as u8];
    assert(r@ =~= be32(x));
    r
}

/// Appends the big-endian bytes of `x`.
pub(crate) fn push_u16(dst: &mut Vec<u8>, x: u16)
    ensures
        final(dst)@ == old(dst)@ + be16(x),
{
    let b = u16_bytes(x);
    dst.push(b[0]);
    dst.push(b[1]);
    assert(dst@ =~= old(dst)@ + be16(x));
}

/// Appends the big-endian bytes of `x`.
pub(crate) fn push_u32(dst: &mut Vec<u8>, x: u32)
    ensures
        final(dst)@ == old(dst)@ + be32(x),
{
    let b = u32_bytes(x);
    dst.push(b[0]);
    dst.push(b[1]);
    dst.push(b[2]);
    dst.push(b[3]);
    assert(dst@ =~= old(dst)@ + be32(x));
}

pub(crate) fn read_u16(hi: u8, lo: u8) -> (r: u16)
    ensures
        r == from_be16(hi, lo),
{
    hi as u16 * 256 + lo as u16
}

proof fn lemma_be16_round_trip(x: u16)
    ensures
        from_be16(be16(x)[0], be16(x)[1]) == x,
{
}

/// The operation a message asks for. Codes other than a standard query are
/// kept by value, so that any 4-bit code survives a round trip.
#[derive(Debug, Clone, Copy, PartialEq, Eq, Structural)]
pub enum Opcode {
    Query,
    Other(u16),
}

impl Opcode {
    /// The numeric code of this operation.
    pub open spec fn code(self) -> u16 {
        match self {
            Opcode::Query => 0,
            Opcode::Other(c) => c,
        }
    }

    /// This value is what reading its own code off the wire gives: the code
    /// fits in 4 bits, and `Other` never holds the code of `Query`.
    pub open spec fn wire_valid(self) -> bool {
        match self {
            Opcode::Query => true,
            Opcode::Other(c) => 1 <= c <= 15,
        }
    }
}

/// The operation that a numeric code names.
pub open spec fn opcode_of(code: u16) -> Opcode {
    if code == 0 {
        Opcode::Query
    } else {
        Opcode::Other(code)
    }
}

impl From<u16> for Opcode {
    fn from(code: u16) -> Opcode {
        if code == 0 {
            Opcode::Query
        } else {
            Opcode::Other(code)
        }
    }
}

impl vstd::std_specs::convert::FromSpecImpl<u16> for Opcode {
    open spec fn obeys_from_spec() -> bool {
        true
    }

    open spec fn from_spec(code: u16) -> Opcode {
        opcode_of(code)
    }
}

impl From<Opcode> for u16 {
    fn from(code: Opcode) -> u16 {
        match code {
            Opcode::Query => 0,
            Opcode::Other(c) => c,
        }
    }
}

impl vstd::std_specs::convert::FromSpecImpl<Opcode> for u16 {
    open spec fn obeys_from_spec() -> bool {
        true
    }

    open spec fn from_spec(code: Opcode) -> u16 {
        code.code()
    }
}

/// The outcome a response reports. Codes without a name are kept by value.
#[derive(Debug, Clone, Copy, PartialEq, Eq, Structural)]
pub enum RCode {
    NoError,
    FormatError,
    ServerFailure,
    Other(u16),
}

impl RCode {
    /// The numeric code of this outcome.
    pub open spec fn code(self) -> u16 {
        match self {
            RCode::NoError => 0,
            RCode::FormatError => 1,
            RCode::ServerFailure => 2,
            RCode::Other(c) => c,
        }
    }

    /// The code fits in 4 bits, and `Other` never holds a named code.
    pub open spec fn wire_valid(self) -> bool {
        match self {
            RCode::Other(c) => 3 <= c <= 15,
            _ => true,
        }
    }
}

/// The outcome that a numeric code names.
pub open spec fn rcode_of(code: u16) -> RCode {
    if code == 0 {
        RCode::NoError
    } else if code == 1 {
        RCode::FormatError
    } else if code == 2 {
        RCode::ServerFailure
    } else {
        RCode::Other(code)
    }
}

impl From<u16> for RCode {
    fn from(code: u16) -> RCode {
        if code == 0 {
            RCode::NoError
        } else if code == 1 {
            RCode::FormatError
        } else if code == 2 {
            RCode::ServerFailure
        } else {
            RCode::Other(code)
        }
    }
}

impl vstd::std_specs::convert::FromSpecImpl<u16> for RCode {
    open spec fn obeys_from_spec() -> bool {
        true
    }

    open spec fn from_spec(code: u16) -> RCode {
        rcode_of(code)
    }
}

impl From<RCode> for u16 {
    fn from(code: RCode) -> u16 {
        match code {
            RCode::NoError => 0,
            RCode::FormatError => 1,
            RCode::ServerFailure => 2,
            RCode::Other(c) => c,
        }
    }
}

impl vstd::std_specs::convert::FromSpecImpl<RCode> for u16 {
    open spec fn obeys_from_spec() -> bool {
        true
    }

    open spec fn from_spec(code: RCode) -> u16 {
        code.code()
    }
}

/// The flags word of a header.
#[derive(Debug, Clone, Copy, PartialEq, Eq, Structural)]
pub struct DnsFlags {
    /// Query (false) or response (true).
    pub qr: bool,
    pub opcode: Opcode,
    /// Authoritative answer.
    pub aa: bool,
    /// Truncation.
    pub tc: bool,
    /// Recursion desired.
    pub rd: bool,
    /// Recursion available.
    pub ra: bool,
    pub rcode: RCode,
}

impl View for DnsFlags {
    type V = DnsFlags;

    open spec fn view(&self) -> DnsFlags {
        *self
    }
}

pub open spec fn bit(b: bool) -> u16 {
    if b {
        1
    } else {
        0
    }
}

/// The 16-bit flags word, most significant bit first:
/// `qr(1) opcode(4) aa(1) tc(1) rd(1) ra(1) z(3, zero) rcode(4)`.
pub open spec fn flags_word(f: DnsFlags) -> u16 {
    (bit(f.qr) << 15u16) | ((f.opcode.code() & 0xf) << 11u16) | (bit(f.aa) << 10u16) | (bit(f.tc)
        << 9u16) | (bit(f.rd) << 8u16) | (bit(f.ra) << 7u16) | (f.rcode.code() & 0xf)
}

/// The flags that a 16-bit word holds; the three reserved bits are ignored.
pub open spec fn flags_of_word(w: u16) -> DnsFlags {
    DnsFlags {
        qr: w & 0x8000 != 0,
        opcode: opcode_of((w & 0x7800) >> 11u16),
        aa: w & 0x0400 != 0,
        tc: w & 0x0200 != 0,
        rd: w & 0x0100 != 0,
        ra: w & 0x0080 != 0,
        rcode: rcode_of(w & 0x000f),
    }
}

impl DnsFlags {
    /// Both codes are what reading them back off the wire gives.
    pub open spec fn wire_valid(self) -> bool {
        self.opcode.wire_valid() && self.rcode.wire_valid()
    }

    pub fn from_word(w: u16) -> (r: DnsFlags)
        ensures
            r == flags_of_word(w),
    {
        DnsFlags {
            qr: w & 0x8000 != 0,
            opcode: Opcode::from((w & 0x7800) >> 11u16),
            aa: w & 0x0400 != 0,
            tc: w & 0x0200 != 0,
            rd: w & 0x0100 != 0,
            ra: w & 0x0080 != 0,
            rcode: RCode::from(w & 0x000f),
        }
    }

    pub fn to_word(&self) -> (r: u16)
        ensures
            r == flags_word(*self),
    {
        let qr: u16 = if self.qr { 1 } else { 0 };
        let aa: u16 = if self.aa { 1 } else { 0 };
        let tc: u16 = if self.tc { 1 } else { 0 };
        let rd: u16 = if self.rd { 1 } else { 0 };
        let ra: u16 = if self.ra { 1 } else { 0 };
        (qr << 15u16) | ((u16::from(self.opcode) & 0xf) << 11u16) | (aa << 10u16) | (tc << 9u16)
            | (rd << 8u16) | (ra << 7u16) | (u16::from(self.rcode) & 0xf)
    }
}

impl Parseable for DnsFlags {
    /// Two bytes, read as a big-endian flags word.
    open spec fn parse_spec(input: Seq<u8>) -> Option<(Seq<u8>, DnsFlags)> {
        if input.len() < 2 {
            None
        } else {
            Some((input.skip(2), flags_of_word(from_be16(input[0], input[1]))))
        }
    }

    open spec fn serialize_spec(v: DnsFlags) -> Seq<u8> {
        be16(flags_word(v))
    }

    fn parse(input: &[u8]) -> (r: Result<(&[u8], DnsFlags), ParseError>) {
        if input.len() < 2 {
            return Err(ParseError::Incomplete);
        }
        let w = read_u16(input[0], input[1]);
        let (_, rest) = input.split_at(2);
        assert(rest@ =~= input@.skip(2));
        Ok((rest, DnsFlags::from_word(w)))
    }

    fn serialize(&self) -> (r: Vec<u8>) {
        let b = u16_bytes(self.to_word());
        let mut r: Vec<u8> = Vec::new();
        r.push(b[0]);
        r.push(b[1]);
        assert(r@ =~= be16(flags_word(*self)));
        r
    }
}

proof fn lemma_flags_bits(w: u16, qr: u16, op: u16, aa: u16, tc: u16, rd: u16, ra: u16, rc: u16)
    by (bit_vector)
    requires
        qr <= 1,
        op <= 15,
        aa <= 1,
        tc <= 1,
        rd <= 1,
        ra <= 1,
        rc <= 15,
        w == (qr << 15u16) | ((op & 0xf) << 11u16) | (aa << 10u16) | (tc << 9u16) | (rd << 8u16)
            | (ra << 7u16) | (rc & 0xf),
    ensures
        (w & 0x8000 != 0) == (qr == 1),
        (w & 0x7800) >> 11u16 == op,
        (w & 0x0400 != 0) == (aa == 1),
        (w & 0x0200 != 0) == (tc == 1),
        (w & 0x0100 != 0) == (rd == 1),
        (w & 0x0080 != 0) == (ra == 1),
        w & 0x000f == rc,
{
}

/// Packing flags into a word and reading them back gives the same flags,
/// for every combination of the bits and every code that fits in 4 bits.
pub proof fn lemma_flags_round_trip(f: DnsFlags)
    requires
        f.wire_valid(),
    ensures
        flags_of_word(flags_word(f)) == f,
        DnsFlags::parse_spec(DnsFlags::serialize_spec(f)) == Some((Seq::<u8>::empty(), f)),
{
    lemma_flags_bits(
        flags_word(f),
        bit(f.qr),
        f.opcode.code(),
        bit(f.aa),
        bit(f.tc),
        bit(f.rd),
        bit(f.ra),
        f.rcode.code(),
    );
    lemma_be16_round_trip(flags_word(f));
    assert(be16(flags_word(f)).skip(2) =~= Seq::<u8>::empty());
}

/// The fixed 12-byte message header.
#[derive(Debug, Clone, Copy, PartialEq, Eq, Structural)]
pub struct DnsHeader {
    pub id: u16,
    pub flags: DnsFlags,
    pub qd_count: u16,
    pub an_count: u16,
    pub ns_count: u16,
    pub ar_count: u16,
}

impl View for DnsHeader {
    type V = DnsHeader;

    open spec fn view(&self) -> DnsHeader {
        *self
    }
}

impl Parseable for DnsHeader {
    /// Six big-endian words: id, flags, and the four section counts.
    open spec fn parse_spec(input: Seq<u8>) -> Option<(Seq<u8>, DnsHeader)> {
        if input.len() < 12 {
            None
        } else {
            Some(
                (
                    input.skip(12),
                    DnsHeader {
                        id: from_be16(input[0], input[1]),
                        flags: flags_of_word(from_be16(input[2], input[3])),
                        qd_count: from_be16(input[4], input[5]),
                        an_count: from_be16(input[6], input[7]),
                        ns_count: from_be16(input[8], input[9]),
                        ar_count: from_be16(input[10], input[11]),
                    },
                ),
            )
        }
    }

    /// The id, flags, question count and answer count; the authority and
    /// additional counts are always written as zero.
    open spec fn serialize_spec(h: DnsHeader) -> Seq<u8> {
        be16(h.id) + be16(flags_word(h.flags)) + be16(h.qd_count) + be16(h.an_count) + seq![
            0u8,
            0u8,
            0u8,
            0u8,
        ]
    }

    fn parse(input: &[u8]) -> (r: Result<(&[u8], DnsHeader), ParseError>) {
        if input.len() < 12 {
            return Err(ParseError::Incomplete);
        }
        let id = read_u16(input[0], input[1]);
        let (_, rest) = input.split_at(2);
        let (flags_rest, flags) = match DnsFlags::parse(rest) {
            Ok(p) => p,
            Err(e) => return Err(e),
        };
        assert(flags_rest@ =~= input@.skip(4));
        let qd_count = read_u16(input[4], input[5]);
        let an_count = read_u16(input[6], input[7]);
        let ns_count = read_u16(input[8], input[9]);
        let ar_count = read_u16(input[10], input[11]);
        let (_, rest) = input.split_at(12);
        assert(rest@ =~= input@.skip(12));
        Ok((rest, DnsHeader { id, flags, qd_count, an_count, ns_count, ar_count }))
    }

    fn serialize(&self) -> (r: Vec<u8>) {
        let mut r: Vec<u8> = Vec::new();
        let id = u16_bytes(self.id);
        r.push(id[0]);
        r.push(id[1]);
        let flags = self.flags.serialize();
        r.push(flags[0]);
        r.push(flags[1]);
        let qd = u16_bytes(self.qd_count);
        r.push(qd[0]);
        r.push(qd[1]);
        let an = u16_bytes(self.an_count);
        r.push(an[0]);
        r.push(an[1]);
        r.push(0);
        r.push(0);
        r.push(0);
        r.push(0);
        assert(r@ =~= DnsHeader::serialize_spec(*self));
        r
    }
}

/// Writing a header and reading it back gives the same header, for every
/// header whose flags are wire-valid and whose authority and additional
/// counts are zero; whatever follows the header is left untouched.
pub proof fn lemma_header_round_trip(h: DnsHeader, rest: Seq<u8>)
    requires
        h.flags.wire_valid(),
        h.ns_count == 0,
        h.ar_count == 0,
    ensures
        DnsHeader::parse_spec(DnsHeader::serialize_spec(h) + rest) == Some((rest, h)),
{
    let b = DnsHeader::serialize_spec(h) + rest;
    lemma_flags_round_trip(h.flags);
    lemma_be16_round_trip(h.id);
    lemma_be16_round_trip(flags_word(h.flags));
    lemma_be16_round_trip(h.qd_count);
    lemma_be16_round_trip(h.an_count);
    assert(b.skip(12) =~= rest);
    assert(b[0] == be16(h.id)[0] && b[1] == be16(h.id)[1]);
    assert(b[2] == be16(flags_word(h.flags))[0] && b[3] == be16(flags_word(h.flags))[1]);
    assert(b[4] == be16(h.qd_count)[0] && b[5] == be16(h.qd_count)[1]);
    assert(b[6] == be16(h.an_count)[0] && b[7] == be16(h.an_count)[1]);
    assert(b[8] == 0 && b[9] == 0 && b[10] == 0 && b[11] == 0);
}

} // verus!
