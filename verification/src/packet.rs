//! The DNS message codec: header, question and record types with their
//! wire encodings over a 512-byte buffer.

use vstd::prelude::*;
use crate::DnsError;
use crate::buffer::{BytePacketBuffer, u16_be, u32_be};
use crate::ip::{IpV4, IpV6};
use crate::qname::{labels_fit, qname_bytes, spec_read_qname, spliced};

verus! {

/// The response code of a DNS header.
#[derive(Clone, Copy, Debug, PartialEq, Eq, Structural)]
pub enum ResultCode {
    NOERROR,
    FORMERR,
    SERVFAIL,
    NXDOMAIN,
    NOTIMP,
    REFUSED,
}

impl ResultCode {
    /// The code of a 4-bit field; unassigned values read as NOERROR.
    pub open spec fn spec_from_num(num: u8) -> ResultCode {
        if num == 1 {
            ResultCode::FORMERR
        } else if num == 2 {
            ResultCode::SERVFAIL
        } else if num == 3 {
            ResultCode::NXDOMAIN
        } else if num == 4 {
            ResultCode::NOTIMP
        } else if num == 5 {
            ResultCode::REFUSED
        } else {
            ResultCode::NOERROR
        }
    }

    /// The wire value of the code.
    pub open spec fn spec_to_num(self) -> u8 {
        match self {
            ResultCode::NOERROR => 0,
            ResultCode::FORMERR => 1,
            ResultCode::SERVFAIL => 2,
            ResultCode::NXDOMAIN => 3,
            ResultCode::NOTIMP => 4,
            ResultCode::REFUSED => 5,
        }
    }

    pub fn from_num(num: u8) -> (r: ResultCode)
        ensures
            r == ResultCode::spec_from_num(num),
    {
        match num {
            1 => ResultCode::FORMERR,
            2 => ResultCode::SERVFAIL,
            3 => ResultCode::NXDOMAIN,
            4 => ResultCode::NOTIMP,
            5 => ResultCode::REFUSED,
            _ => ResultCode::NOERROR,
        }
    }

    pub fn to_num(self) -> (r: u8)
        ensures
            r == self.spec_to_num(),
    {
        match self {
            ResultCode::NOERROR => 0,
            ResultCode::FORMERR => 1,
            ResultCode::SERVFAIL => 2,
            ResultCode::NXDOMAIN => 3,
            ResultCode::NOTIMP => 4,
            ResultCode::REFUSED => 5,
        }
    }
}

/// The type of a DNS question or record.
#[derive(Clone, Copy, Debug, PartialEq, Eq, Structural)]
pub enum QueryType {
    UNKNOWN(u16),
    A,
    NS,
    CNAME,
    MX,
    AAAA,
}

impl QueryType {
    /// The wire value of the type.
    pub open spec fn spec_to_num(self) -> u16 {
        match self {
            QueryType::UNKNOWN(x) => x,
            QueryType::A => 1,
            QueryType::NS => 2,
            QueryType::CNAME => 5,
            QueryType::MX => 15,
            QueryType::AAAA => 28,
        }
    }

    /// The type of a wire value; unassigned values keep their raw code.
    pub open spec fn spec_from_num(num: u16) -> QueryType {
        if num == 1 {
            QueryType::A
        } else if num == 2 {
            QueryType::NS
        } else if num == 5 {
            QueryType::CNAME
        } else if num == 15 {
            QueryType::MX
        } else if num == 28 {
            QueryType::AAAA
        } else {
            QueryType::UNKNOWN(num)
        }
    }

    pub fn to_num(self) -> (r: u16)
        ensures
            r == self.spec_to_num(),
    {
        match self {
            QueryType::UNKNOWN(x) => x,
            QueryType::A => 1,
            QueryType::NS => 2,
            QueryType::CNAME => 5,
            QueryType::MX => 15,
            QueryType::AAAA => 28,
        }
    }

    pub fn from_num(num: u16) -> (r: QueryType)
        ensures
            r == QueryType::spec_from_num(num),
    {
        match num {
            1 => QueryType::A,
            2 => QueryType::NS,
            5 => QueryType::CNAME,
            15 => QueryType::MX,
            28 => QueryType::AAAA,
            _ => QueryType::UNKNOWN(num),
        }
    }
}

/// The fixed 12-byte DNS header.
#[derive(Clone, Copy, Debug, PartialEq, Eq, Structural)]
pub struct DnsHeader {
    pub id: u16,
    pub recursion_desired: bool,
    pub truncated: bool,
    pub authoritative: bool,
    pub opcode: u8,
    pub response: bool,
    pub rescode: ResultCode,
    pub checking_disabled: bool,
    pub authed_data: bool,
    pub z: bool,
    pub recursion_available: bool,
    pub questions: u16,
    pub answers: u16,
    pub authoritative_entries: u16,
    pub resource_entries: u16,
}

/// `b` as 0 or 1.
pub open spec fn bit(b: bool) -> u8 {
    if b {
        1
    } else {
        0
    }
}

/// The two bytes of `v` big-endian.
pub open spec fn u16_bytes(v: u16) -> Seq<u8> {
    seq![(v / 256) as u8, (v % 256) as u8]
}

/// The four bytes of `v` big-endian.
pub open spec fn u32_bytes(v: u32) -> Seq<u8> {
    seq![
        (v / 0x1000000) as u8,
        ((v / 0x10000) % 256) as u8,
        ((v / 0x100) % 256) as u8,
        (v % 256) as u8,
    ]
}

impl DnsHeader {
    /// A header the emitter encodes without loss: a 4-bit opcode.
    pub open spec fn emit_ok(self) -> bool {
        self.opcode < 16
    }

    /// The third wire byte: recursion desired, truncation, authority,
    /// opcode, and the response flag.
    pub open spec fn flags_a(self) -> u8 {
        (bit(self.recursion_desired) + bit(self.truncated) * 2 + bit(self.authoritative) * 4
            + (self.opcode % 16) * 8 + bit(self.response) * 128) as u8
    }

    /// The fourth wire byte: the response code, checking disabled, authed
    /// data, and recursion available. The reserved bit is emitted as zero.
    pub open spec fn flags_b(self) -> u8 {
        (self.rescode.spec_to_num() + bit(self.checking_disabled) * 16 + bit(self.authed_data)
            * 32 + bit(self.recursion_available) * 128) as u8
    }

    /// The twelve wire bytes of the header.
    pub open spec fn wire_bytes(self) -> Seq<u8> {
        u16_bytes(self.id) + seq![self.flags_a(), self.flags_b()] + u16_bytes(self.questions)
            + u16_bytes(self.answers) + u16_bytes(self.authoritative_entries) + u16_bytes(
            self.resource_entries,
        )
    }

    /// The header read from twelve bytes at `pos` of `b`.
    pub open spec fn spec_read(b: Seq<u8>, pos: int) -> DnsHeader {
        let a = b[pos + 2];
        let bb = b[pos + 3];
        DnsHeader {
            id: u16_be(b, pos),
            recursion_desired: a % 2 == 1,
            truncated: (a / 2) % 2 == 1,
            authoritative: (a / 4) % 2 == 1,
            opcode: (a / 8) % 16,
            response: (a / 128) % 2 == 1,
            rescode: ResultCode::spec_from_num(bb % 16),
            checking_disabled: (bb / 16) % 2 == 1,
            authed_data: (bb / 32) % 2 == 1,
            z: (bb / 64) % 2 == 1,
            recursion_available: (bb / 128) % 2 == 1,
            questions: u16_be(b, pos + 4),
            answers: u16_be(b, pos + 6),
            authoritative_entries: u16_be(b, pos + 8),
            resource_entries: u16_be(b, pos + 10),
        }
    }

    /// Read a header at the cursor.
    pub fn read(buffer: &mut BytePacketBuffer) -> (r: Result<DnsHeader, DnsError>)
        requires
            old(buffer).wf(),
        ensures
            final(buffer).wf(),
            final(buffer).data() == old(buffer).data(),
            old(buffer).position() + 12 <= 512 ==> r is Ok && r->Ok_0 == DnsHeader::spec_read(
                old(buffer).data(),
                old(buffer).position(),
            ) && final(buffer).position() == old(buffer).position() + 12,
            old(buffer).position() + 12 > 512 ==> r == Err::<DnsHeader, DnsError>(
                DnsError::EndOfBuffer,
            ),
    {
        proof {
            old(buffer).lemma_wf();
        }
        if buffer.pos() + 12 > 512 {
            return Err(DnsError::EndOfBuffer);
        }
        let id = match buffer.read_u16() {
            Ok(v) => v,
            Err(e) => {
                return Err(e);
            },
        };
        let a = match buffer.read_u8() {
            Ok(v) => v,
            Err(e) => {
                return Err(e);
            },
        };
        let bb = match buffer.read_u8() {
            Ok(v) => v,
            Err(e) => {
                return Err(e);
            },
        };
        let questions = match buffer.read_u16() {
            Ok(v) => v,
            Err(e) => {
                return Err(e);
            },
        };
        let answers = match buffer.read_u16() {
            Ok(v) => v,
            Err(e) => {
                return Err(e);
            },
        };
        let authoritative_entries = match buffer.read_u16() {
            Ok(v) => v,
            Err(e) => {
                return Err(e);
            },
        };
        let resource_entries = match buffer.read_u16() {
            Ok(v) => v,
            Err(e) => {
                return Err(e);
            },
        };
        Ok(
            DnsHeader {
                id,
                recursion_desired: a % 2 == 1,
                truncated: (a / 2) % 2 == 1,
                authoritative: (a / 4) % 2 == 1,
                opcode: (a / 8) % 16,
                response: (a / 128) % 2 == 1,
                rescode: ResultCode::from_num(bb % 16),
                checking_disabled: (bb / 16) % 2 == 1,
                authed_data: (bb / 32) % 2 == 1,
                z: (bb / 64) % 2 == 1,
                recursion_available: (bb / 128) % 2 == 1,
                questions,
                answers,
                authoritative_entries,
                resource_entries,
            },
        )
    }

    /// The third wire byte, computed.
    fn flags_a_byte(&self) -> (a: u8)
        ensures
            a == self.flags_a(),
    {
        let mut a: u8 = 0;
        if self.recursion_desired {
            a = a + 1;
        }
        if self.truncated {
            a = a + 2;
        }
        if self.authoritative {
            a = a + 4;
        }
        a = a + (self.opcode % 16) * 8;
        if self.response {
            a = a + 128;
        }
        a
    }

    /// The fourth wire byte, computed with the reserved bit zero.
    fn flags_b_byte(&self) -> (bb: u8)
        ensures
            bb == self.flags_b(),
    {
        let mut bb: u8 = self.rescode.to_num();
        if self.checking_disabled {
            bb = bb + 16;
        }
        if self.authed_data {
            bb = bb + 32;
        }
        if self.recursion_available {
            bb = bb + 128;
        }
        bb
    }

    /// Write the header at the cursor, the reserved bit as zero.
    #[verifier::rlimit(100)]
    pub fn write(&self, buffer: &mut BytePacketBuffer) -> (r: Result<(), DnsError>)
        requires
            old(buffer).wf(),
        ensures
            final(buffer).wf(),
            r is Ok <==> old(buffer).position() + 12 <= 512,
            r is Ok ==> final(buffer).data() == spliced(
                old(buffer).data(),
                old(buffer).position(),
                self.wire_bytes(),
            ) && final(buffer).position() == old(buffer).position() + 12,
            r is Err ==> r->Err_0 == DnsError::EndOfBuffer,
    {
        proof {
            old(buffer).lemma_wf();
        }
        if buffer.pos() + 12 > 512 {
            return Err(DnsError::EndOfBuffer);
        }
        let ghost b0 = buffer.data();
        let ghost pos0 = buffer.position();
        let a = self.flags_a_byte();
        let bb = self.flags_b_byte();
        let r1 = buffer.write_u16(self.id);
        let r2 = buffer.write_u8(a);
        let r3 = buffer.write_u8(bb);
        let r4 = buffer.write_u16(self.questions);
        let r5 = buffer.write_u16(self.answers);
        let r6 = buffer.write_u16(self.authoritative_entries);
        let r7 = buffer.write_u16(self.resource_entries);
        proof {
            assert(r1 is Ok && r2 is Ok && r3 is Ok && r4 is Ok && r5 is Ok && r6 is Ok && r7
                is Ok);
            assert(final(buffer).data() =~= spliced(b0, pos0, self.wire_bytes()));
        }
        Ok(())
    }
}

/// A header reads back as written, the reserved bit cleared.
pub proof fn lemma_header_roundtrip(h: DnsHeader, b: Seq<u8>, pos: int)
    requires
        h.emit_ok(),
        b.len() == 512,
        0 <= pos,
        pos + 12 <= 512,
        b.subrange(pos, pos + 12) == h.wire_bytes(),
    ensures
        DnsHeader::spec_read(b, pos) == (DnsHeader { z: false, ..h }),
{
    let w = h.wire_bytes();
    assert(b[pos] == w[0] && b[pos + 1] == w[1] && b[pos + 2] == w[2] && b[pos + 3] == w[3]
        && b[pos + 4] == w[4] && b[pos + 5] == w[5] && b[pos + 6] == w[6] && b[pos + 7] == w[7]
        && b[pos + 8] == w[8] && b[pos + 9] == w[9] && b[pos + 10] == w[10] && b[pos + 11]
        == w[11]);
    let a = h.flags_a();
    let bb = h.flags_b();
    assert(a == bit(h.recursion_desired) + bit(h.truncated) * 2 + bit(h.authoritative) * 4
        + h.opcode * 8 + bit(h.response) * 128);
    assert(a % 2 == bit(h.recursion_desired) && (a / 2) % 2 == bit(h.truncated) && (a / 4) % 2
        == bit(h.authoritative) && (a / 8) % 16 == h.opcode && (a / 128) % 2 == bit(h.response))
        by (nonlinear_arith)
        requires
            a == bit(h.recursion_desired) + bit(h.truncated) * 2 + bit(h.authoritative) * 4
                + h.opcode * 8 + bit(h.response) * 128,
            h.opcode < 16,
            bit(h.recursion_desired) <= 1,
            bit(h.truncated) <= 1,
            bit(h.authoritative) <= 1,
            bit(h.response) <= 1,
    ;
    assert(bb == h.rescode.spec_to_num() + bit(h.checking_disabled) * 16 + bit(h.authed_data)
        * 32 + bit(h.recursion_available) * 128);
    assert(bb % 16 == h.rescode.spec_to_num() && (bb / 16) % 2 == bit(h.checking_disabled) && (bb
        / 32) % 2 == bit(h.authed_data) && (bb / 64) % 2 == 0 && (bb / 128) % 2 == bit(
        h.recursion_available,
    ))
        by (nonlinear_arith)
        requires
            bb == h.rescode.spec_to_num() + bit(h.checking_disabled) * 16 + bit(h.authed_data)
                * 32 + bit(h.recursion_available) * 128,
            h.rescode.spec_to_num() <= 5,
            bit(h.checking_disabled) <= 1,
            bit(h.authed_data) <= 1,
            bit(h.recursion_available) <= 1,
    ;
    assert(u16_be(b, pos) == h.id) by {
        assert(w[0] == h.id / 256 && w[1] == h.id % 256);
    }
    assert(u16_be(b, pos + 4) == h.questions);
    assert(u16_be(b, pos + 6) == h.answers);
    assert(u16_be(b, pos + 8) == h.authoritative_entries);
    assert(u16_be(b, pos + 10) == h.resource_entries);
}

} // verus!

verus! {

/// Bytes laid out one part after another split into those parts.
pub proof fn lemma_split_sub(b: Seq<u8>, pos: int, x: Seq<u8>, y: Seq<u8>)
    requires
        0 <= pos,
        pos + x.len() + y.len() <= b.len(),
        b.subrange(pos, pos + x.len() + y.len()) == x + y,
    ensures
        b.subrange(pos, pos + x.len()) == x,
        b.subrange(pos + x.len(), pos + x.len() + y.len()) == y,
{
    let whole = b.subrange(pos, pos + x.len() + y.len());
    assert(b.subrange(pos, pos + x.len()) =~= x) by {
        assert forall|i: int| 0 <= i < x.len() implies b[pos + i] == x[i] by {
            assert(whole[i] == (x + y)[i]);
        }
    }
    assert(b.subrange(pos + x.len(), pos + x.len() + y.len()) =~= y) by {
        assert forall|i: int| 0 <= i < y.len() implies b[pos + x.len() + i] == y[i] by {
            assert(whole[x.len() + i] == (x + y)[x.len() + i]);
        }
    }
}

/// The two big-endian bytes of a `u16` read back as it.
pub proof fn lemma_u16_roundtrip(b: Seq<u8>, pos: int, v: u16)
    requires
        0 <= pos,
        pos + 2 <= b.len(),
        b.subrange(pos, pos + 2) == u16_bytes(v),
    ensures
        u16_be(b, pos) == v,
{
    assert(b[pos] == u16_bytes(v)[0]);
    assert(b[pos + 1] == u16_bytes(v)[1]);
}

/// The four big-endian bytes of a `u32` read back as it.
pub proof fn lemma_u32_roundtrip(b: Seq<u8>, pos: int, v: u32)
    requires
        0 <= pos,
        pos + 4 <= b.len(),
        b.subrange(pos, pos + 4) == u32_bytes(v),
    ensures
        u32_be(b, pos) == v,
{
    assert(b[pos] == u32_bytes(v)[0]);
    assert(b[pos + 1] == u32_bytes(v)[1]);
    assert(b[pos + 2] == u32_bytes(v)[2]);
    assert(b[pos + 3] == u32_bytes(v)[3]);
}

/// A question of the message: a name and a query type.
pub struct SpecQuestion {
    pub name: Seq<char>,
    pub qtype: QueryType,
}

/// A question of the message: a name and a query type.
#[derive(Clone, Debug)]
pub struct DnsQuestion {
    pub name: String,
    pub qtype: QueryType,
}

impl View for DnsQuestion {
    type V = SpecQuestion;

    open spec fn view(&self) -> SpecQuestion {
        SpecQuestion { name: self.name@, qtype: self.qtype }
    }
}

/// A query type whose wire value reads back as itself: an `UNKNOWN` code
/// is not one of the assigned codes.
pub open spec fn canonical_qtype(t: QueryType) -> bool {
    QueryType::spec_from_num(t.spec_to_num()) == t
}

/// The wire bytes of a question: name, type, and the IN class.
pub open spec fn question_bytes(q: SpecQuestion) -> Seq<u8> {
    qname_bytes(q.name) + u16_bytes(q.qtype.spec_to_num()) + u16_bytes(1u16)
}

/// The question read at `pos` of `b`: a name, a type, and a skipped class.
pub open spec fn spec_read_question(b: Seq<u8>, pos: int) -> Result<(SpecQuestion, int), DnsError> {
    match spec_read_qname(b, pos) {
        Err(e) => Err(e),
        Ok((name, p1)) => if p1 + 4 <= 512 {
            Ok((SpecQuestion { name, qtype: QueryType::spec_from_num(u16_be(b, p1)) }, p1 + 4))
        } else {
            Err(DnsError::EndOfBuffer)
        },
    }
}

impl DnsQuestion {
    /// Read a question at the cursor.
    pub fn read(buffer: &mut BytePacketBuffer) -> (r: Result<DnsQuestion, DnsError>)
        requires
            old(buffer).wf(),
        ensures
            final(buffer).wf(),
            final(buffer).data() == old(buffer).data(),
            match spec_read_question(old(buffer).data(), old(buffer).position()) {
                Ok(res) => r is Ok && r->Ok_0@ == res.0 && final(buffer).position() == res.1,
                Err(e) => r is Err && r->Err_0 == e,
            },
    {
        let name = match buffer.read_qname() {
            Ok(v) => v,
            Err(e) => {
                return Err(e);
            },
        };
        let qtype_num = match buffer.read_u16() {
            Ok(v) => v,
            Err(e) => {
                return Err(e);
            },
        };
        let qtype = QueryType::from_num(qtype_num);
        match buffer.read_u16() {
            Ok(_) => {},
            Err(e) => {
                return Err(e);
            },
        }
        Ok(DnsQuestion { name, qtype })
    }

    /// Write a question at the cursor with the IN class.
    pub fn write(&self, buffer: &mut BytePacketBuffer) -> (r: Result<(), DnsError>)
        requires
            old(buffer).wf(),
        ensures
            final(buffer).wf(),
            r is Ok <==> labels_fit(self.name@) && old(buffer).position() + question_bytes(
                self@,
            ).len() <= 512,
            r is Ok ==> final(buffer).data() == spliced(
                old(buffer).data(),
                old(buffer).position(),
                question_bytes(self@),
            ) && final(buffer).position() == old(buffer).position() + question_bytes(self@).len(),
            r is Err ==> r->Err_0 == DnsError::LabelTooLong || r->Err_0 == DnsError::EndOfBuffer,
            r is Err && labels_fit(self.name@) ==> r->Err_0 == DnsError::EndOfBuffer,
    {
        proof {
            old(buffer).lemma_wf();
        }
        let ghost b0 = buffer.data();
        let ghost pos0 = buffer.position();
        let ghost qb = qname_bytes(self.name@);
        match buffer.write_qname(self.name.as_str()) {
            Ok(_) => {},
            Err(e) => {
                return Err(e);
            },
        }
        let num = self.qtype.to_num();
        match buffer.write_u16(num) {
            Ok(_) => {
                proof {
                    crate::qname::lemma_spliced_push(b0, pos0, qb, (num / 256) as u8);
                    crate::qname::lemma_spliced_push(
                        b0,
                        pos0,
                        qb.push((num / 256) as u8),
                        (num % 256) as u8,
                    );
                }
            },
            Err(e) => {
                return Err(e);
            },
        }
        let ghost w2 = qb + u16_bytes(num);
        proof {
            assert(qb.push((num / 256) as u8).push((num % 256) as u8) =~= w2);
        }
        match buffer.write_u16(1u16) {
            Ok(_) => {
                proof {
                    crate::qname::lemma_spliced_push(b0, pos0, w2, (1u16 / 256) as u8);
                    crate::qname::lemma_spliced_push(
                        b0,
                        pos0,
                        w2.push((1u16 / 256) as u8),
                        (1u16 % 256) as u8,
                    );
                    assert(w2.push((1u16 / 256) as u8).push((1u16 % 256) as u8) =~= question_bytes(
                        self@,
                    ));
                }
            },
            Err(e) => {
                return Err(e);
            },
        }
        Ok(())
    }
}

/// A question written by the encoder reads back unchanged.
pub proof fn lemma_question_roundtrip(b: Seq<u8>, pos: int, q: SpecQuestion)
    requires
        crate::qname::valid_qname(q.name),
        canonical_qtype(q.qtype),
        b.len() == 512,
        0 <= pos,
        pos + question_bytes(q).len() <= 512,
        b.subrange(pos, pos + question_bytes(q).len()) == question_bytes(q),
    ensures
        spec_read_question(b, pos) == Ok::<(SpecQuestion, int), DnsError>(
            (q, pos + question_bytes(q).len()),
        ),
{
    let qb = qname_bytes(q.name);
    let tail = u16_bytes(q.qtype.spec_to_num()) + u16_bytes(1u16);
    assert(question_bytes(q) == qb + tail);
    lemma_split_sub(b, pos, qb, tail);
    crate::qname::lemma_qname_roundtrip(b, pos, q.name);
    let p1 = pos + qb.len();
    lemma_split_sub(b, p1, u16_bytes(q.qtype.spec_to_num()), u16_bytes(1u16));
    lemma_u16_roundtrip(b, p1, q.qtype.spec_to_num());
}

} // verus!

verus! {

/// Writing one part after another writes their concatenation.
pub proof fn lemma_spliced_app(b: Seq<u8>, pos: int, w1: Seq<u8>, w2: Seq<u8>)
    requires
        0 <= pos,
        pos + w1.len() + w2.len() <= b.len(),
    ensures
        spliced(spliced(b, pos, w1), pos + w1.len(), w2) == spliced(b, pos, w1 + w2),
{
    assert(spliced(spliced(b, pos, w1), pos + w1.len(), w2) =~= spliced(b, pos, w1 + w2));
}

/// Patching a byte inside the written part patches the part.
pub proof fn lemma_spliced_set(b: Seq<u8>, pos: int, w: Seq<u8>, off: int, v: u8)
    requires
        0 <= pos,
        0 <= off < w.len(),
        pos + w.len() <= b.len(),
    ensures
        spliced(b, pos, w).update(pos + off, v) == spliced(b, pos, w.update(off, v)),
{
    assert(spliced(b, pos, w).update(pos + off, v) =~= spliced(b, pos, w.update(off, v)));
}

impl BytePacketBuffer {
    /// Write a big-endian `u16`, described as a two-byte splice.
    pub fn put_u16(&mut self, val: u16) -> (r: Result<(), DnsError>)
        requires
            old(self).wf(),
        ensures
            final(self).wf(),
            r is Ok <==> old(self).position() + 2 <= 512,
            r is Ok ==> final(self).data() == spliced(
                old(self).data(),
                old(self).position(),
                u16_bytes(val),
            ) && final(self).position() == old(self).position() + 2,
            r is Err ==> r->Err_0 == DnsError::EndOfBuffer && *final(self) == *old(self),
    {
        proof {
            old(self).lemma_wf();
        }
        let r = self.write_u16(val);
        proof {
            if old(self).position() + 2 <= 512 {
                assert(self.data() =~= spliced(
                    old(self).data(),
                    old(self).position(),
                    u16_bytes(val),
                ));
            }
        }
        r
    }

    /// Write a big-endian `u32`, described as a four-byte splice.
    pub fn put_u32(&mut self, val: u32) -> (r: Result<(), DnsError>)
        requires
            old(self).wf(),
        ensures
            final(self).wf(),
            r is Ok <==> old(self).position() + 4 <= 512,
            r is Ok ==> final(self).data() == spliced(
                old(self).data(),
                old(self).position(),
                u32_bytes(val),
            ) && final(self).position() == old(self).position() + 4,
            r is Err ==> r->Err_0 == DnsError::EndOfBuffer && *final(self) == *old(self),
    {
        proof {
            old(self).lemma_wf();
        }
        let r = self.write_u32(val);
        proof {
            if old(self).position() + 4 <= 512 {
                assert(self.data() =~= spliced(
                    old(self).data(),
                    old(self).position(),
                    u32_bytes(val),
                ));
            }
        }
        r
    }

    /// Write one byte, described as a one-byte splice.
    pub fn put_u8(&mut self, val: u8) -> (r: Result<(), DnsError>)
        requires
            old(self).wf(),
        ensures
            final(self).wf(),
            r is Ok <==> old(self).position() + 1 <= 512,
            r is Ok ==> final(self).data() == spliced(
                old(self).data(),
                old(self).position(),
                seq![val],
            ) && final(self).position() == old(self).position() + 1,
            r is Err ==> r->Err_0 == DnsError::EndOfBuffer && *final(self) == *old(self),
    {
        proof {
            old(self).lemma_wf();
        }
        let r = self.write_u8(val);
        proof {
            if old(self).position() + 1 <= 512 {
                assert(self.data() =~= spliced(
                    old(self).data(),
                    old(self).position(),
                    seq![val],
                ));
            }
        }
        r
    }
}

} // verus!

verus! {

/// A resource record, at the spec level.
pub enum SpecRecord {
    Unknown { domain: Seq<char>, qtype: u16, data_len: u16, ttl: u32 },
    A { domain: Seq<char>, addr: IpV4, ttl: u32 },
    NS { domain: Seq<char>, host: Seq<char>, ttl: u32 },
    CNAME { domain: Seq<char>, host: Seq<char>, ttl: u32 },
    MX { domain: Seq<char>, priority: u16, host: Seq<char>, ttl: u32 },
    AAAA { domain: Seq<char>, addr: IpV6, ttl: u32 },
}

/// A resource record: address records, delegation records, and a raw form
/// for record types the codec does not interpret.
#[derive(Clone, Debug)]
pub enum DnsRecord {
    Unknown { domain: String, qtype: u16, data_len: u16, ttl: u32 },
    A { domain: String, addr: IpV4, ttl: u32 },
    NS { domain: String, host: String, ttl: u32 },
    CNAME { domain: String, host: String, ttl: u32 },
    MX { domain: String, priority: u16, host: String, ttl: u32 },
    AAAA { domain: String, addr: IpV6, ttl: u32 },
}

impl View for DnsRecord {
    type V = SpecRecord;

    open spec fn view(&self) -> SpecRecord {
        match self {
            DnsRecord::Unknown { domain, qtype, data_len, ttl } => SpecRecord::Unknown {
                domain: domain@,
                qtype: *qtype,
                data_len: *data_len,
                ttl: *ttl,
            },
            DnsRecord::A { domain, addr, ttl } => SpecRecord::A {
                domain: domain@,
                addr: *addr,
                ttl: *ttl,
            },
            DnsRecord::NS { domain, host, ttl } => SpecRecord::NS {
                domain: domain@,
                host: host@,
                ttl: *ttl,
            },
            DnsRecord::CNAME { domain, host, ttl } => SpecRecord::CNAME {
                domain: domain@,
                host: host@,
                ttl: *ttl,
            },
            DnsRecord::MX { domain, priority, host, ttl } => SpecRecord::MX {
                domain: domain@,
                priority: *priority,
                host: host@,
                ttl: *ttl,
            },
            DnsRecord::AAAA { domain, addr, ttl } => SpecRecord::AAAA {
                domain: domain@,
                addr: *addr,
                ttl: *ttl,
            },
        }
    }
}

/// The wire bytes of a record. Unknown records are not emitted.
pub open spec fn record_bytes(r: SpecRecord) -> Seq<u8> {
    match r {
        SpecRecord::Unknown { .. } => seq![],
        SpecRecord::A { domain, addr, ttl } => qname_bytes(domain) + u16_bytes(1u16) + u16_bytes(
            1u16,
        ) + u32_bytes(ttl) + u16_bytes(4u16) + seq![addr.o0, addr.o1, addr.o2, addr.o3],
        SpecRecord::NS { domain, host, ttl } => qname_bytes(domain) + u16_bytes(2u16) + u16_bytes(
            1u16,
        ) + u32_bytes(ttl) + u16_bytes(qname_bytes(host).len() as u16) + qname_bytes(host),
        SpecRecord::CNAME { domain, host, ttl } => qname_bytes(domain) + u16_bytes(5u16)
            + u16_bytes(1u16) + u32_bytes(ttl) + u16_bytes(qname_bytes(host).len() as u16)
            + qname_bytes(host),
        SpecRecord::MX { domain, priority, host, ttl } => qname_bytes(domain) + u16_bytes(15u16)
            + u16_bytes(1u16) + u32_bytes(ttl) + u16_bytes((qname_bytes(host).len() + 2) as u16)
            + u16_bytes(priority) + qname_bytes(host),
        SpecRecord::AAAA { domain, addr, ttl } => qname_bytes(domain) + u16_bytes(28u16)
            + u16_bytes(1u16) + u32_bytes(ttl) + u16_bytes(16u16) + u16_bytes(addr.g0)
            + u16_bytes(addr.g1) + u16_bytes(addr.g2) + u16_bytes(addr.g3) + u16_bytes(addr.g4)
            + u16_bytes(addr.g5) + u16_bytes(addr.g6) + u16_bytes(addr.g7),
    }
}

/// Every name of the record fits the writer's label limit.
pub open spec fn record_fits(r: SpecRecord) -> bool {
    match r {
        SpecRecord::Unknown { .. } => true,
        SpecRecord::A { domain, .. } => labels_fit(domain),
        SpecRecord::AAAA { domain, .. } => labels_fit(domain),
        SpecRecord::NS { domain, host, .. } => labels_fit(domain) && labels_fit(host),
        SpecRecord::CNAME { domain, host, .. } => labels_fit(domain) && labels_fit(host),
        SpecRecord::MX { domain, host, .. } => labels_fit(domain) && labels_fit(host),
    }
}

/// The record read at `pos` of `b`: a name, the fixed fields, then a payload
/// by record type; unknown types skip their payload.
pub open spec fn spec_read_record(b: Seq<u8>, pos: int) -> Result<(SpecRecord, int), DnsError> {
    match spec_read_qname(b, pos) {
        Err(e) => Err(e),
        Ok((domain, p1)) => if p1 + 10 > 512 {
            Err(DnsError::EndOfBuffer)
        } else {
            let qt = u16_be(b, p1);
            let ttl = u32_be(b, p1 + 4);
            let data_len = u16_be(b, p1 + 8);
            let p2 = p1 + 10;
            if qt == 1 {
                if p2 + 4 > 512 {
                    Err(DnsError::EndOfBuffer)
                } else {
                    Ok(
                        (
                            SpecRecord::A {
                                domain,
                                addr: IpV4 {
                                    o0: b[p2],
                                    o1: b[p2 + 1],
                                    o2: b[p2 + 2],
                                    o3: b[p2 + 3],
                                },
                                ttl,
                            },
                            p2 + 4,
                        ),
                    )
                }
            } else if qt == 28 {
                if p2 + 16 > 512 {
                    Err(DnsError::EndOfBuffer)
                } else {
                    Ok(
                        (
                            SpecRecord::AAAA {
                                domain,
                                addr: IpV6 {
                                    g0: u16_be(b, p2),
                                    g1: u16_be(b, p2 + 2),
                                    g2: u16_be(b, p2 + 4),
                                    g3: u16_be(b, p2 + 6),
                                    g4: u16_be(b, p2 + 8),
                                    g5: u16_be(b, p2 + 10),
                                    g6: u16_be(b, p2 + 12),
                                    g7: u16_be(b, p2 + 14),
                                },
                                ttl,
                            },
                            p2 + 16,
                        ),
                    )
                }
            } else if qt == 2 || qt == 5 {
                match spec_read_qname(b, p2) {
                    Err(e) => Err(e),
                    Ok((host, p3)) => Ok(
                        (
                            if qt == 2 {
                                SpecRecord::NS { domain, host, ttl }
                            } else {
                                SpecRecord::CNAME { domain, host, ttl }
                            },
                            p3,
                        ),
                    ),
                }
            } else if qt == 15 {
                if p2 + 2 > 512 {
                    Err(DnsError::EndOfBuffer)
                } else {
                    match spec_read_qname(b, p2 + 2) {
                        Err(e) => Err(e),
                        Ok((host, p3)) => Ok(
                            (
                                SpecRecord::MX { domain, priority: u16_be(b, p2), host, ttl },
                                p3,
                            ),
                        ),
                    }
                }
            } else {
                if p2 + data_len > 512 {
                    Err(DnsError::EndOfBuffer)
                } else {
                    Ok((SpecRecord::Unknown { domain, qtype: qt, data_len, ttl }, p2 + data_len))
                }
            }
        },
    }
}

impl DnsRecord {
    /// Read a record at the cursor.
    #[verifier::rlimit(100)]
    pub fn read(buffer: &mut BytePacketBuffer) -> (r: Result<DnsRecord, DnsError>)
        requires
            old(buffer).wf(),
        ensures
            final(buffer).wf(),
            final(buffer).data() == old(buffer).data(),
            match spec_read_record(old(buffer).data(), old(buffer).position()) {
                Ok(res) => r is Ok && r->Ok_0@ == res.0 && final(buffer).position() == res.1,
                Err(e) => r is Err && r->Err_0 == e,
            },
    {
        proof {
            old(buffer).lemma_wf();
        }
        let domain = match buffer.read_qname() {
            Ok(v) => v,
            Err(e) => {
                return Err(e);
            },
        };
        let qtype_num = match buffer.read_u16() {
            Ok(v) => v,
            Err(e) => {
                return Err(e);
            },
        };
        match buffer.read_u16() {
            Ok(_) => {},
            Err(e) => {
                return Err(e);
            },
        }
        let ttl = match buffer.read_u32() {
            Ok(v) => v,
            Err(e) => {
                return Err(e);
            },
        };
        let data_len = match buffer.read_u16() {
            Ok(v) => v,
            Err(e) => {
                return Err(e);
            },
        };
        if qtype_num == 1 {
            let o0 = match buffer.read_u8() {
                Ok(v) => v,
                Err(e) => {
                    return Err(e);
                },
            };
            let o1 = match buffer.read_u8() {
                Ok(v) => v,
                Err(e) => {
                    return Err(e);
                },
            };
            let o2 = match buffer.read_u8() {
                Ok(v) => v,
                Err(e) => {
                    return Err(e);
                },
            };
            let o3 = match buffer.read_u8() {
                Ok(v) => v,
                Err(e) => {
                    return Err(e);
                },
            };
            Ok(DnsRecord::A { domain, addr: IpV4 { o0, o1, o2, o3 }, ttl })
        } else if qtype_num == 28 {
            let g0 = match buffer.read_u16() {
                Ok(v) => v,
                Err(e) => {
                    return Err(e);
                },
            };
            let g1 = match buffer.read_u16() {
                Ok(v) => v,
                Err(e) => {
                    return Err(e);
                },
            };
            let g2 = match buffer.read_u16() {
                Ok(v) => v,
                Err(e) => {
                    return Err(e);
                },
            };
            let g3 = match buffer.read_u16() {
                Ok(v) => v,
                Err(e) => {
                    return Err(e);
                },
            };
            let g4 = match buffer.read_u16() {
                Ok(v) => v,
                Err(e) => {
                    return Err(e);
                },
            };
            let g5 = match buffer.read_u16() {
                Ok(v) => v,
                Err(e) => {
                    return Err(e);
                },
            };
            let g6 = match buffer.read_u16() {
                Ok(v) => v,
                Err(e) => {
                    return Err(e);
                },
            };
            let g7 = match buffer.read_u16() {
                Ok(v) => v,
                Err(e) => {
                    return Err(e);
                },
            };
            Ok(
                DnsRecord::AAAA {
                    domain,
                    addr: IpV6 { g0, g1, g2, g3, g4, g5, g6, g7 },
                    ttl,
                },
            )
        } else if qtype_num == 2 {
            let host = match buffer.read_qname() {
                Ok(v) => v,
                Err(e) => {
                    return Err(e);
                },
            };
            Ok(DnsRecord::NS { domain, host, ttl })
        } else if qtype_num == 5 {
            let host = match buffer.read_qname() {
                Ok(v) => v,
                Err(e) => {
                    return Err(e);
                },
            };
            Ok(DnsRecord::CNAME { domain, host, ttl })
        } else if qtype_num == 15 {
            let priority = match buffer.read_u16() {
                Ok(v) => v,
                Err(e) => {
                    return Err(e);
                },
            };
            let host = match buffer.read_qname() {
                Ok(v) => v,
                Err(e) => {
                    return Err(e);
                },
            };
            Ok(DnsRecord::MX { domain, priority, host, ttl })
        } else {
            match buffer.step(data_len as usize) {
                Ok(_) => {},
                Err(e) => {
                    return Err(e);
                },
            }
            Ok(DnsRecord::Unknown { domain, qtype: qtype_num, data_len, ttl })
        }
    }
}

} // verus!

verus! {

impl DnsRecord {
    /// Write a record at the cursor. Known record types emit their wire
    /// form with the payload length backpatched; unknown records emit
    /// nothing.
    #[verifier::rlimit(100)]
    pub fn write(&self, buffer: &mut BytePacketBuffer) -> (r: Result<(), DnsError>)
        requires
            old(buffer).wf(),
        ensures
            final(buffer).wf(),
            r is Ok <==> record_fits(self@) && old(buffer).position() + record_bytes(
                self@,
            ).len() <= 512,
            r is Ok ==> final(buffer).data() == spliced(
                old(buffer).data(),
                old(buffer).position(),
                record_bytes(self@),
            ) && final(buffer).position() == old(buffer).position() + record_bytes(self@).len(),
            r is Err ==> r->Err_0 == DnsError::LabelTooLong || r->Err_0 == DnsError::EndOfBuffer,
            r is Err && record_fits(self@) ==> r->Err_0 == DnsError::EndOfBuffer,
    {
        proof {
            old(buffer).lemma_wf();
        }
        let ghost b0 = buffer.data();
        let ghost pos0 = buffer.position();
        match self {
            DnsRecord::Unknown { .. } => {
                proof {
                    crate::qname::lemma_spliced_empty(b0, pos0);
                    assert(record_bytes(self@) =~= Seq::<u8>::empty());
                }
                Ok(())
            },
            DnsRecord::A { domain, addr, ttl } => {
                Self::write_a_record(buffer, domain, *addr, *ttl, Ghost(self@))
            },
            DnsRecord::AAAA { domain, addr, ttl } => {
                Self::write_aaaa_record(buffer, domain, *addr, *ttl, Ghost(self@))
            },
            DnsRecord::NS { domain, host, ttl } => {
                Self::write_host_record(buffer, domain, 2, None, host, *ttl, Ghost(self@))
            },
            DnsRecord::CNAME { domain, host, ttl } => {
                Self::write_host_record(buffer, domain, 5, None, host, *ttl, Ghost(self@))
            },
            DnsRecord::MX { domain, priority, host, ttl } => {
                Self::write_host_record(
                    buffer,
                    domain,
                    15,
                    Some(*priority),
                    host,
                    *ttl,
                    Ghost(self@),
                )
            },
        }
    }


    /// Write one A record at the cursor.
    #[verifier::rlimit(100)]
    fn write_a_record(
        buffer: &mut BytePacketBuffer,
        domain: &String,
        addr: IpV4,
        ttl: u32,
        Ghost(rec): Ghost<SpecRecord>,
    ) -> (r: Result<(), DnsError>)
        requires
            old(buffer).wf(),
            rec == (SpecRecord::A { domain: domain@, addr, ttl }),
        ensures
            final(buffer).wf(),
            r is Ok <==> record_fits(rec) && old(buffer).position() + record_bytes(rec).len()
                <= 512,
            r is Ok ==> final(buffer).data() == spliced(
                old(buffer).data(),
                old(buffer).position(),
                record_bytes(rec),
            ) && final(buffer).position() == old(buffer).position() + record_bytes(rec).len(),
            r is Err ==> r->Err_0 == DnsError::LabelTooLong || r->Err_0 == DnsError::EndOfBuffer,
            r is Err && record_fits(rec) ==> r->Err_0 == DnsError::EndOfBuffer,
    {
        proof {
            old(buffer).lemma_wf();
        }
        let ghost b0 = buffer.data();
        let ghost pos0 = buffer.position();
                let ghost qb = qname_bytes(domain@);
                match buffer.write_qname(domain.as_str()) {
                    Ok(_) => {},
                    Err(e) => {
                        return Err(e);
                    },
                }
                let ghost w1 = qb + u16_bytes(1u16);
                match buffer.put_u16(1) {
                    Ok(_) => proof {
                        lemma_spliced_app(b0, pos0, qb, u16_bytes(1u16));
                    },
                    Err(e) => {
                        return Err(e);
                    },
                }
                let ghost w2 = w1 + u16_bytes(1u16);
                match buffer.put_u16(1) {
                    Ok(_) => proof {
                        lemma_spliced_app(b0, pos0, w1, u16_bytes(1u16));
                    },
                    Err(e) => {
                        return Err(e);
                    },
                }
                let ghost w3 = w2 + u32_bytes(ttl);
                match buffer.put_u32(ttl) {
                    Ok(_) => proof {
                        lemma_spliced_app(b0, pos0, w2, u32_bytes(ttl));
                    },
                    Err(e) => {
                        return Err(e);
                    },
                }
                let ghost w4 = w3 + u16_bytes(4u16);
                match buffer.put_u16(4) {
                    Ok(_) => proof {
                        lemma_spliced_app(b0, pos0, w3, u16_bytes(4u16));
                    },
                    Err(e) => {
                        return Err(e);
                    },
                }
                let ghost w5 = w4 + seq![addr.o0];
                match buffer.put_u8(addr.o0) {
                    Ok(_) => proof {
                        lemma_spliced_app(b0, pos0, w4, seq![addr.o0]);
                    },
                    Err(e) => {
                        return Err(e);
                    },
                }
                let ghost w6 = w5 + seq![addr.o1];
                match buffer.put_u8(addr.o1) {
                    Ok(_) => proof {
                        lemma_spliced_app(b0, pos0, w5, seq![addr.o1]);
                    },
                    Err(e) => {
                        return Err(e);
                    },
                }
                let ghost w7 = w6 + seq![addr.o2];
                match buffer.put_u8(addr.o2) {
                    Ok(_) => proof {
                        lemma_spliced_app(b0, pos0, w6, seq![addr.o2]);
                    },
                    Err(e) => {
                        return Err(e);
                    },
                }
                match buffer.put_u8(addr.o3) {
                    Ok(_) => proof {
                        lemma_spliced_app(b0, pos0, w7, seq![addr.o3]);
                        assert(w7 + seq![addr.o3] =~= record_bytes(rec));
                    },
                    Err(e) => {
                        return Err(e);
                    },
                }
                Ok(())
    }


    /// Write one AAAA record at the cursor.
    #[verifier::rlimit(100)]
    fn write_aaaa_record(
        buffer: &mut BytePacketBuffer,
        domain: &String,
        addr: IpV6,
        ttl: u32,
        Ghost(rec): Ghost<SpecRecord>,
    ) -> (r: Result<(), DnsError>)
        requires
            old(buffer).wf(),
            rec == (SpecRecord::AAAA { domain: domain@, addr, ttl }),
        ensures
            final(buffer).wf(),
            r is Ok <==> record_fits(rec) && old(buffer).position() + record_bytes(rec).len()
                <= 512,
            r is Ok ==> final(buffer).data() == spliced(
                old(buffer).data(),
                old(buffer).position(),
                record_bytes(rec),
            ) && final(buffer).position() == old(buffer).position() + record_bytes(rec).len(),
            r is Err ==> r->Err_0 == DnsError::LabelTooLong || r->Err_0 == DnsError::EndOfBuffer,
            r is Err && record_fits(rec) ==> r->Err_0 == DnsError::EndOfBuffer,
    {
        proof {
            old(buffer).lemma_wf();
        }
        let ghost b0 = buffer.data();
        let ghost pos0 = buffer.position();
                let ghost qb = qname_bytes(domain@);
                match buffer.write_qname(domain.as_str()) {
                    Ok(_) => {},
                    Err(e) => {
                        return Err(e);
                    },
                }
                let ghost w1 = qb + u16_bytes(28u16);
                match buffer.put_u16(28) {
                    Ok(_) => proof {
                        lemma_spliced_app(b0, pos0, qb, u16_bytes(28u16));
                    },
                    Err(e) => {
                        return Err(e);
                    },
                }
                let ghost w2 = w1 + u16_bytes(1u16);
                match buffer.put_u16(1) {
                    Ok(_) => proof {
                        lemma_spliced_app(b0, pos0, w1, u16_bytes(1u16));
                    },
                    Err(e) => {
                        return Err(e);
                    },
                }
                let ghost w3 = w2 + u32_bytes(ttl);
                match buffer.put_u32(ttl) {
                    Ok(_) => proof {
                        lemma_spliced_app(b0, pos0, w2, u32_bytes(ttl));
                    },
                    Err(e) => {
                        return Err(e);
                    },
                }
                let ghost w4 = w3 + u16_bytes(16u16);
                match buffer.put_u16(16) {
                    Ok(_) => proof {
                        lemma_spliced_app(b0, pos0, w3, u16_bytes(16u16));
                    },
                    Err(e) => {
                        return Err(e);
                    },
                }
                let ghost w5 = w4 + u16_bytes(addr.g0);
                match buffer.put_u16(addr.g0) {
                    Ok(_) => proof {
                        lemma_spliced_app(b0, pos0, w4, u16_bytes(addr.g0));
                    },
                    Err(e) => {
                        return Err(e);
                    },
                }
                let ghost w6 = w5 + u16_bytes(addr.g1);
                match buffer.put_u16(addr.g1) {
                    Ok(_) => proof {
                        lemma_spliced_app(b0, pos0, w5, u16_bytes(addr.g1));
                    },
                    Err(e) => {
                        return Err(e);
                    },
                }
                let ghost w7 = w6 + u16_bytes(addr.g2);
                match buffer.put_u16(addr.g2) {
                    Ok(_) => proof {
                        lemma_spliced_app(b0, pos0, w6, u16_bytes(addr.g2));
                    },
                    Err(e) => {
                        return Err(e);
                    },
                }
                let ghost w8 = w7 + u16_bytes(addr.g3);
                match buffer.put_u16(addr.g3) {
                    Ok(_) => proof {
                        lemma_spliced_app(b0, pos0, w7, u16_bytes(addr.g3));
                    },
                    Err(e) => {
                        return Err(e);
                    },
                }
                let ghost w9 = w8 + u16_bytes(addr.g4);
                match buffer.put_u16(addr.g4) {
                    Ok(_) => proof {
                        lemma_spliced_app(b0, pos0, w8, u16_bytes(addr.g4));
                    },
                    Err(e) => {
                        return Err(e);
                    },
                }
                let ghost w10 = w9 + u16_bytes(addr.g5);
                match buffer.put_u16(addr.g5) {
                    Ok(_) => proof {
                        lemma_spliced_app(b0, pos0, w9, u16_bytes(addr.g5));
                    },
                    Err(e) => {
                        return Err(e);
                    },
                }
                let ghost w11 = w10 + u16_bytes(addr.g6);
                match buffer.put_u16(addr.g6) {
                    Ok(_) => proof {
                        lemma_spliced_app(b0, pos0, w10, u16_bytes(addr.g6));
                    },
                    Err(e) => {
                        return Err(e);
                    },
                }
                match buffer.put_u16(addr.g7) {
                    Ok(_) => proof {
                        lemma_spliced_app(b0, pos0, w11, u16_bytes(addr.g7));
                        assert(w11 + u16_bytes(addr.g7) =~= record_bytes(rec));
                    },
                    Err(e) => {
                        return Err(e);
                    },
                }
                Ok(())
    }

    /// Write a record whose payload is a host name, backpatching the
    /// payload length once the name's size is known.
    #[verifier::rlimit(100)]
    fn write_host_record(
        buffer: &mut BytePacketBuffer,
        domain: &String,
        qt: u16,
        priority: Option<u16>,
        host: &String,
        ttl: u32,
        Ghost(rec): Ghost<SpecRecord>,
    ) -> (r: Result<(), DnsError>)
        requires
            old(buffer).wf(),
            priority is None ==> qt == 2 || qt == 5,
            priority is Some ==> qt == 15,
            rec == (if qt == 2 {
                SpecRecord::NS { domain: domain@, host: host@, ttl }
            } else if qt == 5 {
                SpecRecord::CNAME { domain: domain@, host: host@, ttl }
            } else {
                SpecRecord::MX { domain: domain@, priority: priority->0, host: host@, ttl }
            }),
        ensures
            final(buffer).wf(),
            r is Ok <==> record_fits(rec) && old(buffer).position() + record_bytes(rec).len()
                <= 512,
            r is Ok ==> final(buffer).data() == spliced(
                old(buffer).data(),
                old(buffer).position(),
                record_bytes(rec),
            ) && final(buffer).position() == old(buffer).position() + record_bytes(rec).len(),
            r is Err ==> r->Err_0 == DnsError::LabelTooLong || r->Err_0 == DnsError::EndOfBuffer,
            r is Err && record_fits(rec) ==> r->Err_0 == DnsError::EndOfBuffer,
    {
        proof {
            old(buffer).lemma_wf();
        }
        let ghost b0 = buffer.data();
        let ghost pos0 = buffer.position();
        let ghost qb = qname_bytes(domain@);
        let ghost hb = qname_bytes(host@);
        let ghost pre = if priority is Some {
            u16_bytes((hb.len() + 2) as u16)
        } else {
            u16_bytes(hb.len() as u16)
        };
        let ghost prio = if priority is Some {
            u16_bytes(priority->0)
        } else {
            seq![]
        };
        proof {
            assert(record_bytes(rec) =~= qb + u16_bytes(qt) + u16_bytes(1u16) + u32_bytes(ttl)
                + pre + prio + hb);
        }
        match buffer.write_qname(domain.as_str()) {
            Ok(_) => {},
            Err(e) => {
                return Err(e);
            },
        }
        let ghost w1 = qb + u16_bytes(qt);
        match buffer.put_u16(qt) {
            Ok(_) => proof {
                lemma_spliced_app(b0, pos0, qb, u16_bytes(qt));
            },
            Err(e) => {
                return Err(e);
            },
        }
        let ghost w2 = w1 + u16_bytes(1u16);
        match buffer.put_u16(1) {
            Ok(_) => proof {
                lemma_spliced_app(b0, pos0, w1, u16_bytes(1u16));
            },
            Err(e) => {
                return Err(e);
            },
        }
        let ghost w3 = w2 + u32_bytes(ttl);
        match buffer.put_u32(ttl) {
            Ok(_) => proof {
                lemma_spliced_app(b0, pos0, w2, u32_bytes(ttl));
            },
            Err(e) => {
                return Err(e);
            },
        }
        let size_pos = buffer.pos();
        let ghost w4 = w3 + u16_bytes(0u16);
        match buffer.put_u16(0) {
            Ok(_) => proof {
                lemma_spliced_app(b0, pos0, w3, u16_bytes(0u16));
            },
            Err(e) => {
                return Err(e);
            },
        }
        let ghost w5 = if priority is Some {
            w4 + u16_bytes(priority->0)
        } else {
            w4
        };
        match priority {
            Some(p) => {
                match buffer.put_u16(p) {
                    Ok(_) => proof {
                        lemma_spliced_app(b0, pos0, w4, u16_bytes(p));
                    },
                    Err(e) => {
                        return Err(e);
                    },
                }
            },
            None => {},
        }
        match buffer.write_qname(host.as_str()) {
            Ok(_) => proof {
                lemma_spliced_app(b0, pos0, w5, hb);
            },
            Err(e) => {
                return Err(e);
            },
        }
        let end = buffer.pos();
        let size = end - (size_pos + 2);
        let ghost w6 = w5 + hb;
        match buffer.set_u16(size_pos, size as u16) {
            Ok(_) => {
                proof {
                    let off = w3.len() as int;
                    lemma_spliced_set(b0, pos0, w6, off, (size as u16 / 256) as u8);
                    lemma_spliced_set(
                        b0,
                        pos0,
                        w6.update(off, (size as u16 / 256) as u8),
                        off + 1,
                        (size as u16 % 256) as u8,
                    );
                    assert(w6.update(off, (size as u16 / 256) as u8).update(
                        off + 1,
                        (size as u16 % 256) as u8,
                    ) =~= record_bytes(rec));
                }
                Ok(())
            },
            Err(e) => {
                return Err(e);
            },
        }
    }
}

} // verus!

verus! {

/// A whole DNS message, at the spec level.
pub struct SpecPacket {
    pub header: DnsHeader,
    pub questions: Seq<SpecQuestion>,
    pub answers: Seq<SpecRecord>,
    pub authorities: Seq<SpecRecord>,
    pub resources: Seq<SpecRecord>,
}

/// A whole DNS message: header, questions, answers, authorities and
/// additional resources.
#[derive(Clone, Debug)]
pub struct DnsPacket {
    pub header: DnsHeader,
    pub questions: Vec<DnsQuestion>,
    pub answers: Vec<DnsRecord>,
    pub authorities: Vec<DnsRecord>,
    pub resources: Vec<DnsRecord>,
}

impl View for DnsPacket {
    type V = SpecPacket;

    open spec fn view(&self) -> SpecPacket {
        SpecPacket {
            header: self.header,
            questions: self.questions@.map_values(|q: DnsQuestion| q@),
            answers: self.answers@.map_values(|r: DnsRecord| r@),
            authorities: self.authorities@.map_values(|r: DnsRecord| r@),
            resources: self.resources@.map_values(|r: DnsRecord| r@),
        }
    }
}

/// Read `k` questions one after another from `pos`, extending `acc`.
pub open spec fn spec_read_questions(b: Seq<u8>, pos: int, k: nat, acc: Seq<SpecQuestion>) -> Result<
    (Seq<SpecQuestion>, int),
    DnsError,
>
    decreases k,
{
    if k == 0 {
        Ok((acc, pos))
    } else {
        match spec_read_question(b, pos) {
            Err(e) => Err(e),
            Ok((q, p2)) => spec_read_questions(b, p2, (k - 1) as nat, acc.push(q)),
        }
    }
}

/// Read `k` records one after another from `pos`, extending `acc`.
pub open spec fn spec_read_records(b: Seq<u8>, pos: int, k: nat, acc: Seq<SpecRecord>) -> Result<
    (Seq<SpecRecord>, int),
    DnsError,
>
    decreases k,
{
    if k == 0 {
        Ok((acc, pos))
    } else {
        match spec_read_record(b, pos) {
            Err(e) => Err(e),
            Ok((r, p2)) => spec_read_records(b, p2, (k - 1) as nat, acc.push(r)),
        }
    }
}

/// The packet read at `pos` of `b`: a header, then as many questions and
/// records as its count fields say.
pub open spec fn spec_parse_packet(b: Seq<u8>, pos: int) -> Result<(SpecPacket, int), DnsError> {
    if pos + 12 > 512 {
        Err(DnsError::EndOfBuffer)
    } else {
        let h = DnsHeader::spec_read(b, pos);
        match spec_read_questions(b, pos + 12, h.questions as nat, seq![]) {
            Err(e) => Err(e),
            Ok((qs, p1)) => match spec_read_records(b, p1, h.answers as nat, seq![]) {
                Err(e) => Err(e),
                Ok((ans, p2)) => match spec_read_records(
                    b,
                    p2,
                    h.authoritative_entries as nat,
                    seq![],
                ) {
                    Err(e) => Err(e),
                    Ok((auth, p3)) => match spec_read_records(
                        b,
                        p3,
                        h.resource_entries as nat,
                        seq![],
                    ) {
                        Err(e) => Err(e),
                        Ok((res, p4)) => Ok(
                            (
                                SpecPacket {
                                    header: h,
                                    questions: qs,
                                    answers: ans,
                                    authorities: auth,
                                    resources: res,
                                },
                                p4,
                            ),
                        ),
                    },
                },
            },
        }
    }
}

/// Read `count` records at the cursor.
#[verifier::loop_isolation(false)]
fn read_record_list(buffer: &mut BytePacketBuffer, count: u16) -> (r: Result<
    Vec<DnsRecord>,
    DnsError,
>)
    requires
        old(buffer).wf(),
    ensures
        final(buffer).wf(),
        final(buffer).data() == old(buffer).data(),
        match spec_read_records(old(buffer).data(), old(buffer).position(), count as nat, seq![]) {
            Ok(res) => r is Ok && r->Ok_0@.map_values(|x: DnsRecord| x@) == res.0
                && final(buffer).position() == res.1,
            Err(e) => r is Err && r->Err_0 == e,
        },
{
    proof {
        old(buffer).lemma_wf();
    }
    let ghost b = buffer.data();
    let ghost p0 = buffer.position();
    let mut out: Vec<DnsRecord> = Vec::new();
    proof {
        assert(out@.map_values(|x: DnsRecord| x@) =~= Seq::<SpecRecord>::empty());
    }
    let mut i: u16 = 0;
    while i < count
        invariant
            i <= count,
            buffer.wf(),
            buffer.data() == b,
            spec_read_records(b, p0, count as nat, seq![]) == spec_read_records(
                b,
                buffer.position(),
                (count - i) as nat,
                out@.map_values(|x: DnsRecord| x@),
            ),
        decreases count - i,
    {
        let ghost acc0 = out@.map_values(|x: DnsRecord| x@);
        match DnsRecord::read(buffer) {
            Ok(rec) => {
                out.push(rec);
                proof {
                    assert(out@.map_values(|x: DnsRecord| x@) =~= acc0.push(out@.last()@));
                }
            },
            Err(e) => {
                return Err(e);
            },
        }
        i = i + 1;
    }
    Ok(out)
}

impl DnsPacket {
    /// Read a whole packet at the cursor.
    #[verifier::loop_isolation(false)]
    #[verifier::rlimit(60)]
    pub fn from_buffer(buffer: &mut BytePacketBuffer) -> (r: Result<DnsPacket, DnsError>)
        requires
            old(buffer).wf(),
        ensures
            final(buffer).wf(),
            final(buffer).data() == old(buffer).data(),
            match spec_parse_packet(old(buffer).data(), old(buffer).position()) {
                Ok(res) => r is Ok && r->Ok_0@ == res.0 && final(buffer).position() == res.1,
                Err(e) => r is Err && r->Err_0 == e,
            },
    {
        proof {
            old(buffer).lemma_wf();
        }
        let ghost b = buffer.data();
        let ghost p0 = buffer.position();
        let header = match DnsHeader::read(buffer) {
            Ok(h) => h,
            Err(e) => {
                return Err(e);
            },
        };
        let ghost q0 = buffer.position();
        let mut questions: Vec<DnsQuestion> = Vec::new();
        proof {
            assert(questions@.map_values(|q: DnsQuestion| q@) =~= Seq::<SpecQuestion>::empty());
        }
        let mut i: u16 = 0;
        while i < header.questions
            invariant
                i <= header.questions,
                buffer.wf(),
                buffer.data() == b,
                spec_read_questions(b, q0, header.questions as nat, seq![])
                    == spec_read_questions(
                    b,
                    buffer.position(),
                    (header.questions - i) as nat,
                    questions@.map_values(|q: DnsQuestion| q@),
                ),
            decreases header.questions - i,
        {
            let ghost acc0 = questions@.map_values(|q: DnsQuestion| q@);
            match DnsQuestion::read(buffer) {
                Ok(q) => {
                    questions.push(q);
                    proof {
                        assert(questions@.map_values(|q: DnsQuestion| q@) =~= acc0.push(
                            questions@.last()@,
                        ));
                    }
                },
                Err(e) => {
                    return Err(e);
                },
            }
            i = i + 1;
        }
        let answers = match read_record_list(buffer, header.answers) {
            Ok(v) => v,
            Err(e) => {
                return Err(e);
            },
        };
        let authorities = match read_record_list(buffer, header.authoritative_entries) {
            Ok(v) => v,
            Err(e) => {
                return Err(e);
            },
        };
        let resources = match read_record_list(buffer, header.resource_entries) {
            Ok(v) => v,
            Err(e) => {
                return Err(e);
            },
        };
        Ok(DnsPacket { header, questions, answers, authorities, resources })
    }
}

} // verus!

verus! {

/// The header as emitted: counts rewritten from the section lengths.
pub open spec fn wire_header(p: SpecPacket) -> DnsHeader {
    DnsHeader {
        questions: p.questions.len() as u16,
        answers: p.answers.len() as u16,
        authoritative_entries: p.authorities.len() as u16,
        resource_entries: p.resources.len() as u16,
        ..p.header
    }
}

/// The wire bytes of a question list.
pub open spec fn questions_bytes(qs: Seq<SpecQuestion>) -> Seq<u8>
    decreases qs.len(),
{
    if qs.len() == 0 {
        seq![]
    } else {
        question_bytes(qs[0]) + questions_bytes(qs.drop_first())
    }
}

/// The wire bytes of a record list; unknown records contribute nothing.
pub open spec fn records_bytes(rs: Seq<SpecRecord>) -> Seq<u8>
    decreases rs.len(),
{
    if rs.len() == 0 {
        seq![]
    } else {
        record_bytes(rs[0]) + records_bytes(rs.drop_first())
    }
}

/// The wire bytes of a whole packet.
pub open spec fn packet_bytes(p: SpecPacket) -> Seq<u8> {
    wire_header(p).wire_bytes() + questions_bytes(p.questions) + records_bytes(p.answers)
        + records_bytes(p.authorities) + records_bytes(p.resources)
}

/// Every name of the packet fits the writer's label limit.
pub open spec fn packet_fits(p: SpecPacket) -> bool {
    &&& forall|i: int| 0 <= i < p.questions.len() ==> labels_fit((#[trigger] p.questions[i]).name)
    &&& forall|i: int| 0 <= i < p.answers.len() ==> record_fits(#[trigger] p.answers[i])
    &&& forall|i: int| 0 <= i < p.authorities.len() ==> record_fits(#[trigger] p.authorities[i])
    &&& forall|i: int| 0 <= i < p.resources.len() ==> record_fits(#[trigger] p.resources[i])
}

/// Splitting a question list splits its bytes.
pub proof fn lemma_questions_bytes_split(qs: Seq<SpecQuestion>, k: int)
    requires
        0 <= k <= qs.len(),
    ensures
        questions_bytes(qs) == questions_bytes(qs.take(k)) + questions_bytes(qs.skip(k)),
    decreases k,
{
    if k == 0 {
        assert(qs.take(0) =~= Seq::<SpecQuestion>::empty());
        assert(qs.skip(0) =~= qs);
        assert(questions_bytes(qs) =~= questions_bytes(qs.take(0)) + questions_bytes(qs.skip(0)));
    } else {
        lemma_questions_bytes_split(qs.drop_first(), k - 1);
        assert(qs.take(k).drop_first() =~= qs.drop_first().take(k - 1));
        assert(qs.skip(k) =~= qs.drop_first().skip(k - 1));
        assert(qs.take(k)[0] == qs[0]);
        assert(questions_bytes(qs.take(k)) == question_bytes(qs[0]) + questions_bytes(
            qs.drop_first().take(k - 1),
        ));
        assert(questions_bytes(qs) =~= questions_bytes(qs.take(k)) + questions_bytes(qs.skip(k)));
    }
}

/// Appending one question appends its bytes.
pub proof fn lemma_questions_bytes_take_step(qs: Seq<SpecQuestion>, k: int)
    requires
        0 <= k < qs.len(),
    ensures
        questions_bytes(qs.take(k + 1)) == questions_bytes(qs.take(k)) + question_bytes(qs[k]),
{
    lemma_questions_bytes_split(qs.take(k + 1), k);
    assert(qs.take(k + 1).take(k) =~= qs.take(k));
    assert(qs.take(k + 1).skip(k) =~= seq![qs[k]]);
    assert(seq![qs[k]].drop_first() =~= Seq::<SpecQuestion>::empty());
    assert(questions_bytes(seq![qs[k]]) == question_bytes(qs[k]) + questions_bytes(
        Seq::<SpecQuestion>::empty(),
    ));
    assert(questions_bytes(qs.take(k + 1)) =~= questions_bytes(qs.take(k)) + question_bytes(
        qs[k],
    ));
}

/// Splitting a record list splits its bytes.
pub proof fn lemma_records_bytes_split(rs: Seq<SpecRecord>, k: int)
    requires
        0 <= k <= rs.len(),
    ensures
        records_bytes(rs) == records_bytes(rs.take(k)) + records_bytes(rs.skip(k)),
    decreases k,
{
    if k == 0 {
        assert(rs.take(0) =~= Seq::<SpecRecord>::empty());
        assert(rs.skip(0) =~= rs);
        assert(records_bytes(rs) =~= records_bytes(rs.take(0)) + records_bytes(rs.skip(0)));
    } else {
        lemma_records_bytes_split(rs.drop_first(), k - 1);
        assert(rs.take(k).drop_first() =~= rs.drop_first().take(k - 1));
        assert(rs.skip(k) =~= rs.drop_first().skip(k - 1));
        assert(rs.take(k)[0] == rs[0]);
        assert(records_bytes(rs.take(k)) == record_bytes(rs[0]) + records_bytes(
            rs.drop_first().take(k - 1),
        ));
        assert(records_bytes(rs) =~= records_bytes(rs.take(k)) + records_bytes(rs.skip(k)));
    }
}

/// Appending one record appends its bytes.
pub proof fn lemma_records_bytes_take_step(rs: Seq<SpecRecord>, k: int)
    requires
        0 <= k < rs.len(),
    ensures
        records_bytes(rs.take(k + 1)) == records_bytes(rs.take(k)) + record_bytes(rs[k]),
{
    lemma_records_bytes_split(rs.take(k + 1), k);
    assert(rs.take(k + 1).take(k) =~= rs.take(k));
    assert(rs.take(k + 1).skip(k) =~= seq![rs[k]]);
    assert(seq![rs[k]].drop_first() =~= Seq::<SpecRecord>::empty());
    assert(records_bytes(seq![rs[k]]) == record_bytes(rs[k]) + records_bytes(
        Seq::<SpecRecord>::empty(),
    ));
    assert(records_bytes(rs.take(k + 1)) =~= records_bytes(rs.take(k)) + record_bytes(rs[k]));
}

/// Write `qs` one after another at the cursor, extending the written bytes
/// from `w0` laid at `pos0` of `b0`.
#[verifier::loop_isolation(false)]
#[verifier::rlimit(100)]
fn write_question_list(
    buffer: &mut BytePacketBuffer,
    qs: &Vec<DnsQuestion>,
    Ghost(b0): Ghost<Seq<u8>>,
    Ghost(pos0): Ghost<int>,
    Ghost(w0): Ghost<Seq<u8>>,
) -> (r: Result<(), DnsError>)
    requires
        old(buffer).wf(),
        0 <= pos0,
        old(buffer).position() == pos0 + w0.len(),
        old(buffer).data() == spliced(b0, pos0, w0),
        b0.len() == 512,
    ensures
        final(buffer).wf(),
        r is Ok <==> (forall|i: int|
            0 <= i < qs@.len() ==> labels_fit((#[trigger] qs@[i])@.name)) && old(buffer).position()
            + questions_bytes(qs@.map_values(|x: DnsQuestion| x@)).len() <= 512,
        r is Ok ==> final(buffer).data() == spliced(
            b0,
            pos0,
            w0 + questions_bytes(qs@.map_values(|x: DnsQuestion| x@)),
        ) && final(buffer).position() == old(buffer).position() + questions_bytes(
            qs@.map_values(|x: DnsQuestion| x@),
        ).len(),
        r is Err ==> r->Err_0 == DnsError::LabelTooLong || r->Err_0 == DnsError::EndOfBuffer,
        r is Err && (forall|i: int| 0 <= i < qs@.len() ==> labels_fit((#[trigger] qs@[i])@.name))
            ==> r->Err_0 == DnsError::EndOfBuffer,
{
    proof {
        old(buffer).lemma_wf();
    }
    let ghost specs = qs@.map_values(|x: DnsQuestion| x@);
    let mut i: usize = 0;
    proof {
        assert(specs.take(0) =~= Seq::<SpecQuestion>::empty());
        assert(questions_bytes(specs.take(0)) =~= Seq::<u8>::empty());
        assert(w0 + questions_bytes(specs.take(0)) =~= w0);
    }
    while i < qs.len()
        invariant
            i <= qs@.len(),
            buffer.wf(),
            forall|j: int| 0 <= j < i ==> labels_fit((#[trigger] specs[j]).name),
            buffer.position() == pos0 + w0.len() + questions_bytes(specs.take(i as int)).len(),
            buffer.position() <= 512,
            buffer.data() == spliced(b0, pos0, w0 + questions_bytes(specs.take(i as int))),
        decreases qs@.len() - i,
    {
        let ghost wcur = w0 + questions_bytes(specs.take(i as int));
        proof {
            lemma_questions_bytes_take_step(specs, i as int);
            lemma_questions_bytes_split(specs, i + 1);
        }
        match qs[i].write(buffer) {
            Ok(_) => {
                proof {
                    lemma_spliced_app(b0, pos0, wcur, question_bytes(specs[i as int]));
                    assert(wcur + question_bytes(specs[i as int]) =~= w0 + questions_bytes(
                        specs.take(i + 1),
                    ));
                }
            },
            Err(e) => {
                proof {
                    if forall|j: int| 0 <= j < qs@.len() ==> labels_fit(
                        (#[trigger] qs@[j])@.name,
                    ) {
                        assert(qs@[i as int]@ == specs[i as int]);
                        assert(labels_fit(specs[i as int].name));
                        assert(pos0 + w0.len() + questions_bytes(specs).len() > 512);
                    }
                }
                return Err(e);
            },
        }
        i = i + 1;
    }
    proof {
        assert(specs.take(qs@.len() as int) =~= specs);
        assert forall|j: int| 0 <= j < qs@.len() implies labels_fit(
            (#[trigger] qs@[j])@.name,
        ) by {
            assert(specs[j] == qs@[j]@);
        }
    }
    Ok(())
}

/// Write `rs` one after another at the cursor, extending the written bytes
/// from `w0` laid at `pos0` of `b0`.
#[verifier::loop_isolation(false)]
#[verifier::rlimit(100)]
fn write_record_list(
    buffer: &mut BytePacketBuffer,
    rs: &Vec<DnsRecord>,
    Ghost(b0): Ghost<Seq<u8>>,
    Ghost(pos0): Ghost<int>,
    Ghost(w0): Ghost<Seq<u8>>,
) -> (r: Result<(), DnsError>)
    requires
        old(buffer).wf(),
        0 <= pos0,
        old(buffer).position() == pos0 + w0.len(),
        old(buffer).data() == spliced(b0, pos0, w0),
        b0.len() == 512,
    ensures
        final(buffer).wf(),
        r is Ok <==> (forall|i: int|
            0 <= i < rs@.len() ==> record_fits((#[trigger] rs@[i])@)) && old(buffer).position()
            + records_bytes(rs@.map_values(|x: DnsRecord| x@)).len() <= 512,
        r is Ok ==> final(buffer).data() == spliced(
            b0,
            pos0,
            w0 + records_bytes(rs@.map_values(|x: DnsRecord| x@)),
        ) && final(buffer).position() == old(buffer).position() + records_bytes(
            rs@.map_values(|x: DnsRecord| x@),
        ).len(),
        r is Err ==> r->Err_0 == DnsError::LabelTooLong || r->Err_0 == DnsError::EndOfBuffer,
        r is Err && (forall|i: int| 0 <= i < rs@.len() ==> record_fits((#[trigger] rs@[i])@))
            ==> r->Err_0 == DnsError::EndOfBuffer,
{
    proof {
        old(buffer).lemma_wf();
    }
    let ghost specs = rs@.map_values(|x: DnsRecord| x@);
    let mut i: usize = 0;
    proof {
        assert(specs.take(0) =~= Seq::<SpecRecord>::empty());
        assert(records_bytes(specs.take(0)) =~= Seq::<u8>::empty());
        assert(w0 + records_bytes(specs.take(0)) =~= w0);
    }
    while i < rs.len()
        invariant
            i <= rs@.len(),
            buffer.wf(),
            forall|j: int| 0 <= j < i ==> record_fits(#[trigger] specs[j]),
            buffer.position() == pos0 + w0.len() + records_bytes(specs.take(i as int)).len(),
            buffer.position() <= 512,
            buffer.data() == spliced(b0, pos0, w0 + records_bytes(specs.take(i as int))),
        decreases rs@.len() - i,
    {
        let ghost wcur = w0 + records_bytes(specs.take(i as int));
        proof {
            lemma_records_bytes_take_step(specs, i as int);
            lemma_records_bytes_split(specs, i + 1);
        }
        match rs[i].write(buffer) {
            Ok(_) => {
                proof {
                    lemma_spliced_app(b0, pos0, wcur, record_bytes(specs[i as int]));
                    assert(wcur + record_bytes(specs[i as int]) =~= w0 + records_bytes(
                        specs.take(i + 1),
                    ));
                }
            },
            Err(e) => {
                proof {
                    if forall|j: int| 0 <= j < rs@.len() ==> record_fits((#[trigger] rs@[j])@) {
                        assert(rs@[i as int]@ == specs[i as int]);
                        assert(record_fits(specs[i as int]));
                        assert(pos0 + w0.len() + records_bytes(specs).len() > 512);
                    }
                }
                return Err(e);
            },
        }
        i = i + 1;
    }
    proof {
        assert(specs.take(rs@.len() as int) =~= specs);
        assert forall|j: int| 0 <= j < rs@.len() implies record_fits((#[trigger] rs@[j])@) by {
            assert(specs[j] == rs@[j]@);
        }
    }
    Ok(())
}

/// Write the three record sections one after another at the cursor.
#[verifier::rlimit(100)]
fn write_record_sections(
    buffer: &mut BytePacketBuffer,
    answers: &Vec<DnsRecord>,
    authorities: &Vec<DnsRecord>,
    resources: &Vec<DnsRecord>,
    Ghost(b0): Ghost<Seq<u8>>,
    Ghost(pos0): Ghost<int>,
    Ghost(w0): Ghost<Seq<u8>>,
) -> (r: Result<(), DnsError>)
    requires
        old(buffer).wf(),
        0 <= pos0,
        old(buffer).position() == pos0 + w0.len(),
        old(buffer).data() == spliced(b0, pos0, w0),
        b0.len() == 512,
    ensures
        final(buffer).wf(),
        r is Ok <==> (forall|i: int| 0 <= i < answers@.len() ==> record_fits(
            (#[trigger] answers@[i])@,
        )) && (forall|i: int| 0 <= i < authorities@.len() ==> record_fits(
            (#[trigger] authorities@[i])@,
        )) && (forall|i: int| 0 <= i < resources@.len() ==> record_fits(
            (#[trigger] resources@[i])@,
        )) && old(buffer).position() + records_bytes(
            answers@.map_values(|x: DnsRecord| x@),
        ).len() + records_bytes(authorities@.map_values(|x: DnsRecord| x@)).len() + records_bytes(
            resources@.map_values(|x: DnsRecord| x@),
        ).len() <= 512,
        r is Ok ==> final(buffer).data() == spliced(
            b0,
            pos0,
            w0 + records_bytes(answers@.map_values(|x: DnsRecord| x@)) + records_bytes(
                authorities@.map_values(|x: DnsRecord| x@),
            ) + records_bytes(resources@.map_values(|x: DnsRecord| x@)),
        ) && final(buffer).position() == old(buffer).position() + records_bytes(
            answers@.map_values(|x: DnsRecord| x@),
        ).len() + records_bytes(authorities@.map_values(|x: DnsRecord| x@)).len() + records_bytes(
            resources@.map_values(|x: DnsRecord| x@),
        ).len(),
        r is Err ==> r->Err_0 == DnsError::LabelTooLong || r->Err_0 == DnsError::EndOfBuffer,
        r is Err && (forall|i: int| 0 <= i < answers@.len() ==> record_fits(
            (#[trigger] answers@[i])@,
        )) && (forall|i: int| 0 <= i < authorities@.len() ==> record_fits(
            (#[trigger] authorities@[i])@,
        )) && (forall|i: int| 0 <= i < resources@.len() ==> record_fits(
            (#[trigger] resources@[i])@,
        )) ==> r->Err_0 == DnsError::EndOfBuffer,
{
    let ghost ab = records_bytes(answers@.map_values(|x: DnsRecord| x@));
    let ghost tb = records_bytes(authorities@.map_values(|x: DnsRecord| x@));
    let ghost rb = records_bytes(resources@.map_values(|x: DnsRecord| x@));
    match write_record_list(buffer, answers, Ghost(b0), Ghost(pos0), Ghost(w0)) {
        Ok(_) => {},
        Err(e) => {
            return Err(e);
        },
    }
    match write_record_list(buffer, authorities, Ghost(b0), Ghost(pos0), Ghost(w0 + ab)) {
        Ok(_) => {},
        Err(e) => {
            return Err(e);
        },
    }
    match write_record_list(buffer, resources, Ghost(b0), Ghost(pos0), Ghost(w0 + ab + tb)) {
        Ok(_) => {},
        Err(e) => {
            return Err(e);
        },
    }
    Ok(())
}

impl DnsPacket {
    /// Rewrite the header counts from the section lengths and write the
    /// whole packet at the cursor, the reserved bit as zero.
    #[verifier::loop_isolation(false)]
    #[verifier::rlimit(100)]
    pub fn write(&mut self, buffer: &mut BytePacketBuffer) -> (r: Result<(), DnsError>)
        requires
            old(buffer).wf(),
            old(self).questions@.len() <= u16::MAX,
            old(self).answers@.len() <= u16::MAX,
            old(self).authorities@.len() <= u16::MAX,
            old(self).resources@.len() <= u16::MAX,
        ensures
            final(buffer).wf(),
            final(self)@ == (SpecPacket { header: wire_header(old(self)@), ..old(self)@ }),
            r is Ok <==> packet_fits(old(self)@) && old(buffer).position() + packet_bytes(
                old(self)@,
            ).len() <= 512,
            r is Ok ==> final(buffer).data() == spliced(
                old(buffer).data(),
                old(buffer).position(),
                packet_bytes(old(self)@),
            ) && final(buffer).position() == old(buffer).position() + packet_bytes(
                old(self)@,
            ).len(),
            r is Err ==> r->Err_0 == DnsError::LabelTooLong || r->Err_0 == DnsError::EndOfBuffer,
            r is Err && packet_fits(old(self)@) ==> r->Err_0 == DnsError::EndOfBuffer,
    {
        proof {
            old(buffer).lemma_wf();
        }
        let ghost p = old(self)@;
        let ghost b0 = buffer.data();
        let ghost pos0 = buffer.position();
        self.header.questions = self.questions.len() as u16;
        self.header.answers = self.answers.len() as u16;
        self.header.authoritative_entries = self.authorities.len() as u16;
        self.header.resource_entries = self.resources.len() as u16;
        proof {
            assert(self.header == wire_header(p));
            assert(self@ == (SpecPacket { header: wire_header(p), ..p }));
        }
        let ghost hb = wire_header(p).wire_bytes();
        let ghost qb = questions_bytes(p.questions);
        let ghost ab = records_bytes(p.answers);
        let ghost tb = records_bytes(p.authorities);
        let ghost rb = records_bytes(p.resources);
        proof {
            assert(packet_bytes(p) == hb + qb + ab + tb + rb);
        }
        match self.header.write(buffer) {
            Ok(_) => {},
            Err(e) => {
                return Err(e);
            },
        }
        // questions
        proof {
            assert(self.questions@.map_values(|q: DnsQuestion| q@) == p.questions);
        }
        match write_question_list(buffer, &self.questions, Ghost(b0), Ghost(pos0), Ghost(hb)) {
            Ok(_) => {},
            Err(e) => {
                proof {
                    if packet_fits(p) {
                        assert forall|j: int| 0 <= j < self.questions@.len() implies labels_fit(
                            (#[trigger] self.questions@[j])@.name,
                        ) by {
                            assert(self.questions@[j]@ == p.questions[j]);
                        }
                        assert(pos0 + packet_bytes(p).len() > 512);
                    }
                }
                return Err(e);
            },
        }
        proof {
            assert(hb + qb =~= hb + questions_bytes(p.questions));
        }
        // answers, authorities, resources
        proof {
            assert(self.answers@.map_values(|x: DnsRecord| x@) == p.answers);
            assert(self.authorities@.map_values(|x: DnsRecord| x@) == p.authorities);
            assert(self.resources@.map_values(|x: DnsRecord| x@) == p.resources);
        }
        match write_record_sections(
            buffer,
            &self.answers,
            &self.authorities,
            &self.resources,
            Ghost(b0),
            Ghost(pos0),
            Ghost(hb + qb),
        ) {
            Ok(_) => {},
            Err(e) => {
                proof {
                    if packet_fits(p) {
                        assert forall|j: int| 0 <= j < self.answers@.len() implies record_fits(
                            (#[trigger] self.answers@[j])@,
                        ) by {
                            assert(self.answers@[j]@ == p.answers[j]);
                        }
                        assert forall|j: int|
                            0 <= j < self.authorities@.len() implies record_fits(
                            (#[trigger] self.authorities@[j])@,
                        ) by {
                            assert(self.authorities@[j]@ == p.authorities[j]);
                        }
                        assert forall|j: int| 0 <= j < self.resources@.len() implies record_fits(
                            (#[trigger] self.resources@[j])@,
                        ) by {
                            assert(self.resources@[j]@ == p.resources[j]);
                        }
                        assert(pos0 + packet_bytes(p).len() > 512);
                    }
                }
                return Err(e);
            },
        }
        proof {
            assert(hb + qb + ab + tb + rb =~= hb + qb + records_bytes(p.answers)
                + records_bytes(p.authorities) + records_bytes(p.resources));
            assert(packet_bytes(p) =~= hb + qb + ab + tb + rb);
        }
        Ok(())
    }
}

} // verus!

verus! {

/// A record the codec round-trips: a known record type with valid names.
pub open spec fn valid_record(r: SpecRecord) -> bool {
    match r {
        SpecRecord::Unknown { .. } => false,
        SpecRecord::A { domain, .. } => crate::qname::valid_qname(domain),
        SpecRecord::AAAA { domain, .. } => crate::qname::valid_qname(domain),
        SpecRecord::NS { domain, host, .. } => crate::qname::valid_qname(domain)
            && crate::qname::valid_qname(host),
        SpecRecord::CNAME { domain, host, .. } => crate::qname::valid_qname(domain)
            && crate::qname::valid_qname(host),
        SpecRecord::MX { domain, host, .. } => crate::qname::valid_qname(domain)
            && crate::qname::valid_qname(host),
    }
}

/// A record written by the encoder reads back unchanged.
#[verifier::rlimit(100)]
pub proof fn lemma_record_roundtrip(b: Seq<u8>, pos: int, r: SpecRecord)
    requires
        valid_record(r),
        b.len() == 512,
        0 <= pos,
        pos + record_bytes(r).len() <= 512,
        b.subrange(pos, pos + record_bytes(r).len()) == record_bytes(r),
    ensures
        spec_read_record(b, pos) == Ok::<(SpecRecord, int), DnsError>(
            (r, pos + record_bytes(r).len()),
        ),
{
    match r {
        SpecRecord::Unknown { .. } => {},
        SpecRecord::A { domain, addr, ttl } => {
            let qb = qname_bytes(domain);
            let tail = u16_bytes(1u16) + u16_bytes(1u16) + u32_bytes(ttl) + u16_bytes(4u16)
                + seq![addr.o0, addr.o1, addr.o2, addr.o3];
            assert(record_bytes(r) =~= qb + tail);
            lemma_split_sub(b, pos, qb, tail);
            crate::qname::lemma_qname_roundtrip(b, pos, domain);
            let p1 = pos + qb.len();
            assert(b.subrange(p1, p1 + (u16_bytes(1u16)).len() + (u16_bytes(1u16) + u32_bytes(ttl) + u16_bytes(
                4u16,
            ) + seq![addr.o0, addr.o1, addr.o2, addr.o3]).len()) =~= (u16_bytes(1u16)) + (u16_bytes(1u16) + u32_bytes(ttl) + u16_bytes(
                4u16,
            ) + seq![addr.o0, addr.o1, addr.o2, addr.o3]));
            lemma_split_sub(b, p1, u16_bytes(1u16), u16_bytes(1u16) + u32_bytes(ttl) + u16_bytes(
                4u16,
            ) + seq![addr.o0, addr.o1, addr.o2, addr.o3]);
            lemma_u16_roundtrip(b, p1, 1u16);
            assert(b.subrange(p1 + 2, p1 + 2 + (u16_bytes(1u16)).len() + (u32_bytes(ttl) + u16_bytes(4u16)
                + seq![addr.o0, addr.o1, addr.o2, addr.o3]).len()) =~= (u16_bytes(1u16)) + (u32_bytes(ttl) + u16_bytes(4u16)
                + seq![addr.o0, addr.o1, addr.o2, addr.o3]));
            lemma_split_sub(b, p1 + 2, u16_bytes(1u16), u32_bytes(ttl) + u16_bytes(4u16)
                + seq![addr.o0, addr.o1, addr.o2, addr.o3]);
            assert(b.subrange(p1 + 4, p1 + 4 + (u32_bytes(ttl)).len() + (u16_bytes(4u16)
                + seq![addr.o0, addr.o1, addr.o2, addr.o3]).len()) =~= (u32_bytes(ttl)) + (u16_bytes(4u16)
                + seq![addr.o0, addr.o1, addr.o2, addr.o3]));
            lemma_split_sub(b, p1 + 4, u32_bytes(ttl), u16_bytes(4u16)
                + seq![addr.o0, addr.o1, addr.o2, addr.o3]);
            lemma_u32_roundtrip(b, p1 + 4, ttl);
            assert(b.subrange(p1 + 8, p1 + 8 + (u16_bytes(4u16)).len() + (seq![addr.o0, addr.o1, addr.o2, addr.o3]).len()) =~= (u16_bytes(4u16)) + (seq![addr.o0, addr.o1, addr.o2, addr.o3]));
            lemma_split_sub(b, p1 + 8, u16_bytes(4u16), seq![addr.o0, addr.o1, addr.o2, addr.o3]);
            let p2 = p1 + 10;
            let payload = b.subrange(p2, p2 + 4);
            assert(payload == seq![addr.o0, addr.o1, addr.o2, addr.o3]);
            assert(b[p2] == payload[0] && b[p2 + 1] == payload[1] && b[p2 + 2] == payload[2]
                && b[p2 + 3] == payload[3]);
        },
        SpecRecord::AAAA { domain, addr, ttl } => {
            let qb = qname_bytes(domain);
            let groups = u16_bytes(addr.g0) + u16_bytes(addr.g1) + u16_bytes(addr.g2) + u16_bytes(
                addr.g3,
            ) + u16_bytes(addr.g4) + u16_bytes(addr.g5) + u16_bytes(addr.g6) + u16_bytes(addr.g7);
            let tail = u16_bytes(28u16) + u16_bytes(1u16) + u32_bytes(ttl) + u16_bytes(16u16)
                + groups;
            assert(record_bytes(r) =~= qb + tail);
            lemma_split_sub(b, pos, qb, tail);
            crate::qname::lemma_qname_roundtrip(b, pos, domain);
            let p1 = pos + qb.len();
            assert(b.subrange(p1, p1 + (u16_bytes(28u16)).len() + (u16_bytes(1u16) + u32_bytes(ttl) + u16_bytes(
                16u16,
            ) + groups).len()) =~= (u16_bytes(28u16)) + (u16_bytes(1u16) + u32_bytes(ttl) + u16_bytes(
                16u16,
            ) + groups));
            lemma_split_sub(b, p1, u16_bytes(28u16), u16_bytes(1u16) + u32_bytes(ttl) + u16_bytes(
                16u16,
            ) + groups);
            lemma_u16_roundtrip(b, p1, 28u16);
            assert(b.subrange(p1 + 2, p1 + 2 + (u16_bytes(1u16)).len() + (u32_bytes(ttl) + u16_bytes(16u16)
                + groups).len()) =~= (u16_bytes(1u16)) + (u32_bytes(ttl) + u16_bytes(16u16)
                + groups));
            lemma_split_sub(b, p1 + 2, u16_bytes(1u16), u32_bytes(ttl) + u16_bytes(16u16)
                + groups);
            assert(b.subrange(p1 + 4, p1 + 4 + (u32_bytes(ttl)).len() + (u16_bytes(16u16) + groups).len()) =~= (u32_bytes(ttl)) + (u16_bytes(16u16) + groups));
            lemma_split_sub(b, p1 + 4, u32_bytes(ttl), u16_bytes(16u16) + groups);
            lemma_u32_roundtrip(b, p1 + 4, ttl);
            assert(b.subrange(p1 + 8, p1 + 8 + (u16_bytes(16u16)).len() + (groups).len()) =~= (u16_bytes(16u16)) + (groups));
            lemma_split_sub(b, p1 + 8, u16_bytes(16u16), groups);
            let p2 = p1 + 10;
            assert(b.subrange(p2, p2 + (u16_bytes(addr.g0)).len() + (u16_bytes(addr.g1) + u16_bytes(addr.g2)
                + u16_bytes(addr.g3) + u16_bytes(addr.g4) + u16_bytes(addr.g5) + u16_bytes(
                addr.g6,
            ) + u16_bytes(addr.g7)).len()) =~= (u16_bytes(addr.g0)) + (u16_bytes(addr.g1) + u16_bytes(addr.g2)
                + u16_bytes(addr.g3) + u16_bytes(addr.g4) + u16_bytes(addr.g5) + u16_bytes(
                addr.g6,
            ) + u16_bytes(addr.g7)));
            lemma_split_sub(b, p2, u16_bytes(addr.g0), u16_bytes(addr.g1) + u16_bytes(addr.g2)
                + u16_bytes(addr.g3) + u16_bytes(addr.g4) + u16_bytes(addr.g5) + u16_bytes(
                addr.g6,
            ) + u16_bytes(addr.g7));
            lemma_u16_roundtrip(b, p2, addr.g0);
            assert(b.subrange(p2 + 2, p2 + 2 + (u16_bytes(addr.g1)).len() + (u16_bytes(addr.g2) + u16_bytes(addr.g3)
                + u16_bytes(addr.g4) + u16_bytes(addr.g5) + u16_bytes(addr.g6) + u16_bytes(
                addr.g7,
            )).len()) =~= (u16_bytes(addr.g1)) + (u16_bytes(addr.g2) + u16_bytes(addr.g3)
                + u16_bytes(addr.g4) + u16_bytes(addr.g5) + u16_bytes(addr.g6) + u16_bytes(
                addr.g7,
            )));
            lemma_split_sub(b, p2 + 2, u16_bytes(addr.g1), u16_bytes(addr.g2) + u16_bytes(addr.g3)
                + u16_bytes(addr.g4) + u16_bytes(addr.g5) + u16_bytes(addr.g6) + u16_bytes(
                addr.g7,
            ));
            lemma_u16_roundtrip(b, p2 + 2, addr.g1);
            assert(b.subrange(p2 + 4, p2 + 4 + (u16_bytes(addr.g2)).len() + (u16_bytes(addr.g3) + u16_bytes(addr.g4)
                + u16_bytes(addr.g5) + u16_bytes(addr.g6) + u16_bytes(addr.g7)).len()) =~= (u16_bytes(addr.g2)) + (u16_bytes(addr.g3) + u16_bytes(addr.g4)
                + u16_bytes(addr.g5) + u16_bytes(addr.g6) + u16_bytes(addr.g7)));
            lemma_split_sub(b, p2 + 4, u16_bytes(addr.g2), u16_bytes(addr.g3) + u16_bytes(addr.g4)
                + u16_bytes(addr.g5) + u16_bytes(addr.g6) + u16_bytes(addr.g7));
            lemma_u16_roundtrip(b, p2 + 4, addr.g2);
            assert(b.subrange(p2 + 6, p2 + 6 + (u16_bytes(addr.g3)).len() + (u16_bytes(addr.g4) + u16_bytes(addr.g5)
                + u16_bytes(addr.g6) + u16_bytes(addr.g7)).len()) =~= (u16_bytes(addr.g3)) + (u16_bytes(addr.g4) + u16_bytes(addr.g5)
                + u16_bytes(addr.g6) + u16_bytes(addr.g7)));
            lemma_split_sub(b, p2 + 6, u16_bytes(addr.g3), u16_bytes(addr.g4) + u16_bytes(addr.g5)
                + u16_bytes(addr.g6) + u16_bytes(addr.g7));
            lemma_u16_roundtrip(b, p2 + 6, addr.g3);
            assert(b.subrange(p2 + 8, p2 + 8 + (u16_bytes(addr.g4)).len() + (u16_bytes(addr.g5) + u16_bytes(addr.g6)
                + u16_bytes(addr.g7)).len()) =~= (u16_bytes(addr.g4)) + (u16_bytes(addr.g5) + u16_bytes(addr.g6)
                + u16_bytes(addr.g7)));
            lemma_split_sub(b, p2 + 8, u16_bytes(addr.g4), u16_bytes(addr.g5) + u16_bytes(addr.g6)
                + u16_bytes(addr.g7));
            lemma_u16_roundtrip(b, p2 + 8, addr.g4);
            assert(b.subrange(p2 + 10, p2 + 10 + (u16_bytes(addr.g5)).len() + (u16_bytes(addr.g6) + u16_bytes(
                addr.g7,
            )).len()) =~= (u16_bytes(addr.g5)) + (u16_bytes(addr.g6) + u16_bytes(
                addr.g7,
            )));
            lemma_split_sub(b, p2 + 10, u16_bytes(addr.g5), u16_bytes(addr.g6) + u16_bytes(
                addr.g7,
            ));
            lemma_u16_roundtrip(b, p2 + 10, addr.g5);
            assert(b.subrange(p2 + 12, p2 + 12 + (u16_bytes(addr.g6)).len() + (u16_bytes(addr.g7)).len()) =~= (u16_bytes(addr.g6)) + (u16_bytes(addr.g7)));
            lemma_split_sub(b, p2 + 12, u16_bytes(addr.g6), u16_bytes(addr.g7));
            lemma_u16_roundtrip(b, p2 + 12, addr.g6);
            lemma_u16_roundtrip(b, p2 + 14, addr.g7);
        },
        SpecRecord::NS { domain, host, ttl } => {
            lemma_host_record_roundtrip(b, pos, r, domain, 2u16, seq![], host, ttl);
        },
        SpecRecord::CNAME { domain, host, ttl } => {
            lemma_host_record_roundtrip(b, pos, r, domain, 5u16, seq![], host, ttl);
        },
        SpecRecord::MX { domain, priority, host, ttl } => {
            lemma_host_record_roundtrip(b, pos, r, domain, 15u16, u16_bytes(priority), host, ttl);
        },
    }
}

/// The round trip of a record whose payload is a host name.
#[verifier::rlimit(100)]
proof fn lemma_host_record_roundtrip(
    b: Seq<u8>,
    pos: int,
    r: SpecRecord,
    domain: Seq<char>,
    qt: u16,
    prio: Seq<u8>,
    host: Seq<char>,
    ttl: u32,
)
    requires
        valid_record(r),
        r == (match r {
            SpecRecord::NS { .. } => SpecRecord::NS { domain, host, ttl },
            SpecRecord::CNAME { .. } => SpecRecord::CNAME { domain, host, ttl },
            _ => SpecRecord::MX { domain, priority: u16_be(prio + prio, 0), host, ttl },
        }),
        r is NS ==> qt == 2 && prio == Seq::<u8>::empty(),
        r is CNAME ==> qt == 5 && prio == Seq::<u8>::empty(),
        r is MX ==> qt == 15 && (exists|p: u16| prio == u16_bytes(p)),
        b.len() == 512,
        0 <= pos,
        pos + record_bytes(r).len() <= 512,
        b.subrange(pos, pos + record_bytes(r).len()) == record_bytes(r),
    ensures
        spec_read_record(b, pos) == Ok::<(SpecRecord, int), DnsError>(
            (r, pos + record_bytes(r).len()),
        ),
{
    let qb = qname_bytes(domain);
    let hb = qname_bytes(host);
    let dl: u16 = if r is MX {
        (hb.len() + 2) as u16
    } else {
        hb.len() as u16
    };
    let tail = u16_bytes(qt) + u16_bytes(1u16) + u32_bytes(ttl) + u16_bytes(dl) + prio + hb;
    assert(record_bytes(r) =~= qb + tail);
    lemma_split_sub(b, pos, qb, tail);
    crate::qname::lemma_qname_roundtrip(b, pos, domain);
    let p1 = pos + qb.len();
    assert(b.subrange(p1, p1 + (u16_bytes(qt)).len() + (u16_bytes(1u16) + u32_bytes(ttl) + u16_bytes(dl) + prio
        + hb).len()) =~= (u16_bytes(qt)) + (u16_bytes(1u16) + u32_bytes(ttl) + u16_bytes(dl) + prio
        + hb));
    lemma_split_sub(b, p1, u16_bytes(qt), u16_bytes(1u16) + u32_bytes(ttl) + u16_bytes(dl) + prio
        + hb);
    lemma_u16_roundtrip(b, p1, qt);
    assert(b.subrange(p1 + 2, p1 + 2 + (u16_bytes(1u16)).len() + (u32_bytes(ttl) + u16_bytes(dl) + prio + hb).len()) =~= (u16_bytes(1u16)) + (u32_bytes(ttl) + u16_bytes(dl) + prio + hb));
    lemma_split_sub(b, p1 + 2, u16_bytes(1u16), u32_bytes(ttl) + u16_bytes(dl) + prio + hb);
    assert(b.subrange(p1 + 4, p1 + 4 + (u32_bytes(ttl)).len() + (u16_bytes(dl) + prio + hb).len()) =~= (u32_bytes(ttl)) + (u16_bytes(dl) + prio + hb));
    lemma_split_sub(b, p1 + 4, u32_bytes(ttl), u16_bytes(dl) + prio + hb);
    lemma_u32_roundtrip(b, p1 + 4, ttl);
    assert(b.subrange(p1 + 8, p1 + 8 + (u16_bytes(dl)).len() + (prio + hb).len()) =~= (u16_bytes(dl)) + (prio + hb));
    lemma_split_sub(b, p1 + 8, u16_bytes(dl), prio + hb);
    let p2 = p1 + 10;
    assert(b.subrange(p2, p2 + (prio).len() + (hb).len()) =~= (prio) + (hb));
    lemma_split_sub(b, p2, prio, hb);
    if r is MX {
        let p: u16 = choose|p: u16| prio == u16_bytes(p);
        lemma_u16_roundtrip(b, p2, p);
        assert(u16_be(prio + prio, 0) == p) by {
            assert((prio + prio)[0] == prio[0]);
            assert((prio + prio)[1] == prio[1]);
        }
        crate::qname::lemma_qname_roundtrip(b, p2 + 2, host);
    } else {
        crate::qname::lemma_qname_roundtrip(b, p2, host);
    }
}

} // verus!

verus! {

/// Reading a laid-out question list yields it.
proof fn lemma_questions_list_roundtrip(b: Seq<u8>, pos: int, qs: Seq<SpecQuestion>, acc: Seq<SpecQuestion>)
    requires
        forall|i: int| 0 <= i < qs.len() ==> crate::qname::valid_qname((#[trigger] qs[i]).name)
            && canonical_qtype(qs[i].qtype),
        b.len() == 512,
        0 <= pos,
        pos + questions_bytes(qs).len() <= 512,
        b.subrange(pos, pos + questions_bytes(qs).len()) == questions_bytes(qs),
    ensures
        spec_read_questions(b, pos, qs.len(), acc) == Ok::<(Seq<SpecQuestion>, int), DnsError>(
            (acc + qs, pos + questions_bytes(qs).len()),
        ),
    decreases qs.len(),
{
    if qs.len() == 0 {
        assert(acc + qs =~= acc);
        assert(questions_bytes(qs).len() == 0);
    } else {
        let q = qs[0];
        let rest = qs.drop_first();
        assert(questions_bytes(qs) == question_bytes(q) + questions_bytes(rest));
        lemma_split_sub(b, pos, question_bytes(q), questions_bytes(rest));
        lemma_question_roundtrip(b, pos, q);
        let p2 = pos + question_bytes(q).len();
        assert(forall|i: int| 0 <= i < rest.len() ==> rest[i] == qs[i + 1]);
        lemma_questions_list_roundtrip(b, p2, rest, acc.push(q));
        assert(acc.push(q) + rest =~= acc + qs);
    }
}

/// Reading a laid-out record list yields it.
proof fn lemma_records_list_roundtrip(b: Seq<u8>, pos: int, rs: Seq<SpecRecord>, acc: Seq<SpecRecord>)
    requires
        forall|i: int| 0 <= i < rs.len() ==> valid_record(#[trigger] rs[i]),
        b.len() == 512,
        0 <= pos,
        pos + records_bytes(rs).len() <= 512,
        b.subrange(pos, pos + records_bytes(rs).len()) == records_bytes(rs),
    ensures
        spec_read_records(b, pos, rs.len(), acc) == Ok::<(Seq<SpecRecord>, int), DnsError>(
            (acc + rs, pos + records_bytes(rs).len()),
        ),
    decreases rs.len(),
{
    if rs.len() == 0 {
        assert(acc + rs =~= acc);
        assert(records_bytes(rs).len() == 0);
    } else {
        let r = rs[0];
        let rest = rs.drop_first();
        assert(records_bytes(rs) == record_bytes(r) + records_bytes(rest));
        lemma_split_sub(b, pos, record_bytes(r), records_bytes(rest));
        lemma_record_roundtrip(b, pos, r);
        let p2 = pos + record_bytes(r).len();
        assert(forall|i: int| 0 <= i < rest.len() ==> rest[i] == rs[i + 1]);
        lemma_records_list_roundtrip(b, p2, rest, acc.push(r));
        assert(acc.push(r) + rest =~= acc + rs);
    }
}

/// A packet the codec round-trips: a 4-bit opcode, sections that fit a
/// 16-bit count, names the codec reads back unchanged, no unknown records,
/// and no unknown query type that shadows an assigned code.
pub open spec fn roundtrip_packet(p: SpecPacket) -> bool {
    &&& p.header.emit_ok()
    &&& p.questions.len() <= u16::MAX
    &&& p.answers.len() <= u16::MAX
    &&& p.authorities.len() <= u16::MAX
    &&& p.resources.len() <= u16::MAX
    &&& forall|i: int| 0 <= i < p.questions.len() ==> crate::qname::valid_qname(
        (#[trigger] p.questions[i]).name,
    ) && canonical_qtype(p.questions[i].qtype)
    &&& forall|i: int| 0 <= i < p.answers.len() ==> valid_record(#[trigger] p.answers[i])
    &&& forall|i: int| 0 <= i < p.authorities.len() ==> valid_record(#[trigger] p.authorities[i])
    &&& forall|i: int| 0 <= i < p.resources.len() ==> valid_record(#[trigger] p.resources[i])
}

/// The wire codec round trip: a packet laid out by the encoder decodes to
/// the same questions and records, under a header whose count fields are
/// the section lengths and whose reserved bit is clear.
#[verifier::rlimit(100)]
pub proof fn lemma_packet_roundtrip(b: Seq<u8>, pos: int, p: SpecPacket)
    requires
        roundtrip_packet(p),
        b.len() == 512,
        0 <= pos,
        pos + packet_bytes(p).len() <= 512,
        b.subrange(pos, pos + packet_bytes(p).len()) == packet_bytes(p),
    ensures
        spec_parse_packet(b, pos) == Ok::<(SpecPacket, int), DnsError>(
            (
                SpecPacket {
                    header: (DnsHeader { z: false, ..wire_header(p) }),
                    questions: p.questions,
                    answers: p.answers,
                    authorities: p.authorities,
                    resources: p.resources,
                },
                pos + packet_bytes(p).len(),
            ),
        ),
{
    let hb = wire_header(p).wire_bytes();
    let qb = questions_bytes(p.questions);
    let ab = records_bytes(p.answers);
    let tb = records_bytes(p.authorities);
    let rb = records_bytes(p.resources);
    assert(packet_bytes(p) == hb + qb + ab + tb + rb);
    assert(b.subrange(pos, pos + hb.len() + (qb + ab + tb + rb).len()) =~= hb + (qb + ab + tb
        + rb));
    lemma_split_sub(b, pos, hb, qb + ab + tb + rb);
    assert(hb.len() == 12);
    lemma_header_roundtrip(wire_header(p), b, pos);
    let h = DnsHeader::spec_read(b, pos);
    assert(h == (DnsHeader { z: false, ..wire_header(p) }));
    assert(h.questions == p.questions.len());
    assert(h.answers == p.answers.len());
    assert(h.authoritative_entries == p.authorities.len());
    assert(h.resource_entries == p.resources.len());
    let p1 = pos + 12;
    assert(b.subrange(p1, p1 + qb.len() + (ab + tb + rb).len()) =~= qb + (ab + tb + rb));
    lemma_split_sub(b, p1, qb, ab + tb + rb);
    lemma_questions_list_roundtrip(b, p1, p.questions, seq![]);
    assert(seq![] + p.questions =~= p.questions);
    let p2 = p1 + qb.len();
    assert(b.subrange(p2, p2 + ab.len() + (tb + rb).len()) =~= ab + (tb + rb));
    lemma_split_sub(b, p2, ab, tb + rb);
    lemma_records_list_roundtrip(b, p2, p.answers, seq![]);
    assert(seq![] + p.answers =~= p.answers);
    let p3 = p2 + ab.len();
    assert(b.subrange(p3, p3 + tb.len() + rb.len()) =~= tb + rb);
    lemma_split_sub(b, p3, tb, rb);
    lemma_records_list_roundtrip(b, p3, p.authorities, seq![]);
    assert(seq![] + p.authorities =~= p.authorities);
    let p4 = p3 + tb.len();
    lemma_records_list_roundtrip(b, p4, p.resources, seq![]);
    assert(seq![] + p.resources =~= p.resources);
}

} // verus!
