//! The per-query decision: decode the datagram, consult the host table,
//! and either synthesize a local answer or hand the query on to the
//! upstream forwarder.

use vstd::prelude::*;
use crate::DnsError;
use crate::buffer::BytePacketBuffer;
use crate::config::{Hosts, SpecHosts, spec_lookup};
use crate::ip::IpAddress;
use crate::packet::{
    DnsPacket, DnsRecord, QueryType, SpecPacket, SpecRecord, packet_bytes, packet_fits,
    spec_parse_packet, spec_read_questions, spec_read_records, spec_read_question,
    spec_read_record,
};
use crate::qname::spec_read_qname;

verus! {

/// The record synthesized for a domain, if the table holds its address and
/// the family fits the query type; the answer's time to live is 3600.
pub open spec fn spec_answer(hosts: SpecHosts, domain: Seq<char>, qtype: QueryType) -> Option<
    SpecRecord,
> {
    match spec_lookup(hosts, domain) {
        None => None,
        Some(ip) => match ip {
            IpAddress::V4(addr) => if qtype is A {
                Some(SpecRecord::A { domain, addr, ttl: 3600 })
            } else {
                None
            },
            IpAddress::V6(addr) => if qtype is AAAA {
                Some(SpecRecord::AAAA { domain, addr, ttl: 3600 })
            } else {
                None
            },
        },
    }
}

/// Look up a local answer for the question.
pub fn get_answer(hosts: &Hosts, domain: &str, qtype: QueryType) -> (r: Option<DnsRecord>)
    ensures
        (match r {
            Some(rec) => spec_answer(hosts@, domain@, qtype) == Some(rec@),
            None => spec_answer(hosts@, domain@, qtype) is None,
        }),
{
    match hosts.get(domain) {
        None => None,
        Some(ip) => match ip {
            IpAddress::V4(addr) => if let QueryType::A = qtype {
                Some(DnsRecord::A { domain: domain.to_owned(), addr, ttl: 3600 })
            } else {
                None
            },
            IpAddress::V6(addr) => if let QueryType::AAAA = qtype {
                Some(DnsRecord::AAAA { domain: domain.to_owned(), addr, ttl: 3600 })
            } else {
                None
            },
        },
    }
}

/// What the resolver decided for one datagram.
#[derive(Debug)]
pub enum Resolution {
    /// Reply with these bytes.
    Reply(Vec<u8>),
    /// Forward the datagram to the upstreams and relay the first answer.
    Forward,
    /// Drop the request: it did not decode.
    FailDecode(DnsError),
    /// Drop the request: the synthesized answer did not encode.
    FailEncode(DnsError),
}

/// The resolver decision at the spec level.
pub enum SpecResolution {
    Reply(Seq<u8>),
    Forward,
    FailDecode(DnsError),
    FailEncode,
}

/// The datagram in its 512-byte receive buffer, zero-padded.
pub open spec fn padded(data: Seq<u8>) -> Seq<u8> {
    data + Seq::new((512 - data.len()) as nat, |i: int| 0u8)
}

/// The reply packet: the query with the response flags set and the
/// synthesized record appended.
pub open spec fn reply_packet(p: SpecPacket, rec: SpecRecord) -> SpecPacket {
    SpecPacket {
        header: (crate::packet::DnsHeader {
            recursion_desired: true,
            recursion_available: true,
            response: true,
            ..p.header
        }),
        answers: p.answers.push(rec),
        ..p
    }
}

/// The decision for one datagram: a failed decode is dropped; a datagram
/// without a question, a domain without a rule, and a family mismatch are
/// forwarded; otherwise the reply is the re-encoded query carrying the
/// synthesized answer.
pub open spec fn spec_resolve(hosts: SpecHosts, data: Seq<u8>) -> SpecResolution {
    let b = padded(data);
    match spec_parse_packet(b, 0) {
        Err(e) => SpecResolution::FailDecode(e),
        Ok((p, end)) => if p.questions.len() == 0 {
            SpecResolution::Forward
        } else {
            let q = p.questions[0];
            match spec_answer(hosts, q.name, q.qtype) {
                None => SpecResolution::Forward,
                Some(rec) => {
                    let p2 = reply_packet(p, rec);
                    if packet_fits(p2) && packet_bytes(p2).len() <= 512 {
                        SpecResolution::Reply(packet_bytes(p2))
                    } else {
                        SpecResolution::FailEncode
                    }
                },
            }
        },
    }
}

/// A name read from the buffer ends at most at the buffer's end, and past
/// where it began.
proof fn lemma_qname_cursor(b: Seq<u8>, pos: int, jumps: nat, jumped: bool, cur: int, acc: Seq<char>)
    requires
        spec_read_qname_rec_ok(b, pos, jumps, jumped, cur, acc),
    ensures
        ({
            let c = crate::qname::spec_read_qname_rec(b, pos, jumps, jumped, cur, acc)->Ok_0.1;
            &&& (jumped ==> c == cur)
            &&& (!jumped ==> pos + 1 <= c <= 512)
        }),
    decreases 5 - jumps, 512 - (if 0 <= pos <= 512 { pos } else { 512 }),
{
    let r = crate::qname::spec_read_qname_rec(b, pos, jumps, jumped, cur, acc);
    let len = b[pos];
    if len >= 0xC0 {
        let target = (len - 0xC0) * 256 + b[pos + 1];
        lemma_qname_cursor(
            b,
            target as int,
            jumps + 1,
            true,
            if jumped {
                cur
            } else {
                pos + 2
            },
            acc,
        );
    } else if len == 0 {
    } else {
        let label = Seq::new(len as nat, |j: int| crate::text::lower_spec(b[pos + 1 + j]));
        lemma_qname_cursor(
            b,
            pos + 1 + len,
            jumps,
            jumped,
            cur,
            if acc.len() == 0 {
                label
            } else {
                acc + seq!['.'] + label
            },
        );
    }
}

/// Whether the reader succeeds from this state.
pub open spec fn spec_read_qname_rec_ok(
    b: Seq<u8>,
    pos: int,
    jumps: nat,
    jumped: bool,
    cur: int,
    acc: Seq<char>,
) -> bool {
    crate::qname::spec_read_qname_rec(b, pos, jumps, jumped, cur, acc) is Ok
}

/// A record read from the buffer ends at most at the buffer's end, and at
/// least eleven bytes past where it began.
proof fn lemma_record_cursor(b: Seq<u8>, pos: int)
    requires
        spec_read_record(b, pos) is Ok,
    ensures
        pos + 11 <= spec_read_record(b, pos)->Ok_0.1 <= 512,
{
    let q = spec_read_qname(b, pos);
    lemma_qname_cursor(b, pos, 0, false, 0, seq![]);
    let p1 = q->Ok_0.1;
    let qt = crate::buffer::u16_be(b, p1);
    let p2 = p1 + 10;
    if qt == 2 || qt == 5 {
        lemma_qname_cursor(b, p2, 0, false, 0, seq![]);
    } else if qt == 15 {
        lemma_qname_cursor(b, p2 + 2, 0, false, 0, seq![]);
    }
}

/// A parsed record list holds as many records as were asked for, and the
/// cursor moves at least eleven bytes for each.
proof fn lemma_records_count(b: Seq<u8>, pos: int, k: nat, acc: Seq<SpecRecord>)
    requires
        spec_read_records(b, pos, k, acc) is Ok,
    ensures
        spec_read_records(b, pos, k, acc)->Ok_0.0.len() == acc.len() + k,
        spec_read_records(b, pos, k, acc)->Ok_0.1 >= pos + 11 * k,
        k > 0 ==> spec_read_records(b, pos, k, acc)->Ok_0.1 <= 512,
    decreases k,
{
    if k > 0 {
        let step = spec_read_record(b, pos);
        lemma_record_cursor(b, pos);
        lemma_records_count(b, step->Ok_0.1, (k - 1) as nat, acc.push(step->Ok_0.0));
    }
}

/// A parsed question list holds as many questions as were asked for.
proof fn lemma_questions_count(b: Seq<u8>, pos: int, k: nat, acc: Seq<crate::packet::SpecQuestion>)
    requires
        spec_read_questions(b, pos, k, acc) is Ok,
    ensures
        spec_read_questions(b, pos, k, acc)->Ok_0.0.len() == acc.len() + k,
    decreases k,
{
    if k > 0 {
        let step = spec_read_question(b, pos);
        lemma_questions_count(b, step->Ok_0.1, (k - 1) as nat, acc.push(step->Ok_0.0));
    }
}

/// The section lengths of a parsed packet fit its 16-bit count fields, and
/// the answer section has room for one more record.
pub proof fn lemma_parsed_packet_counts(b: Seq<u8>, pos: int)
    requires
        spec_parse_packet(b, pos) is Ok,
    ensures
        spec_parse_packet(b, pos)->Ok_0.0.questions.len() <= u16::MAX,
        spec_parse_packet(b, pos)->Ok_0.0.answers.len() < 47,
        spec_parse_packet(b, pos)->Ok_0.0.authorities.len() <= u16::MAX,
        spec_parse_packet(b, pos)->Ok_0.0.resources.len() <= u16::MAX,
{
    let h = crate::packet::DnsHeader::spec_read(b, pos);
    lemma_questions_count(b, pos + 12, h.questions as nat, seq![]);
    let qr = spec_read_questions(b, pos + 12, h.questions as nat, seq![]);
    let p1 = qr->Ok_0.1;
    lemma_records_count(b, p1, h.answers as nat, seq![]);
    let ar = spec_read_records(b, p1, h.answers as nat, seq![]);
    if h.answers as nat > 0 {
        assert(ar->Ok_0.1 <= 512);
        assert(p1 + 11 * (h.answers as int) <= 512);
        lemma_questions_cursor_ge(b, pos + 12, h.questions as nat, seq![]);
        assert(p1 >= pos + 12);
        assert(11 * (h.answers as int) <= 512 - pos - 12);
    }
    let p2 = ar->Ok_0.1;
    lemma_records_count(b, p2, h.authoritative_entries as nat, seq![]);
    let tr = spec_read_records(b, p2, h.authoritative_entries as nat, seq![]);
    lemma_records_count(b, tr->Ok_0.1, h.resource_entries as nat, seq![]);
}

/// A parsed question list only moves the cursor forward.
proof fn lemma_questions_cursor_ge(b: Seq<u8>, pos: int, k: nat, acc: Seq<crate::packet::SpecQuestion>)
    requires
        spec_read_questions(b, pos, k, acc) is Ok,
    ensures
        spec_read_questions(b, pos, k, acc)->Ok_0.1 >= pos,
    decreases k,
{
    if k > 0 {
        let step = spec_read_question(b, pos);
        lemma_qname_cursor(b, pos, 0, false, 0, seq![]);
        lemma_questions_cursor_ge(b, step->Ok_0.1, (k - 1) as nat, acc.push(step->Ok_0.0));
    }
}

/// Decide one datagram against the current host table.
#[verifier::rlimit(100)]
pub fn resolve(hosts: &Hosts, data: &[u8]) -> (r: Resolution)
    requires
        data@.len() <= 512,
    ensures
        (match spec_resolve(hosts@, data@) {
            SpecResolution::Reply(bytes) => r matches Resolution::Reply(v) && v@ == bytes,
            SpecResolution::Forward => r is Forward,
            SpecResolution::FailDecode(e) => r matches Resolution::FailDecode(e2) && e2 == e,
            SpecResolution::FailEncode => r matches Resolution::FailEncode(e) && (e
                == DnsError::LabelTooLong || e == DnsError::EndOfBuffer),
        }),
{
    let mut req = BytePacketBuffer::from_slice(data);
    let ghost b = padded(data@);
    proof {
        assert(req.data() == b);
    }
    let mut packet = match DnsPacket::from_buffer(&mut req) {
        Ok(p) => p,
        Err(e) => {
            return Resolution::FailDecode(e);
        },
    };
    if packet.questions.len() == 0 {
        return Resolution::Forward;
    }
    let answer = {
        let q = &packet.questions[0];
        get_answer(hosts, q.name.as_str(), q.qtype)
    };
    let rec = match answer {
        Some(rec) => rec,
        None => {
            return Resolution::Forward;
        },
    };
    packet.header.recursion_desired = true;
    packet.header.recursion_available = true;
    packet.header.response = true;
    proof {
        lemma_parsed_packet_counts(b, 0);
    }
    let ghost p2 = reply_packet(spec_parse_packet(b, 0)->Ok_0.0, rec@);
    packet.answers.push(rec);
    proof {
        assert(packet@.answers =~= p2.answers);
        assert(packet@ =~~= p2);
    }
    let mut res_buffer = BytePacketBuffer::new();
    match packet.write(&mut res_buffer) {
        Ok(_) => {
            let len = res_buffer.pos();
            match res_buffer.get_range(0, len) {
                Ok(v) => {
                    proof {
                        assert(v@ =~= packet_bytes(p2)) by {
                            assert(res_buffer.data().subrange(0, len as int) =~= packet_bytes(
                                p2,
                            ));
                        }
                    }
                    Resolution::Reply(v)
                },
                Err(e) => Resolution::FailEncode(e),
            }
        },
        Err(e) => Resolution::FailEncode(e),
    }
}

} // verus!
