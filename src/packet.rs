use vstd::prelude::*;
use crate::ipv4::{Ipv4, ipv4_text, dec, ipv4_to_text, push_decimal};
use crate::name::{
    NameError, qname_spec, encode_name, labels_fit, parse_qname_from_dns_packet,
    format_name_for_dns_packet, labels_from, dotted, plain_labels, wire_labels, lemma_encode_dotted,
    lemma_decode_wire, lemma_decoded_labels,
};
use crate::table::RecordTable;
use crate::text::{normalize, normalize_name, push_all};

verus! {

pub const QTYPE_A: u16 = 1;
pub const QTYPE_TXT: u16 = 16;
pub const QCLASS_IN: u16 = 1;
pub const RCODE_NO_ERROR: u16 = 0;
pub const RCODE_SERVER_FAILURE: u16 = 2;
pub const RCODE_NXDOMAIN: u16 = 3;
/// QR (response) and AA (authoritative answer) set.
pub const RESPONSE_FLAGS: u16 = 0x8400;
/// Time to live of every answer, in seconds.
pub const ANSWER_TTL: u32 = 60;

/// The question of a query.
#[derive(Debug)]
pub struct DnsQuestion {
    /// Dotted name; the root is `.`.
    pub qname: Vec<u8>,
    pub qtype: u16,
    pub qclass: u16,
}

/// What the server needs from a query packet.
#[derive(Debug)]
pub struct DnsQueryInfo {
    pub transaction_id: u16,
    pub question: DnsQuestion,
}

/// Why a packet is not a query this server answers.
#[derive(Debug, Clone, Copy, PartialEq, Eq, Structural)]
pub enum DnsError {
    /// Fewer than two bytes where a 16-bit field was expected, or fewer than
    /// twelve for the header.
    TooShort,
    /// The QR bit is set.
    NotAQuery,
    /// An opcode other than a standard query.
    UnsupportedOpcode(u16),
    /// QDCOUNT is zero.
    NoQuestion,
    /// QDCOUNT is over one.
    MultipleQuestions,
    /// The question name could not be read.
    BadName(NameError),
    /// The packet ends before QTYPE and QCLASS.
    MissingTypeClass,
    /// A class other than IN.
    UnsupportedClass(u16),
}

/// Big-endian bytes of a 16-bit value.
pub open spec fn be16(v: u16) -> Seq<u8> {
    seq![(v / 256) as u8, (v % 256) as u8]
}

/// Big-endian bytes of a 32-bit value.
pub open spec fn be32(v: u32) -> Seq<u8> {
    seq![(v / 0x100_0000) as u8, ((v / 0x1_0000) % 256) as u8, ((v / 256) % 256) as u8, (v % 256) as u8]
}

/// The big-endian 16-bit value at `i` in `p`.
pub open spec fn be16_at(p: Seq<u8>, i: int) -> u16 {
    (p[i] as nat * 256 + p[i + 1] as nat) as u16
}

/// Converts a `u16` to its two big-endian bytes.
pub fn u16_to_bytes_be(val: u16) -> (r: [u8; 2])
    ensures
        r@ == be16(val),
{
    let r = [(val / 256) as u8, (val % 256) as u8];
    assert(r@ =~= be16(val));
    r
}

/// Converts a `u32` to its four big-endian bytes.
pub fn u32_to_bytes_be(val: u32) -> (r: [u8; 4])
    ensures
        r@ == be32(val),
{
    let r = [(val / 0x100_0000) as u8, ((val / 0x1_0000) % 256) as u8, ((val / 256) % 256) as u8, (val % 256) as u8];
    assert(r@ =~= be32(val));
    r
}

/// Reads a big-endian `u16` from the first two bytes.
pub fn bytes_to_u16_be(bytes: &[u8]) -> (r: Result<u16, DnsError>)
    ensures
        bytes@.len() < 2 ==> r == Err::<u16, DnsError>(DnsError::TooShort),
        bytes@.len() >= 2 ==> r == Ok::<u16, DnsError>(be16_at(bytes@, 0)),
{
    if bytes.len() < 2 {
        return Err(DnsError::TooShort);
    }
    Ok((bytes[0] as u16) * 256 + bytes[1] as u16)
}

/// The outcome of parsing a query packet: transaction id, dotted name,
/// QTYPE and QCLASS, or the first check that failed.
pub open spec fn query_spec(p: Seq<u8>) -> Result<(u16, Seq<u8>, u16, u16), DnsError> {
    if p.len() < 12 {
        Err(DnsError::TooShort)
    } else {
        let flags = be16_at(p, 2);
        let qd = be16_at(p, 4);
        if flags >= 0x8000 {
            Err(DnsError::NotAQuery)
        } else if (flags / 2048) % 16 != 0 {
            Err(DnsError::UnsupportedOpcode(((flags / 2048) % 16) as u16))
        } else if qd == 0 {
            Err(DnsError::NoQuestion)
        } else if qd > 1 {
            Err(DnsError::MultipleQuestions)
        } else {
            match qname_spec(p, 12) {
                Err(e) => Err(DnsError::BadName(e)),
                Ok((q, n)) => if p.len() < 12 + n + 4 {
                    Err(DnsError::MissingTypeClass)
                } else {
                    let qclass = be16_at(p, 14int + n);
                    if qclass != 1 {
                        Err(DnsError::UnsupportedClass(qclass))
                    } else {
                        Ok((be16_at(p, 0), q, be16_at(p, 12int + n), qclass))
                    }
                },
            }
        }
    }
}

impl DnsQueryInfo {
    /// The parts of the query as plain values.
    pub open spec fn parts(&self) -> (u16, Seq<u8>, u16, u16) {
        (self.transaction_id, self.question.qname@, self.question.qtype, self.question.qclass)
    }
}

/// Parses a query packet: a 12-byte header with QR clear, a standard-query
/// opcode and exactly one question, whose name is read without compression
/// and whose class is IN. The answer, authority and additional counts are
/// not looked at.
pub fn parse_dns_query_packet(packet_bytes: &[u8]) -> (r: Result<DnsQueryInfo, DnsError>)
    ensures
        match query_spec(packet_bytes@) {
            Ok(v) => r matches Ok(q) && q.parts() == v && labels_fit(q.question.qname@),
            Err(e) => r matches Err(x) && x == e,
        },
{
    let p = packet_bytes;
    if p.len() < 12 {
        return Err(DnsError::TooShort);
    }
    let transaction_id = bytes_to_u16_be(&p[0..2])?;
    let flags = bytes_to_u16_be(&p[2..4])?;
    let qd_count = bytes_to_u16_be(&p[4..6])?;
    assert(transaction_id == be16_at(p@, 0));
    assert(flags == be16_at(p@, 2));
    assert(qd_count == be16_at(p@, 4));
    if flags & 0x8000 != 0 {
        assert(flags >= 0x8000) by (bit_vector)
            requires
                flags & 0x8000 != 0,
        ;
        return Err(DnsError::NotAQuery);
    }
    assert(flags < 0x8000) by (bit_vector)
        requires
            flags & 0x8000 == 0,
    ;
    let opcode = (flags >> 11) & 0x0F;
    assert(opcode == (flags / 2048) % 16) by (bit_vector)
        requires
            opcode == (flags >> 11) & 0x0F,
    ;
    if opcode != 0 {
        return Err(DnsError::UnsupportedOpcode(opcode));
    }
    if qd_count == 0 {
        return Err(DnsError::NoQuestion);
    }
    if qd_count > 1 {
        return Err(DnsError::MultipleQuestions);
    }
    let (qname, qname_len) = match parse_qname_from_dns_packet(p, 12) {
        Ok(x) => x,
        Err(e) => {
            return Err(DnsError::BadName(e));
        },
    };
    proof {
        crate::name::lemma_parsed_name_fits(p@, 12);
    }
    if qname_len > p.len() - 12 || p.len() - 12 - qname_len < 4 {
        return Err(DnsError::MissingTypeClass);
    }
    let off = 12 + qname_len;
    let qtype = bytes_to_u16_be(&p[off..off + 2])?;
    let qclass = bytes_to_u16_be(&p[off + 2..off + 4])?;
    assert(qtype == be16_at(p@, off as int));
    assert(qclass == be16_at(p@, off + 2));
    if qclass != QCLASS_IN {
        return Err(DnsError::UnsupportedClass(qclass));
    }
    Ok(DnsQueryInfo { transaction_id, question: DnsQuestion { qname, qtype, qclass } })
}

/// TXT payload for an address: `ip:port`.
pub open spec fn txt_text(ip: Ipv4, port: u16) -> Seq<u8> {
    ipv4_text(ip) + seq![58u8] + dec(port as nat)
}

/// What the table holds for a query name: looked up by its normalised form.
pub open spec fn lookup_spec(table: Map<Seq<u8>, (Ipv4, u16)>, qname: Seq<u8>) -> Option<(Ipv4, u16)> {
    if table.contains_key(normalize(qname)) {
        Some(table[normalize(qname)])
    } else {
        None
    }
}

/// Response code: NXDOMAIN for an unknown name, SERVFAIL for a TXT payload
/// over 255 bytes, NOERROR otherwise.
pub open spec fn rcode_spec(entry: Option<(Ipv4, u16)>, qtype: u16) -> u16 {
    match entry {
        None => 3,
        Some((ip, port)) => if qtype == 16 && txt_text(ip, port).len() > 255 {
            2
        } else {
            0
        },
    }
}

/// Whether the response carries an answer record.
pub open spec fn has_answer(entry: Option<(Ipv4, u16)>, qtype: u16) -> bool {
    match entry {
        None => false,
        Some((ip, port)) => qtype == 1 || (qtype == 16 && txt_text(ip, port).len() <= 255),
    }
}

/// The answer record, if any: owner name, type, class IN, TTL, RDLENGTH and
/// RDATA.
pub open spec fn answer_spec(qname: Seq<u8>, qtype: u16, entry: Option<(Ipv4, u16)>) -> Seq<u8> {
    match entry {
        None => seq![],
        Some((ip, port)) => if qtype == 1 {
            encode_name(qname) + be16(1) + be16(1) + be32(60) + be16(4) + seq![ip.a, ip.b, ip.c, ip.d]
        } else if qtype == 16 && txt_text(ip, port).len() <= 255 {
            let t = txt_text(ip, port);
            encode_name(qname) + be16(16) + be16(1) + be32(60) + be16((t.len() + 1) as u16) + seq![
                t.len() as u8,
            ] + t
        } else {
            seq![]
        },
    }
}

/// The 12-byte response header.
pub open spec fn header_spec(txid: u16, rcode: u16, ancount: u16) -> Seq<u8> {
    be16(txid) + be16((0x8400 + rcode) as u16) + be16(1) + be16(ancount) + be16(0) + be16(0)
}

/// The question section: the name encoded afresh, QTYPE and QCLASS.
pub open spec fn question_spec(qname: Seq<u8>, qtype: u16, qclass: u16) -> Seq<u8> {
    encode_name(qname) + be16(qtype) + be16(qclass)
}

/// The response to query `q` (id, name, type, class) from `table`.
pub open spec fn response_spec(q: (u16, Seq<u8>, u16, u16), table: Map<Seq<u8>, (Ipv4, u16)>) -> Seq<u8> {
    let (txid, qname, qtype, qclass) = q;
    let entry = lookup_spec(table, qname);
    header_spec(txid, rcode_spec(entry, qtype), if has_answer(entry, qtype) { 1 } else { 0 })
        + question_spec(qname, qtype, qclass) + answer_spec(qname, qtype, entry)
}

fn push_u16(out: &mut Vec<u8>, v: u16)
    ensures
        final(out)@ == old(out)@ + be16(v),
{
    let b = u16_to_bytes_be(v);
    out.push(b[0]);
    out.push(b[1]);
    assert(out@ =~= old(out)@ + be16(v));
}

fn push_u32(out: &mut Vec<u8>, v: u32)
    ensures
        final(out)@ == old(out)@ + be32(v),
{
    let b = u32_to_bytes_be(v);
    out.push(b[0]);
    out.push(b[1]);
    out.push(b[2]);
    out.push(b[3]);
    assert(out@ =~= old(out)@ + be32(v));
}

/// Builds the response to a parsed query from the record table: header with
/// QR and AA set, the question echoed, and at most one answer.
pub fn build_dns_response_packet(query_info: &DnsQueryInfo, dns_data_map: &RecordTable) -> (r: Vec<u8>)
    requires
        dns_data_map.wf(),
        labels_fit(query_info.question.qname@),
    ensures
        r@ == response_spec(query_info.parts(), dns_data_map@),
{
    let q = &query_info.question;
    let key = normalize_name(q.qname.as_slice());
    let entry = dns_data_map.get(key.as_slice());
    let name_bytes = format_name_for_dns_packet(q.qname.as_slice());
    let ghost e = lookup_spec(dns_data_map@, q.qname@);
    assert(entry == e);
    let mut answer: Vec<u8> = Vec::new();
    let mut ancount: u16 = 0;
    let mut rcode: u16 = RCODE_NO_ERROR;
    match entry {
        Some((ip, port)) => {
            if q.qtype == QTYPE_A {
                ancount = 1;
                push_all(&mut answer, name_bytes.as_slice());
                push_u16(&mut answer, QTYPE_A);
                push_u16(&mut answer, QCLASS_IN);
                push_u32(&mut answer, ANSWER_TTL);
                push_u16(&mut answer, 4);
                answer.push(ip.a);
                answer.push(ip.b);
                answer.push(ip.c);
                answer.push(ip.d);
                assert(answer@ =~= answer_spec(q.qname@, q.qtype, e));
            } else if q.qtype == QTYPE_TXT {
                let mut txt = ipv4_to_text(ip);
                txt.push(58);
                push_decimal(&mut txt, port as u32);
                assert(txt@ =~= txt_text(ip, port));
                if txt.len() > 255 {
                    rcode = RCODE_SERVER_FAILURE;
                } else {
                    ancount = 1;
                    push_all(&mut answer, name_bytes.as_slice());
                    push_u16(&mut answer, QTYPE_TXT);
                    push_u16(&mut answer, QCLASS_IN);
                    push_u32(&mut answer, ANSWER_TTL);
                    push_u16(&mut answer, (1 + txt.len()) as u16);
                    answer.push(txt.len() as u8);
                    push_all(&mut answer, txt.as_slice());
                    assert(answer@ =~= answer_spec(q.qname@, q.qtype, e));
                }
            }
        },
        None => {
            rcode = RCODE_NXDOMAIN;
        },
    }
    assert(answer@ == answer_spec(q.qname@, q.qtype, e));
    assert(rcode == rcode_spec(e, q.qtype));
    let flags = RESPONSE_FLAGS | (rcode & 0x000F);
    assert(flags == 0x8400 + rcode) by (bit_vector)
        requires
            flags == 0x8400u16 | (rcode & 0x000F),
            rcode <= 3,
    ;
    let mut out: Vec<u8> = Vec::new();
    push_u16(&mut out, query_info.transaction_id);
    push_u16(&mut out, flags);
    push_u16(&mut out, 1);
    push_u16(&mut out, ancount);
    push_u16(&mut out, 0);
    push_u16(&mut out, 0);
    push_all(&mut out, name_bytes.as_slice());
    push_u16(&mut out, q.qtype);
    push_u16(&mut out, q.qclass);
    push_all(&mut out, answer.as_slice());
    assert(out@ =~= response_spec(query_info.parts(), dns_data_map@));
    out
}

/// Every response starts with the query's transaction id; its flags have QR
/// and AA set and carry the response code of the policy; it has one
/// question, and one answer exactly when the name is known and the type is
/// A, or TXT with a payload that fits.
pub proof fn lemma_response_header(q: (u16, Seq<u8>, u16, u16), table: Map<Seq<u8>, (Ipv4, u16)>)
    ensures
        ({
            let r = response_spec(q, table);
            let entry = lookup_spec(table, q.1);
            &&& r.len() >= 12
            &&& be16_at(r, 0) == q.0
            &&& be16_at(r, 2) == 0x8400 + rcode_spec(entry, q.2)
            &&& r[2] == 0x84
            &&& r[3] == rcode_spec(entry, q.2)
            &&& be16_at(r, 4) == 1
            &&& be16_at(r, 6) == (if has_answer(entry, q.2) {
                1u16
            } else {
                0u16
            })
            &&& rcode_spec(entry, q.2) == (if entry is None {
                3u16
            } else if q.2 == 16 && txt_text(entry->Some_0.0, entry->Some_0.1).len() > 255 {
                2u16
            } else {
                0u16
            })
        }),
{
    let r = response_spec(q, table);
    let entry = lookup_spec(table, q.1);
    let rc = rcode_spec(entry, q.2);
    let an: u16 = if has_answer(entry, q.2) {
        1
    } else {
        0
    };
    let h = header_spec(q.0, rc, an);
    assert(r.subrange(0, 12) =~= h);
    assert(r[0] == h[0] && r[1] == h[1] && r[2] == h[2] && r[3] == h[3]);
    assert(r[4] == h[4] && r[5] == h[5] && r[6] == h[6] && r[7] == h[7]);
    assert((q.0 / 256) * 256 + q.0 % 256 == q.0);
    assert((an / 256) * 256 + an % 256 == an);
}

/// The question section of every response, right after the header, is the
/// fresh encoding of the query's name followed by its QTYPE and QCLASS.
pub proof fn lemma_question_echoed(q: (u16, Seq<u8>, u16, u16), table: Map<Seq<u8>, (Ipv4, u16)>)
    ensures
        ({
            let r = response_spec(q, table);
            let qs = encode_name(q.1) + be16(q.2) + be16(q.3);
            &&& 12 + qs.len() <= r.len()
            &&& r.subrange(12, 12 + qs.len() as int) == qs
        }),
{
    let r = response_spec(q, table);
    let qs = question_spec(q.1, q.2, q.3);
    let entry = lookup_spec(table, q.1);
    let h = header_spec(q.0, rcode_spec(entry, q.2), if has_answer(entry, q.2) {
        1
    } else {
        0
    });
    assert(r =~= h + qs + answer_spec(q.1, q.2, entry));
    assert(r.subrange(12, 12 + qs.len() as int) =~= qs);
}

proof fn lemma_query_of_question(h: Seq<u8>, ls: Seq<Seq<u8>>, qtype: u16, qclass: u16)
    requires
        plain_labels(ls),
        qclass == 1,
        h.len() == 12,
        be16_at(h, 2) < 0x8000,
        (be16_at(h, 2) / 2048) % 16 == 0,
        be16_at(h, 4) == 1,
    ensures
        query_spec(h + question_spec(dotted(ls), qtype, qclass)) == Ok::<(u16, Seq<u8>, u16, u16), DnsError>(
            (be16_at(h, 0), dotted(ls), qtype, qclass),
        ),
{
    let qname = dotted(ls);
    let qs = question_spec(qname, qtype, qclass);
    lemma_encode_dotted(ls);
    let w = wire_labels(ls);
    let pk = h + qs;
    assert(qs =~= w + seq![0u8] + be16(qtype) + be16(qclass));
    assert(pk.subrange(12, 12 + w.len() + 1int) =~= w + seq![0u8]);
    lemma_decode_wire(pk, 12, ls);
    let n: int = w.len() + 1int;
    assert(qname_spec(pk, 12) == Ok::<(Seq<u8>, nat), NameError>((qname, n as nat)));
    assert(pk[12 + n] == qs[n]);
    assert(pk[13 + n] == qs[n + 1]);
    assert(pk[14 + n] == qs[n + 2]);
    assert(pk[15 + n] == qs[n + 3]);
    assert(be16_at(pk, 12 + n) == qtype);
    assert(be16_at(pk, 14 + n) == qclass);
    assert(be16_at(pk, 0) == be16_at(h, 0));
    assert(be16_at(pk, 2) == be16_at(h, 2));
    assert(be16_at(pk, 4) == be16_at(h, 4));
}

/// Reading the question section of a response back, as the question of a
/// query with a fresh header, yields the question that was asked; this
/// holds for names whose labels hold no dot.
pub proof fn lemma_question_reparses(p: Seq<u8>, table: Map<Seq<u8>, (Ipv4, u16)>, h: Seq<u8>)
    requires
        query_spec(p) is Ok,
        labels_from(p, 12, seq![]) matches Ok((ls, _)) && forall|i: int, j: int|
            0 <= i < ls.len() && 0 <= j < ls[i].len() ==> ls[i][j] != 46,
        h.len() == 12,
        be16_at(h, 2) < 0x8000,
        (be16_at(h, 2) / 2048) % 16 == 0,
        be16_at(h, 4) == 1,
    ensures
        ({
            let q = query_spec(p)->Ok_0;
            let r = response_spec(q, table);
            let n = (encode_name(q.1) + be16(q.2) + be16(q.3)).len();
            query_spec(h + r.subrange(12, 12 + n as int)) == Ok::<(u16, Seq<u8>, u16, u16), DnsError>(
                (be16_at(h, 0), q.1, q.2, q.3),
            )
        }),
{
    let q = query_spec(p)->Ok_0;
    lemma_question_echoed(q, table);
    let ls = labels_from(p, 12, seq![])->Ok_0.0;
    lemma_decoded_labels(p, 12);
    assert(plain_labels(ls));
    assert(q.1 == dotted(ls));
    assert(q.3 == 1);
    lemma_query_of_question(h, ls, q.2, q.3);
}

} // verus!
