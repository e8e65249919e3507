use vstd::prelude::*;
use crate::error::{Error, Result};
use crate::models::qd::{QD, QuestionView};
use crate::models::rr::{RR, record_wire};
use crate::utils::bytes::{be16_at, push_range, read_be16};
use crate::utils::name_serde::{de_name_at, name_byte_len, name_end, name_text, read_name};

verus! {

/// A DNS message, read in place: the header, then the question section and
/// the other sections.
#[derive(Debug)]
pub struct MsgView<'a> {
    buf: &'a [u8],
}

/// The four counts of the header.
enum CountField {
    QD,
    #[allow(dead_code)]
    AN,
    NS,
    AR,
}

/// Where the header holds each count.
spec fn count_offset(field: CountField) -> int {
    match field {
        CountField::QD => 4,
        CountField::AN => 6,
        CountField::NS => 8,
        CountField::AR => 10,
    }
}

/// The questions that start at `pos` of `buf`, `n` of them, and the position
/// after the last; or the first error met while reading them in order.
pub open spec fn read_questions(buf: Seq<u8>, pos: int, n: nat) -> core::result::Result<
    (Seq<QuestionView>, int),
    Error,
>
    decreases n,
{
    if n == 0 {
        Ok((Seq::<QuestionView>::empty(), pos))
    } else {
        match read_name(buf, pos) {
            Err(e) => Err(e),
            Ok((labels, after)) => if after + 4 > buf.len() {
                Err(Error::UnexpectedEof)
            } else {
                let q = QuestionView {
                    qname: name_text(labels),
                    qtype: be16_at(buf, after) as u16,
                    qclass: be16_at(buf, after + 2) as u16,
                };
                match read_questions(buf, after + 4, (n - 1) as nat) {
                    Ok((rest, end)) => Ok((seq![q] + rest, end)),
                    Err(e) => Err(e),
                }
            },
        }
    }
}

/// `qs` put in front of the questions of a result of `read_questions`.
pub open spec fn prepend_questions(
    qs: Seq<QuestionView>,
    r: core::result::Result<(Seq<QuestionView>, int), Error>,
) -> core::result::Result<(Seq<QuestionView>, int), Error> {
    match r {
        Ok((rest, end)) => Ok((qs + rest, end)),
        Err(e) => Err(e),
    }
}

/// The header of a reply made from the header `h` of a query: QR set, TC set
/// or cleared as `tc` says, RA and RCODE cleared, ANCOUNT set to 1.
pub open spec fn reply_header(h: Seq<u8>, tc: bool) -> Seq<u8> {
    let b2 = h[2] | 0x80u8;
    let b2 = if tc {
        b2 | 0x02u8
    } else {
        b2 & 0xfdu8
    };
    h.update(2, b2).update(3, h[3] & 0x70u8).update(6, 0u8).update(7, 1u8)
}

/// The bytes that the reply copies for a section of `count` entries that
/// starts at `pos`: `count` times the length of the name found at `pos`.
pub open spec fn section_len(buf: Seq<u8>, pos: int, count: int) -> int {
    if count == 0 {
        0
    } else {
        count * name_end(buf.subrange(pos, buf.len() as int), 0)->0
    }
}

/// Whether a section of `count` entries can be measured at `pos`: there is a
/// name there when `count` is not 0, and the section ends inside `buf`.
pub open spec fn section_fits(buf: Seq<u8>, pos: int, count: int) -> bool {
    &&& 0 <= pos <= buf.len()
    &&& count > 0 ==> name_end(buf.subrange(pos, buf.len() as int), 0) is Some
    &&& pos + section_len(buf, pos, count) <= buf.len()
}

/// The position after the question section that the reply copies.
pub open spec fn reply_qd_end(buf: Seq<u8>) -> int {
    12 + section_len(buf, 12, be16_at(buf, 4))
}

/// Where the reply starts to copy the authority section: the end of the
/// question section moved on by the length of the record put in.
pub open spec fn reply_ns_start(buf: Seq<u8>, rr_len: int) -> int {
    reply_qd_end(buf) + rr_len
}

/// Where the reply starts to copy the additional section.
pub open spec fn reply_ar_start(buf: Seq<u8>, rr_len: int) -> int {
    reply_ns_start(buf, rr_len) + section_len(buf, reply_ns_start(buf, rr_len), be16_at(buf, 8))
}

/// The inputs on which `reply` reads only inside the message.
pub open spec fn reply_fits(buf: Seq<u8>, rr_len: int) -> bool {
    &&& buf.len() >= 12
    &&& section_fits(buf, 12, be16_at(buf, 4))
    &&& section_fits(buf, reply_ns_start(buf, rr_len), be16_at(buf, 8))
    &&& section_fits(buf, reply_ar_start(buf, rr_len), be16_at(buf, 10))
}

/// The reply to the query `buf` that answers with the record bytes `answer`.
pub open spec fn reply_bytes(buf: Seq<u8>, answer: Seq<u8>, tc: bool) -> Seq<u8> {
    let ns = reply_ns_start(buf, answer.len() as int);
    let ar = reply_ar_start(buf, answer.len() as int);
    reply_header(buf.take(12), tc) + buf.subrange(12, reply_qd_end(buf)) + answer
        + buf.subrange(ns, ar) + buf.subrange(ar, ar + section_len(buf, ar, be16_at(buf, 10)))
}

/// The answer to the query `buf` whose question section takes `qlen` bytes:
/// the reply header, the question section whole, the record bytes `record`,
/// then the rest of the query.
pub open spec fn answer_bytes(buf: Seq<u8>, qlen: int, record: Seq<u8>, tc: bool) -> Seq<u8> {
    reply_header(buf.take(12), tc) + buf.subrange(12, 12 + qlen) + record + buf.subrange(
        12 + qlen,
        buf.len() as int,
    )
}

impl<'a> View for MsgView<'a> {
    type V = Seq<u8>;

    closed spec fn view(&self) -> Seq<u8> {
        self.buf@
    }
}

impl<'a> MsgView<'a> {
    pub fn new(buf: &'a [u8]) -> (view: Self)
        ensures
            view@ == buf@,
    {
        Self { buf }
    }

    /// The 12 bytes of the header.
    fn header_buf(&self) -> (bytes: Vec<u8>)
        requires
            self@.len() >= 12,
        ensures
            bytes@ == self@.take(12),
    {
        let mut bytes: Vec<u8> = Vec::new();
        push_range(&mut bytes, self.buf, 0, 12);
        assert(self@.subrange(0, 12) =~= self@.take(12));
        bytes
    }

    /// The message ID: the first two bytes, in network byte order.
    pub fn id(&self) -> (id: u16)
        requires
            self@.len() >= 2,
        ensures
            id as int == be16_at(self@, 0),
    {
        read_be16(self.buf, 0)
    }

    fn count(&self, field: CountField) -> (n: u16)
        requires
            self@.len() >= 12,
        ensures
            n as int == be16_at(self@, count_offset(field)),
    {
        let start: usize = match field {
            CountField::QD => 4,
            CountField::AN => 6,
            CountField::NS => 8,
            CountField::AR => 10,
        };
        read_be16(self.buf, start)
    }

    /// The questions of the message: as many as QDCOUNT says, read from the
    /// end of the header on; and the byte length of the question section.
    pub fn qds(&self) -> (res: Result<(Vec<QD>, usize)>)
        requires
            self@.len() >= 12,
        ensures
            match read_questions(self@, 12, be16_at(self@, 4) as nat) {
                Ok((qs, end)) => res matches Ok((v, qlen)) && v@.map_values(|q: QD| q@) == qs
                    && qlen == end - 12,
                Err(e) => res matches Err(e2) && e2 == e,
            },
    {
        let n = self.count(CountField::QD);
        let ghost total = n as nat;
        let mut qds: Vec<QD> = Vec::new();
        let mut pos: usize = 12;
        let mut i: u16 = 0;
        assert(prepend_questions(Seq::<QuestionView>::empty(), read_questions(self@, 12, total))
            == read_questions(self@, 12, total)) by {
            match read_questions(self@, 12, total) {
                Ok((rest, end)) => { assert(Seq::<QuestionView>::empty() + rest =~= rest); },
                Err(_) => {},
            }
        }
        assert(qds@.map_values(|q: QD| q@) =~= Seq::<QuestionView>::empty());
        while i < n
            invariant
                i <= n,
                total == n as nat,
                n as int == be16_at(self@, 4),
                12 <= pos <= self@.len(),
                read_questions(self@, 12, total) == prepend_questions(
                    qds@.map_values(|q: QD| q@),
                    read_questions(self@, pos as int, (n - i) as nat),
                ),
            decreases n - i,
        {
            let ghost acc = qds@.map_values(|q: QD| q@);
            let (qname, after) = match de_name_at(self.buf, pos) {
                Ok(r) => r,
                Err(e) => {
                    return Err(e);
                },
            };
            proof {
                lemma_read_name_end(self@, pos as int);
            }
            if self.buf.len() - after < 4 {
                return Err(Error::UnexpectedEof);
            }
            let qtype = read_be16(self.buf, after);
            let qclass = read_be16(self.buf, after + 2);
            let q = QD { qname, qtype, qclass };
            let ghost qv = q@;
            qds.push(q);
            pos = after + 4;
            i = i + 1;
            proof {
                let new_acc = qds@.map_values(|q: QD| q@);
                assert(new_acc =~= acc.push(qv));
                match read_questions(self@, pos as int, (n - i) as nat) {
                    Ok((rest, end)) => {
                        assert(acc + (seq![qv] + rest) =~= new_acc + rest);
                    },
                    Err(_) => {},
                }
            }
        }
        proof {
            let acc = qds@.map_values(|q: QD| q@);
            assert(acc + Seq::<QuestionView>::empty() =~= acc);
        }
        Ok((qds, pos - 12))
    }

    /// The bytes of a section of `count` entries at `pos`, measured as
    /// `count` times the length of the name at `pos`.
    fn section_len(&self, pos: usize, count: u16) -> (len: usize)
        requires
            section_fits(self@, pos as int, count as int),
        ensures
            len as int == section_len(self@, pos as int, count as int),
    {
        let mut len: usize = 0;
        let mut k: u16 = 0;
        while k < count
            invariant
                k <= count,
                section_fits(self@, pos as int, count as int),
                count > 0 ==> len as int == k * name_end(
                    self@.subrange(pos as int, self@.len() as int),
                    0,
                )->0,
                count == 0 ==> len == 0,
            decreases count - k,
        {
            let rest = &self.buf[pos..self.buf.len()];
            assert(rest@ == self@.subrange(pos as int, self@.len() as int));
            let nl = name_byte_len(rest);
            proof {
                assert((k + 1) * nl as int <= count as int * nl as int) by (nonlinear_arith)
                    requires
                        k < count,
                        nl >= 0,
                ;
                assert((k + 1) * nl as int == k * nl as int + nl) by (nonlinear_arith);
            }
            len = len + nl;
            k = k + 1;
        }
        len
    }

    /// The answer to this query with the record `rr`, given `qlen`, the
    /// byte length of its question section: the header turned into a
    /// reply's, the question section copied whole, the record, then the rest
    /// of the message.
    pub fn answer(&self, rr: &RR, qlen: usize, tc: bool) -> (bytes: Vec<u8>)
        requires
            12 + qlen <= self@.len(),
        ensures
            bytes@ == answer_bytes(self@, qlen as int, record_wire(rr@), tc),
    {
        assert(self.buf@.len() == self.buf.len());
        let mut bytes = self.reply_header_buf(tc);
        push_range(&mut bytes, self.buf, 12, 12 + qlen);
        rr.buf(&mut bytes);
        push_range(&mut bytes, self.buf, 12 + qlen, self.buf.len());
        bytes
    }

    /// The header of a reply made from this query's header.
    fn reply_header_buf(&self, tc: bool) -> (bytes: Vec<u8>)
        requires
            self@.len() >= 12,
        ensures
            bytes@ == reply_header(self@.take(12), tc),
    {
        let mut bytes = self.header_buf();
        bytes.set(2, bytes[2] | 0b10000000);
        if tc {
            bytes.set(2, bytes[2] | 0b00000010);
        } else {
            bytes.set(2, bytes[2] & 0b11111101);
        }
        bytes.set(3, bytes[3] & 0b01110000);
        bytes.set(6, 0);
        bytes.set(7, 1);
        assert(bytes@ =~= reply_header(self@.take(12), tc));
        bytes
    }

    /// A reply to this query that answers it with the record `rr`: the
    /// header turned into a reply's, then the copied sections with the
    /// record put in as the answer.
    pub fn reply(&self, rr: &RR, tc: bool) -> (bytes: Vec<u8>)
        requires
            reply_fits(self@, record_wire(rr@).len() as int),
        ensures
            bytes@ == reply_bytes(self@, record_wire(rr@), tc),
    {
        let mut bytes = self.reply_header_buf(tc);
        let mut pos: usize = 12;
        let qdcount = self.count(CountField::QD);
        let qdlen = self.section_len(pos, qdcount);
        assert(self.buf@.len() == self.buf.len());
        push_range(&mut bytes, self.buf, pos, pos + qdlen);
        pos = pos + qdlen;
        let rrlen = rr.buf(&mut bytes);
        pos = pos + rrlen;
        let nscount = self.count(CountField::NS);
        let nslen = self.section_len(pos, nscount);
        push_range(&mut bytes, self.buf, pos, pos + nslen);
        pos = pos + nslen;
        let arcount = self.count(CountField::AR);
        let arlen = self.section_len(pos, arcount);
        push_range(&mut bytes, self.buf, pos, pos + arlen);
        bytes
    }
}

/// `read_questions` gives as many questions as it is asked for.
pub proof fn lemma_read_questions_len(buf: Seq<u8>, pos: int, n: nat)
    ensures
        read_questions(buf, pos, n) matches Ok((qs, _)) ==> qs.len() == n,
    decreases n,
{
    if n > 0 {
        if let Ok((_, after)) = read_name(buf, pos) {
            lemma_read_questions_len(buf, after + 4, (n - 1) as nat);
        }
    }
}

/// The questions that `read_questions` reads end inside the buffer, at or
/// after where they start.
pub proof fn lemma_read_questions_end(buf: Seq<u8>, pos: int, n: nat)
    ensures
        read_questions(buf, pos, n) matches Ok((_, end)) ==> pos <= end && (n > 0 ==> end
            <= buf.len()),
    decreases n,
{
    if n > 0 {
        lemma_read_name_end(buf, pos);
        if let Ok((_, after)) = read_name(buf, pos) {
            lemma_read_questions_end(buf, after + 4, (n - 1) as nat);
        }
    }
}

proof fn lemma_reply_flags(b2: u8, b3: u8, tc: bool)
    by (bit_vector)
    ensures
        (if tc { (b2 | 0x80u8) | 0x02u8 } else { (b2 | 0x80u8) & 0xfdu8 }) & 0x80u8 == 0x80u8,
        ((if tc { (b2 | 0x80u8) | 0x02u8 } else { (b2 | 0x80u8) & 0xfdu8 }) & 0x02u8 == 0x02u8)
            == tc,
        (b3 & 0x70u8) & 0x8fu8 == 0u8,
{
}

/// A reply keeps the query's ID, question count and copied question
/// section, marks itself as a response (QR) with TC as asked and RA and
/// RCODE cleared, announces one answer, and holds the answer right after the
/// copied question section.
pub proof fn law_reply_answers_query(buf: Seq<u8>, answer: Seq<u8>, tc: bool)
    requires
        reply_fits(buf, answer.len() as int),
    ensures
        ({
            let r = reply_bytes(buf, answer, tc);
            let q = reply_qd_end(buf);
            &&& r.len() >= q + answer.len()
            &&& be16_at(r, 0) == be16_at(buf, 0)
            &&& be16_at(r, 4) == be16_at(buf, 4)
            &&& r[2] & 0x80u8 == 0x80u8
            &&& (r[2] & 0x02u8 == 0x02u8) == tc
            &&& r[3] & 0x8fu8 == 0u8
            &&& be16_at(r, 6) == 1
            &&& r.subrange(12, q) == buf.subrange(12, q)
            &&& r.subrange(q, q + answer.len()) == answer
        }),
{
    let r = reply_bytes(buf, answer, tc);
    let q = reply_qd_end(buf);
    let h = reply_header(buf.take(12), tc);
    lemma_reply_flags(buf[2], buf[3], tc);
    let count = be16_at(buf, 4);
    if count > 0 {
        let s = buf.subrange(12, buf.len() as int);
        crate::utils::name_serde::lemma_name_end_after(s, 0);
        let l = name_end(s, 0)->0;
        assert(count * l >= 0) by (nonlinear_arith)
            requires
                count > 0,
                l > 0,
        ;
    }
    assert(12 <= q <= buf.len());
    let ns = reply_ns_start(buf, answer.len() as int);
    let ar = reply_ar_start(buf, answer.len() as int);
    let d = buf.subrange(ns, ar);
    let e = buf.subrange(ar, ar + section_len(buf, ar, be16_at(buf, 10)));
    let b = buf.subrange(12, q);
    assert(r == h + b + answer + d + e);
    assert(h.len() == 12);
    assert forall|i: int| 0 <= i < 12 implies r[i] == h[i] by {
        assert((h + b)[i] == h[i]);
        assert((h + b + answer)[i] == h[i]);
        assert((h + b + answer + d)[i] == h[i]);
    }
    assert(r[0] == buf[0] && r[1] == buf[1] && r[4] == buf[4] && r[5] == buf[5]);
    assert(r[2] == h[2] && r[3] == h[3] && r[6] == 0 && r[7] == 1);
    assert(r.subrange(12, q) =~= buf.subrange(12, q));
    assert(r.subrange(q, q + answer.len()) =~= answer);
}

/// Reading a name looks only at the bytes it spans: another buffer that
/// holds the same bytes there reads the same name.
pub proof fn lemma_read_name_same_bytes(b1: Seq<u8>, b2: Seq<u8>, pos: int)
    requires
        read_name(b1, pos) is Ok,
        read_name(b1, pos)->Ok_0.1 <= b2.len(),
        b1.subrange(pos, read_name(b1, pos)->Ok_0.1) == b2.subrange(
            pos,
            read_name(b1, pos)->Ok_0.1,
        ),
    ensures
        read_name(b2, pos) == read_name(b1, pos),
    decreases b1.len() - pos,
{
    let e = read_name(b1, pos)->Ok_0.1;
    lemma_read_name_end(b1, pos);
    assert(b1[pos] == b1.subrange(pos, e)[0]);
    assert(b2[pos] == b2.subrange(pos, e)[0]);
    if b1[pos] != 0 {
        let end = pos + 1 + b1[pos];
        lemma_read_name_end(b1, end);
        assert(read_name(b1, end) is Ok);
        assert(read_name(b1, end)->Ok_0.1 == e);
        assert(pos < end < e);
        assert(b1.subrange(pos + 1, end) =~= b1.subrange(pos, e).subrange(1, end - pos));
        assert(b2.subrange(pos + 1, end) =~= b2.subrange(pos, e).subrange(1, end - pos));
        assert(b1.subrange(end, e) =~= b1.subrange(pos, e).subrange(end - pos, e - pos));
        assert(b2.subrange(end, e) =~= b2.subrange(pos, e).subrange(end - pos, e - pos));
        lemma_read_name_same_bytes(b1, b2, end);
    }
}

/// Reading questions looks only at the bytes they span.
pub proof fn lemma_read_questions_same_bytes(b1: Seq<u8>, b2: Seq<u8>, pos: int, n: nat)
    requires
        read_questions(b1, pos, n) is Ok,
        read_questions(b1, pos, n)->Ok_0.1 <= b2.len(),
        b1.subrange(pos, read_questions(b1, pos, n)->Ok_0.1) == b2.subrange(
            pos,
            read_questions(b1, pos, n)->Ok_0.1,
        ),
    ensures
        read_questions(b2, pos, n) == read_questions(b1, pos, n),
    decreases n,
{
    if n > 0 {
        let e = read_questions(b1, pos, n)->Ok_0.1;
        let after = read_name(b1, pos)->Ok_0.1;
        lemma_read_name_end(b1, pos);
        lemma_read_questions_end(b1, after + 4, (n - 1) as nat);
        assert(b1.subrange(pos, after) =~= b1.subrange(pos, e).subrange(0, after - pos));
        assert(b2.subrange(pos, after) =~= b2.subrange(pos, e).subrange(0, after - pos));
        lemma_read_name_same_bytes(b1, b2, pos);
        assert forall|k: int| after <= k < after + 4 implies b1[k] == b2[k] by {
            assert(b1[k] == b1.subrange(pos, e)[k - pos]);
            assert(b2[k] == b2.subrange(pos, e)[k - pos]);
        }
        assert(b1.subrange(after + 4, e) =~= b1.subrange(pos, e).subrange(after + 4 - pos, e - pos));
        assert(b2.subrange(after + 4, e) =~= b2.subrange(pos, e).subrange(after + 4 - pos, e - pos));
        lemma_read_questions_same_bytes(b1, b2, after + 4, (n - 1) as nat);
    }
}

/// The answer to a query keeps its ID and question count, marks itself as a
/// response (QR) with TC as asked and RA and RCODE cleared, announces one
/// answer, repeats the query's questions, holds the record right after them
/// and then the rest of the query.
pub proof fn law_answer_repeats_query(buf: Seq<u8>, record: Seq<u8>, tc: bool)
    requires
        buf.len() >= 12,
        read_questions(buf, 12, be16_at(buf, 4) as nat) is Ok,
    ensures
        ({
            let (qs, end) = read_questions(buf, 12, be16_at(buf, 4) as nat)->Ok_0;
            let a = answer_bytes(buf, end - 12, record, tc);
            &&& be16_at(a, 0) == be16_at(buf, 0)
            &&& be16_at(a, 4) == be16_at(buf, 4)
            &&& a[2] & 0x80u8 == 0x80u8
            &&& (a[2] & 0x02u8 == 0x02u8) == tc
            &&& a[3] & 0x8fu8 == 0u8
            &&& be16_at(a, 6) == 1
            &&& read_questions(a, 12, be16_at(buf, 4) as nat) == Ok::<
                (Seq<QuestionView>, int),
                Error,
            >((qs, end))
            &&& a.subrange(end, end + record.len()) == record
            &&& a.subrange(end + record.len(), a.len() as int) == buf.subrange(end, buf.len() as int)
        }),
{
    let n = be16_at(buf, 4) as nat;
    let (qs, end) = read_questions(buf, 12, n)->Ok_0;
    lemma_read_questions_end(buf, 12, n);
    let h = reply_header(buf.take(12), tc);
    let b = buf.subrange(12, end);
    let rest = buf.subrange(end, buf.len() as int);
    let a = answer_bytes(buf, end - 12, record, tc);
    assert(a == h + b + record + rest);
    lemma_reply_flags(buf[2], buf[3], tc);
    assert forall|i: int| 0 <= i < 12 implies a[i] == h[i] by {
        assert((h + b)[i] == h[i]);
        assert((h + b + record)[i] == h[i]);
    }
    assert(a[0] == buf[0] && a[1] == buf[1] && a[4] == buf[4] && a[5] == buf[5]);
    assert(a[6] == 0 && a[7] == 1);
    assert(be16_at(a, 4) == be16_at(buf, 4));
    assert(a.subrange(12, end) =~= buf.subrange(12, end));
    lemma_read_questions_same_bytes(buf, a, 12, n);
    assert(a.subrange(end, end + record.len()) =~= record);
    assert(a.subrange(end + record.len(), a.len() as int) =~= rest);
}

/// The header of a reply, byte by byte, from the query's header `q`: the ID
/// (bytes 0-1) and QDCOUNT (4-5) kept; byte 2 with QR set and TC set or
/// cleared as `tc` says; byte 3 with RA and RCODE cleared; ANCOUNT (6-7) set
/// to 1; NSCOUNT and ARCOUNT (8-11) kept.
pub open spec fn is_reply_header_of(r: Seq<u8>, q: Seq<u8>, tc: bool) -> bool {
    &&& r.len() >= 12
    &&& r[0] == q[0] && r[1] == q[1]
    &&& r[2] as int == (if tc {
        (q[2] as int % 128) + 128 - (q[2] as int % 4) + (q[2] as int % 2) + 2
    } else {
        (q[2] as int % 128) + 128 - (q[2] as int % 4) + (q[2] as int % 2)
    })
    &&& r[3] as int == q[3] as int - (q[3] as int % 16) - (q[3] as int / 128) * 128
    &&& r[4] == q[4] && r[5] == q[5]
    &&& r[6] == 0 && r[7] == 1
    &&& r[8] == q[8] && r[9] == q[9] && r[10] == q[10] && r[11] == q[11]
}

proof fn lemma_reply_header_bytes(b2: u8, b3: u8)
    by (bit_vector)
    ensures
        ((b2 | 0x80u8) | 0x02u8) as int == (b2 as int % 128) + 128 - (b2 as int % 4) + (b2 as int
            % 2) + 2,
        ((b2 | 0x80u8) & 0xfdu8) as int == (b2 as int % 128) + 128 - (b2 as int % 4) + (b2 as int
            % 2),
        (b3 & 0x70u8) as int == b3 as int - (b3 as int % 16) - (b3 as int / 128) * 128,
{
}

/// `reply_header` turns a query's header into a reply's as
/// `is_reply_header_of` says, byte by byte.
pub proof fn law_reply_header(q: Seq<u8>, tc: bool)
    requires
        q.len() == 12,
    ensures
        reply_header(q, tc).len() == 12,
        is_reply_header_of(reply_header(q, tc), q, tc),
{
    lemma_reply_header_bytes(q[2], q[3]);
}

/// The answer to a query: its header turned into a reply's (counts of the
/// authority and additional sections kept), the `qlen` bytes of the
/// question section copied, the record, then every byte of the query after
/// the question section, in order.
pub proof fn law_answer_layout(buf: Seq<u8>, qlen: int, record: Seq<u8>, tc: bool)
    requires
        buf.len() >= 12,
        0 <= qlen,
        12 + qlen <= buf.len(),
    ensures
        ({
            let a = answer_bytes(buf, qlen, record, tc);
            &&& a.len() == buf.len() + record.len()
            &&& is_reply_header_of(a, buf, tc)
            &&& forall|k: int| 12 <= k < 12 + qlen ==> #[trigger] a[k] == buf[k]
            &&& forall|k: int| 0 <= k < record.len() ==> a[12 + qlen + k] == #[trigger] record[k]
            &&& forall|k: int|
                12 + qlen <= k < buf.len() ==> a[k + record.len()] == #[trigger] buf[k]
        }),
{
    let h = reply_header(buf.take(12), tc);
    let b = buf.subrange(12, 12 + qlen);
    let rest = buf.subrange(12 + qlen, buf.len() as int);
    let a = answer_bytes(buf, qlen, record, tc);
    law_reply_header(buf.take(12), tc);
    assert(a == h + b + record + rest);
    assert forall|i: int| 0 <= i < 12 implies a[i] == h[i] && h[i] == reply_header(buf.take(12), tc)[i] by {
        assert((h + b)[i] == h[i]);
        assert((h + b + record)[i] == h[i]);
    }
    assert forall|k: int| 12 <= k < 12 + qlen implies #[trigger] a[k] == buf[k] by {
        assert((h + b)[k] == b[k - 12]);
        assert((h + b + record)[k] == b[k - 12]);
    }
    assert forall|k: int| 0 <= k < record.len() implies a[12 + qlen + k] == #[trigger] record[k] by {
        assert((h + b + record)[12 + qlen + k] == record[k]);
    }
    assert forall|k: int| 12 + qlen <= k < buf.len() implies a[k + record.len()] == #[trigger] buf[k] by {
        assert(rest[k - 12 - qlen] == buf[k]);
    }
}

/// The reply that `reply` makes starts with the query's header turned into
/// a reply's, the counts of the authority and additional sections kept.
pub proof fn law_reply_header_kept(buf: Seq<u8>, answer: Seq<u8>, tc: bool)
    requires
        reply_fits(buf, answer.len() as int),
    ensures
        is_reply_header_of(reply_bytes(buf, answer, tc), buf, tc),
{
    let r = reply_bytes(buf, answer, tc);
    let q = reply_qd_end(buf);
    let h = reply_header(buf.take(12), tc);
    law_reply_header(buf.take(12), tc);
    let ns = reply_ns_start(buf, answer.len() as int);
    let ar = reply_ar_start(buf, answer.len() as int);
    let d = buf.subrange(ns, ar);
    let e = buf.subrange(ar, ar + section_len(buf, ar, be16_at(buf, 10)));
    let b = buf.subrange(12, q);
    assert(r == h + b + answer + d + e);
    assert forall|i: int| 0 <= i < 12 implies r[i] == h[i] by {
        assert((h + b)[i] == h[i]);
        assert((h + b + answer)[i] == h[i]);
        assert((h + b + answer + d)[i] == h[i]);
    }
}

/// Questions are read in order: the first is the name at `pos`, then the
/// big-endian type and class in the four bytes after it; the rest are read
/// from just after those four bytes.
pub proof fn law_questions_in_order(buf: Seq<u8>, pos: int, n: nat)
    requires
        n > 0,
        read_questions(buf, pos, n) is Ok,
    ensures
        ({
            let (qs, end) = read_questions(buf, pos, n)->Ok_0;
            let (labels, after) = read_name(buf, pos)->Ok_0;
            &&& read_name(buf, pos) is Ok
            &&& after + 4 <= buf.len()
            &&& qs.len() == n
            &&& qs[0].qname == name_text(labels)
            &&& qs[0].qtype as int == buf[after] as int * 256 + buf[after + 1] as int
            &&& qs[0].qclass as int == buf[after + 2] as int * 256 + buf[after + 3] as int
            &&& read_questions(buf, after + 4, (n - 1) as nat) == Ok::<
                (Seq<QuestionView>, int),
                Error,
            >((qs.drop_first(), end))
        }),
{
    lemma_read_questions_len(buf, pos, n);
    let (qs, end) = read_questions(buf, pos, n)->Ok_0;
    let (labels, after) = read_name(buf, pos)->Ok_0;
    let (rest, e2) = read_questions(buf, after + 4, (n - 1) as nat)->Ok_0;
    assert(qs == seq![qs[0]] + rest);
    assert(qs.drop_first() =~= rest);
}

/// A name that `read_name` reads ends inside the buffer.
pub proof fn lemma_read_name_end(buf: Seq<u8>, pos: int)
    ensures
        read_name(buf, pos) matches Ok((_, after)) ==> pos < after <= buf.len(),
    decreases buf.len() - pos,
{
    if 0 <= pos < buf.len() && buf[pos] != 0 {
        let end = pos + 1 + buf[pos];
        if end <= buf.len() {
            lemma_read_name_end(buf, end);
        }
    }
}

} // verus!
