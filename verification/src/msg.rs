use vstd::prelude::*;
use crate::error::{Error, Result};
use crate::utils::bytes::{be16_at, read_be16};

verus! {

/// Where the DNS message starts in a captured frame: after the Ethernet (14
/// bytes), IPv4 (20 bytes) and UDP (8 bytes) headers.
pub const DNS_OFFSET: usize = 42;

/// Where the questions start in a captured frame: after the 12 bytes of the
/// DNS header.
pub const QUESTIONS_OFFSET: usize = 54;

/// The bytes that one question takes in a captured frame, as this view reads
/// it: one byte of name, then two of type and two of class.
pub const QUESTION_LEN: usize = 5;

/// A DNS query inside a captured Ethernet frame, read in place.
#[derive(Debug)]
pub struct MsgView<'a> {
    buf: &'a [u8],
}

/// A question as this view reads it.
#[derive(Debug)]
pub struct QD {
    pub qname: Vec<String>,
    pub qtype: u16,
    pub qclass: u16,
}

impl<'a> View for MsgView<'a> {
    type V = Seq<u8>;

    closed spec fn view(&self) -> Seq<u8> {
        self.buf@
    }
}

/// Whether the `n` questions that this view reads fit in the frame `buf`.
pub open spec fn questions_fit(buf: Seq<u8>, n: int) -> bool {
    QUESTIONS_OFFSET + QUESTION_LEN * n <= buf.len()
}

/// Whether `q` is the `i`-th question that this view reads from `buf`: no
/// name labels, the type and class from the bytes after the name byte.
pub open spec fn is_question_at(buf: Seq<u8>, i: int, q: QD) -> bool {
    let at = QUESTIONS_OFFSET + QUESTION_LEN * i;
    &&& q.qname@.len() == 0
    &&& q.qtype as int == be16_at(buf, at + 1)
    &&& q.qclass as int == be16_at(buf, at + 3)
}

impl<'a> MsgView<'a> {
    pub fn new(buf: &'a [u8]) -> (view: Self)
        ensures
            view@ == buf@,
    {
        Self { buf }
    }

    /// The message ID: bytes 42 and 43 of the frame, in network byte order.
    pub fn id(&self) -> (id: u16)
        requires
            self@.len() >= DNS_OFFSET + 2,
        ensures
            id as int == be16_at(self@, DNS_OFFSET as int),
    {
        read_be16(self.buf, DNS_OFFSET)
    }

    /// QDCOUNT: bytes 46 and 47 of the frame, in network byte order.
    fn qdcount(&self) -> (n: u16)
        requires
            self@.len() >= DNS_OFFSET + 6,
        ensures
            n as int == be16_at(self@, DNS_OFFSET + 4),
    {
        read_be16(self.buf, DNS_OFFSET + 4)
    }

    /// The questions of the query, as many as QDCOUNT says, read from byte 54
    /// on. Each is taken as one name byte, which is skipped (the name is left
    /// without labels), then its type and class; the read fails when the
    /// frame ends before them.
    pub fn qds(&self) -> (res: Result<Vec<QD>>)
        requires
            self@.len() >= QUESTIONS_OFFSET,
        ensures
            res is Ok <==> questions_fit(self@, be16_at(self@, DNS_OFFSET + 4)),
            res matches Err(e) ==> e == Error::UnexpectedEof,
            res matches Ok(qds) ==> qds@.len() == be16_at(self@, DNS_OFFSET + 4) && forall|i: int|
                0 <= i < qds@.len() ==> is_question_at(self@, i, #[trigger] qds@[i]),
    {
        let n = self.qdcount();
        let mut qds: Vec<QD> = Vec::new();
        let mut pos: usize = QUESTIONS_OFFSET;
        let mut i: u16 = 0;
        while i < n
            invariant
                i <= n,
                n as int == be16_at(self@, DNS_OFFSET + 4),
                pos == QUESTIONS_OFFSET + QUESTION_LEN * i,
                pos <= self@.len(),
                qds@.len() == i,
                forall|j: int| 0 <= j < i ==> is_question_at(self@, j, #[trigger] qds@[j]),
            decreases n - i,
        {
            assert(self.buf@.len() == self.buf.len());
            if self.buf.len() - pos < QUESTION_LEN {
                return Err(Error::UnexpectedEof);
            }
            let qtype = read_be16(self.buf, pos + 1);
            let qclass = read_be16(self.buf, pos + 3);
            let qname: Vec<String> = Vec::new();
            qds.push(QD { qname, qtype, qclass });
            pos = pos + QUESTION_LEN;
            i = i + 1;
        }
        Ok(qds)
    }
}

} // verus!
