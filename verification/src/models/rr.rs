use vstd::prelude::*;
use vstd::utf8::*;
use crate::error::Error;
use crate::utils::name_serde::{
    DOT, encode_labels, labels_fit, lemma_read_encoded_labels, lemma_split_encoding, name_text,
    read_name, split_bytes, ser_name,
};

verus! {

/// A resource record: owner name, type, class, time to live and data.
#[derive(Debug, PartialEq, Eq)]
pub struct RR {
    pub name: String,
    pub rrtype: u16,
    pub rrclass: u16,
    pub ttl: i32,
    pub rdata: Vec<u8>,
}

/// What a resource record is made of, as plain values.
pub struct RecordView {
    pub name: Seq<char>,
    pub rrtype: u16,
    pub rrclass: u16,
    pub ttl: i32,
    pub rdata: Seq<u8>,
}

impl View for RR {
    type V = RecordView;

    open spec fn view(&self) -> RecordView {
        RecordView {
            name: self.name@,
            rrtype: self.rrtype,
            rrclass: self.rrclass,
            ttl: self.ttl,
            rdata: self.rdata@,
        }
    }
}

/// A 16-bit number in network byte order (big-endian).
pub open spec fn be16(x: u16) -> Seq<u8> {
    seq![(x >> 8u16) as u8, x as u8]
}

/// A 32-bit number in network byte order (big-endian).
pub open spec fn be32(x: u32) -> Seq<u8> {
    seq![(x >> 24u32) as u8, (x >> 16u32) as u8, (x >> 8u32) as u8, x as u8]
}

/// A name in the wire format: its `.`-separated labels, each as a length byte
/// and its UTF-8 bytes, then a zero byte.
pub open spec fn name_wire(name: Seq<char>) -> Seq<u8> {
    encode_labels(split_bytes(encode_utf8(name), DOT)) + seq![0u8]
}

/// A record in the wire format: name, type, class, time to live (its two's
/// complement bits), data length cut to 16 bits, data.
pub open spec fn record_wire(r: RecordView) -> Seq<u8> {
    name_wire(r.name) + be16(r.rrtype) + be16(r.rrclass) + be32(r.ttl as u32) + be16(
        r.rdata.len() as u16,
    ) + r.rdata
}

impl Clone for RR {
    fn clone(&self) -> (res: Self)
        ensures
            res@ == self@,
    {
        let mut rdata: Vec<u8> = Vec::new();
        let mut k: usize = 0;
        while k < self.rdata.len()
            invariant
                k <= self.rdata@.len(),
                rdata@ == self.rdata@.take(k as int),
            decreases self.rdata@.len() - k,
        {
            rdata.push(self.rdata[k]);
            k = k + 1;
            assert(rdata@ =~= self.rdata@.take(k as int));
        }
        assert(rdata@ =~= self.rdata@);
        RR {
            name: self.name.clone(),
            rrtype: self.rrtype,
            rrclass: self.rrclass,
            ttl: self.ttl,
            rdata,
        }
    }
}

impl RR {
    /// Appends the record in the wire format to `buf` and returns the number
    /// of bytes appended.
    pub fn buf(&self, buf: &mut Vec<u8>) -> (len: usize)
        ensures
            final(buf)@ == old(buf)@ + record_wire(self@),
            len == record_wire(self@).len(),
    {
        let ghost start = buf@;
        let start_len = buf.len();
        let mut name = ser_name(self.name.as_str());
        buf.append(&mut name);
        buf.push(0);
        buf.push((self.rrtype >> 8u16) as u8);
        buf.push(self.rrtype as u8);
        buf.push((self.rrclass >> 8u16) as u8);
        buf.push(self.rrclass as u8);
        let ttl = self.ttl as u32;
        buf.push((ttl >> 24u32) as u8);
        buf.push((ttl >> 16u32) as u8);
        buf.push((ttl >> 8u32) as u8);
        buf.push(ttl as u8);
        let rdlen = self.rdata.len() as u16;
        buf.push((rdlen >> 8u16) as u8);
        buf.push(rdlen as u8);
        let ghost before_data = buf@;
        let mut k: usize = 0;
        while k < self.rdata.len()
            invariant
                k <= self.rdata@.len(),
                buf@ == before_data + self.rdata@.take(k as int),
            decreases self.rdata@.len() - k,
        {
            buf.push(self.rdata[k]);
            k = k + 1;
            assert(buf@ =~= before_data + self.rdata@.take(k as int));
        }
        assert(self.rdata@.take(k as int) =~= self.rdata@);
        assert(buf@ =~= start + record_wire(self@));
        buf.len() - start_len
    }
}


/// The owner name of a record in the wire format reads back as the record's
/// name, and the fields after it start right after the name, when the
/// labels of the name fit (each between 1 and 255 bytes).
pub proof fn law_record_name_reads_back(r: RecordView)
    requires
        labels_fit(split_bytes(encode_utf8(r.name), DOT)),
    ensures
        ({
            let labels = split_bytes(encode_utf8(r.name), DOT);
            &&& read_name(record_wire(r), 0) == Ok::<(Seq<Seq<u8>>, int), Error>(
                (labels, name_wire(r.name).len() as int),
            )
            &&& name_text(labels) == r.name
        }),
{
    let labels = split_bytes(encode_utf8(r.name), DOT);
    let w = record_wire(r);
    let n = encode_labels(labels).len() as int;
    lemma_split_encoding(r.name);
    assert(w.subrange(0, n + 1) =~= encode_labels(labels) + seq![0u8]);
    lemma_read_encoded_labels(w, 0, labels);
}


proof fn lemma_be16_bytes(x: u16)
    by (bit_vector)
    ensures
        ((x >> 8u16) as u8) as int == x as int / 256,
        (x as u8) as int == x as int % 256,
{
}

proof fn lemma_be32_bytes(x: u32)
    by (bit_vector)
    ensures
        ((x >> 24u32) as u8) as int == x as int / 0x1000000,
        ((x >> 16u32) as u8) as int == (x as int / 0x10000) % 256,
        ((x >> 8u32) as u8) as int == (x as int / 256) % 256,
        (x as u8) as int == x as int % 256,
{
}

/// A record in the wire format ends with its ten fixed bytes and its data:
/// type, class, time to live (its 32 bits) and the data length cut to 16
/// bits, each big-endian, then every byte of the data; before them stands the
/// owner name in the wire format.
pub proof fn law_record_layout(r: RecordView)
    ensures
        ({
            let w = record_wire(r);
            let d = r.rdata.len() as int;
            let t = w.len() - d - 10;
            let ttl = (r.ttl as u32) as int;
            let rdlen = (r.rdata.len() as u16) as int;
            &&& t == name_wire(r.name).len()
            &&& w.subrange(0, t) == name_wire(r.name)
            &&& w[t] as int == r.rrtype as int / 256 && w[t + 1] as int == r.rrtype as int % 256
            &&& w[t + 2] as int == r.rrclass as int / 256 && w[t + 3] as int == r.rrclass as int % 256
            &&& w[t + 4] as int == ttl / 0x1000000 && w[t + 5] as int == (ttl / 0x10000) % 256
            &&& w[t + 6] as int == (ttl / 256) % 256 && w[t + 7] as int == ttl % 256
            &&& w[t + 8] as int == rdlen / 256 && w[t + 9] as int == rdlen % 256
            &&& w.subrange(t + 10, w.len() as int) == r.rdata
        }),
{
    let w = record_wire(r);
    let nw = name_wire(r.name);
    let d = r.rdata.len();
    let fixed = be16(r.rrtype) + be16(r.rrclass) + be32(r.ttl as u32) + be16(d as u16);
    assert(w =~= nw + fixed + r.rdata);
    let t = nw.len() as int;
    lemma_be16_bytes(r.rrtype);
    lemma_be16_bytes(r.rrclass);
    lemma_be16_bytes(d as u16);
    lemma_be32_bytes(r.ttl as u32);
    assert forall|k: int| 0 <= k < 10 implies w[t + k] == fixed[k] by {
        assert((nw + fixed)[t + k] == fixed[k]);
    }
    assert(w.subrange(0, t) =~= nw);
    assert(w.subrange(t + 10, w.len() as int) =~= r.rdata);
}

} // verus!
