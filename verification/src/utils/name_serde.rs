use vstd::prelude::*;
use vstd::string::StringSliceAdditionalSpecFns;
use vstd::string::StringExecFns;
use vstd::utf8::*;
use crate::error::{Error, Result};
use crate::utils::bytes::push_range;

verus! {

/// The byte of `.`, which separates the labels of a name in its text form.
pub const DOT: u8 = 0x2e;

/// The pieces of `s` between the occurrences of the byte `sep`, as `str::split`
/// gives them: always at least one piece, possibly empty ones.
pub open spec fn split_bytes(s: Seq<u8>, sep: u8) -> Seq<Seq<u8>>
    decreases s.len(),
{
    if s.len() == 0 {
        seq![Seq::<u8>::empty()]
    } else {
        let p = split_bytes(s.drop_last(), sep);
        if s.last() == sep {
            p.push(Seq::<u8>::empty())
        } else {
            p.update(p.len() - 1, p.last().push(s.last()))
        }
    }
}

/// Each label, in order, as one length byte (the length cut to 8 bits)
/// followed by the label's bytes.
pub open spec fn encode_labels(labels: Seq<Seq<u8>>) -> Seq<u8>
    decreases labels.len(),
{
    if labels.len() == 0 {
        Seq::<u8>::empty()
    } else {
        encode_labels(labels.drop_last()) + seq![labels.last().len() as u8] + labels.last()
    }
}

/// `split_bytes` never gives an empty list of pieces.
pub proof fn lemma_split_bytes_nonempty(s: Seq<u8>, sep: u8)
    ensures
        split_bytes(s, sep).len() >= 1,
    decreases s.len(),
{
    if s.len() > 0 {
        lemma_split_bytes_nonempty(s.drop_last(), sep);
    }
}

/// One more byte of `s` taken into the split: a `sep` closes the last piece
/// and opens an empty one; any other byte extends the last piece.
pub proof fn lemma_split_step(s: Seq<u8>, sep: u8, start: int, i: int)
    requires
        0 <= start <= i < s.len(),
        split_bytes(s.take(i), sep).last() == s.subrange(start, i),
    ensures
        split_bytes(s.take(i + 1), sep).len() >= 1,
        s[i] == sep ==> split_bytes(s.take(i + 1), sep).drop_last() == split_bytes(s.take(i), sep)
            && split_bytes(s.take(i + 1), sep).last() == s.subrange(i + 1, i + 1),
        s[i] != sep ==> split_bytes(s.take(i + 1), sep).drop_last() == split_bytes(
            s.take(i),
            sep,
        ).drop_last() && split_bytes(s.take(i + 1), sep).last() == s.subrange(start, i + 1),
{
    lemma_split_bytes_nonempty(s.take(i), sep);
    lemma_split_bytes_nonempty(s.take(i + 1), sep);
    let p = split_bytes(s.take(i), sep);
    let q = split_bytes(s.take(i + 1), sep);
    assert(s.take(i + 1).drop_last() =~= s.take(i));
    assert(s.take(i + 1).last() == s[i]);
    if s[i] == sep {
        assert(q == p.push(Seq::<u8>::empty()));
        assert(q.drop_last() =~= p);
        assert(s.subrange(i + 1, i + 1) =~= Seq::<u8>::empty());
    } else {
        assert(q == p.update(p.len() - 1, p.last().push(s[i])));
        assert(q.drop_last() =~= p.drop_last());
        assert(q.last() =~= s.subrange(start, i + 1));
    }
}

/// Appends one label to `out`: its length cut to a byte, then its bytes.
fn push_label(out: &mut Vec<u8>, bytes: &[u8], start: usize, end: usize)
    requires
        start <= end <= bytes@.len(),
    ensures
        final(out)@ == old(out)@ + seq![(end - start) as u8] + bytes@.subrange(
            start as int,
            end as int,
        ),
{
    out.push((end - start) as u8);
    push_range(out, bytes, start, end);
}

/// The labels of `name` (split at each `.`) in the wire format of DNS: each as
/// a length byte and its bytes. No terminating zero byte is added.
pub fn ser_name(name: &str) -> (bytes: Vec<u8>)
    ensures
        bytes@ == encode_labels(split_bytes(name.spec_bytes(), DOT)),
{
    let src = name.as_bytes();
    let mut out: Vec<u8> = Vec::new();
    let mut start: usize = 0;
    let mut i: usize = 0;
    proof {
        lemma_split_bytes_nonempty(src@.take(0), DOT);
        assert(src@.take(0) =~= Seq::<u8>::empty());
    }
    while i < src.len()
        invariant
            0 <= start <= i <= src@.len(),
            split_bytes(src@.take(i as int), DOT).len() >= 1,
            out@ == encode_labels(split_bytes(src@.take(i as int), DOT).drop_last()),
            split_bytes(src@.take(i as int), DOT).last() == src@.subrange(start as int, i as int),
        decreases src@.len() - i,
    {
        let ghost p = split_bytes(src@.take(i as int), DOT);
        proof {
            lemma_split_step(src@, DOT, start as int, i as int);
        }
        if src[i] == DOT {
            push_label(&mut out, src, start, i);
            start = i + 1;
            i = i + 1;
            proof {
                assert(p =~= p.drop_last().push(p.last()));
            }
        } else {
            i = i + 1;
        }
    }
    let ghost p = split_bytes(src@.take(i as int), DOT);
    push_label(&mut out, src, start, i);
    proof {
        assert(src@.take(i as int) =~= src@);
        assert(p =~= p.drop_last().push(p.last()));
    }
    out
}


/// The labels of the name that starts at `pos` of `buf`, and the position just
/// after its terminating zero byte; or the error met first while reading them
/// in order: the message ends before a length byte or before the end of a
/// label, or a label is not valid UTF-8.
pub open spec fn read_name(buf: Seq<u8>, pos: int) -> core::result::Result<(Seq<Seq<u8>>, int), Error>
    decreases buf.len() - pos,
{
    if pos < 0 || pos >= buf.len() {
        Err(Error::UnexpectedEof)
    } else if buf[pos] == 0 {
        Ok((Seq::<Seq<u8>>::empty(), pos + 1))
    } else {
        let end = pos + 1 + buf[pos];
        if end > buf.len() {
            Err(Error::UnexpectedEof)
        } else if !valid_utf8(buf.subrange(pos + 1, end)) {
            Err(Error::Utf8)
        } else {
            match read_name(buf, end) {
                Ok((rest, after)) => Ok((seq![buf.subrange(pos + 1, end)] + rest, after)),
                Err(e) => Err(e),
            }
        }
    }
}

/// The position just after the terminating zero byte of the name that starts
/// at `pos` of `buf`, if the name ends inside `buf`; labels are not decoded.
pub open spec fn name_end(buf: Seq<u8>, pos: int) -> Option<int>
    decreases buf.len() - pos,
{
    if pos < 0 || pos >= buf.len() {
        None
    } else if buf[pos] == 0 {
        Some(pos + 1)
    } else if pos + 1 + buf[pos] > buf.len() {
        None
    } else {
        name_end(buf, pos + 1 + buf[pos])
    }
}

/// A name that `name_end` measures ends after where it starts.
pub proof fn lemma_name_end_after(buf: Seq<u8>, pos: int)
    ensures
        name_end(buf, pos) matches Some(e) ==> pos < e <= buf.len(),
    decreases buf.len() - pos,
{
    if 0 <= pos < buf.len() && buf[pos] != 0 && pos + 1 + buf[pos] <= buf.len() {
        lemma_name_end_after(buf, pos + 1 + buf[pos]);
    }
}

/// The pieces joined with `.` between them, as `[String]::join(".")` does.
pub open spec fn dotted(parts: Seq<Seq<char>>) -> Seq<char>
    decreases parts.len(),
{
    if parts.len() == 0 {
        Seq::<char>::empty()
    } else if parts.len() == 1 {
        parts[0]
    } else {
        dotted(parts.drop_last()) + seq!['.'] + parts.last()
    }
}

/// The text of a name: its labels decoded from UTF-8 and joined with `.`.
pub open spec fn name_text(labels: Seq<Seq<u8>>) -> Seq<char> {
    dotted(labels.map_values(|l: Seq<u8>| decode_utf8(l)))
}

/// `labels` put in front of the labels of a result of `read_name`.
pub open spec fn prepend_labels(
    labels: Seq<Seq<u8>>,
    r: core::result::Result<(Seq<Seq<u8>>, int), Error>,
) -> core::result::Result<(Seq<Seq<u8>>, int), Error> {
    match r {
        Ok((rest, after)) => Ok((labels + rest, after)),
        Err(e) => Err(e),
    }
}

/// `std::str::from_utf8`: the bytes as a string slice when they are valid
/// UTF-8, else nothing. The contract takes vstd's `valid_utf8` to be the test
/// that std applies.
#[verifier::external_body]
pub(crate) fn utf8_str(bytes: &[u8]) -> (res: Option<&str>)
    ensures
        res is Some <==> valid_utf8(bytes@),
        res matches Some(s) ==> s.spec_bytes() == bytes@,
{
    std::str::from_utf8(bytes).ok()
}

/// Reads the name that starts at `pos` of `buf`: its labels, joined with `.`,
/// and the position just after its terminating zero byte.
pub fn de_name_at(buf: &[u8], pos: usize) -> (res: Result<(String, usize)>)
    requires
        pos <= buf@.len(),
    ensures
        match read_name(buf@, pos as int) {
            Ok((labels, after)) => res matches Ok((name, end)) && name@ == name_text(labels)
                && end == after,
            Err(e) => res matches Err(e2) && e2 == e,
        },
{
    let mut name = String::new();
    let mut p = pos;
    let mut any_label = false;
    let ghost mut labels: Seq<Seq<u8>> = Seq::empty();
    assert(labels.map_values(|l: Seq<u8>| decode_utf8(l)) =~= Seq::<Seq<char>>::empty());
    assert(read_name(buf@, pos as int) == prepend_labels(labels, read_name(buf@, p as int))) by {
        match read_name(buf@, pos as int) {
            Ok((rest, after)) => { assert(labels + rest =~= rest); },
            Err(_) => {},
        }
    }
    loop
        invariant
            pos <= p <= buf@.len(),
            any_label == (labels.len() > 0),
            name@ == name_text(labels),
            read_name(buf@, pos as int) == prepend_labels(labels, read_name(buf@, p as int)),
        decreases buf@.len() - p,
    {
        if p >= buf.len() {
            return Err(Error::UnexpectedEof);
        }
        let len = buf[p];
        if len == 0 {
            proof {
                assert(labels + Seq::<Seq<u8>>::empty() =~= labels);
            }
            return Ok((name, p + 1));
        }
        if len as usize > buf.len() - p - 1 {
            return Err(Error::UnexpectedEof);
        }
        let end = p + 1 + len as usize;
        let label = &buf[p + 1..end];
        assert(label@ == buf@.subrange(p + 1, end as int));
        match utf8_str(label) {
            None => {
                return Err(Error::Utf8);
            },
            Some(s) => {
                proof {
                    encode_utf8_decode_utf8(s@);
                }
                let ghost old_name = name@;
                let ghost old_parts = labels.map_values(|l: Seq<u8>| decode_utf8(l));
                if any_label {
                    name.append(".");
                    proof {
                        reveal_strlit(".");
                    }
                }
                name.append(s);
                proof {
                    let new_labels = labels.push(label@);
                    let new_parts = new_labels.map_values(|l: Seq<u8>| decode_utf8(l));
                    assert(new_parts =~= old_parts.push(s@));
                    assert(new_parts.drop_last() =~= old_parts);
                    match read_name(buf@, end as int) {
                        Ok((rest, after)) => {
                            assert(labels + (seq![label@] + rest) =~= new_labels + rest);
                        },
                        Err(_) => {},
                    }
                    labels = new_labels;
                }
                p = end;
                any_label = true;
            },
        }
    }
}

/// Reads the name at the start of `buf`: its labels joined with `.`.
pub fn de_name(buf: &[u8]) -> (res: Result<String>)
    ensures
        match read_name(buf@, 0) {
            Ok((labels, _)) => res matches Ok(name) && name@ == name_text(labels),
            Err(e) => res matches Err(e2) && e2 == e,
        },
{
    match de_name_at(buf, 0) {
        Ok((name, _)) => Ok(name),
        Err(e) => Err(e),
    }
}

/// The number of bytes of the name at the start of `buf`, its terminating
/// zero byte included.
pub fn name_byte_len(buf: &[u8]) -> (len: usize)
    requires
        name_end(buf@, 0) is Some,
    ensures
        len as int == name_end(buf@, 0)->0,
{
    let mut p: usize = 0;
    while buf[p] != 0
        invariant
            p < buf@.len(),
            name_end(buf@, p as int) == name_end(buf@, 0),
            name_end(buf@, p as int) is Some,
        decreases buf@.len() - p,
    {
        p = p + 1 + buf[p] as usize;
    }
    p + 1
}


/// The strings joined with `.` between them, as `[String]::join(".")` does.
pub fn join_dotted(parts: &Vec<String>) -> (joined: String)
    ensures
        joined@ == dotted(parts@.map_values(|s: String| s@)),
{
    let mut joined = String::new();
    let mut k: usize = 0;
    proof {
        assert(parts@.take(0).map_values(|s: String| s@) =~= Seq::<Seq<char>>::empty());
    }
    while k < parts.len()
        invariant
            k <= parts@.len(),
            joined@ == dotted(parts@.take(k as int).map_values(|s: String| s@)),
        decreases parts@.len() - k,
    {
        let ghost before = parts@.take(k as int).map_values(|s: String| s@);
        if k > 0 {
            joined.append(".");
            proof {
                reveal_strlit(".");
            }
        }
        joined.append(parts[k].as_str());
        k = k + 1;
        proof {
            let after = parts@.take(k as int).map_values(|s: String| s@);
            assert(after =~= before.push(parts@[k - 1]@));
            assert(after.drop_last() =~= before);
        }
    }
    assert(parts@.take(k as int) =~= parts@);
    joined
}


/* The wire form of a name reads back as the name. */

/// The labels can be written in the wire format and read back: each has
/// between 1 and 255 bytes (an empty label would read as the end of the
/// name, a longer one would have its length cut).
pub open spec fn labels_fit(labels: Seq<Seq<u8>>) -> bool {
    forall|i: int| 0 <= i < labels.len() ==> 0 < #[trigger] labels[i].len() < 256
}

/// The UTF-8 encoding of a concatenation is the concatenation of the encodings.
pub proof fn lemma_encode_utf8_concat(a: Seq<char>, b: Seq<char>)
    ensures
        encode_utf8(a + b) == encode_utf8(a) + encode_utf8(b),
    decreases a.len(),
{
    if a.len() == 0 {
        assert(a + b =~= b);
        assert(Seq::<u8>::empty() + encode_utf8(b) =~= encode_utf8(b));
    } else {
        assert((a + b).drop_first() =~= a.drop_first() + b);
        assert((a + b)[0] == a[0]);
        lemma_encode_utf8_concat(a.drop_first(), b);
        assert(encode_scalar(a[0] as u32) + (encode_utf8(a.drop_first()) + encode_utf8(b))
            =~= (encode_scalar(a[0] as u32) + encode_utf8(a.drop_first())) + encode_utf8(b));
    }
}

proof fn lemma_high_bytes(y: u8)
    by (bit_vector)
    ensures
        (0x80u8 | y) >= 0x80u8,
        (0xC0u8 | y) >= 0x80u8,
        (0xE0u8 | y) >= 0x80u8,
        (0xF0u8 | y) >= 0x80u8,
{
}

proof fn lemma_low_byte(v: u32)
    by (bit_vector)
    requires
        v <= 0x7f,
        v != 0x2e,
    ensures
        (v & 0x7f) as u8 != 0x2eu8,
{
}

/// The encoding of a character other than `.` holds no `.` byte; that of `.`
/// is the `.` byte alone.
proof fn lemma_encode_char_dots(x: char)
    ensures
        x == '.' ==> encode_utf8(seq![x]) == seq![DOT],
        x != '.' ==> forall|k: int|
            0 <= k < encode_utf8(seq![x]).len() ==> #[trigger] encode_utf8(seq![x])[k] != DOT,
{
    let v = x as u32;
    assert(seq![x].drop_first() =~= Seq::<char>::empty());
    let e = encode_utf8(seq![x]);
    assert(seq![x][0] == x);
    assert(encode_utf8(Seq::<char>::empty()) =~= Seq::<u8>::empty());
    assert(e == encode_scalar(v) + encode_utf8(Seq::<char>::empty()));
    assert(e =~= encode_scalar(v));
    char_is_scalar(x);
    if x == '.' {
        assert(('.' as u32) == 46u32);
        assert(v == 0x2e);
        assert((0x2eu32 & 0x7f) as u8 == 0x2eu8) by (bit_vector);
    } else {
        char_u32_cast(x, v);
        assert(v != 0x2e) by {
            if v == 0x2e {
                char_u32_cast('.', 0x2e);
            }
        }
        if has_width_1_encoding(v) {
            lemma_low_byte(v);
        } else {
            lemma_high_bytes(((v >> 6) & 0x1F) as u8);
            lemma_high_bytes(((v >> 12) & 0x0F) as u8);
            lemma_high_bytes(((v >> 18) & 0x7) as u8);
            lemma_high_bytes((v & 0x3F) as u8);
            lemma_high_bytes(((v >> 6) & 0x3F) as u8);
            lemma_high_bytes(((v >> 12) & 0x3F) as u8);
        }
    }
}

/// Appending bytes without `sep` to `b` extends the last piece of the split.
proof fn lemma_split_append(b: Seq<u8>, e: Seq<u8>, sep: u8)
    requires
        forall|k: int| 0 <= k < e.len() ==> #[trigger] e[k] != sep,
    ensures
        split_bytes(b + e, sep) == split_bytes(b, sep).update(
            split_bytes(b, sep).len() - 1,
            split_bytes(b, sep).last() + e,
        ),
    decreases e.len(),
{
    lemma_split_bytes_nonempty(b, sep);
    let p = split_bytes(b, sep);
    if e.len() == 0 {
        assert(b + e =~= b);
        assert(p.last() + e =~= p.last());
        assert(p.update(p.len() - 1, p.last() + e) =~= p);
    } else {
        let e1 = e.drop_last();
        assert(e1.len() < e.len());
        lemma_split_append(b, e1, sep);
        assert((b + e).drop_last() =~= b + e1);
        assert((b + e).last() == e.last());
        assert(e.last() == e[e.len() - 1]);
        let q = split_bytes(b + e1, sep);
        assert(q.last() == p.last() + e1);
        assert((p.last() + e1).push(e.last()) =~= p.last() + e);
        assert(q.update(q.len() - 1, q.last().push(e.last())) =~= p.update(
            p.len() - 1,
            p.last() + e,
        ));
    }
}

/// Splitting the encoding of `c` at the `.` bytes gives pieces that are valid
/// UTF-8 and that decode and join with `.` back to `c`.
pub proof fn lemma_split_encoding(c: Seq<char>)
    ensures
        name_text(split_bytes(encode_utf8(c), DOT)) == c,
        forall|i: int|
            0 <= i < split_bytes(encode_utf8(c), DOT).len() ==> valid_utf8(
                #[trigger] split_bytes(encode_utf8(c), DOT)[i],
            ),
    decreases c.len(),
{
    let b = encode_utf8(c);
    if c.len() == 0 {
        assert(b =~= Seq::<u8>::empty());
        let p = split_bytes(b, DOT);
        assert(p =~= seq![Seq::<u8>::empty()]);
        assert(p.map_values(|l: Seq<u8>| decode_utf8(l)) =~= seq![Seq::<char>::empty()]);
        assert(decode_utf8(Seq::<u8>::empty()) =~= Seq::<char>::empty());
    } else {
        let c1 = c.drop_last();
        let x = c.last();
        assert(c =~= c1 + seq![x]);
        lemma_split_encoding(c1);
        lemma_encode_utf8_concat(c1, seq![x]);
        let b1 = encode_utf8(c1);
        let e = encode_utf8(seq![x]);
        assert(b == b1 + e);
        lemma_encode_char_dots(x);
        lemma_split_bytes_nonempty(b1, DOT);
        let p = split_bytes(b1, DOT);
        let dp = p.map_values(|l: Seq<u8>| decode_utf8(l));
        if x == '.' {
            assert(b =~= b1.push(DOT));
            assert(b.drop_last() =~= b1);
            let q = split_bytes(b, DOT);
            assert(q == p.push(Seq::<u8>::empty()));
            let dq = q.map_values(|l: Seq<u8>| decode_utf8(l));
            assert(decode_utf8(Seq::<u8>::empty()) =~= Seq::<char>::empty());
            assert(dq =~= dp.push(Seq::<char>::empty()));
            assert(dq.drop_last() =~= dp);
            assert(dotted(dq) =~= dotted(dp) + seq!['.']);
            assert forall|i: int| 0 <= i < q.len() implies valid_utf8(#[trigger] q[i]) by {
                if i < p.len() {
                    assert(q[i] == p[i]);
                }
            }
        } else {
            lemma_split_append(b1, e, DOT);
            let q = split_bytes(b, DOT);
            let last = p.last();
            assert(valid_utf8(last));
            encode_utf8_valid_utf8(seq![x]);
            valid_utf8_concat(last, e);
            decode_utf8_encode_utf8(last);
            lemma_encode_utf8_concat(decode_utf8(last), seq![x]);
            encode_utf8_decode_utf8(decode_utf8(last) + seq![x]);
            assert(decode_utf8(last + e) == decode_utf8(last) + seq![x]);
            let dq = q.map_values(|l: Seq<u8>| decode_utf8(l));
            assert(dq =~= dp.update(dp.len() - 1, dp.last() + seq![x]));
            assert(dq.drop_last() =~= dp.drop_last());
            assert(dotted(dq) =~= dotted(dp) + seq![x]);
            assert forall|i: int| 0 <= i < q.len() implies valid_utf8(#[trigger] q[i]) by {
                if i < p.len() - 1 {
                    assert(q[i] == p[i]);
                }
            }
        }
    }
}

/// The encoding of labels, read from the front: the first label, then the
/// rest.
proof fn lemma_encode_labels_front(l: Seq<u8>, ls: Seq<Seq<u8>>)
    ensures
        encode_labels(seq![l] + ls) == seq![l.len() as u8] + l + encode_labels(ls),
    decreases ls.len(),
{
    if ls.len() == 0 {
        assert(seq![l] + ls =~= seq![l]);
        assert(seq![l].drop_last() =~= Seq::<Seq<u8>>::empty());
        assert(seq![l].last() == l);
        assert(encode_labels(ls) =~= Seq::<u8>::empty());
        assert(encode_labels(seq![l]) == encode_labels(Seq::<Seq<u8>>::empty()) + seq![l.len() as u8] + l);
        assert(seq![l.len() as u8] + l + Seq::<u8>::empty() =~= seq![l.len() as u8] + l);
        assert(Seq::<u8>::empty() + seq![l.len() as u8] + l =~= seq![l.len() as u8] + l);
    } else {
        let ls1 = ls.drop_last();
        lemma_encode_labels_front(l, ls1);
        assert((seq![l] + ls).drop_last() =~= seq![l] + ls1);
        assert((seq![l] + ls).last() == ls.last());
        let x = ls.last();
        assert(encode_labels(seq![l] + ls) == encode_labels(seq![l] + ls1) + seq![x.len() as u8] + x);
        assert(encode_labels(ls) == encode_labels(ls1) + seq![x.len() as u8] + x);
        assert(seq![l.len() as u8] + l + encode_labels(ls1) + seq![x.len() as u8] + x
            =~= seq![l.len() as u8] + l + (encode_labels(ls1) + seq![x.len() as u8] + x));
    }
}

/// Reading labels that were written in the wire format, followed by a zero
/// byte, gives them back.
pub proof fn lemma_read_encoded_labels(buf: Seq<u8>, pos: int, ls: Seq<Seq<u8>>)
    requires
        0 <= pos,
        labels_fit(ls),
        forall|i: int| 0 <= i < ls.len() ==> valid_utf8(#[trigger] ls[i]),
        pos + encode_labels(ls).len() + 1 <= buf.len(),
        buf.subrange(pos, pos + encode_labels(ls).len() + 1) == encode_labels(ls) + seq![0u8],
    ensures
        read_name(buf, pos) == Ok::<(Seq<Seq<u8>>, int), Error>(
            (ls, pos + encode_labels(ls).len() + 1),
        ),
    decreases ls.len(),
{
    let n = encode_labels(ls).len();
    if ls.len() == 0 {
        assert(ls =~= Seq::<Seq<u8>>::empty());
        assert(encode_labels(ls) =~= Seq::<u8>::empty());
        assert(buf[pos] == buf.subrange(pos, pos + n + 1)[0]);
    } else {
        let l = ls[0];
        let rest = ls.drop_first();
        assert(ls =~= seq![l] + rest);
        lemma_encode_labels_front(l, rest);
        let m = encode_labels(rest).len();
        assert(0 < l.len() < 256);
        assert((l.len() as u8) as int == l.len());
        let w = buf.subrange(pos, pos + n + 1);
        assert(w =~= seq![l.len() as u8] + l + encode_labels(rest) + seq![0u8]);
        assert(buf[pos] == w[0]);
        assert(buf.subrange(pos + 1, pos + 1 + l.len()) =~= l) by {
            assert forall|k: int| 0 <= k < l.len() implies buf.subrange(pos + 1, pos + 1 + l.len())[k]
                == l[k] by {
                assert(w[1 + k] == l[k]);
            }
        }
        let next = pos + 1 + l.len();
        assert(buf.subrange(next, next + m + 1) =~= encode_labels(rest) + seq![0u8]) by {
            assert forall|k: int| 0 <= k < m + 1 implies buf.subrange(next, next + m + 1)[k]
                == (encode_labels(rest) + seq![0u8])[k] by {
                assert(w[1 + l.len() + k] == (encode_labels(rest) + seq![0u8])[k]);
            }
        }
        assert forall|i: int| 0 <= i < rest.len() implies 0 < #[trigger] rest[i].len() < 256 by {
            assert(rest[i] == ls[i + 1]);
        }
        assert forall|i: int| 0 <= i < rest.len() implies valid_utf8(#[trigger] rest[i]) by {
            assert(rest[i] == ls[i + 1]);
        }
        lemma_read_encoded_labels(buf, next, rest);
        assert(buf[pos] as int == l.len());
        assert(n == 1 + l.len() + m);
        assert(seq![l] + rest == ls);
    }
}

/// A name written in the wire format (its labels, then a zero byte) reads
/// back as the same name, when its labels fit: each between 1 and 255 bytes.
pub proof fn law_name_roundtrip(name: Seq<char>)
    requires
        labels_fit(split_bytes(encode_utf8(name), DOT)),
    ensures
        ({
            let labels = split_bytes(encode_utf8(name), DOT);
            let wire = encode_labels(labels) + seq![0u8];
            &&& read_name(wire, 0) == Ok::<(Seq<Seq<u8>>, int), Error>((labels, wire.len() as int))
            &&& name_text(labels) == name
        }),
{
    let labels = split_bytes(encode_utf8(name), DOT);
    let wire = encode_labels(labels) + seq![0u8];
    lemma_split_encoding(name);
    assert(wire.subrange(0, wire.len() as int) =~= wire);
    lemma_read_encoded_labels(wire, 0, labels);
}

} // verus!
