use vstd::prelude::*;

verus! {

/// The 16-bit number in network byte order (big-endian) at `i` of `s`.
pub open spec fn be16_at(s: Seq<u8>, i: int) -> int {
    s[i] as int * 256 + s[i + 1] as int
}

/// Reads the 16-bit number in network byte order at `i` of `buf`, as
/// `u16::from_be_bytes` does.
pub fn read_be16(buf: &[u8], i: usize) -> (v: u16)
    requires
        i + 2 <= buf@.len(),
    ensures
        v as int == be16_at(buf@, i as int),
{
    (buf[i] as u16) * 256 + buf[i + 1] as u16
}

/// Appends the bytes `start..end` of `bytes` to `out`.
pub fn push_range(out: &mut Vec<u8>, bytes: &[u8], start: usize, end: usize)
    requires
        start <= end <= bytes@.len(),
    ensures
        final(out)@ == old(out)@ + bytes@.subrange(start as int, end as int),
{
    let ghost base = out@;
    let mut k = start;
    while k < end
        invariant
            start <= k <= end <= bytes@.len(),
            out@ == base + bytes@.subrange(start as int, k as int),
        decreases end - k,
    {
        out.push(bytes[k]);
        k = k + 1;
        assert(out@ =~= base + bytes@.subrange(start as int, k as int));
    }
}

} // verus!
