//! The 8-byte big-endian length header that starts every slot.
use vstd::prelude::*;

verus! {

/// The unsigned integer that eight bytes spell in big-endian order.
pub open spec fn be_u64(h: Seq<u8>) -> u64
    recommends
        h.len() >= 8,
{
    ((h[0] as u64) << 56u64) | ((h[1] as u64) << 48u64) | ((h[2] as u64) << 40u64) | ((
    h[3] as u64) << 32u64) | ((h[4] as u64) << 24u64) | ((h[5] as u64) << 16u64) | ((h[6] as u64)
        << 8u64) | (h[7] as u64)
}

/// The eight bytes of `n` in big-endian order.
pub open spec fn be_bytes(n: u64) -> Seq<u8> {
    seq![
        (n >> 56u64) as u8,
        (n >> 48u64) as u8,
        (n >> 40u64) as u8,
        (n >> 32u64) as u8,
        (n >> 24u64) as u8,
        (n >> 16u64) as u8,
        (n >> 8u64) as u8,
        n as u8,
    ]
}

/// Reading back the bytes of a number gives the number.
pub proof fn lemma_be_round_trip(n: u64)
    ensures
        be_bytes(n).len() == 8,
        be_u64(be_bytes(n)) == n,
{
    let b = be_bytes(n);
    assert(((((n >> 56u64) as u8) as u64) << 56u64) | ((((n >> 48u64) as u8) as u64) << 48u64)
        | ((((n >> 40u64) as u8) as u64) << 40u64) | ((((n >> 32u64) as u8) as u64) << 32u64) | ((((
    n >> 24u64) as u8) as u64) << 24u64) | ((((n >> 16u64) as u8) as u64) << 16u64) | ((((n
        >> 8u64) as u8) as u64) << 8u64) | ((n as u8) as u64) == n) by (bit_vector);
}

/// Writes the big-endian bytes of `n` at the end of `out`.
pub fn push_be_u64(out: &mut Vec<u8>, n: u64)
    ensures
        final(out)@ == old(out)@ + be_bytes(n),
{
    out.push((n >> 56u64) as u8);
    out.push((n >> 48u64) as u8);
    out.push((n >> 40u64) as u8);
    out.push((n >> 32u64) as u8);
    out.push((n >> 24u64) as u8);
    out.push((n >> 16u64) as u8);
    out.push((n >> 8u64) as u8);
    out.push(n as u8);
    assert(final(out)@ =~= old(out)@ + be_bytes(n));
}

/// Reads the big-endian number in `data[at..at + 8]`.
pub fn read_be_u64(data: &[u8], at: usize) -> (r: u64)
    requires
        at + 8 <= data@.len(),
    ensures
        r == be_u64(data@.subrange(at as int, at + 8)),
{
    let ghost h = data@.subrange(at as int, at + 8);
    ((data[at] as u64) << 56u64) | ((data[at + 1] as u64) << 48u64) | ((data[at + 2] as u64)
        << 40u64) | ((data[at + 3] as u64) << 32u64) | ((data[at + 4] as u64) << 24u64) | ((data[at
        + 5] as u64) << 16u64) | ((data[at + 6] as u64) << 8u64) | (data[at + 7] as u64)
}

/// Eight zero bytes spell zero.
pub proof fn lemma_be_zeros(h: Seq<u8>)
    requires
        h.len() >= 8,
        forall|i: int| 0 <= i < 8 ==> h[i] == 0,
    ensures
        be_u64(h) == 0,
{
    let (a, b, c, d, e, f, g, k) = (h[0], h[1], h[2], h[3], h[4], h[5], h[6], h[7]);
    assert(a == 0 && b == 0 && c == 0 && d == 0 && e == 0 && f == 0 && g == 0 && k == 0);
    assert(((a as u64) << 56u64) | ((b as u64) << 48u64) | ((c as u64) << 40u64) | ((d as u64)
        << 32u64) | ((e as u64) << 24u64) | ((f as u64) << 16u64) | ((g as u64) << 8u64) | (k as u64)
        == 0) by (bit_vector)
        requires
            a == 0 && b == 0 && c == 0 && d == 0 && e == 0 && f == 0 && g == 0 && k == 0,
    ;
}

} // verus!
