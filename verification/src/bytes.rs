//! Little-endian byte encodings of integers, as `to_le_bytes` lays them out.

use vstd::prelude::*;

verus! {

/// The eight little-endian bytes of `x`.
pub open spec fn u64_le(x: u64) -> Seq<u8> {
    Seq::new(8, |i: int| ((x >> ((8 * i) as u64)) & 0xffu64) as u8)
}

/// The little-endian bytes of `x` as `usize::to_le_bytes` gives them: as
/// many bytes as a `usize` has on the target, the low ones of `u64_le`.
pub open spec fn usize_le(x: usize) -> Seq<u8> {
    u64_le(x as u64).subrange(0, (usize::BITS / 8) as int)
}

/// The eight little-endian bytes of the two's-complement form of `x`.
pub open spec fn i64_le(x: i64) -> Seq<u8> {
    u64_le(x as u64)
}

/// The concatenated little-endian bytes of every coefficient.
pub open spec fn coeffs_le(s: Seq<i64>) -> Seq<u8>
    decreases s.len(),
{
    if s.len() == 0 {
        Seq::empty()
    } else {
        coeffs_le(s.drop_last()) + i64_le(s.last())
    }
}

/// The concatenated little-endian bytes of every coefficient of every row.
pub open spec fn rows_le(rows: Seq<Seq<i64>>) -> Seq<u8>
    decreases rows.len(),
{
    if rows.len() == 0 {
        Seq::empty()
    } else {
        rows_le(rows.drop_last()) + coeffs_le(rows.last())
    }
}

/// Appends the eight little-endian bytes of `x`.
pub fn push_u64_le(out: &mut Vec<u8>, x: u64)
    ensures
        final(out)@ == old(out)@ + u64_le(x),
{
    let ghost start = out@;
    let mut i: u64 = 0;
    while i < 8
        invariant
            i <= 8,
            out@.len() == start.len() + i,
            out@.subrange(0, start.len() as int) == start,
            forall|j: int|
                0 <= j < i ==> #[trigger] out@[start.len() + j] == ((x >> ((8 * j) as u64))
                    & 0xffu64) as u8,
        decreases 8 - i,
    {
        out.push(((x >> (8 * i)) & 0xff) as u8);
        i = i + 1;
    }
    assert forall|m: int| 0 <= m < out@.len() implies #[trigger] out@[m] == (start + u64_le(x))[m] by {
        if m < start.len() {
            assert(out@.subrange(0, start.len() as int)[m] == start[m]);
        } else {
            let j = m - start.len();
            assert(out@[start.len() + j] == ((x >> ((8 * j) as u64)) & 0xffu64) as u8);
        }
    }
    assert(out@ =~= start + u64_le(x));
}

/// Appends the little-endian bytes of `x`, one per byte of a `usize`.
pub fn push_usize_le(out: &mut Vec<u8>, x: usize)
    ensures
        final(out)@ == old(out)@ + usize_le(x),
{
    let mut tmp: Vec<u8> = Vec::new();
    push_u64_le(&mut tmp, x as u64);
    assert(tmp@ =~= u64_le(x as u64));
    let width: usize = (usize::BITS / 8) as usize;
    assert(width == 4 || width == 8);
    let ghost start = out@;
    let mut i: usize = 0;
    while i < width
        invariant
            width == usize::BITS / 8,
            width <= 8,
            tmp@ == u64_le(x as u64),
            i <= width,
            out@ == start + tmp@.subrange(0, i as int),
        decreases width - i,
    {
        out.push(tmp[i]);
        assert(tmp@.subrange(0, i + 1) =~= tmp@.subrange(0, i as int).push(tmp@[i as int]));
        i = i + 1;
    }
}

/// Appends the eight little-endian bytes of `x`.
pub fn push_i64_le(out: &mut Vec<u8>, x: i64)
    ensures
        final(out)@ == old(out)@ + i64_le(x),
{
    push_u64_le(out, x as u64);
}

/// Appends the little-endian bytes of every coefficient, in order.
pub fn push_coeffs_le(out: &mut Vec<u8>, s: &Vec<i64>)
    ensures
        final(out)@ == old(out)@ + coeffs_le(s@),
{
    let ghost start = out@;
    let mut i: usize = 0;
    while i < s.len()
        invariant
            i <= s.len(),
            out@ == start + coeffs_le(s@.subrange(0, i as int)),
        decreases s.len() - i,
    {
        push_i64_le(out, s[i]);
        proof {
            let t = s@.subrange(0, i + 1);
            assert(t.drop_last() =~= s@.subrange(0, i as int));
            assert(t.last() == s@[i as int]);
        }
        i = i + 1;
    }
    assert(s@.subrange(0, s.len() as int) =~= s@);
}

} // verus!
