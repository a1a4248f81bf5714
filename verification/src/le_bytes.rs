//! Little-endian integer fields inside a byte buffer.
use crate::error::CactError;
use vstd::prelude::*;

verus! {

/// The unsigned value of the `n` little-endian bytes of `b` starting at `o`.
pub open spec fn le_value(b: Seq<u8>, o: int, n: nat) -> nat
    decreases n,
{
    if n == 0 {
        0
    } else {
        (b[o] as nat) + 256 * le_value(b, o + 1, (n - 1) as nat)
    }
}

/// Whether the range `o .. o + n` lies inside a buffer of length `len`.
pub open spec fn fits(len: int, o: int, n: int) -> bool {
    0 <= o && o + n <= len
}

pub fn u16_at(b: &[u8], o: usize) -> (r: Result<u16, CactError>)
    requires
        o + 2 <= usize::MAX,
    ensures
        fits(b@.len() as int, o as int, 2) ==> r == Ok::<u16, CactError>(
            le_value(b@, o as int, 2) as u16,
        ),
        fits(b@.len() as int, o as int, 2) ==> le_value(b@, o as int, 2) < 0x1_0000,
        !fits(b@.len() as int, o as int, 2) ==> r == Err::<u16, CactError>(CactError::TooShort),
{
    if o + 2 > b.len() {
        return Err(CactError::TooShort);
    }
    let v0 = b[o] as u16;
    let v1 = b[o + 1] as u16;
    proof {
        reveal_with_fuel(le_value, 3);
    }
    Ok(v0 + 256 * v1)
}

pub fn u32_at(b: &[u8], o: usize) -> (r: Result<u32, CactError>)
    requires
        o + 4 <= usize::MAX,
    ensures
        fits(b@.len() as int, o as int, 4) ==> r == Ok::<u32, CactError>(
            le_value(b@, o as int, 4) as u32,
        ),
        fits(b@.len() as int, o as int, 4) ==> le_value(b@, o as int, 4) < 0x1_0000_0000,
        !fits(b@.len() as int, o as int, 4) ==> r == Err::<u32, CactError>(CactError::TooShort),
{
    if o + 4 > b.len() {
        return Err(CactError::TooShort);
    }
    let v0 = b[o] as u32;
    let v1 = b[o + 1] as u32;
    let v2 = b[o + 2] as u32;
    let v3 = b[o + 3] as u32;
    proof {
        reveal_with_fuel(le_value, 5);
    }
    Ok(v0 + 256 * (v1 + 256 * (v2 + 256 * v3)))
}

pub fn u64_at(b: &[u8], o: usize) -> (r: Result<u64, CactError>)
    requires
        o + 8 <= usize::MAX,
    ensures
        fits(b@.len() as int, o as int, 8) ==> r == Ok::<u64, CactError>(
            le_value(b@, o as int, 8) as u64,
        ),
        fits(b@.len() as int, o as int, 8) ==> le_value(b@, o as int, 8) < 0x1_0000_0000_0000_0000,
        !fits(b@.len() as int, o as int, 8) ==> r == Err::<u64, CactError>(CactError::TooShort),
{
    if o + 8 > b.len() {
        return Err(CactError::TooShort);
    }
    let v0 = b[o] as u64;
    let v1 = b[o + 1] as u64;
    let v2 = b[o + 2] as u64;
    let v3 = b[o + 3] as u64;
    let v4 = b[o + 4] as u64;
    let v5 = b[o + 5] as u64;
    let v6 = b[o + 6] as u64;
    let v7 = b[o + 7] as u64;
    proof {
        reveal_with_fuel(le_value, 9);
    }
    Ok(v0 + 256 * (v1 + 256 * (v2 + 256 * (v3 + 256 * (v4 + 256 * (v5 + 256 * (v6 + 256
        * v7)))))))
}

/// The smallest multiple of 64 that is at least `x`.
pub open spec fn spec_align64(x: int) -> int {
    ((x + 63) / 64) * 64
}

pub fn align64(x: usize) -> (r: usize)
    requires
        x + 63 <= usize::MAX,
    ensures
        r == spec_align64(x as int),
        r >= x,
        r % 64 == 0,
        r < x + 64,
{
    let y = x + 63;
    let r = y & !63usize;
    assert(y & !63usize == (y / 64) * 64) by (bit_vector);
    r
}

} // verus!
