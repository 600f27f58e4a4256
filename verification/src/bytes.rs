//! Big-endian byte encodings of the fixed-width integers that are fed to the
//! digest function: 64-bit values are always hashed in network byte order.

use vstd::prelude::*;

verus! {

/// The eight big-endian bytes of a 64-bit unsigned value, most significant
/// byte first.
pub open spec fn spec_u64_be(x: u64) -> Seq<u8> {
    seq![
        (x / 0x100000000000000u64 % 256) as u8,
        (x / 0x1000000000000u64 % 256) as u8,
        (x / 0x10000000000u64 % 256) as u8,
        (x / 0x100000000u64 % 256) as u8,
        (x / 0x1000000u64 % 256) as u8,
        (x / 0x10000u64 % 256) as u8,
        (x / 0x100u64 % 256) as u8,
        (x % 256) as u8,
    ]
}

/// The two's-complement reinterpretation of a signed 64-bit value as an
/// unsigned one.
pub open spec fn spec_i64_twos_complement(x: i64) -> u64 {
    if x >= 0 {
        x as u64
    } else {
        (x + 0x10000000000000000) as u64
    }
}

/// The eight big-endian bytes of a signed 64-bit value, encoded by its
/// two's-complement bit pattern.
pub open spec fn spec_i64_be(x: i64) -> Seq<u8> {
    spec_u64_be(spec_i64_twos_complement(x))
}

pub fn u64_be_bytes(x: u64) -> (r: Vec<u8>)
    ensures
        r@ == spec_u64_be(x),
{
    let mut r: Vec<u8> = Vec::new();
    r.push((x / 0x100000000000000u64 % 256) as u8);
    r.push((x / 0x1000000000000u64 % 256) as u8);
    r.push((x / 0x10000000000u64 % 256) as u8);
    r.push((x / 0x100000000u64 % 256) as u8);
    r.push((x / 0x1000000u64 % 256) as u8);
    r.push((x / 0x10000u64 % 256) as u8);
    r.push((x / 0x100u64 % 256) as u8);
    r.push((x % 256) as u8);
    proof {
        assert(r@ =~= spec_u64_be(x));
    }
    r
}

pub fn i64_twos_complement(x: i64) -> (r: u64)
    ensures
        r == spec_i64_twos_complement(x),
{
    if x >= 0 {
        x as u64
    } else {
        let wide: i128 = x as i128 + 0x10000000000000000i128;
        wide as u64
    }
}

pub fn i64_be_bytes(x: i64) -> (r: Vec<u8>)
    ensures
        r@ == spec_i64_be(x),
{
    u64_be_bytes(i64_twos_complement(x))
}

/// Whether two byte vectors hold the same bytes.
pub fn bytes_eq(a: &Vec<u8>, b: &Vec<u8>) -> (r: bool)
    ensures
        r == (a@ == b@),
{
    let n = a.len();
    if n != b.len() {
        return false;
    }
    for i in 0..n
        invariant
            n == a@.len() == b@.len(),
            forall|j: int| 0 <= j < i ==> a@[j] == b@[j],
    {
        if a[i] != b[i] {
            return false;
        }
    }
    proof {
        assert(a@ =~= b@);
    }
    true
}

/// A copy of a byte vector.
pub fn clone_bytes(v: &Vec<u8>) -> (r: Vec<u8>)
    ensures
        r@ == v@,
{
    let n = v.len();
    let mut r: Vec<u8> = Vec::new();
    for i in 0..n
        invariant
            n == v@.len(),
            r@ == v@.take(i as int),
    {
        r.push(v[i]);
        proof {
            assert(v@.take(i as int).push(v@[i as int]) =~= v@.take(i + 1));
        }
    }
    proof {
        assert(v@.take(n as int) =~= v@);
    }
    r
}

/// Appends every byte of `src` to `dst`.
pub fn append_bytes(dst: &mut Vec<u8>, src: &Vec<u8>)
    ensures
        final(dst)@ == old(dst)@ + src@,
{
    let n = src.len();
    for i in 0..n
        invariant
            n == src@.len(),
            dst@ == old(dst)@ + src@.take(i as int),
    {
        dst.push(src[i]);
        proof {
            assert(old(dst)@ + src@.take(i as int) + seq![src@[i as int]] =~= old(dst)@
                + src@.take(i + 1));
        }
    }
    proof {
        assert(old(dst)@ + src@.take(n as int) =~= old(dst)@ + src@);
    }
}

/// The 64-bit unsigned value read from eight big-endian bytes.
pub open spec fn spec_u64_from_be(s: Seq<u8>) -> u64
    recommends
        s.len() == 8,
{
    (s[0] * 0x100000000000000 + s[1] * 0x1000000000000 + s[2] * 0x10000000000 + s[3] * 0x100000000
        + s[4] * 0x1000000 + s[5] * 0x10000 + s[6] * 0x100 + s[7]) as u64
}

pub fn u64_from_be(s: &Vec<u8>) -> (r: u64)
    requires
        s@.len() == 8,
    ensures
        r == spec_u64_from_be(s@),
{
    (s[0] as u64) * 0x100000000000000u64 + (s[1] as u64) * 0x1000000000000u64 + (s[2] as u64)
        * 0x10000000000u64 + (s[3] as u64) * 0x100000000u64 + (s[4] as u64) * 0x1000000u64 + (
    s[5] as u64) * 0x10000u64 + (s[6] as u64) * 0x100u64 + (s[7] as u64)
}

} // verus!
