//! Big-endian integer serialization helpers shared by every codec module.
use vstd::prelude::*;

verus! {

/// Big-endian bytes of a 32-bit unsigned integer.
pub open spec fn be32(x: u32) -> Seq<u8> {
    seq![
        (x / 0x100_0000) as u8,
        ((x / 0x1_0000) % 0x100) as u8,
        ((x / 0x100) % 0x100) as u8,
        (x % 0x100) as u8,
    ]
}

/// Big-endian bytes of a 64-bit unsigned integer.
pub open spec fn be64(x: u64) -> Seq<u8> {
    seq![
        (x / 0x100_0000_0000_0000) as u8,
        ((x / 0x1_0000_0000_0000) % 0x100) as u8,
        ((x / 0x100_0000_0000) % 0x100) as u8,
        ((x / 0x1_0000_0000) % 0x100) as u8,
        ((x / 0x100_0000) % 0x100) as u8,
        ((x / 0x1_0000) % 0x100) as u8,
        ((x / 0x100) % 0x100) as u8,
        (x % 0x100) as u8,
    ]
}

/// The 32-bit value formed from four big-endian bytes.
pub open spec fn be32_val(b0: u8, b1: u8, b2: u8, b3: u8) -> u32 {
    (b0 * 0x100_0000 + b1 * 0x1_0000 + b2 * 0x100 + b3) as u32
}

/// The 64-bit value formed from eight big-endian bytes.
pub open spec fn be64_val(b0: u8, b1: u8, b2: u8, b3: u8, b4: u8, b5: u8, b6: u8, b7: u8) -> u64 {
    (b0 * 0x100_0000_0000_0000 + b1 * 0x1_0000_0000_0000 + b2 * 0x100_0000_0000
        + b3 * 0x1_0000_0000 + b4 * 0x100_0000 + b5 * 0x1_0000 + b6 * 0x100 + b7) as u64
}

/// The unsigned 32-bit two's-complement image of a signed 32-bit integer.
pub open spec fn u32_of_i32(x: i32) -> u32 {
    if x >= 0 {
        x as u32
    } else {
        (x + 0x1_0000_0000) as u32
    }
}

/// The signed 32-bit integer whose two's-complement image is the given value.
pub open spec fn i32_of_u32(w: u32) -> i32 {
    if w < 0x8000_0000 {
        w as i32
    } else {
        (w - 0x1_0000_0000) as i32
    }
}

/// The unsigned 64-bit two's-complement image of a signed 64-bit integer.
pub open spec fn u64_of_i64(x: i64) -> u64 {
    if x >= 0 {
        x as u64
    } else {
        (x + 0x1_0000_0000_0000_0000) as u64
    }
}

/// The signed 64-bit integer whose two's-complement image is the given value.
pub open spec fn i64_of_u64(w: u64) -> i64 {
    if w < 0x8000_0000_0000_0000 {
        w as i64
    } else {
        (w - 0x1_0000_0000_0000_0000) as i64
    }
}

pub proof fn lemma_be32_val_of_be32(x: u32)
    ensures
        be32_val(be32(x)[0], be32(x)[1], be32(x)[2], be32(x)[3]) == x,
{
    assert((((x / 0x100_0000) as u8) * 0x100_0000 + (((x / 0x1_0000) % 0x100) as u8) * 0x1_0000
        + (((x / 0x100) % 0x100) as u8) * 0x100 + ((x % 0x100) as u8)) as u32 == x) by (bit_vector);
}

pub proof fn lemma_be32_of_be32_val(b0: u8, b1: u8, b2: u8, b3: u8)
    ensures
        be32(be32_val(b0, b1, b2, b3)) =~= seq![b0, b1, b2, b3],
{
    let x = be32_val(b0, b1, b2, b3);
    assert((x / 0x100_0000) as u8 == b0 && ((x / 0x1_0000) % 0x100) as u8 == b1 && ((x / 0x100)
        % 0x100) as u8 == b2 && (x % 0x100) as u8 == b3) by (bit_vector)
        requires
            x == (b0 * 0x100_0000 + b1 * 0x1_0000 + b2 * 0x100 + b3) as u32,
    ;
}

pub proof fn lemma_be64_val_of_be64(x: u64)
    ensures
        be64_val(
            be64(x)[0],
            be64(x)[1],
            be64(x)[2],
            be64(x)[3],
            be64(x)[4],
            be64(x)[5],
            be64(x)[6],
            be64(x)[7],
        ) == x,
{
    assert((((x / 0x100_0000_0000_0000) as u8) * 0x100_0000_0000_0000 + (((x / 0x1_0000_0000_0000)
        % 0x100) as u8) * 0x1_0000_0000_0000 + (((x / 0x100_0000_0000) % 0x100) as u8)
        * 0x100_0000_0000 + (((x / 0x1_0000_0000) % 0x100) as u8) * 0x1_0000_0000 + (((x
        / 0x100_0000) % 0x100) as u8) * 0x100_0000 + (((x / 0x1_0000) % 0x100) as u8) * 0x1_0000
        + (((x / 0x100) % 0x100) as u8) * 0x100 + ((x % 0x100) as u8)) as u64 == x)
        by (bit_vector);
}

pub proof fn lemma_be64_of_be64_val(b0: u8, b1: u8, b2: u8, b3: u8, b4: u8, b5: u8, b6: u8, b7: u8)
    ensures
        be64(be64_val(b0, b1, b2, b3, b4, b5, b6, b7)) =~= seq![b0, b1, b2, b3, b4, b5, b6, b7],
{
    let x = be64_val(b0, b1, b2, b3, b4, b5, b6, b7);
    assert((x / 0x100_0000_0000_0000) as u8 == b0 && ((x / 0x1_0000_0000_0000) % 0x100) as u8 == b1
        && ((x / 0x100_0000_0000) % 0x100) as u8 == b2 && ((x / 0x1_0000_0000) % 0x100) as u8 == b3
        && ((x / 0x100_0000) % 0x100) as u8 == b4 && ((x / 0x1_0000) % 0x100) as u8 == b5 && ((x
        / 0x100) % 0x100) as u8 == b6 && (x % 0x100) as u8 == b7) by (bit_vector)
        requires
            x == (b0 * 0x100_0000_0000_0000 + b1 * 0x1_0000_0000_0000 + b2 * 0x100_0000_0000 + b3
                * 0x1_0000_0000 + b4 * 0x100_0000 + b5 * 0x1_0000 + b6 * 0x100 + b7) as u64,
    ;
}

/// Appends the big-endian bytes of `x` to `out`.
pub fn push_be32(out: &mut Vec<u8>, x: u32)
    ensures
        final(out)@ == old(out)@ + be32(x),
{
    out.push((x / 0x100_0000) as u8);
    out.push(((x / 0x1_0000) % 0x100) as u8);
    out.push(((x / 0x100) % 0x100) as u8);
    out.push((x % 0x100) as u8);
    assert(final(out)@ =~= old(out)@ + be32(x));
}

/// Appends the big-endian bytes of `x` to `out`.
pub fn push_be64(out: &mut Vec<u8>, x: u64)
    ensures
        final(out)@ == old(out)@ + be64(x),
{
    out.push((x / 0x100_0000_0000_0000) as u8);
    out.push(((x / 0x1_0000_0000_0000) % 0x100) as u8);
    out.push(((x / 0x100_0000_0000) % 0x100) as u8);
    out.push(((x / 0x1_0000_0000) % 0x100) as u8);
    out.push(((x / 0x100_0000) % 0x100) as u8);
    out.push(((x / 0x1_0000) % 0x100) as u8);
    out.push(((x / 0x100) % 0x100) as u8);
    out.push((x % 0x100) as u8);
    assert(final(out)@ =~= old(out)@ + be64(x));
}

/// The unsigned image of a signed 32-bit integer, as executable code.
pub fn u32_rep(x: i32) -> (r: u32)
    ensures
        r == u32_of_i32(x),
{
    if x >= 0 {
        x as u32
    } else {
        ((x as i64) + 0x1_0000_0000) as u32
    }
}

/// The signed integer recovered from its unsigned 32-bit image.
pub fn i32_rep(w: u32) -> (r: i32)
    ensures
        r == i32_of_u32(w),
{
    if w < 0x8000_0000 {
        w as i32
    } else {
        ((w as i64) - 0x1_0000_0000) as i32
    }
}

/// The unsigned image of a signed 64-bit integer, as executable code.
pub fn u64_rep(x: i64) -> (r: u64)
    ensures
        r == u64_of_i64(x),
{
    if x >= 0 {
        x as u64
    } else {
        ((x as i128) + 0x1_0000_0000_0000_0000) as u64
    }
}

/// The signed integer recovered from its unsigned 64-bit image.
pub fn i64_rep(w: u64) -> (r: i64)
    ensures
        r == i64_of_u64(w),
{
    if w < 0x8000_0000_0000_0000 {
        w as i64
    } else {
        ((w as i128) - 0x1_0000_0000_0000_0000) as i64
    }
}

/// Appends a whole byte slice to `out`.
pub fn push_slice(out: &mut Vec<u8>, s: &[u8])
    ensures
        final(out)@ == old(out)@ + s@,
{
    let n = s.len();
    let mut i: usize = 0;
    while i < n
        invariant
            i <= n,
            n == s@.len(),
            out@ == old(out)@ + s@.take(i as int),
        decreases n - i,
    {
        out.push(s[i]);
        i = i + 1;
        assert(s@.take(i as int) =~= s@.take(i - 1) + seq![s@[i - 1]]);
    }
    assert(s@.take(n as int) =~= s@);
}

/// Reads the big-endian 32-bit value at `pos`.
pub fn read_be32(s: &[u8], pos: usize) -> (r: u32)
    requires
        pos + 4 <= s@.len(),
    ensures
        r == be32_val(s@[pos as int], s@[pos + 1], s@[pos + 2], s@[pos + 3]),
{
    (s[pos] as u32) * 0x100_0000 + (s[pos + 1] as u32) * 0x1_0000 + (s[pos + 2] as u32) * 0x100 + (
    s[pos + 3] as u32)
}

/// Reads the big-endian 64-bit value at `pos`.
pub fn read_be64(s: &[u8], pos: usize) -> (r: u64)
    requires
        pos + 8 <= s@.len(),
    ensures
        r == be64_val(
            s@[pos as int],
            s@[pos + 1],
            s@[pos + 2],
            s@[pos + 3],
            s@[pos + 4],
            s@[pos + 5],
            s@[pos + 6],
            s@[pos + 7],
        ),
{
    (s[pos] as u64) * 0x100_0000_0000_0000 + (s[pos + 1] as u64) * 0x1_0000_0000_0000 + (s[pos
        + 2] as u64) * 0x100_0000_0000 + (s[pos + 3] as u64) * 0x1_0000_0000 + (s[pos + 4] as u64)
        * 0x100_0000 + (s[pos + 5] as u64) * 0x1_0000 + (s[pos + 6] as u64) * 0x100 + (s[pos
        + 7] as u64)
}

/// A sequence of `n` zero bytes.
pub open spec fn zeros(n: int) -> Seq<u8> {
    Seq::new(n as nat, |i| 0u8)
}

/// Appends `n` zero bytes to `out`.
pub fn push_zeros(out: &mut Vec<u8>, n: usize)
    ensures
        final(out)@ == old(out)@ + zeros(n as int),
{
    let mut i: usize = 0;
    while i < n
        invariant
            i <= n,
            out@ == old(out)@ + zeros(i as int),
        decreases n - i,
    {
        out.push(0);
        i = i + 1;
        assert(zeros(i as int) =~= zeros(i - 1) + seq![0u8]);
    }
}

pub proof fn lemma_signed32_round_trip(x: i32)
    ensures
        i32_of_u32(u32_of_i32(x)) == x,
{
}

pub proof fn lemma_unsigned32_round_trip(w: u32)
    ensures
        u32_of_i32(i32_of_u32(w)) == w,
{
}

pub proof fn lemma_unsigned64_round_trip(w: u64)
    ensures
        u64_of_i64(i64_of_u64(w)) == w,
{
}

pub proof fn lemma_signed64_round_trip(x: i64)
    ensures
        i64_of_u64(u64_of_i64(x)) == x,
{
}


/// Whether two byte strings hold the same bytes.
pub fn bytes_eq(a: &[u8], b: &[u8]) -> (r: bool)
    ensures
        r == (a@ == b@),
{
    if a.len() != b.len() {
        proof {
            assert(a@.len() != b@.len());
        }
        return false;
    }
    let n = a.len();
    let mut i: usize = 0;
    while i < n
        invariant
            i <= n,
            n == a@.len(),
            n == b@.len(),
            forall|j: int| 0 <= j < i ==> a@[j] == b@[j],
        decreases n - i,
    {
        if a[i] != b[i] {
            return false;
        }
        i = i + 1;
    }
    proof {
        assert(a@ =~= b@);
    }
    true
}

} // verus!