use vstd::prelude::*;

verus! {

/// A `u32` as four little-endian bytes.
pub open spec fn enc_u32(x: u32) -> Seq<u8> {
    seq![
        (x & 0xff) as u8,
        ((x >> 8) & 0xff) as u8,
        ((x >> 16) & 0xff) as u8,
        ((x >> 24) & 0xff) as u8,
    ]
}

/// A `u64` as eight little-endian bytes.
pub open spec fn enc_u64(x: u64) -> Seq<u8> {
    seq![
        (x & 0xff) as u8,
        ((x >> 8) & 0xff) as u8,
        ((x >> 16) & 0xff) as u8,
        ((x >> 24) & 0xff) as u8,
        ((x >> 32) & 0xff) as u8,
        ((x >> 40) & 0xff) as u8,
        ((x >> 48) & 0xff) as u8,
        ((x >> 56) & 0xff) as u8,
    ]
}

/// An `i32` as four little-endian bytes of its two's complement.
pub open spec fn enc_i32(x: i32) -> Seq<u8> {
    enc_u32(x as u32)
}

/// The `u32` four little-endian bytes decode to.
pub open spec fn dec_u32(b0: u8, b1: u8, b2: u8, b3: u8) -> u32 {
    (b0 as u32) | ((b1 as u32) << 8) | ((b2 as u32) << 16) | ((b3 as u32) << 24)
}

/// The `u64` eight little-endian bytes decode to.
pub open spec fn dec_u64(b0: u8, b1: u8, b2: u8, b3: u8, b4: u8, b5: u8, b6: u8, b7: u8) -> u64 {
    (b0 as u64) | ((b1 as u64) << 8) | ((b2 as u64) << 16) | ((b3 as u64) << 24) | ((b4 as u64)
        << 32) | ((b5 as u64) << 40) | ((b6 as u64) << 48) | ((b7 as u64) << 56)
}

/// Decoding the four bytes of an encoded `u32` gives it back.
pub proof fn lemma_u32_round(x: u32)
    ensures
        dec_u32(
            (x & 0xff) as u8,
            ((x >> 8) & 0xff) as u8,
            ((x >> 16) & 0xff) as u8,
            ((x >> 24) & 0xff) as u8,
        ) == x,
{
    assert(((x & 0xff) as u8 as u32) | (((x >> 8) & 0xff) as u8 as u32) << 8 | (((x >> 16)
        & 0xff) as u8 as u32) << 16 | (((x >> 24) & 0xff) as u8 as u32) << 24 == x)
        by (bit_vector);
}

/// Decoding the eight bytes of an encoded `u64` gives it back.
pub proof fn lemma_u64_round(x: u64)
    ensures
        dec_u64(
            (x & 0xff) as u8,
            ((x >> 8) & 0xff) as u8,
            ((x >> 16) & 0xff) as u8,
            ((x >> 24) & 0xff) as u8,
            ((x >> 32) & 0xff) as u8,
            ((x >> 40) & 0xff) as u8,
            ((x >> 48) & 0xff) as u8,
            ((x >> 56) & 0xff) as u8,
        ) == x,
{
    assert(((x & 0xff) as u8 as u64) | (((x >> 8) & 0xff) as u8 as u64) << 8 | (((x >> 16)
        & 0xff) as u8 as u64) << 16 | (((x >> 24) & 0xff) as u8 as u64) << 24 | (((x >> 32)
        & 0xff) as u8 as u64) << 32 | (((x >> 40) & 0xff) as u8 as u64) << 40 | (((x >> 48)
        & 0xff) as u8 as u64) << 48 | (((x >> 56) & 0xff) as u8 as u64) << 56 == x)
        by (bit_vector);
}

/// Casting an `i32` through `u32` and back is the identity.
pub proof fn lemma_i32_cast_round(x: i32)
    ensures
        (x as u32) as i32 == x,
{
    assert((x as u32) as i32 == x) by (bit_vector);
}

/// Casting an `i8` through `u8` and back is the identity.
pub proof fn lemma_i8_cast_round(x: i8)
    ensures
        (x as u8) as i8 == x,
{
    assert((x as u8) as i8 == x) by (bit_vector);
}

/// Appends the four little-endian bytes of a `u32`.
pub fn push_u32(out: &mut Vec<u8>, x: u32)
    ensures
        final(out)@ == old(out)@ + enc_u32(x),
{
    out.push((x & 0xff) as u8);
    out.push(((x >> 8) & 0xff) as u8);
    out.push(((x >> 16) & 0xff) as u8);
    out.push(((x >> 24) & 0xff) as u8);
    proof {
        assert(final(out)@ =~= old(out)@ + enc_u32(x));
    }
}

/// Appends the eight little-endian bytes of a `u64`.
pub fn push_u64(out: &mut Vec<u8>, x: u64)
    ensures
        final(out)@ == old(out)@ + enc_u64(x),
{
    out.push((x & 0xff) as u8);
    out.push(((x >> 8) & 0xff) as u8);
    out.push(((x >> 16) & 0xff) as u8);
    out.push(((x >> 24) & 0xff) as u8);
    out.push(((x >> 32) & 0xff) as u8);
    out.push(((x >> 40) & 0xff) as u8);
    out.push(((x >> 48) & 0xff) as u8);
    out.push(((x >> 56) & 0xff) as u8);
    proof {
        assert(final(out)@ =~= old(out)@ + enc_u64(x));
    }
}

/// Appends the four little-endian bytes of an `i32`.
pub fn push_i32(out: &mut Vec<u8>, x: i32)
    ensures
        final(out)@ == old(out)@ + enc_i32(x),
{
    push_u32(out, x as u32);
}

/// Appends a whole byte string.
pub fn push_bytes(out: &mut Vec<u8>, bytes: &Vec<u8>)
    ensures
        final(out)@ == old(out)@ + bytes@,
{
    let n = bytes.len();
    let mut i: usize = 0;
    while i < n
        invariant
            n == bytes@.len(),
            0 <= i <= n,
            out@ =~= old(out)@ + bytes@.subrange(0, i as int),
        decreases n - i,
    {
        out.push(bytes[i]);
        i += 1;
    }
    proof {
        assert(out@ =~= old(out)@ + bytes@);
    }
}

/// Copies the bytes of a range into a fresh vector.
pub fn copy_range(bytes: &Vec<u8>, pos: usize, len: usize) -> (r: Vec<u8>)
    requires
        pos + len <= bytes@.len(),
        bytes@.len() <= usize::MAX as int,
    ensures
        r@ == bytes@.subrange(pos as int, pos as int + len as int),
{
    let mut r: Vec<u8> = Vec::new();
    let mut i: usize = 0;
    while i < len
        invariant
            pos + len <= bytes@.len(),
            bytes@.len() <= usize::MAX as int,
            0 <= i <= len,
            r@ =~= bytes@.subrange(pos as int, pos as int + i as int),
        decreases len - i,
    {
        r.push(bytes[pos + i]);
        proof {
            assert(r@ =~= bytes@.subrange(pos as int, pos as int + i as int + 1));
        }
        i += 1;
    }
    r
}

/// Reads the `u32` at a position.
pub fn read_u32(bytes: &Vec<u8>, pos: usize) -> (r: u32)
    requires
        pos + 4 <= bytes@.len(),
        bytes@.len() <= usize::MAX as int,
    ensures
        r == dec_u32(
            bytes@[pos as int],
            bytes@[pos as int + 1],
            bytes@[pos as int + 2],
            bytes@[pos as int + 3],
        ),
        forall|x: u32|
            bytes@.subrange(pos as int, pos as int + 4) == enc_u32(x) ==> r == x,
{
    let r = (bytes[pos] as u32) | ((bytes[pos + 1] as u32) << 8) | ((bytes[pos + 2] as u32) << 16)
        | ((bytes[pos + 3] as u32) << 24);
    proof {
        assert forall|x: u32|
            bytes@.subrange(pos as int, pos as int + 4) == enc_u32(x) implies r == x by {
            assert(bytes@[pos as int] == enc_u32(x)[0]);
            assert(bytes@[pos as int + 1] == enc_u32(x)[1]);
            assert(bytes@[pos as int + 2] == enc_u32(x)[2]);
            assert(bytes@[pos as int + 3] == enc_u32(x)[3]);
            lemma_u32_round(x);
        }
    }
    r
}

/// Reads the `u64` at a position.
pub fn read_u64(bytes: &Vec<u8>, pos: usize) -> (r: u64)
    requires
        pos + 8 <= bytes@.len(),
        bytes@.len() <= usize::MAX as int,
    ensures
        forall|x: u64|
            bytes@.subrange(pos as int, pos as int + 8) == enc_u64(x) ==> r == x,
{
    let r = (bytes[pos] as u64) | ((bytes[pos + 1] as u64) << 8) | ((bytes[pos + 2] as u64) << 16)
        | ((bytes[pos + 3] as u64) << 24) | ((bytes[pos + 4] as u64) << 32) | ((bytes[pos
        + 5] as u64) << 40) | ((bytes[pos + 6] as u64) << 48) | ((bytes[pos + 7] as u64) << 56);
    proof {
        assert forall|x: u64|
            bytes@.subrange(pos as int, pos as int + 8) == enc_u64(x) implies r == x by {
            assert(bytes@[pos as int] == enc_u64(x)[0]);
            assert(bytes@[pos as int + 1] == enc_u64(x)[1]);
            assert(bytes@[pos as int + 2] == enc_u64(x)[2]);
            assert(bytes@[pos as int + 3] == enc_u64(x)[3]);
            assert(bytes@[pos as int + 4] == enc_u64(x)[4]);
            assert(bytes@[pos as int + 5] == enc_u64(x)[5]);
            assert(bytes@[pos as int + 6] == enc_u64(x)[6]);
            assert(bytes@[pos as int + 7] == enc_u64(x)[7]);
            lemma_u64_round(x);
        }
    }
    r
}

/// Reads the `i32` at a position.
pub fn read_i32(bytes: &Vec<u8>, pos: usize) -> (r: i32)
    requires
        pos + 4 <= bytes@.len(),
        bytes@.len() <= usize::MAX as int,
    ensures
        forall|x: i32|
            bytes@.subrange(pos as int, pos as int + 4) == enc_i32(x) ==> r == x,
{
    let u = read_u32(bytes, pos);
    proof {
        assert forall|x: i32|
            bytes@.subrange(pos as int, pos as int + 4) == enc_i32(x) implies u as i32 == x by {
            lemma_i32_cast_round(x);
        }
    }
    u as i32
}

} // verus!
