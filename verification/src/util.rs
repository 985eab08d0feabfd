//! Little-endian integer encoding, zero padding, and alignment arithmetic
//! shared by all four codecs.

use vstd::prelude::*;

verus! {

/// The two little-endian bytes of a 16-bit value.
pub open spec fn spec_le16(v: u16) -> Seq<u8> {
    seq![(v % 256) as u8, (v / 256) as u8]
}

/// The four little-endian bytes of a 32-bit value.
pub open spec fn spec_le32(v: u32) -> Seq<u8> {
    seq![
        (v % 256) as u8,
        ((v / 256) % 256) as u8,
        ((v / 65536) % 256) as u8,
        ((v / 16777216) % 256) as u8,
    ]
}

/// The 16-bit value held by two little-endian bytes.
pub open spec fn spec_le16_val(b0: u8, b1: u8) -> u16 {
    (b0 + b1 * 256) as u16
}

/// The 32-bit value held by four little-endian bytes.
pub open spec fn spec_le32_val(b0: u8, b1: u8, b2: u8, b3: u8) -> u32 {
    (b0 + b1 * 256 + b2 * 65536 + b3 * 16777216) as u32
}

/// A run of `n` zero bytes.
pub open spec fn zeros(n: nat) -> Seq<u8> {
    Seq::new(n, |i: int| 0u8)
}

/// Zero bytes needed after a payload of length `len` so that the next payload
/// starts at a multiple of `align`; zero when `align` is zero.
pub open spec fn spec_pad_len(len: int, align: int) -> int {
    if align <= 0 {
        0
    } else if len % align == 0 {
        0
    } else {
        align - len % align
    }
}

/// Encoding and decoding a 16-bit value are inverse.
pub proof fn lemma_le16_round_trip(v: u16)
    ensures
        spec_le16_val(spec_le16(v)[0], spec_le16(v)[1]) == v,
{
}

/// Encoding and decoding a 32-bit value are inverse.
pub proof fn lemma_le32_round_trip(v: u32)
    ensures
        spec_le32_val(spec_le32(v)[0], spec_le32(v)[1], spec_le32(v)[2], spec_le32(v)[3]) == v,
{
}

/// Appends the two little-endian bytes of `v`.
pub fn push_le16(out: &mut Vec<u8>, v: u16)
    ensures
        final(out)@ == old(out)@ + spec_le16(v),
{
    out.push((v % 256) as u8);
    out.push((v / 256) as u8);
    proof {
        assert(out@ =~= old(out)@ + spec_le16(v));
    }
}

/// Appends the four little-endian bytes of `v`.
pub fn push_le32(out: &mut Vec<u8>, v: u32)
    ensures
        final(out)@ == old(out)@ + spec_le32(v),
{
    out.push((v % 256) as u8);
    out.push(((v / 256) % 256) as u8);
    out.push(((v / 65536) % 256) as u8);
    out.push(((v / 16777216) % 256) as u8);
    proof {
        assert(out@ =~= old(out)@ + spec_le32(v));
    }
}

/// Reads the 16-bit little-endian value at `pos`.
pub fn read_le16(s: &[u8], pos: usize) -> (r: u16)
    requires
        pos + 2 <= s@.len(),
    ensures
        r == spec_le16_val(s@[pos as int], s@[pos + 1]),
{
    s[pos] as u16 + (s[pos + 1] as u16) * 256
}

/// Reads the 32-bit little-endian value at `pos`.
pub fn read_le32(s: &[u8], pos: usize) -> (r: u32)
    requires
        pos + 4 <= s@.len(),
    ensures
        r == spec_le32_val(s@[pos as int], s@[pos + 1], s@[pos + 2], s@[pos + 3]),
{
    s[pos] as u32 + (s[pos + 1] as u32) * 256 + (s[pos + 2] as u32) * 65536 + (s[pos + 3] as u32)
        * 16777216
}

/// Appends `zero_num` zero bytes.
pub fn write_padding_zeroes(writer: &mut Vec<u8>, zero_num: usize)
    ensures
        final(writer)@ == old(writer)@ + zeros(zero_num as nat),
{
    let mut i: usize = 0;
    while i < zero_num
        invariant
            i <= zero_num,
            writer@ == old(writer)@ + zeros(i as nat),
        decreases zero_num - i,
    {
        writer.push(0u8);
        i = i + 1;
        proof {
            assert(writer@ =~= old(writer)@ + zeros(i as nat));
        }
    }
}

/// Four bytes written as a little-endian value read back as that value.
pub proof fn lemma_le32_read(s: Seq<u8>, p: int, v: u32)
    requires
        0 <= p,
        p + 4 <= s.len(),
        s.subrange(p, p + 4) == spec_le32(v),
    ensures
        spec_le32_val(s[p], s[p + 1], s[p + 2], s[p + 3]) == v,
{
    assert(s.subrange(p, p + 4)[0] == s[p]);
    assert(s.subrange(p, p + 4)[1] == s[p + 1]);
    assert(s.subrange(p, p + 4)[2] == s[p + 2]);
    assert(s.subrange(p, p + 4)[3] == s[p + 3]);
    lemma_le32_round_trip(v);
}

/// Padding closes the gap to the next multiple of the alignment.
pub proof fn lemma_pad_mod(l: int, a: int)
    requires
        a > 0,
        l >= 0,
    ensures
        (l + spec_pad_len(l, a)) % a == 0,
        0 <= spec_pad_len(l, a) < a,
{
    if l % a != 0 {
        assert((l + (a - l % a)) % a == 0) by (nonlinear_arith)
            requires
                a > 0,
                l >= 0,
        ;
    }
}

/// Copies the bytes at `a .. b` out of a slice.
pub fn copy_range(s: &[u8], a: usize, b: usize) -> (r: Vec<u8>)
    requires
        a <= b <= s@.len(),
    ensures
        r@ == s@.subrange(a as int, b as int),
{
    let mut r: Vec<u8> = Vec::new();
    let mut i: usize = a;
    while i < b
        invariant
            a <= i <= b <= s@.len(),
            r@ == s@.subrange(a as int, i as int),
        decreases b - i,
    {
        r.push(s[i]);
        i = i + 1;
        proof {
            assert(r@ =~= s@.subrange(a as int, i as int));
        }
    }
    r
}

/// Appends `bytes` and then zero padding out to `width` bytes in all.
pub fn push_zero_padded(out: &mut Vec<u8>, bytes: &Vec<u8>, width: usize)
    requires
        bytes@.len() <= width,
    ensures
        final(out)@ == old(out)@ + bytes@ + zeros((width - bytes@.len()) as nat),
{
    let ghost base = out@;
    let mut i: usize = 0;
    while i < bytes.len()
        invariant
            i <= bytes@.len(),
            out@ == base + bytes@.subrange(0, i as int),
        decreases bytes@.len() - i,
    {
        out.push(bytes[i]);
        i = i + 1;
        proof {
            assert(out@ =~= base + bytes@.subrange(0, i as int));
        }
    }
    proof {
        assert(bytes@.subrange(0, bytes@.len() as int) =~= bytes@);
    }
    write_padding_zeroes(out, width - bytes.len());
}

/// Zero bytes needed after `len` bytes to reach a multiple of `align`.
pub fn pad_len(len: usize, align: usize) -> (r: usize)
    ensures
        r == spec_pad_len(len as int, align as int),
        align > 0 ==> r < align,
        align > 0 ==> (len + r) % (align as int) == 0,
{
    if align == 0 {
        0
    } else {
        let rem = len % align;
        proof {
            if rem != 0 {
                assert((len as int + (align as int - len as int % align as int)) % align as int
                    == 0) by (nonlinear_arith)
                    requires
                        align > 0,
                        len >= 0,
                ;
            }
        }
        if rem == 0 {
            0
        } else {
            align - rem
        }
    }
}

} // verus!
