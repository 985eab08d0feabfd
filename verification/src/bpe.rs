//! The BPE codec: block-oriented greedy pair-substitution compression with a
//! run-length-coded substitution table, and the symmetric decoder.
//!
//! The decoder is written out as spec functions (`spec_parse_runs`,
//! `spec_flatten`, `spec_decode_block`, `spec_decompress`); the executable
//! decoder refines them and the executable compressor promises that its
//! output decodes back to its input, which is the round-trip contract.

use vstd::prelude::*;

use crate::bpe_chain::{
    allowed, chain_code, chain_map, lemma_chain_map_at, lemma_chain_map_dom, lemma_expand_id,
    lemma_expand_preserved, lemma_expand_replace, lemma_flatten_defined_at, lemma_flatten_mono,
    replace_pairs, wf_chain, Chain, ChainEntry,
};
use crate::bpe_table::{
    encode_table, lemma_encode_table_len, lemma_parse_encode, map_from, spec_encode_table,
    table_ok,
};
use crate::util::{lemma_le16_round_trip, push_le16, spec_le16, spec_le16_val, spec_le32, spec_le32_val, zeros};

verus! {

/// Magic bytes `"BPE "`.
pub open spec fn bpe_magic() -> Seq<u8> {
    seq![0x42u8, 0x50u8, 0x45u8, 0x20u8]
}

/// Largest number of bytes collected into one block.
pub open spec fn max_block_size() -> int {
    4096
}

/// Largest number of distinct byte values allowed in one block.
pub open spec fn max_normal_byte_num() -> int {
    200
}

/// A pair must occur at least this often to be substituted.
pub open spec fn min_occurrence() -> int {
    3
}

/// Parses the substitution table's run at byte-value cursor `c`, stream
/// position `pos`, having decoded `m` so far. Returns the finished table and
/// the position just past it, or `None` when the stream runs out first.
///
/// A control byte with the top bit set covers `control - 0x80 + 1` values
/// that are not substituted, then one table entry follows (unless the run
/// already reached value 255); a control byte with the top bit clear covers
/// `control + 1` entries. Each entry is one byte: the cursor's own value if
/// that value is not substituted, else the first byte of its pair, with the
/// second pair byte after it.
pub open spec fn spec_parse_runs(s: Seq<u8>, pos: int, c: int, m: Map<u8, (u8, u8)>) -> Option<
    (Map<u8, (u8, u8)>, int),
>
    decreases 256 - c, 130int,
{
    if !(0 <= c <= 255) {
        None
    } else if !(0 <= pos < s.len()) {
        None
    } else {
        let control = s[pos];
        if control >= 0x80 {
            let skip = control - 0x80 + 1;
            if c + skip > 255 {
                Some((m, pos + 1))
            } else {
                spec_parse_entries(s, pos + 1, c + skip, m, 1)
            }
        } else {
            spec_parse_entries(s, pos + 1, c, m, control + 1)
        }
    }
}

/// Parses `n` table entries starting at byte-value cursor `c`, then returns
/// to run parsing (or finishes at value 255).
pub open spec fn spec_parse_entries(
    s: Seq<u8>,
    pos: int,
    c: int,
    m: Map<u8, (u8, u8)>,
    n: int,
) -> Option<(Map<u8, (u8, u8)>, int)>
    decreases 256 - c, n,
{
    if !(0 <= c <= 255) || n < 1 || n > 129 {
        None
    } else if !(0 <= pos < s.len()) {
        None
    } else {
        let x = s[pos];
        if x == c {
            // the cursor's value is not substituted
            if c == 255 {
                Some((m, pos + 1))
            } else if n == 1 {
                spec_parse_runs(s, pos + 1, c + 1, m)
            } else {
                spec_parse_entries(s, pos + 1, c + 1, m, n - 1)
            }
        } else {
            if !(pos + 1 < s.len()) {
                None
            } else {
                let m2 = m.insert(c as u8, (x, s[pos + 1]));
                if c == 255 {
                    Some((m2, pos + 2))
                } else if n == 1 {
                    spec_parse_runs(s, pos + 2, c + 1, m2)
                } else {
                    spec_parse_entries(s, pos + 2, c + 1, m2, n - 1)
                }
            }
        }
    }
}

/// Full expansion of one byte through the substitution table, recursing into
/// pair bytes that are themselves codes; `None` once `fuel` runs out, which
/// on a cyclic table stands for the decoder's refusal.
pub open spec fn spec_flatten(m: Map<u8, (u8, u8)>, b: u8, fuel: nat) -> Option<Seq<u8>>
    decreases fuel,
{
    if !m.dom().contains(b) {
        Some(seq![b])
    } else if fuel == 0 {
        None
    } else {
        let p = m[b];
        match (spec_flatten(m, p.0, (fuel - 1) as nat), spec_flatten(m, p.1, (fuel - 1) as nat)) {
            (Some(u), Some(v)) => Some(u + v),
            _ => None,
        }
    }
}

/// Depth that suffices for every acyclic table (a chain can pass through
/// each of the at most 256 codes once).
pub open spec fn flatten_fuel() -> nat {
    256
}

/// Expansion of a whole data run: each byte is replaced by its flattening.
pub open spec fn spec_expand(m: Map<u8, (u8, u8)>, data: Seq<u8>) -> Option<Seq<u8>>
    decreases data.len(),
{
    if data.len() == 0 {
        Some(Seq::empty())
    } else {
        match (spec_flatten(m, data[0], flatten_fuel()), spec_expand(m, data.skip(1))) {
            (Some(u), Some(v)) => Some(u + v),
            _ => None,
        }
    }
}

/// Decodes one block at `pos`: substitution table, two-byte little-endian
/// data length, then that many data bytes, each expanded through the table.
/// Returns the block's output and the position just past the block.
pub open spec fn spec_decode_block(s: Seq<u8>, pos: int) -> Option<(Seq<u8>, int)> {
    match spec_parse_runs(s, pos, 0, Map::empty()) {
        None => None,
        Some((m, p1)) => {
            if p1 + 2 > s.len() {
                None
            } else {
                let len = spec_le16_val(s[p1], s[p1 + 1]) as int;
                if p1 + 2 + len > s.len() {
                    None
                } else {
                    match spec_expand(m, s.subrange(p1 + 2, p1 + 2 + len)) {
                        None => None,
                        Some(o) => Some((o, p1 + 2 + len)),
                    }
                }
            }
        },
    }
}

/// Decodes blocks from `pos` to the end of the stream and concatenates
/// their outputs.
pub open spec fn spec_decode_blocks(s: Seq<u8>, pos: int) -> Option<Seq<u8>>
    decreases s.len() - pos,
{
    if pos >= s.len() {
        Some(Seq::empty())
    } else {
        match spec_decode_block(s, pos) {
            None => None,
            Some((o, p2)) => {
                if p2 <= pos || p2 > s.len() {
                    None
                } else {
                    match spec_decode_blocks(s, p2) {
                        None => None,
                        Some(rest) => Some(o + rest),
                    }
                }
            },
        }
    }
}

/// What a whole BPE file decompresses to: magic, four reserved bytes that
/// are not validated, the compressed length which must account for the rest
/// of the file exactly, the original length, then the blocks; output shorter
/// than the recorded original length is zero-padded up to it.
pub open spec fn spec_decompress(s: Seq<u8>) -> Option<Seq<u8>> {
    if s.len() < 16 {
        None
    } else if s.subrange(0, 4) != bpe_magic() {
        None
    } else {
        let clen = spec_le32_val(s[8], s[9], s[10], s[11]) as int;
        let dlen = spec_le32_val(s[12], s[13], s[14], s[15]) as int;
        if 16 + clen != s.len() {
            None
        } else {
            match spec_decode_blocks(s, 16) {
                None => None,
                Some(o) => if o.len() < dlen {
                    Some(o + zeros((dlen - o.len()) as nat))
                } else {
                    Some(o)
                },
            }
        }
    }
}

/// Why a BPE operation was refused.
#[derive(Clone, Copy, Debug, PartialEq, Eq, Structural)]
pub enum BpeError {
    /// The stream does not start with the BPE magic.
    BadMagic,
    /// The header is truncated or its compressed length does not match the
    /// stream length.
    BadLength,
    /// A block is truncated or its substitution table cannot be expanded.
    BadBlock,
    /// Input longer than the header's 32-bit original-length field can hold.
    InputTooLong,
    /// The compressed stream would overflow its 32-bit length field.
    OutputTooLong,
}

/// The table decoded so far, as a map from code byte to pair.
pub open spec fn tbl_map(t: Seq<Option<(u8, u8)>>) -> Map<u8, (u8, u8)> {
    Map::new(|b: u8| t[b as int] is Some, |b: u8| t[b as int]->Some_0)
}

/// Reads a block's substitution table at `pos`, returning the table and the
/// position just past it, or `None` on a truncated stream.
///
/// Refines `spec_parse_runs` from the start state.
pub fn read_substitution_info(s: &[u8], pos: usize) -> (r: Option<(Vec<Option<(u8, u8)>>, usize)>)
    requires
        pos <= s@.len(),
    ensures
        match r {
            Some(t) => t.0@.len() == 256 && spec_parse_runs(s@, pos as int, 0, Map::empty())
                == Some((tbl_map(t.0@), t.1 as int)) && pos < t.1 <= s@.len(),
            None => spec_parse_runs(s@, pos as int, 0, Map::empty()) is None,
        },
{
    let mut tbl: Vec<Option<(u8, u8)>> = Vec::new();
    let mut fill: usize = 0;
    while fill < 256
        invariant
            fill <= 256,
            tbl@.len() == fill,
            forall|i: int| 0 <= i < fill ==> tbl@[i] is None,
        decreases 256 - fill,
    {
        tbl.push(None);
        fill = fill + 1;
    }
    proof {
        assert(tbl_map(tbl@) =~~= Map::<u8, (u8, u8)>::empty());
    }
    let mut p: usize = pos;
    let mut c: u16 = 0;
    loop
        invariant
            tbl@.len() == 256,
            0 <= c <= 255,
            pos <= p <= s@.len(),
            spec_parse_runs(s@, pos as int, 0, Map::empty()) == spec_parse_runs(
                s@,
                p as int,
                c as int,
                tbl_map(tbl@),
            ),
        decreases 256 - c,
    {
        let ghost c_begin: int = c as int;
        if p >= s.len() {
            return None;
        }
        let control = s[p];
        let ghost p0: int = p as int;
        let ghost m0 = tbl_map(tbl@);
        p = p + 1;
        let n: u16;
        if control >= 0x80 {
            let skip: u16 = control as u16 - 0x80 + 1;
            if c + skip > 255 {
                proof {
                    assert(spec_parse_runs(s@, p0, c_begin, m0) == Some((m0, p0 + 1)));
                }
                return Some((tbl, p));
            }
            c = c + skip;
            n = 1;
            proof {
                assert(spec_parse_runs(s@, p0, c_begin, m0) == spec_parse_entries(
                    s@,
                    p0 + 1,
                    c as int,
                    m0,
                    1,
                ));
            }
        } else {
            n = control as u16 + 1;
            proof {
                assert(spec_parse_runs(s@, p0, c_begin, m0) == spec_parse_entries(
                    s@,
                    p0 + 1,
                    c as int,
                    m0,
                    control + 1,
                ));
            }
        }
        let ghost c_entry: int = c as int;
        let mut left: u16 = n;
        loop
            invariant_except_break
                tbl@.len() == 256,
                0 <= c <= 255,
                1 <= left <= 129,
                pos < p <= s@.len(),
                spec_parse_runs(s@, pos as int, 0, Map::empty()) == spec_parse_entries(
                    s@,
                    p as int,
                    c as int,
                    tbl_map(tbl@),
                    left as int,
                ),
                c as int >= c_entry,
            ensures
                tbl@.len() == 256,
                0 <= c <= 255,
                pos < p <= s@.len(),
                c as int > c_entry,
                spec_parse_runs(s@, pos as int, 0, Map::empty()) == spec_parse_runs(
                    s@,
                    p as int,
                    c as int,
                    tbl_map(tbl@),
                ),
            decreases left,
        {
            let ghost pe: int = p as int;
            let ghost ce: int = c as int;
            let ghost me = tbl_map(tbl@);
            let ghost ne: int = left as int;
            if p >= s.len() {
                return None;
            }
            let x = s[p];
            if x as u16 == c {
                p = p + 1;
            } else {
                if p >= s.len() - 1 {
                    return None;
                }
                let y = s[p + 1];
                let ghost old_tbl = tbl@;
                tbl.set(c as usize, Some((x, y)));
                proof {
                    assert(tbl_map(tbl@) =~~= tbl_map(old_tbl).insert(c as u8, (x, y)));
                }
                p = p + 2;
            }
            if c == 255 {
                proof {
                    assert(spec_parse_entries(s@, pe, ce, me, ne) == Some((tbl_map(tbl@), p as int)));
                }
                return Some((tbl, p));
            }
            c = c + 1;
            if left == 1 {
                proof {
                    assert(spec_parse_entries(s@, pe, ce, me, ne) == spec_parse_runs(
                        s@,
                        p as int,
                        c as int,
                        tbl_map(tbl@),
                    ));
                }
                break ;
            }
            left = left - 1;
            proof {
                assert(spec_parse_entries(s@, pe, ce, me, ne) == spec_parse_entries(
                    s@,
                    p as int,
                    c as int,
                    tbl_map(tbl@),
                    left as int,
                ));
            }
        }
    }
}

/// Full expansion of one byte through the substitution table, `None` when
/// the recursion budget runs out (a cyclic table).
pub fn flat_substitution_map(tbl: &Vec<Option<(u8, u8)>>, byte: u8, fuel: u32) -> (r: Option<
    Vec<u8>,
>)
    requires
        tbl@.len() == 256,
    ensures
        match r {
            Some(v) => spec_flatten(tbl_map(tbl@), byte, fuel as nat) == Some(v@),
            None => spec_flatten(tbl_map(tbl@), byte, fuel as nat) is None,
        },
    decreases fuel,
{
    match tbl[byte as usize] {
        None => {
            proof {
                assert(!tbl_map(tbl@).dom().contains(byte));
            }
            let mut v: Vec<u8> = Vec::new();
            v.push(byte);
            proof {
                assert(v@ =~= seq![byte]);
            }
            Some(v)
        },
        Some(pair) => {
            proof {
                assert(tbl_map(tbl@).dom().contains(byte));
                assert(tbl_map(tbl@)[byte] == pair);
            }
            if fuel == 0 {
                return None;
            }
            let u = flat_substitution_map(tbl, pair.0, fuel - 1);
            match u {
                None => None,
                Some(mut u) => {
                    let v = flat_substitution_map(tbl, pair.1, fuel - 1);
                    match v {
                        None => None,
                        Some(v) => {
                            let ghost u0 = u@;
                            u.extend_from_slice(v.as_slice());
                            proof {
                                assert(u@ =~= u0 + v@);
                            }
                            Some(u)
                        },
                    }
                },
            }
        },
    }
}

/// Decodes one block at `pos`, appending its output to `out` and returning
/// the position just past the block; `None` exactly when the spec decoder
/// refuses, in which case `out` is untouched.
pub fn unpack_one_block(s: &[u8], pos: usize, out: &mut Vec<u8>) -> (r: Option<usize>)
    requires
        pos <= s@.len(),
    ensures
        match r {
            Some(p2) => spec_decode_block(s@, pos as int) matches Some((o, sp2)) && final(out)@
                == old(out)@ + o && sp2 == p2 as int && pos < p2 <= s@.len(),
            None => spec_decode_block(s@, pos as int) is None && final(out)@ == old(out)@,
        },
{
    let parsed = read_substitution_info(s, pos);
    let (tbl, p1) = match parsed {
        None => {
            return None;
        },
        Some(t) => t,
    };
    if s.len() - p1 < 2 {
        return None;
    }
    let len = crate::util::read_le16(s, p1) as usize;
    if len > s.len() - (p1 + 2) {
        return None;
    }
    let data_end = p1 + 2 + len;
    let ghost m = tbl_map(tbl@);
    let ghost data: Seq<u8> = s@.subrange(p1 + 2, data_end as int);
    // expansions already computed, one slot per byte value
    let mut cache: Vec<Option<Vec<u8>>> = Vec::new();
    let mut fill: usize = 0;
    while fill < 256
        invariant
            fill <= 256,
            cache@.len() == fill,
            forall|i: int| 0 <= i < fill ==> cache@[i] is None,
        decreases 256 - fill,
    {
        cache.push(None);
        fill = fill + 1;
    }
    let mut acc: Vec<u8> = Vec::new();
    let mut i: usize = p1 + 2;
    while i < data_end
        invariant
            pos <= p1,
            p1 + 2 <= i <= data_end <= s@.len(),
            tbl@.len() == 256,
            m == tbl_map(tbl@),
            spec_parse_runs(s@, pos as int, 0, Map::empty()) == Some((m, p1 as int)),
            data_end == p1 + 2 + spec_le16_val(s@[p1 as int], s@[p1 + 1]),
            data == s@.subrange(p1 + 2, data_end as int),
            cache@.len() == 256,
            forall|b: int| 0 <= b < 256 ==> match #[trigger] cache@[b] {
                Some(v) => spec_flatten(m, b as u8, flatten_fuel()) == Some(v@),
                None => true,
            },
            spec_expand(m, data) == match spec_expand(m, s@.subrange(i as int, data_end as int)) {
                Some(rest) => Some(acc@ + rest),
                None => None::<Seq<u8>>,
            },
        decreases data_end - i,
    {
        let b = s[i];
        if cache[b as usize].is_none() {
            let e = flat_substitution_map(&tbl, b, 256);
            match e {
                None => {
                    proof {
                        let tail = s@.subrange(i as int, data_end as int);
                        assert(tail[0] == b);
                        assert(spec_expand(m, tail) is None);
                    }
                    return None;
                },
                Some(v) => {
                    cache.set(b as usize, Some(v));
                },
            }
        }
        let ghost acc0 = acc@;
        match &cache[b as usize] {
            Some(v) => {
                acc.extend_from_slice(v.as_slice());
                proof {
                    let tail = s@.subrange(i as int, data_end as int);
                    assert(tail[0] == b);
                    assert(tail.skip(1) =~= s@.subrange(i + 1, data_end as int));
                    assert(spec_flatten(m, b, flatten_fuel()) == Some(v@));
                    assert(acc@ == acc0 + v@);
                    match spec_expand(m, s@.subrange(i + 1, data_end as int)) {
                        Some(rest) => {
                            assert(acc0 + (v@ + rest) =~= acc@ + rest);
                        },
                        None => {},
                    }
                }
            },
            None => {
                proof {
                    assert(false);
                }
            },
        }
        i = i + 1;
    }
    proof {
        assert(s@.subrange(data_end as int, data_end as int) =~= Seq::<u8>::empty());
        assert(spec_expand(m, s@.subrange(data_end as int, data_end as int)) == Some(
            Seq::<u8>::empty(),
        ));
        assert(acc@ + Seq::<u8>::empty() =~= acc@);
        assert(spec_expand(m, data) == Some(acc@));
    }
    let ghost out0 = out@;
    out.extend_from_slice(acc.as_slice());
    proof {
        assert(out@ == out0 + acc@);
    }
    Some(data_end)
}

/// Prefix `p` glued onto a decoder outcome.
pub open spec fn opt_prepend(p: Seq<u8>, o: Option<Seq<u8>>) -> Option<Seq<u8>> {
    match o {
        Some(rest) => Some(p + rest),
        None => None,
    }
}

/// Decompresses a whole BPE stream. Success and the result are exactly what
/// `spec_decompress` gives; each refusal names the first header rule broken.
pub fn unpack(src: &[u8]) -> (r: Result<Vec<u8>, BpeError>)
    ensures
        match r {
            Ok(v) => spec_decompress(src@) == Some(v@),
            Err(e) => spec_decompress(src@) is None,
        },
        r == Err::<Vec<u8>, BpeError>(BpeError::BadMagic) <==> (src@.len() < 4 || src@.subrange(
            0,
            4,
        ) != bpe_magic()),
        r == Err::<Vec<u8>, BpeError>(BpeError::BadLength) <==> (src@.len() >= 4 && src@.subrange(
            0,
            4,
        ) == bpe_magic() && (src@.len() < 16 || 16 + spec_le32_val(
            src@[8],
            src@[9],
            src@[10],
            src@[11],
        ) != src@.len())),
        r is Err ==> (r == Err::<Vec<u8>, BpeError>(BpeError::BadMagic) || r == Err::<
            Vec<u8>,
            BpeError,
        >(BpeError::BadLength) || r == Err::<Vec<u8>, BpeError>(BpeError::BadBlock)),
{
    if src.len() < 4 {
        return Err(BpeError::BadMagic);
    }
    if !(src[0] == 0x42 && src[1] == 0x50 && src[2] == 0x45 && src[3] == 0x20) {
        proof {
            assert(src@.subrange(0, 4) != bpe_magic()) by {
                if src@.subrange(0, 4) == bpe_magic() {
                    assert(src@.subrange(0, 4)[0] == 0x42u8);
                    assert(src@.subrange(0, 4)[1] == 0x50u8);
                    assert(src@.subrange(0, 4)[2] == 0x45u8);
                    assert(src@.subrange(0, 4)[3] == 0x20u8);
                }
            }
        }
        return Err(BpeError::BadMagic);
    }
    proof {
        assert(src@.subrange(0, 4) =~= bpe_magic());
    }
    if src.len() < 16 {
        return Err(BpeError::BadLength);
    }
    let clen = crate::util::read_le32(src, 8);
    let dlen = crate::util::read_le32(src, 12);
    if clen as u64 + 16 != src.len() as u64 {
        return Err(BpeError::BadLength);
    }
    let mut out: Vec<u8> = Vec::new();
    let mut pos: usize = 16;
    proof {
        assert(opt_prepend(out@, spec_decode_blocks(src@, 16)) == spec_decode_blocks(src@, 16));
    }
    while pos < src.len()
        invariant
            16 <= pos <= src@.len(),
            src@.subrange(0, 4) == bpe_magic(),
            16 + spec_le32_val(src@[8], src@[9], src@[10], src@[11]) == src@.len(),
            spec_decode_blocks(src@, 16) == opt_prepend(out@, spec_decode_blocks(src@, pos as int)),
        decreases src@.len() - pos,
    {
        let ghost out0 = out@;
        let stepped = unpack_one_block(src, pos, &mut out);
        match stepped {
            None => {
                proof {
                    assert(spec_decode_blocks(src@, pos as int) is None);
                }
                return Err(BpeError::BadBlock);
            },
            Some(p2) => {
                proof {
                    let d = spec_decode_block(src@, pos as int);
                    let o = d->Some_0.0;
                    assert(spec_decode_blocks(src@, pos as int) == opt_prepend(
                        o,
                        spec_decode_blocks(src@, p2 as int),
                    ));
                    match spec_decode_blocks(src@, p2 as int) {
                        Some(rest) => {
                            assert(out0 + (o + rest) =~= (out0 + o) + rest);
                        },
                        None => {},
                    }
                }
                pos = p2;
            },
        }
    }
    proof {
        assert(spec_decode_blocks(src@, pos as int) == Some(Seq::<u8>::empty()));
        assert(out@ + Seq::<u8>::empty() =~= out@);
        assert(spec_decode_blocks(src@, 16) == Some(out@));
    }
    if out.len() < dlen as usize {
        let pad = dlen as usize - out.len();
        crate::util::write_padding_zeroes(&mut out, pad);
    }
    Ok(out)
}

/// `enc` is a self-contained block encoding of `orig`: wherever those bytes
/// stand in a stream, the block decoder reads exactly them and gives back
/// `orig`.
pub open spec fn block_encodes(enc: Seq<u8>, orig: Seq<u8>) -> bool {
    &&& enc.len() >= 3
    &&& forall|s: Seq<u8>, pos: int|
        0 <= pos && pos + enc.len() <= s.len() && s.subrange(pos, pos + enc.len()) == enc
            ==> #[trigger] spec_decode_block(s, pos) == Some((orig, pos + enc.len()))
}

/// The concatenation of a sequence of byte runs.
pub open spec fn seq_concat(ss: Seq<Seq<u8>>) -> Seq<u8>
    decreases ss.len(),
{
    if ss.len() == 0 {
        Seq::empty()
    } else {
        ss[0] + seq_concat(ss.skip(1))
    }
}

pub proof fn lemma_seq_concat_snoc(ss: Seq<Seq<u8>>, x: Seq<u8>)
    ensures
        seq_concat(ss.push(x)) == seq_concat(ss) + x,
    decreases ss.len(),
{
    if ss.len() == 0 {
        assert(ss.push(x)[0] == x);
        assert(ss.push(x).skip(1) =~= Seq::<Seq<u8>>::empty());
        assert(seq_concat(Seq::<Seq<u8>>::empty()) == Seq::<u8>::empty());
        assert(seq_concat(ss) == Seq::<u8>::empty());
        assert(seq_concat(ss.push(x)) == x + Seq::<u8>::empty());
        assert(seq_concat(ss.push(x)) =~= seq_concat(ss) + x);
    } else {
        assert(ss.push(x).skip(1) =~= ss.skip(1).push(x));
        lemma_seq_concat_snoc(ss.skip(1), x);
        assert(ss.push(x)[0] == ss[0]);
        assert(seq_concat(ss.push(x)) == ss[0] + (seq_concat(ss.skip(1)) + x));
        assert(ss[0] + (seq_concat(ss.skip(1)) + x) =~= (ss[0] + seq_concat(ss.skip(1))) + x);
    }
}

/// A stream that ends with a row of block encodings decodes to the
/// concatenation of what they encode.
pub proof fn lemma_concat_decodes(s: Seq<u8>, pos: int, encs: Seq<Seq<u8>>, origs: Seq<Seq<u8>>)
    requires
        encs.len() == origs.len(),
        forall|i: int| 0 <= i < encs.len() ==> block_encodes(#[trigger] encs[i], origs[i]),
        0 <= pos,
        pos + seq_concat(encs).len() == s.len(),
        s.subrange(pos, s.len() as int) == seq_concat(encs),
    ensures
        spec_decode_blocks(s, pos) == Some(seq_concat(origs)),
    decreases encs.len(),
{
    if encs.len() == 0 {
        assert(seq_concat(origs) =~= Seq::<u8>::empty());
    } else {
        let e0 = encs[0];
        let rest = seq_concat(encs.skip(1));
        assert(seq_concat(encs) == e0 + rest);
        assert(block_encodes(e0, origs[0]));
        assert(s.subrange(pos, pos + e0.len() as int) =~= e0) by {
            assert forall|i: int| 0 <= i < e0.len() implies #[trigger] s.subrange(
                pos,
                pos + e0.len() as int,
            )[i] == e0[i] by {
                assert(s.subrange(pos, s.len() as int)[i] == s[pos + i]);
                assert((e0 + rest)[i] == e0[i]);
            }
        }
        assert(spec_decode_block(s, pos) == Some((origs[0], pos + e0.len())));
        let p2 = pos + e0.len();
        assert(s.subrange(p2, s.len() as int) =~= rest) by {
            assert forall|i: int| 0 <= i < rest.len() implies #[trigger] s.subrange(
                p2,
                s.len() as int,
            )[i] == rest[i] by {
                assert(s.subrange(pos, s.len() as int)[e0.len() + i] == s[p2 + i]);
                assert((e0 + rest)[e0.len() + i] == rest[i]);
            }
        }
        assert(forall|i: int|
            0 <= i < encs.skip(1).len() ==> block_encodes(
                #[trigger] encs.skip(1)[i],
                origs.skip(1)[i],
            ));
        lemma_concat_decodes(s, p2, encs.skip(1), origs.skip(1));
        assert(spec_decode_blocks(s, pos) == Some(origs[0] + seq_concat(origs.skip(1))));
        assert(seq_concat(origs) == origs[0] + seq_concat(origs.skip(1)));
    }
}

/// Picks the substitution pair: among pairs counted at least three times,
/// the one with the highest count, ties broken by smaller first byte and
/// then smaller second byte; `None` when no pair is counted three times.
pub fn select_pair(counts: &Vec<u32>) -> (r: Option<(u8, u8)>)
    requires
        counts@.len() == 65536,
    ensures
        match r {
            Some(p) => {
                &&& counts@[p.0 as int * 256 + p.1] >= min_occurrence()
                &&& forall|k: int| 0 <= k < 65536 ==> #[trigger] counts@[k] <= counts@[p.0 as int * 256 + p.1]
                &&& forall|k: int|
                    0 <= k < p.0 as int * 256 + p.1 ==> #[trigger] counts@[k] < counts@[p.0 as int
                        * 256 + p.1]
            },
            None => forall|k: int| 0 <= k < 65536 ==> #[trigger] counts@[k] < min_occurrence(),
        },
{
    let mut best_k: usize = 0;
    let mut best: u32 = counts[0];
    let mut k: usize = 1;
    while k < 65536
        invariant
            counts@.len() == 65536,
            0 <= best_k < k <= 65536,
            best == counts@[best_k as int],
            forall|j: int| 0 <= j < k ==> #[trigger] counts@[j] <= best,
            forall|j: int| 0 <= j < best_k ==> #[trigger] counts@[j] < best,
        decreases 65536 - k,
    {
        if counts[k] > best {
            best = counts[k];
            best_k = k;
        }
        k = k + 1;
    }
    if best < 3 {
        None
    } else {
        let a = (best_k / 256) as u8;
        let b = (best_k % 256) as u8;
        proof {
            assert(a as int * 256 + b as int == best_k);
        }
        Some((a, b))
    }
}

/// Every pair with a positive count is made of bytes that can occur in the
/// block right now.
pub open spec fn counts_ok(counts: Seq<u32>, used: Seq<bool>, ch: crate::bpe_chain::Chain) -> bool {
    forall|k: int|
        0 <= k < 65536 && #[trigger] counts[k] > 0 ==> crate::bpe_chain::allowed(
            used,
            ch,
            (k / 256) as u8,
        ) && crate::bpe_chain::allowed(used, ch, (k % 256) as u8)
}

/// Raises a pair's count by one (counts pin at the top of their range, which
/// a 4096-byte block never reaches).
fn bump_count(counts: &mut Vec<u32>, k: usize)
    requires
        k < old(counts)@.len(),
    ensures
        final(counts)@ == old(counts)@.update(
            k as int,
            if old(counts)@[k as int] < u32::MAX {
                (old(counts)@[k as int] + 1) as u32
            } else {
                old(counts)@[k as int]
            },
        ),
{
    let cur = counts[k];
    if cur < u32::MAX {
        counts.set(k, cur + 1);
    } else {
        proof {
            assert(final(counts)@ =~= old(counts)@.update(k as int, old(counts)@[k as int]));
        }
    }
}

/// Lowers a pair's count by one, removing it at zero.
fn drop_count(counts: &mut Vec<u32>, k: usize)
    requires
        k < old(counts)@.len(),
    ensures
        final(counts)@ == old(counts)@.update(
            k as int,
            if old(counts)@[k as int] > 0 {
                (old(counts)@[k as int] - 1) as u32
            } else {
                0u32
            },
        ),
{
    let cur = counts[k];
    if cur > 0 {
        counts.set(k, cur - 1);
    } else {
        proof {
            assert(final(counts)@ =~= old(counts)@.update(k as int, 0u32));
        }
    }
}

/// One unit of compression: a bounded run of input bytes and the set of
/// byte values that occur in it, one flag per value.
pub struct Block {
    pub bytes: Vec<u8>,
    pub used: Vec<bool>,
}

/// How many flags are set.
pub open spec fn count_trues(s: Seq<bool>) -> int
    decreases s.len(),
{
    if s.len() == 0 {
        0
    } else {
        count_trues(s.drop_last()) + if s.last() {
            1int
        } else {
            0int
        }
    }
}

pub proof fn lemma_count_trues_update(s: Seq<bool>, i: int)
    requires
        0 <= i < s.len(),
        !s[i],
    ensures
        count_trues(s.update(i, true)) == count_trues(s) + 1,
    decreases s.len(),
{
    if i == s.len() - 1 {
        assert(s.update(i, true).drop_last() =~= s.drop_last());
    } else {
        assert(s.update(i, true).drop_last() =~= s.drop_last().update(i, true));
        lemma_count_trues_update(s.drop_last(), i);
    }
}

/// A block the splitter can produce: nonempty, at most 4096 bytes, its
/// `used` flags exactly the bytes that occur, and at most 200 of them set.
pub open spec fn block_shape_wf(bytes: Seq<u8>, used: Seq<bool>) -> bool {
    &&& used.len() == 256
    &&& 1 <= bytes.len() <= max_block_size()
    &&& forall|v: u8| used[v as int] <==> bytes.contains(v)
    &&& count_trues(used) <= max_normal_byte_num()
    &&& count_trues(used) <= bytes.len()
}

pub open spec fn block_wf(b: Block) -> bool {
    block_shape_wf(b.bytes@, b.used@)
}

/// The byte runs of a row of blocks.
pub open spec fn blocks_bytes(bs: Seq<Block>) -> Seq<Seq<u8>> {
    Seq::new(bs.len(), |i: int| bs[i].bytes@)
}

/// The block was closed for a reason when byte `nb` came next: it was full,
/// or it already held 200 distinct values and `nb` was not one of them.
pub open spec fn block_shape_closed(bytes: Seq<u8>, used: Seq<bool>, nb: u8) -> bool {
    bytes.len() == max_block_size() || (count_trues(used) == max_normal_byte_num() && !used[
        nb as int
    ])
}

pub open spec fn block_closed(bl: Block, nb: u8) -> bool {
    block_shape_closed(bl.bytes@, bl.used@, nb)
}

/// `origs` is the greedy block partition of `input` (with `useds` the
/// blocks' byte sets): consecutive runs, none empty, none over 4096 bytes
/// or 200 distinct values, and every block but the last closed by fullness
/// or by the next block's first byte raising its distinct count past 200.
pub open spec fn blocks_partition(
    input: Seq<u8>,
    origs: Seq<Seq<u8>>,
    useds: Seq<Seq<bool>>,
) -> bool {
    &&& origs.len() == useds.len()
    &&& seq_concat(origs) == input
    &&& forall|i: int| 0 <= i < origs.len() ==> block_shape_wf(#[trigger] origs[i], useds[i])
    &&& forall|i: int|
        0 <= i < origs.len() - 1 ==> block_shape_closed(
            #[trigger] origs[i],
            useds[i],
            origs[i + 1][0],
        )
    &&& (input.len() > 0 ==> origs.len() > 0)
}

/// The body of a packed BPE stream: a row of block encodings whose source
/// runs form the greedy block partition of the input.
pub open spec fn bpe_body_blocks(body: Seq<u8>, input: Seq<u8>) -> bool {
    exists|encs: Seq<Seq<u8>>, origs: Seq<Seq<u8>>, useds: Seq<Seq<bool>>|
        {
            &&& #[trigger] seq_concat(encs) == body
            &&& #[trigger] blocks_partition(input, origs, useds)
            &&& encs.len() == origs.len()
            &&& forall|i: int| 0 <= i < encs.len() ==> block_encodes(#[trigger] encs[i], origs[i])
            &&& forall|i: int|
                0 <= i < encs.len() ==> block_greedy(#[trigger] encs[i], origs[i], useds[i])
        }
}

/// Splits the input into compression blocks: bytes are taken in order into
/// the current block, which is closed when it reaches 4096 bytes or when the
/// next byte would raise its distinct-value count past 200 (that byte then
/// starts the next block); the final partial block is kept.
pub fn split_blocks(input: &[u8]) -> (r: Vec<Block>)
    ensures
        seq_concat(blocks_bytes(r@)) == input@,
        forall|j: int| 0 <= j < r@.len() ==> block_wf(#[trigger] r@[j]),
        forall|j: int|
            0 <= j < r@.len() - 1 ==> block_closed(#[trigger] r@[j], r@[j + 1].bytes@[0]),
        input@.len() == 0 ==> r@.len() == 0,
        input@.len() > 0 ==> r@.len() > 0,
{
    let mut r: Vec<Block> = Vec::new();
    let mut i: usize = 0;
    proof {
        assert(blocks_bytes(r@) =~= Seq::<Seq<u8>>::empty());
        assert(seq_concat(blocks_bytes(r@)) =~= input@.take(0));
    }
    while i < input.len()
        invariant
            0 <= i <= input@.len(),
            i == 0 ==> r@.len() == 0,
            i > 0 ==> r@.len() > 0,
            seq_concat(blocks_bytes(r@)) == input@.take(i as int),
            forall|j: int| 0 <= j < r@.len() ==> block_wf(#[trigger] r@[j]),
            forall|j: int|
                0 <= j < r@.len() - 1 ==> block_closed(#[trigger] r@[j], r@[j + 1].bytes@[0]),
            i < input@.len() && r@.len() > 0 ==> block_closed(
                r@[r@.len() - 1],
                input@[i as int],
            ),
        decreases input@.len() - i,
    {
        let ghost start: int = i as int;
        let mut bytes: Vec<u8> = Vec::new();
        let mut used: Vec<bool> = Vec::new();
        let mut fill: usize = 0;
        while fill < 256
            invariant
                fill <= 256,
                used@.len() == fill,
                forall|v: int| 0 <= v < fill ==> !used@[v],
            decreases 256 - fill,
        {
            used.push(false);
            fill = fill + 1;
        }
        let mut distinct: usize = 0;
        proof {
            assert(count_trues(used@) == 0) by {
                lemma_count_all_false(used@);
            }
            assert(bytes@ =~= input@.subrange(start, i as int));
        }
        loop
            invariant_except_break
                used@.len() == 256,
                0 <= start < input@.len(),
                start <= i <= input@.len(),
                bytes@ == input@.subrange(start, i as int),
                bytes@.len() < max_block_size(),
                distinct == count_trues(used@),
                distinct <= max_normal_byte_num(),
                distinct <= bytes@.len(),
                forall|v: u8| used@[v as int] <==> bytes@.contains(v),
            ensures
                used@.len() == 256,
                0 <= start < input@.len(),
                start < i <= input@.len(),
                bytes@ == input@.subrange(start, i as int),
                1 <= bytes@.len() <= max_block_size(),
                distinct == count_trues(used@),
                distinct <= max_normal_byte_num(),
                distinct <= bytes@.len(),
                forall|v: u8| used@[v as int] <==> bytes@.contains(v),
                i < input@.len() ==> (bytes@.len() == max_block_size() || (count_trues(used@)
                    == max_normal_byte_num() && !used@[input@[i as int] as int])),
            decreases input@.len() - i,
        {
            if i >= input.len() {
                proof {
                    if i == start {
                        assert(false);
                    }
                }
                break ;
            }
            let b = input[i];
            if distinct == 200 && !used[b as usize] {
                proof {
                    if i == start {
                        assert(forall|v: int| 0 <= v < 256 ==> !used@[v]) by {
                            assert(forall|v: u8| !bytes@.contains(v));
                        }
                        lemma_count_all_false(used@);
                        assert(false);
                    }
                }
                break ;
            }
            let ghost bytes0 = bytes@;
            let ghost used0 = used@;
            bytes.push(b);
            if !used[b as usize] {
                proof {
                    lemma_count_trues_update(used0, b as int);
                }
                used.set(b as usize, true);
                distinct = distinct + 1;
            }
            proof {
                if count_trues(used0) == 200 {
                    // the byte was already counted, or the loop would have closed
                    assert(used0[b as int]);
                }
            }
            i = i + 1;
            proof {
                assert(bytes@ =~= input@.subrange(start, i as int));
                assert forall|v: u8| used@[v as int] <==> bytes@.contains(v) by {
                    if used@[v as int] {
                        if used0[v as int] {
                            assert(bytes0.contains(v));
                            let j = choose|j: int| 0 <= j < bytes0.len() && bytes0[j] == v;
                            assert(bytes@[j] == v);
                        } else {
                            assert(v == b);
                            assert(bytes@[bytes@.len() - 1] == b);
                        }
                    }
                    if bytes@.contains(v) {
                        let j = choose|j: int| 0 <= j < bytes@.len() && bytes@[j] == v;
                        if j < bytes0.len() {
                            assert(bytes0[j] == v);
                            assert(bytes0.contains(v));
                        } else {
                            assert(v == b);
                        }
                    }
                }
            }
            if bytes.len() >= 4096 {
                break ;
            }
        }
        let ghost blk_bytes = bytes@;
        let ghost blk_used = used@;
        let ghost r0 = r@;
        let ghost i_end: int = i as int;
        let blk = Block { bytes, used };
        r.push(blk);
        proof {
            assert(r@ == r0.push(blk));
            assert(blk.bytes@ == blk_bytes);
            assert(blocks_bytes(r@) =~= blocks_bytes(r0).push(blk_bytes));
            lemma_seq_concat_snoc(blocks_bytes(r0), blk_bytes);
            assert(seq_concat(blocks_bytes(r@)) =~= input@.take(i_end)) by {
                assert(seq_concat(blocks_bytes(r@)) == input@.take(start) + input@.subrange(
                    start,
                    i_end,
                ));
            }
            assert(block_wf(r@[r@.len() - 1]));
            assert forall|j: int| 0 <= j < r@.len() - 1 implies block_closed(
                #[trigger] r@[j],
                r@[j + 1].bytes@[0],
            ) by {
                if j < r0.len() - 1 {
                    assert(r@[j] == r0[j]);
                    assert(r@[j + 1] == r0[j + 1]);
                } else {
                    // the block closed just before this one started at `start`
                    assert(r@[j] == r0[j]);
                    assert(block_closed(r0[j], input@[start]));
                    assert(blk_bytes[0] == input@[start]);
                }
            }
            if i < input@.len() {
                assert(block_closed(r@[r@.len() - 1], input@[i as int]));
            }
        }
    }
    proof {
        assert(input@.take(i as int) =~= input@);
    }
    r
}

/// The count-map slot of an ordered pair.
pub open spec fn pair_key(a: u8, b: u8) -> int {
    a as int * 256 + b as int
}

/// One more sighting of a pair; counts pin at the top of their range.
pub open spec fn counts_bump(cs: Seq<u32>, k: int) -> Seq<u32> {
    cs.update(
        k,
        if cs[k] < u32::MAX {
            (cs[k] + 1) as u32
        } else {
            cs[k]
        },
    )
}

/// One fewer sighting of a pair; a count never goes below zero.
pub open spec fn counts_drop(cs: Seq<u32>, k: int) -> Seq<u32> {
    cs.update(
        k,
        if cs[k] > 0 {
            (cs[k] - 1) as u32
        } else {
            0u32
        },
    )
}

/// The counts of the forward two-byte windows of a block.
pub open spec fn win_counts(s: Seq<u8>) -> Seq<u32>
    decreases s.len(),
{
    if s.len() < 2 {
        Seq::new(65536, |k: int| 0u32)
    } else {
        counts_bump(win_counts(s.drop_last()), pair_key(s[s.len() - 2], s[s.len() - 1]))
    }
}

/// The count maintenance over one greedy rewrite scan, mirroring the pass
/// left to right: at each replaced occurrence the old left- and
/// right-adjacent pairs lose a sighting and the pairs formed with the code
/// gain one; `left` is the byte last written, if any.
pub open spec fn scan_counts(
    s: Seq<u8>,
    a: u8,
    b: u8,
    code: u8,
    left: Option<u8>,
    cs: Seq<u32>,
) -> Seq<u32>
    decreases s.len(),
{
    if s.len() >= 2 && s[0] == a && s[1] == b {
        let cs1 = match left {
            Some(l) => counts_bump(counts_drop(cs, pair_key(l, a)), pair_key(l, code)),
            None => cs,
        };
        let cs2 = if s.len() >= 3 {
            counts_bump(counts_drop(cs1, pair_key(b, s[2])), pair_key(code, s[2]))
        } else {
            cs1
        };
        scan_counts(s.skip(2), a, b, code, Some(code), cs2)
    } else if s.len() >= 1 {
        scan_counts(s.skip(1), a, b, code, Some(s[0]), cs)
    } else {
        cs
    }
}

/// The block after the rounds in `ch`, each round one greedy rewrite.
pub open spec fn chain_blocks(block0: Seq<u8>, ch: Chain) -> Seq<u8>
    decreases ch.len(),
{
    if ch.len() == 0 {
        block0
    } else {
        replace_pairs(
            chain_blocks(block0, ch.drop_last()),
            ch.last().1.0,
            ch.last().1.1,
            ch.last().0,
        )
    }
}

/// The maintained count map after the rounds in `ch`: the initial window
/// counts, then per round the scan maintenance and the chosen pair's
/// removal.
pub open spec fn chain_counts(block0: Seq<u8>, ch: Chain) -> Seq<u32>
    decreases ch.len(),
{
    if ch.len() == 0 {
        win_counts(block0)
    } else {
        scan_counts(
            chain_blocks(block0, ch.drop_last()),
            ch.last().1.0,
            ch.last().1.1,
            ch.last().0,
            None,
            chain_counts(block0, ch.drop_last()),
        ).update(pair_key(ch.last().1.0, ch.last().1.1), 0u32)
    }
}

/// The chain records exactly the greedy rounds: at each round the chosen
/// pair's maintained count was at least three, no pair counted higher, and
/// no smaller pair counted as high.
pub open spec fn greedy_chain(block0: Seq<u8>, ch: Chain) -> bool {
    forall|k: int|
        0 <= k < ch.len() ==> {
            let cs = chain_counts(block0, #[trigger] ch.take(k));
            let key = pair_key(ch[k].1.0, ch[k].1.1);
            &&& cs[key] >= min_occurrence()
            &&& forall|p: int| 0 <= p < 65536 ==> #[trigger] cs[p] <= cs[key]
            &&& forall|p: int| 0 <= p < key ==> #[trigger] cs[p] < cs[key]
        }
}

/// The rounds stopped for one of the two reasons the format allows: every
/// byte absent from the block already serves as a code, or no pair's
/// maintained count reaches three.
pub open spec fn greedy_done(used: Seq<bool>, block0: Seq<u8>, ch: Chain) -> bool {
    ||| forall|v: u8| !used[v as int] ==> chain_code(ch, v)
    ||| forall|p: int| 0 <= p < 65536 ==> #[trigger] chain_counts(block0, ch)[p] < min_occurrence()
}

/// The chain's substitutions as a 256-slot table.
pub open spec fn chain_table(ch: Chain) -> crate::bpe_table::Table {
    Seq::new(
        256,
        |v: int|
            if chain_map(ch).dom().contains(v as u8) {
                Some(chain_map(ch)[v as u8])
            } else {
                None
            },
    )
}

/// `enc` is the image of a finished greedy compression of `orig` (whose
/// byte-set flags are `used`): the run-length table encoding, the two-byte
/// length word, and the rewritten block of some chain of greedy rounds run
/// until no code or no eligible pair remained.
#[verifier::opaque]
pub open spec fn block_greedy(enc: Seq<u8>, orig: Seq<u8>, used: Seq<bool>) -> bool {
    exists|gch: Chain|
        {
            &&& #[trigger] greedy_chain(orig, gch)
            &&& wf_chain(used, gch)
            &&& greedy_done(used, orig, gch)
            &&& forall|i: int| 0 <= i < gch.len() - 1 ==> ((#[trigger] gch[i]).0) < gch[i + 1].0
            &&& enc == spec_encode_table(chain_table(gch), 0) + spec_le16(
                chain_blocks(orig, gch).len() as u16,
            ) + chain_blocks(orig, gch)
        }
}

/// Packing two bytes into one count-map key and taking them apart agree.
proof fn lemma_pair_key(x: u8, y: u8)
    ensures
        (x as int * 256 + y as int) / 256 == x as int,
        (x as int * 256 + y as int) % 256 == y as int,
        0 <= x as int * 256 + y as int,
        (x as int * 256 + y as int) < 65536,
{
    assert((x as int * 256 + y as int) / 256 == x as int && (x as int * 256 + y as int) % 256
        == y as int) by (nonlinear_arith)
        requires
            (x as int) >= 0,
            (x as int) < 256,
            (y as int) >= 0,
            (y as int) < 256,
    ;
}

/// Pushing a fresh round onto the chain: well-formedness, the new map,
/// availability, and the code's expansion equation.
#[verifier::rlimit(100)]
proof fn lemma_round_push(used: Seq<bool>, ch: Chain, code: u8, a: u8, b: u8)
    requires
        used.len() == 256,
        wf_chain(used, ch),
        !used[code as int],
        !chain_code(ch, code),
        allowed(used, ch, a),
        allowed(used, ch, b),
        ch.len() <= 255,
    ensures
        ({
            let ch2 = ch.push((code, (a, b)));
            let m2 = chain_map(ch2);
            &&& wf_chain(used, ch2)
            &&& m2 == chain_map(ch).insert(code, (a, b))
            &&& chain_code(ch2, code)
            &&& forall|x: u8| allowed(used, ch, x) ==> #[trigger] allowed(used, ch2, x)
            &&& m2.dom().contains(code) && m2[code] == (a, b)
            &&& spec_flatten(m2, a, flatten_fuel()) is Some
            &&& spec_flatten(m2, b, flatten_fuel()) is Some
            &&& spec_flatten(m2, code, flatten_fuel()) == Some(
                spec_flatten(m2, a, flatten_fuel())->Some_0 + spec_flatten(
                    m2,
                    b,
                    flatten_fuel(),
                )->Some_0,
            )
        }),
{
    let e: ChainEntry = (code, (a, b));
    let ch2 = ch.push(e);
    let m2 = chain_map(ch2);
    assert(wf_chain(used, ch2)) by {
        assert forall|i: int| 0 <= i < ch2.len() implies {
            &&& !used[(#[trigger] ch2[i]).0 as int]
            &&& !chain_code(ch2.take(i), ch2[i].0)
            &&& allowed(used, ch2.take(i), ch2[i].1.0)
            &&& allowed(used, ch2.take(i), ch2[i].1.1)
        } by {
            assert(ch2.take(ch.len() as int) =~= ch);
            if i < ch.len() {
                assert(ch2[i] == ch[i]);
                assert(ch2.take(i) =~= ch.take(i));
            }
        }
    }
    assert(ch2.drop_last() =~= ch);
    assert(m2 == chain_map(ch).insert(code, (a, b)));
    assert(chain_code(ch2, code)) by {
        assert(ch2[ch.len() as int].0 == code);
    }
    assert forall|x: u8| allowed(used, ch, x) implies #[trigger] allowed(used, ch2, x) by {
        if chain_code(ch, x) {
            let i = choose|i: int| 0 <= i < ch.len() && ch[i].0 == x;
            assert(ch2[i].0 == x);
        }
    }
    assert(ch2.take(ch.len() as int) =~= ch);
    lemma_flatten_defined_at(used, ch2, a, 255, ch.len() as int);
    lemma_flatten_defined_at(used, ch2, b, 255, ch.len() as int);
    lemma_flatten_mono(m2, a, 255, flatten_fuel());
    lemma_flatten_mono(m2, b, 255, flatten_fuel());
    lemma_chain_map_at(used, ch2, ch.len() as int);
}

/// A round chosen from the maintained counts extends a greedy chain.
#[verifier::rlimit(100)]
proof fn lemma_greedy_push(orig: Seq<u8>, ch: Chain, e: ChainEntry, cs: Seq<u32>)
    requires
        greedy_chain(orig, ch),
        cs == chain_counts(orig, ch),
        0 <= pair_key(e.1.0, e.1.1) < 65536,
        cs[pair_key(e.1.0, e.1.1)] >= min_occurrence(),
        forall|p: int| 0 <= p < 65536 ==> #[trigger] cs[p] <= cs[pair_key(e.1.0, e.1.1)],
        forall|p: int|
            0 <= p < pair_key(e.1.0, e.1.1) ==> #[trigger] cs[p] < cs[pair_key(e.1.0, e.1.1)],
    ensures
        greedy_chain(orig, ch.push(e)),
{
    let ch2 = ch.push(e);
    assert forall|k: int| 0 <= k < ch2.len() implies {
        let csk = chain_counts(orig, #[trigger] ch2.take(k));
        let key = pair_key(ch2[k].1.0, ch2[k].1.1);
        &&& csk[key] >= min_occurrence()
        &&& forall|p: int| 0 <= p < 65536 ==> #[trigger] csk[p] <= csk[key]
        &&& forall|p: int| 0 <= p < key ==> #[trigger] csk[p] < csk[key]
    } by {
        if k < ch.len() {
            assert(ch2.take(k) =~= ch.take(k));
            assert(ch2[k] == ch[k]);
            assert({
                let csk = chain_counts(orig, ch.take(k));
                let key = pair_key(ch[k].1.0, ch[k].1.1);
                &&& csk[key] >= min_occurrence()
                &&& forall|p: int| 0 <= p < 65536 ==> #[trigger] csk[p] <= csk[key]
                &&& forall|p: int| 0 <= p < key ==> #[trigger] csk[p] < csk[key]
            });
        } else {
            assert(ch2.take(k) =~= ch);
            let csk = chain_counts(orig, ch2.take(k));
            assert(csk == cs);
            let key = pair_key(ch2[k].1.0, ch2[k].1.1);
            assert(csk[key] >= min_occurrence());
            assert forall|p: int| 0 <= p < 65536 implies #[trigger] csk[p] <= csk[key] by {
                assert(cs[p] <= cs[key]);
            }
            assert forall|p: int| 0 <= p < key implies #[trigger] csk[p] < csk[key] by {
                assert(cs[p] < cs[key]);
            }
        }
    }
}

/// Folding one finished round into the chain-level block and count map.
proof fn lemma_round_fold(
    orig: Seq<u8>,
    ch: Chain,
    code: u8,
    a: u8,
    b: u8,
    pre: Seq<u8>,
    cs0: Seq<u32>,
)
    requires
        pre == chain_blocks(orig, ch),
        cs0 == chain_counts(orig, ch),
    ensures
        chain_counts(orig, ch.push((code, (a, b)))) == scan_counts(
            pre,
            a,
            b,
            code,
            None,
            cs0,
        ).update(pair_key(a, b), 0u32),
        chain_blocks(orig, ch.push((code, (a, b)))) == replace_pairs(pre, a, b, code),
{
    let ch2 = ch.push((code, (a, b)));
    assert(ch2.drop_last() =~= ch);
}

/// The code cursor facts carried across one round: codes stay below the
/// cursor, stay strictly ascending, and every smaller absent byte already
/// serves as a code.
proof fn lemma_round_order(used: Seq<bool>, ch: Chain, code: u8, a: u8, b: u8, cur: int)
    requires
        used.len() == 256,
        code as int == cur,
        0 <= cur <= 255,
        !used[cur],
        forall|i: int| 0 <= i < ch.len() ==> ((#[trigger] ch[i]).0 as int) < cur,
        forall|v: int| 0 <= v < cur && !(#[trigger] used[v]) ==> chain_code(ch, v as u8),
        forall|i: int| 0 <= i < ch.len() - 1 ==> ((#[trigger] ch[i]).0) < ch[i + 1].0,
    ensures
        ({
            let ch2 = ch.push((code, (a, b)));
            &&& forall|i: int| 0 <= i < ch2.len() ==> ((#[trigger] ch2[i]).0 as int) < cur + 1
            &&& forall|v: int|
                0 <= v < cur + 1 && !(#[trigger] used[v]) ==> chain_code(ch2, v as u8)
            &&& forall|i: int| 0 <= i < ch2.len() - 1 ==> ((#[trigger] ch2[i]).0) < ch2[i + 1].0
        }),
{
    let ch2 = ch.push((code, (a, b)));
    assert forall|i: int| 0 <= i < ch2.len() implies ((#[trigger] ch2[i]).0 as int) < cur + 1 by {
        if i < ch.len() {
            assert(ch2[i] == ch[i]);
        }
    }
    assert forall|v: int| 0 <= v < cur + 1 && !(#[trigger] used[v]) implies chain_code(
        ch2,
        v as u8,
    ) by {
        if v < cur {
            assert(chain_code(ch, v as u8));
            let i = choose|i: int| 0 <= i < ch.len() && ch[i].0 == v as u8;
            assert(ch2[i].0 == v as u8);
        } else {
            assert(v == cur && ch2[ch.len() as int].0 == code);
        }
    }
    assert forall|i: int| 0 <= i < ch2.len() - 1 implies ((#[trigger] ch2[i]).0) < ch2[i + 1].0 by {
        if i < ch.len() - 1 {
            assert(ch2[i] == ch[i] && ch2[i + 1] == ch[i + 1]);
        } else {
            assert(ch2[i] == ch[i]);
            assert((ch[i].0 as int) < cur);
            assert(ch2[i + 1].0 == code);
        }
    }
}

/// One greedy rewrite pass: replaces every forward occurrence of `a b`
/// with `code` in place and keeps the pair counts maintained across the
/// rewrite, exactly as `scan_counts` describes.
#[verifier::rlimit(100)]
fn rewrite_block(
    block: &mut Vec<u8>,
    counts: &mut Vec<u32>,
    a: u8,
    b: u8,
    code: u8,
    Ghost(used): Ghost<Seq<bool>>,
    Ghost(ch2): Ghost<Chain>,
)
    requires
        old(counts)@.len() == 65536,
        old(block)@.len() <= 4096,
        used.len() == 256,
        chain_code(ch2, code),
        forall|i: int|
            0 <= i < old(block)@.len() ==> allowed(used, ch2, #[trigger] old(block)@[i]),
        counts_ok(old(counts)@, used, ch2),
    ensures
        final(block)@ == replace_pairs(old(block)@, a, b, code),
        final(block)@.len() <= old(block)@.len(),
        final(counts)@ == scan_counts(old(block)@, a, b, code, None, old(counts)@),
        final(counts)@.len() == 65536,
        counts_ok(final(counts)@, used, ch2),
        forall|i: int|
            0 <= i < final(block)@.len() ==> allowed(used, ch2, #[trigger] final(block)@[i]),
{
    let len = block.len();
    let ghost pre: Seq<u8> = block@;
    let ghost cs0: Seq<u32> = counts@;
    let mut w: usize = 0;
    let mut r: usize = 0;
    proof {
        assert(pre.skip(0) =~= pre);
        assert(block@.subrange(0, 0) =~= Seq::<u8>::empty());
        assert(replace_pairs(pre, a, b, code) =~= block@.subrange(0, 0) + replace_pairs(
            pre.skip(0),
            a,
            b,
            code,
        ));
    }
    while r + 1 < len
        invariant
            used.len() == 256,
            counts@.len() == 65536,
            len <= 4096,
            len == block@.len(),
            len == pre.len(),
            w <= r <= len,
            block@.subrange(r as int, len as int) == pre.subrange(r as int, len as int),
            replace_pairs(pre, a, b, code) == block@.subrange(0, w as int) + replace_pairs(
                pre.skip(r as int),
                a,
                b,
                code,
            ),
            scan_counts(
                pre.skip(r as int),
                a,
                b,
                code,
                if w > 0 {
                    Some(block@[w - 1])
                } else {
                    None
                },
                counts@,
            ) == scan_counts(pre, a, b, code, None, cs0),
            forall|i: int|
                0 <= i < block@.len() ==> allowed(used, ch2, #[trigger] block@[i]),
            counts_ok(counts@, used, ch2),
            chain_code(ch2, code),
        decreases len - r,
    {
        let ghost blk0 = block@;
        let ghost cs_in: Seq<u32> = counts@;
        let ghost left_in: Option<u8> = if w > 0 {
            Some(block@[w - 1])
        } else {
            None
        };
        if block[r] == a && block[r + 1] == b {
            if w > 0 {
                let prev = block[w - 1];
                let k1 = prev as usize * 256 + a as usize;
                proof {
                    lemma_pair_key(prev, a);
                }
                drop_count(counts, k1);
                let k2 = prev as usize * 256 + code as usize;
                proof {
                    lemma_pair_key(prev, code);
                }
                bump_count(counts, k2);
            }
            if r + 2 < len {
                let nxt = block[r + 2];
                let k3 = b as usize * 256 + nxt as usize;
                proof {
                    lemma_pair_key(b, nxt);
                }
                drop_count(counts, k3);
                let k4 = code as usize * 256 + nxt as usize;
                proof {
                    lemma_pair_key(code, nxt);
                }
                bump_count(counts, k4);
            }
            block.set(w, code);
            proof {
                let tail = pre.skip(r as int);
                assert(tail[0] == pre[r as int]);
                assert(tail[1] == pre[r + 1]);
                assert(pre.subrange(r as int, len as int)[0] == pre[r as int]);
                assert(blk0.subrange(r as int, len as int)[0] == blk0[r as int]);
                assert(pre.subrange(r as int, len as int)[1] == pre[r + 1]);
                assert(blk0.subrange(r as int, len as int)[1] == blk0[r + 1]);
                assert(pre[r as int] == blk0[r as int] && pre[r + 1] == blk0[r + 1]);
                assert(tail.len() >= 2 && tail[0] == a && tail[1] == b);
                assert(tail.skip(2) =~= pre.skip(r + 2));
                assert(replace_pairs(tail, a, b, code) == seq![code] + replace_pairs(
                    pre.skip(r + 2),
                    a,
                    b,
                    code,
                ));
                assert(block@.subrange(0, w + 1) =~= blk0.subrange(0, w as int) + seq![code]);
                assert(block@.subrange(r + 2, len as int) =~= pre.subrange(r + 2, len as int));
                assert(replace_pairs(pre, a, b, code) =~= block@.subrange(0, w + 1)
                    + replace_pairs(pre.skip(r + 2), a, b, code)) by {
                    assert(blk0.subrange(0, w as int) + (seq![code] + replace_pairs(
                        pre.skip(r + 2),
                        a,
                        b,
                        code,
                    )) =~= (blk0.subrange(0, w as int) + seq![code]) + replace_pairs(
                        pre.skip(r + 2),
                        a,
                        b,
                        code,
                    ));
                }
                // the count updates are exactly one scan step
                let cs1 = match left_in {
                    Some(l) => counts_bump(
                        counts_drop(cs_in, pair_key(l, a)),
                        pair_key(l, code),
                    ),
                    None => cs_in,
                };
                let cs2 = if tail.len() >= 3 {
                    counts_bump(counts_drop(cs1, pair_key(b, pre[r + 2])), pair_key(
                        code,
                        pre[r + 2],
                    ))
                } else {
                    cs1
                };
                assert(tail.len() >= 3 <==> r + 2 < len);
                if tail.len() >= 3 {
                    assert(tail[2] == pre[r + 2]);
                    assert(pre.subrange(r as int, len as int)[2] == pre[r + 2]);
                    assert(blk0.subrange(r as int, len as int)[2] == blk0[r + 2]);
                }
                assert(counts@ == cs2);
                assert(scan_counts(tail, a, b, code, left_in, cs_in) == scan_counts(
                    tail.skip(2),
                    a,
                    b,
                    code,
                    Some(code),
                    cs2,
                ));
                assert(tail.skip(2) =~= pre.skip(r + 2));
                assert(scan_counts(pre.skip(r + 2), a, b, code, Some(code), counts@)
                    == scan_counts(pre, a, b, code, None, cs0));
                assert(block@[w as int] == code);
            }
            w = w + 1;
            r = r + 2;
        } else {
            let cur = block[r];
            block.set(w, cur);
            proof {
                let tail = pre.skip(r as int);
                assert(tail[0] == pre[r as int]);
                assert(pre.subrange(r as int, len as int)[0] == pre[r as int]);
                assert(blk0.subrange(r as int, len as int)[0] == blk0[r as int]);
                assert(pre[r as int] == blk0[r as int]);
                assert(tail.len() >= 2);
                assert(pre.subrange(r as int, len as int)[1] == pre[r + 1]);
                assert(blk0.subrange(r as int, len as int)[1] == blk0[r + 1]);
                assert(tail[1] == pre[r + 1] && pre[r + 1] == blk0[r + 1]);
                assert(!(tail[0] == a && tail[1] == b));
                assert(tail.skip(1) =~= pre.skip(r + 1));
                assert(replace_pairs(tail, a, b, code) == seq![cur] + replace_pairs(
                    pre.skip(r + 1),
                    a,
                    b,
                    code,
                ));
                assert(block@.subrange(0, w + 1) =~= blk0.subrange(0, w as int) + seq![cur]);
                assert(block@.subrange(r + 1, len as int) =~= pre.subrange(r + 1, len as int));
                assert(replace_pairs(pre, a, b, code) =~= block@.subrange(0, w + 1)
                    + replace_pairs(pre.skip(r + 1), a, b, code)) by {
                    assert(blk0.subrange(0, w as int) + (seq![cur] + replace_pairs(
                        pre.skip(r + 1),
                        a,
                        b,
                        code,
                    )) =~= (blk0.subrange(0, w as int) + seq![cur]) + replace_pairs(
                        pre.skip(r + 1),
                        a,
                        b,
                        code,
                    ));
                }
                // a copied byte is one scan step that changes no count
                assert(scan_counts(tail, a, b, code, left_in, cs_in) == scan_counts(
                    tail.skip(1),
                    a,
                    b,
                    code,
                    Some(tail[0]),
                    cs_in,
                ));
                assert(tail.skip(1) =~= pre.skip(r + 1));
                assert(counts@ == cs_in);
                assert(scan_counts(pre.skip(r + 1), a, b, code, Some(pre[r as int]), counts@)
                    == scan_counts(pre, a, b, code, None, cs0));
                assert(block@[w as int] == pre[r as int]);
            }
            w = w + 1;
            r = r + 1;
        }
    }
    proof {
        // what remains of the scan changes no count
        if r < len {
            let tail = pre.skip(r as int);
            assert(tail.len() == 1);
            assert(scan_counts(
                tail,
                a,
                b,
                code,
                if w > 0 {
                    Some(block@[w - 1])
                } else {
                    None
                },
                counts@,
            ) == scan_counts(tail.skip(1), a, b, code, Some(tail[0]), counts@));
            assert(tail.skip(1).len() == 0);
            assert(scan_counts(tail.skip(1), a, b, code, Some(tail[0]), counts@) == counts@);
        } else {
            assert(pre.skip(r as int).len() == 0);
        }
        assert(counts@ == scan_counts(pre, a, b, code, None, cs0));
    }
    if r < len {
        let ghost blk0 = block@;
        let cur = block[r];
        block.set(w, cur);
        proof {
            let tail = pre.skip(r as int);
            assert(tail.len() == 1);
            assert(pre.subrange(r as int, len as int)[0] == pre[r as int]);
            assert(blk0.subrange(r as int, len as int)[0] == blk0[r as int]);
            assert(tail[0] == pre[r as int] && pre[r as int] == blk0[r as int]);
            assert(tail.skip(1) =~= Seq::<u8>::empty());
            assert(replace_pairs(Seq::<u8>::empty(), a, b, code) == Seq::<u8>::empty());
            assert(replace_pairs(tail, a, b, code) == seq![cur] + Seq::<u8>::empty());
            assert(block@.subrange(0, w + 1) =~= blk0.subrange(0, w as int) + seq![cur]);
            assert(replace_pairs(pre, a, b, code) =~= block@.subrange(0, w + 1)) by {
                assert(blk0.subrange(0, w as int) + (seq![cur] + Seq::<u8>::empty()) =~= (
                blk0.subrange(0, w as int) + seq![cur]));
            }
        }
        w = w + 1;
        r = r + 1;
    } else {
        proof {
            assert(r == len);
            assert(pre.skip(len as int) =~= Seq::<u8>::empty());
            assert(replace_pairs(Seq::<u8>::empty(), a, b, code) == Seq::<u8>::empty());
            assert(replace_pairs(pre, a, b, code) =~= block@.subrange(0, w as int));
        }
    }
    let ghost before_trunc = block@;
    block.truncate(w);
    proof {
        assert(block@ == before_trunc.subrange(0, w as int));
        assert(block@ == replace_pairs(pre, a, b, code));
        // the rewritten block only holds available bytes
        assert forall|i: int| 0 <= i < block@.len() implies allowed(
            used,
            ch2,
            #[trigger] block@[i],
        ) by {
            assert(block@[i] == before_trunc[i]);
        }
        assert(block@.len() <= pre.len());
    }
}

/// Compresses one block by greedy pair substitution: repeatedly assign the
/// smallest free byte value as a code for the currently most frequent pair,
/// rewrite the block in place, and keep the pair counts up to date across
/// the rewrite; then emit the substitution table, the rewritten length, and
/// the rewritten bytes.
///
/// The output is a self-contained block encoding of the input
/// (`block_encodes`); its table carries only codes outside the block's
/// original byte set, taken ascending from the smallest absent bytes, with
/// no self-referencing pair and no cycle; and the whole image is the table
/// encoding, the length word, and the rewritten block of a greedy
/// substitution chain whose every round picked a pair counted at least
/// three times, maximal, ties to the smallest pair.
pub fn compress_block(block: Vec<u8>, used_bytes: &Vec<bool>) -> (result: Vec<u8>)
    requires
        used_bytes@.len() == 256,
        block@.len() <= max_block_size(),
        forall|j: int| 0 <= j < block@.len() ==> used_bytes@[(#[trigger] block@[j]) as int],
    ensures
        block_encodes(result@, block@),
        3 <= result@.len() <= 4866,
        ({
            let parsed = spec_parse_runs(result@, 0, 0, Map::empty());
            &&& parsed is Some
            &&& forall|b: u8|
                #[trigger] parsed->Some_0.0.dom().contains(b) ==> !used_bytes@[b as int]
            &&& forall|b: u8|
                #[trigger] parsed->Some_0.0.dom().contains(b) ==> parsed->Some_0.0[b].0 != b
                    && parsed->Some_0.0[b].1 != b
            &&& forall|b: u8| #[trigger] spec_flatten(parsed->Some_0.0, b, flatten_fuel()) is Some
            &&& forall|v: u8, c: u8|
                !(#[trigger] used_bytes@[v as int]) && #[trigger] parsed->Some_0.0.dom().contains(
                    c,
                ) && v < c ==> parsed->Some_0.0.dom().contains(v)
        }),
        block_greedy(result@, block@, used_bytes@),
{
    let ghost orig: Seq<u8> = block@;
    let mut block = block;
    // pair counts, one slot per ordered byte pair
    let mut counts: Vec<u32> = Vec::new();
    let mut fill: usize = 0;
    while fill < 65536
        invariant
            fill <= 65536,
            counts@.len() == fill,
            forall|k: int| 0 <= k < fill ==> counts@[k] == 0,
        decreases 65536 - fill,
    {
        counts.push(0);
        fill = fill + 1;
    }
    let ghost mut ch: Chain = Seq::empty();
    proof {
        assert(chain_map(ch) =~~= Map::<u8, (u8, u8)>::empty());
        lemma_expand_id(orig);
        assert(wf_chain(used_bytes@, ch));
        assert(counts_ok(counts@, used_bytes@, ch));
        assert(forall|j: int| 0 <= j < block@.len() ==> allowed(used_bytes@, ch, #[trigger] block@[j]));
    }
    // count the forward windows
    proof {
        assert(counts@ =~= Seq::new(65536, |k: int| 0u32));
        assert(counts@ == win_counts(orig.take(if 1 <= orig.len() {
            1int
        } else {
            orig.len() as int
        })));
    }
    let mut j: usize = 0;
    while j + 1 < block.len()
        invariant
            counts@.len() == 65536,
            block@ == orig,
            block@.len() <= 4096,
            used_bytes@.len() == 256,
            forall|i: int| 0 <= i < block@.len() ==> used_bytes@[(#[trigger] block@[i]) as int],
            counts_ok(counts@, used_bytes@, ch),
            ch == Seq::<ChainEntry>::empty(),
            j <= block@.len(),
            counts@ == win_counts(orig.take(if j + 1 <= orig.len() {
                j + 1
            } else {
                orig.len() as int
            })),
        decreases block@.len() - j,
    {
        let k = block[j] as usize * 256 + block[j + 1] as usize;
        proof {
            lemma_pair_key(block@[j as int], block@[j + 1]);
        }
        bump_count(&mut counts, k);
        proof {
            let pre = orig.take(j + 1);
            let now = orig.take(j + 2);
            assert(now.drop_last() =~= pre);
            assert(now[now.len() - 2] == orig[j as int] && now[now.len() - 1] == orig[j + 1]);
            assert(counts@ == counts_bump(win_counts(pre), pair_key(orig[j as int], orig[j + 1])));
            assert(counts@ == win_counts(now));
        }
        j = j + 1;
    }
    proof {
        if orig.len() >= 2 {
            assert(j + 1 >= orig.len() && j <= orig.len());
            assert(orig.take(if j + 1 <= orig.len() {
                j + 1
            } else {
                orig.len() as int
            }) =~= orig);
        } else {
            assert(win_counts(orig) =~= counts@) by {
                assert(orig.take(if j + 1 <= orig.len() {
                    j + 1
                } else {
                    orig.len() as int
                }) =~= orig.take(orig.len() as int));
                assert(orig.take(orig.len() as int) =~= orig);
            }
        }
        assert(counts@ == win_counts(orig));
        assert(chain_counts(orig, ch) == win_counts(orig));
        assert(chain_blocks(orig, ch) == orig);
    }
    // substitution rounds
    let mut tbl: Vec<Option<(u8, u8)>> = Vec::new();
    let mut fill2: usize = 0;
    while fill2 < 256
        invariant
            fill2 <= 256,
            tbl@.len() == fill2,
            forall|i: int| 0 <= i < fill2 ==> tbl@[i] is None,
        decreases 256 - fill2,
    {
        tbl.push(None);
        fill2 = fill2 + 1;
    }
    proof {
        assert(tbl_map(tbl@) =~~= chain_map(ch));
    }
    let mut cand: u16 = 0;
    loop
        invariant_except_break
            used_bytes@.len() == 256,
            tbl@.len() == 256,
            counts@.len() == 65536,
            0 <= cand <= 256,
            orig.len() <= max_block_size(),
            block@.len() <= orig.len(),
            wf_chain(used_bytes@, ch),
            ch.len() <= cand,
            forall|i: int| 0 <= i < ch.len() ==> ((#[trigger] ch[i]).0 as int) < cand,
            forall|v: int|
                0 <= v < cand && !(#[trigger] used_bytes@[v]) ==> chain_code(ch, v as u8),
            counts@ == chain_counts(orig, ch),
            block@ == chain_blocks(orig, ch),
            greedy_chain(orig, ch),
            forall|i: int| 0 <= i < ch.len() - 1 ==> ((#[trigger] ch[i]).0) < ch[i + 1].0,
            tbl_map(tbl@) == chain_map(ch),
            table_ok(tbl@),
            forall|i: int|
                0 <= i < block@.len() ==> allowed(used_bytes@, ch, #[trigger] block@[i]),
            counts_ok(counts@, used_bytes@, ch),
            spec_expand(chain_map(ch), block@) == Some(orig),
        ensures
            used_bytes@.len() == 256,
            tbl@.len() == 256,
            block@.len() <= orig.len(),
            ch.len() <= 256,
            wf_chain(used_bytes@, ch),
            tbl_map(tbl@) == chain_map(ch),
            table_ok(tbl@),
            spec_expand(chain_map(ch), block@) == Some(orig),
            forall|v: u8, c: u8|
                !(#[trigger] used_bytes@[v as int]) && #[trigger] chain_code(ch, c) && v
                    < c ==> chain_code(ch, v),
            block@ == chain_blocks(orig, ch),
            greedy_chain(orig, ch),
            greedy_done(used_bytes@, orig, ch),
            forall|i: int| 0 <= i < ch.len() - 1 ==> ((#[trigger] ch[i]).0) < ch[i + 1].0,
        decreases 256 - cand,
    {
        if cand > 255 {
            proof {
                assert forall|v: u8, c: u8|
                    !(#[trigger] used_bytes@[v as int]) && #[trigger] chain_code(ch, c) && v
                        < c implies chain_code(ch, v) by {
                    let i = choose|i: int| 0 <= i < ch.len() && ch[i].0 == c;
                    assert((ch[i].0 as int) < cand);
                    assert((v as int) < cand);
                }
                assert forall|v: u8| !used_bytes@[v as int] implies chain_code(ch, v) by {
                    assert((v as int) < cand);
                }
                assert(greedy_done(used_bytes@, orig, ch));
            }
            break ;
        }
        if used_bytes[cand as usize] {
            cand = cand + 1;
            continue ;
        }
        let sel = select_pair(&counts);
        let (a, b) = match sel {
            None => {
                proof {
                    assert forall|v: u8, c: u8|
                        !(#[trigger] used_bytes@[v as int]) && #[trigger] chain_code(ch, c) && v
                            < c implies chain_code(ch, v) by {
                        let i = choose|i: int| 0 <= i < ch.len() && ch[i].0 == c;
                        assert((ch[i].0 as int) < cand);
                        assert((v as int) < cand);
                    }
                    assert forall|p: int| 0 <= p < 65536 implies #[trigger] chain_counts(
                        orig,
                        ch,
                    )[p] < min_occurrence() by {
                        assert(counts@[p] < min_occurrence());
                    }
                    assert(greedy_done(used_bytes@, orig, ch));
                }
                break ;
            },
            Some(p) => p,
        };
        let code: u8 = cand as u8;
        let ghost e: ChainEntry = (code, (a, b));
        let ghost ch2: Chain = ch.push(e);
        let ghost m2 = chain_map(ch2);
        proof {
            lemma_pair_key(a, b);
            assert(counts@[a as int * 256 + b as int] >= 3);
            assert(allowed(used_bytes@, ch, a) && allowed(used_bytes@, ch, b));
            // the new round is well-formed
            assert(!chain_code(ch, code)) by {
                if chain_code(ch, code) {
                    let i = choose|i: int| 0 <= i < ch.len() && ch[i].0 == code;
                    assert((ch[i].0 as int) < cand);
                }
            }
            lemma_round_push(used_bytes@, ch, code, a, b);
            // the new round is itself greedy
            assert(pair_key(a, b) == a as int * 256 + b as int);
            lemma_greedy_push(orig, ch, e, counts@);
            lemma_round_order(used_bytes@, ch, code, a, b, cand as int);
            // the block still expands to the original under the new map
            lemma_expand_preserved(used_bytes@, ch, e, block@);
        }
        // install the table entry
        let ghost tbl0 = tbl@;
        tbl.set(cand as usize, Some((a, b)));
        proof {
            assert(tbl_map(tbl@) =~~= m2);
            assert(table_ok(tbl@)) by {
                assert forall|v: int|
                    0 <= v < 256 && (#[trigger] tbl@[v]) is Some implies tbl@[v]->Some_0.0
                    != v by {
                    if v != cand {
                        assert(tbl@[v] == tbl0[v]);
                    } else {
                        // the pair's first byte was available before this
                        // round, the code was not
                        if a == code {
                            assert(!used_bytes@[code as int]);
                            assert(!chain_code(ch, code));
                        }
                    }
                }
            }
        }
        let ghost pre: Seq<u8> = block@;
        let ghost cs0: Seq<u32> = counts@;
        rewrite_block(&mut block, &mut counts, a, b, code, Ghost(used_bytes@), Ghost(ch2));
        proof {
            lemma_expand_replace(m2, pre, a, b, code);
            assert(spec_expand(m2, block@) == Some(orig));
        }
        // the replaced pair can no longer be counted
        let kab = a as usize * 256 + b as usize;
        proof {
            lemma_pair_key(a, b);
        }
        let ghost counts0 = counts@;
        counts.set(kab, 0);
        proof {
            assert(counts_ok(counts@, used_bytes@, ch2)) by {
                assert forall|k: int| 0 <= k < 65536 && #[trigger] counts@[k] > 0 implies allowed(
                    used_bytes@,
                    ch2,
                    (k / 256) as u8,
                ) && allowed(used_bytes@, ch2, (k % 256) as u8) by {
                    if k != kab {
                        assert(counts@[k] == counts0[k]);
                    }
                }
            }
            // this round's block and count map are the chain's
            lemma_round_fold(orig, ch, code, a, b, pre, cs0);
            assert(counts@ =~= counts0.update(kab as int, 0u32));
            assert(kab as int == pair_key(a, b));
            assert(counts@ == chain_counts(orig, ch2));
            assert(block@ == chain_blocks(orig, ch2));
            ch = ch2;
        }
        cand = cand + 1;
    }
    // emit: table, data length, data
    let ghost t = tbl@;
    let ghost m = chain_map(ch);
    let mut result: Vec<u8> = Vec::new();
    encode_table(&tbl, &mut result);
    let ghost enc = spec_encode_table(t, 0);
    proof {
        assert(result@ =~= enc);
        lemma_encode_table_len(t, 0);
    }
    let dlen16: u16 = block.len() as u16;
    push_le16(&mut result, dlen16);
    let ghost data: Seq<u8> = block@;
    let mut tail_data = block;
    result.append(&mut tail_data);
    proof {
        assert(result@ == enc + spec_le16(dlen16) + data);
        assert(block@.len() <= orig.len());
        lemma_compress_post(used_bytes@, orig, ch, t, data, result@, dlen16);
    }
    result
}

/// Everything the emitted bytes promise: the block decodes anywhere back
/// to its source, and the table read out of them carries only fresh codes,
/// no self-referencing pairs, no cycles, the smallest absent bytes as
/// codes, and a greedy chain behind it.
#[verifier::rlimit(100)]
proof fn lemma_compress_post(
    used: Seq<bool>,
    orig: Seq<u8>,
    ch: Chain,
    t: crate::bpe_table::Table,
    data: Seq<u8>,
    rbytes: Seq<u8>,
    dlen16: u16,
)
    requires
        used.len() == 256,
        t.len() == 256,
        table_ok(t),
        tbl_map(t) == chain_map(ch),
        wf_chain(used, ch),
        ch.len() <= 256,
        forall|v: u8, c: u8|
            !(#[trigger] used[v as int]) && #[trigger] chain_code(ch, c) && v < c ==> chain_code(
                ch,
                v,
            ),
        greedy_chain(orig, ch),
        greedy_done(used, orig, ch),
        forall|i: int| 0 <= i < ch.len() - 1 ==> ((#[trigger] ch[i]).0) < ch[i + 1].0,
        data == chain_blocks(orig, ch),
        spec_expand(chain_map(ch), data) == Some(orig),
        data.len() <= orig.len(),
        orig.len() <= 4096,
        dlen16 as int == data.len() as int,
        rbytes == spec_encode_table(t, 0) + spec_le16(dlen16) + data,
    ensures
        block_encodes(rbytes, orig),
        3 <= rbytes.len() <= 4866,
        ({
            let parsed = spec_parse_runs(rbytes, 0, 0, Map::empty());
            &&& parsed is Some
            &&& forall|b: u8| #[trigger] parsed->Some_0.0.dom().contains(b) ==> !used[b as int]
            &&& forall|b: u8|
                #[trigger] parsed->Some_0.0.dom().contains(b) ==> parsed->Some_0.0[b].0 != b
                    && parsed->Some_0.0[b].1 != b
            &&& forall|b: u8| #[trigger] spec_flatten(parsed->Some_0.0, b, flatten_fuel()) is Some
            &&& forall|v: u8, c: u8|
                !(#[trigger] used[v as int]) && #[trigger] parsed->Some_0.0.dom().contains(c) && v
                    < c ==> parsed->Some_0.0.dom().contains(v)
        }),
        block_greedy(rbytes, orig, used),
{
    let m = chain_map(ch);
    let enc = spec_encode_table(t, 0);
    lemma_encode_table_len(t, 0);
    lemma_le16_round_trip(dlen16);
    assert(rbytes == enc + spec_le16(dlen16) + data);
    assert(spec_le16_val(spec_le16(dlen16)[0], spec_le16(dlen16)[1]) == data.len());
    assert(map_from(t, 0) =~~= tbl_map(t));
    assert(Map::<u8, (u8, u8)>::empty().union_prefer_right(map_from(t, 0)) =~~= m);
    let total: int = rbytes.len() as int;
    assert(total == enc.len() + 2 + data.len());
    assert forall|s: Seq<u8>, pos: int|
        0 <= pos && pos + total <= s.len() && s.subrange(pos, pos + total)
            == rbytes implies #[trigger] spec_decode_block(s, pos) == Some(
        (orig, pos + total),
    ) by {
        assert forall|i: int| 0 <= i < total implies #[trigger] s[pos + i] == rbytes[i] by {
            assert(s.subrange(pos, pos + total)[i] == s[pos + i]);
        }
        assert(s.subrange(pos, pos + enc.len() as int) =~= enc) by {
            assert forall|i: int| 0 <= i < enc.len() implies #[trigger] s.subrange(
                pos,
                pos + enc.len() as int,
            )[i] == enc[i] by {
                assert(s[pos + i] == rbytes[i]);
                assert(rbytes[i] == enc[i]);
            }
        }
        lemma_parse_encode(t, s, pos, 0, Map::empty());
        assert(spec_parse_runs(s, pos, 0, Map::empty()) == Some((m, pos + enc.len())));
        let p1 = pos + enc.len() as int;
        assert(s[p1] == spec_le16(dlen16)[0]) by {
            assert(rbytes[enc.len() as int] == spec_le16(dlen16)[0]);
        }
        assert(s[p1 + 1] == spec_le16(dlen16)[1]) by {
            assert(rbytes[enc.len() as int + 1] == spec_le16(dlen16)[1]);
        }
        assert(spec_le16_val(s[p1], s[p1 + 1]) == data.len());
        assert(s.subrange(p1 + 2, pos + total) =~= data) by {
            assert forall|i: int| 0 <= i < data.len() implies #[trigger] s.subrange(
                p1 + 2,
                pos + total,
            )[i] == data[i] by {
                assert(s[pos + (enc.len() + 2 + i)] == rbytes[enc.len() as int + 2 + i]);
                assert(rbytes[enc.len() as int + 2 + i] == data[i]);
            }
        }
        assert(spec_expand(m, s.subrange(p1 + 2, pos + total)) == Some(orig));
        assert(spec_decode_block(s, pos) == Some((orig, pos + total)));
    }
    assert(block_encodes(rbytes, orig));
    // the table's codes avoid the block's original bytes
    assert(rbytes.subrange(0, enc.len() as int) =~= enc) by {
        assert forall|i: int| 0 <= i < enc.len() implies #[trigger] rbytes.subrange(
            0,
            enc.len() as int,
        )[i] == enc[i] by {
            assert(rbytes[i] == enc[i]);
        }
    }
    lemma_parse_encode(t, rbytes, 0, 0, Map::empty());
    assert(spec_parse_runs(rbytes, 0, 0, Map::empty()) == Some((m, enc.len() as int)));
    lemma_chain_map_dom(ch);
    assert forall|bb: u8| #[trigger] m.dom().contains(bb) implies !used[bb as int] by {
        assert(chain_code(ch, bb));
        let i = choose|i: int| 0 <= i < ch.len() && ch[i].0 == bb;
        assert(!used[ch[i].0 as int]);
    }
    // a code never appears inside its own pair
    assert forall|bb: u8| #[trigger] m.dom().contains(bb) implies m[bb].0 != bb && m[bb].1
        != bb by {
        assert(chain_code(ch, bb));
        let i = choose|i: int| 0 <= i < ch.len() && ch[i].0 == bb;
        lemma_chain_map_at(used, ch, i);
        assert(allowed(used, ch.take(i), ch[i].1.0));
        assert(allowed(used, ch.take(i), ch[i].1.1));
        assert(!used[bb as int]);
        assert(!chain_code(ch.take(i), ch[i].0));
    }
    // the emitted table is acyclic: every byte flattens
    assert(ch.take(ch.len() as int) =~= ch);
    assert forall|bb: u8| #[trigger] spec_flatten(m, bb, flatten_fuel()) is Some by {
        if m.dom().contains(bb) {
            assert(chain_code(ch, bb));
            lemma_flatten_defined_at(used, ch, bb, flatten_fuel(), ch.len() as int);
        }
    }
    // codes are the smallest bytes absent from the block
    assert forall|v: u8, c: u8|
        !(#[trigger] used[v as int]) && #[trigger] m.dom().contains(c) && v
            < c implies m.dom().contains(v) by {
        assert(chain_code(ch, c));
        assert(chain_code(ch, v));
    }
    // the witness chain pins the whole image
    assert(t =~= chain_table(ch)) by {
        lemma_chain_map_dom(ch);
        assert forall|v: int| 0 <= v < 256 implies t[v] == chain_table(ch)[v] by {
            if chain_map(ch).dom().contains(v as u8) {
                assert(tbl_map(t).dom().contains(v as u8));
                assert(t[v] is Some);
                assert(tbl_map(t)[v as u8] == t[v]->Some_0);
            } else {
                assert(!tbl_map(t).dom().contains(v as u8));
                assert(t[v] is None);
            }
        }
    }
    assert(dlen16 == chain_blocks(orig, ch).len() as u16);
    assert(rbytes == spec_encode_table(chain_table(ch), 0) + spec_le16(
        chain_blocks(orig, ch).len() as u16,
    ) + chain_blocks(orig, ch));
    assert(greedy_chain(orig, ch));
    assert(block_greedy(rbytes, orig, used)) by {
        reveal(block_greedy);
    }
}

/// Every flag in an all-false row is off.
pub proof fn lemma_count_all_false(s: Seq<bool>)
    requires
        forall|v: int| 0 <= v < s.len() ==> !s[v],
    ensures
        count_trues(s) == 0,
    decreases s.len(),
{
    if s.len() > 0 {
        lemma_count_all_false(s.drop_last());
    }
}

pub proof fn lemma_concat_take_step(ss: Seq<Seq<u8>>, k: int)
    requires
        0 <= k < ss.len(),
    ensures
        seq_concat(ss.take(k + 1)) == seq_concat(ss.take(k)) + ss[k],
{
    assert(ss.take(k + 1) =~= ss.take(k).push(ss[k]));
    lemma_seq_concat_snoc(ss.take(k), ss[k]);
}

pub proof fn lemma_concat_skip_step(ss: Seq<Seq<u8>>, k: int)
    requires
        0 <= k < ss.len(),
    ensures
        seq_concat(ss.skip(k)) == ss[k] + seq_concat(ss.skip(k + 1)),
{
    assert(ss.skip(k)[0] == ss[k]);
    assert(ss.skip(k).skip(1) =~= ss.skip(k + 1));
}

/// Compresses a byte run into a whole BPE stream: the 16-byte header, then
/// each block's encoding in input order. What comes out decompresses to
/// exactly the input. Inputs of at most 160 MiB always succeed; longer ones
/// are refused only when a 32-bit length field would overflow.
#[verifier::rlimit(100)]
pub fn pack(input: &[u8]) -> (r: Result<Vec<u8>, BpeError>)
    ensures
        r matches Ok(v) ==> spec_decompress(v@) == Some(input@),
        r matches Ok(v) ==> {
            &&& v@.len() >= 16
            &&& v@.subrange(0, 4) == bpe_magic()
            &&& v@.subrange(4, 8) == seq![0u8, 1u8, 0u8, 0u8]
            &&& v@.subrange(8, 12) == spec_le32((v@.len() - 16) as u32)
            &&& v@.subrange(12, 16) == spec_le32(input@.len() as u32)
            &&& bpe_body_blocks(v@.skip(16), input@)
        },
        input@.len() <= 0xA00_0000 ==> r is Ok,
        r == Err::<Vec<u8>, BpeError>(BpeError::InputTooLong) <==> input@.len() > u32::MAX,
        r is Err ==> (r == Err::<Vec<u8>, BpeError>(BpeError::InputTooLong) || r == Err::<
            Vec<u8>,
            BpeError,
        >(BpeError::OutputTooLong)),
{
    if input.len() as u64 > u32::MAX as u64 {
        return Err(BpeError::InputTooLong);
    }
    let mut blocks = split_blocks(input);
    let ghost bs: Seq<Block> = blocks@;
    let ghost bb: Seq<Seq<u8>> = blocks_bytes(bs);
    let ghost n: int = bs.len() as int;
    let mut encs: Vec<Vec<u8>> = Vec::new();
    let ghost mut origs: Seq<Seq<u8>> = Seq::empty();
    let mut total: u64 = 0;
    let ghost mut k: int = 0;
    let ghost mut consumed: int = 0;
    proof {
        assert(origs =~= bb.take(0));
        assert(seq_concat(bb.take(0)) =~= Seq::<u8>::empty());
        assert(blocks@ == bs.skip(0));
        assert(bb.skip(0) =~= bb);
    }
    while blocks.len() > 0
        invariant
            0 <= k <= n,
            n == bs.len(),
            bb == blocks_bytes(bs),
            blocks@ == bs.skip(k),
            forall|j: int| 0 <= j < n ==> block_wf(#[trigger] bs[j]),
            forall|j: int| 0 <= j < n - 1 ==> block_closed(#[trigger] bs[j], bs[j + 1].bytes@[0]),
            origs == bb.take(k),
            encs@.len() == k,
            forall|j: int|
                0 <= j < k ==> block_encodes((#[trigger] encs@[j])@, origs[j]) && encs@[j]@.len()
                    <= 4866,
            forall|j: int|
                0 <= j < k ==> block_greedy((#[trigger] encs@[j])@, origs[j], bs[j].used@),
            total as int == seq_concat(enc_views(encs@)).len(),
            consumed == seq_concat(bb.take(k)).len(),
            consumed + seq_concat(bb.skip(k)).len() == input@.len(),
            input@.len() <= u32::MAX,
            consumed <= input@.len(),
            k < n ==> total as int <= 25 * consumed,
            k == n ==> total as int <= 25 * consumed + 4866,
        decreases blocks@.len(),
    {
        let ghost pre_blocks: Seq<Block> = blocks@;
        let blk = blocks.remove(0);
        proof {
            assert(pre_blocks[0] == bs[k]);
            assert(pre_blocks.remove(0) =~= pre_blocks.skip(1));
            assert(blocks@ =~= bs.skip(k + 1)) by {
                assert forall|i: int| 0 <= i < blocks@.len() implies #[trigger] blocks@[i] == bs.skip(
                    k + 1,
                )[i] by {
                    assert(blocks@[i] == pre_blocks[i + 1]);
                    assert(pre_blocks[i + 1] == bs.skip(k)[i + 1]);
                }
            }
            assert(block_wf(bs[k]));
        }
        let enc = compress_block(blk.bytes, &blk.used);
        let ghost ev = enc@;
        total = total + enc.len() as u64;
        let ghost encs0 = encs@;
        encs.push(enc);
        proof {
            assert(bs[k].bytes@ == bb[k]);
            assert(block_encodes(ev, bb[k]));
            assert(enc_views(encs@) =~= enc_views(encs0).push(ev));
            lemma_seq_concat_snoc(enc_views(encs0), ev);
            origs = origs.push(bb[k]);
            assert(origs =~= bb.take(k + 1));
            lemma_concat_take_step(bb, k);
            lemma_concat_skip_step(bb, k);
            let blen: int = bb[k].len() as int;
            assert(consumed + blen + seq_concat(bb.skip(k + 1)).len() == input@.len());
            // output budget: every block but the last holds at least 200
            // bytes or is full, so its encoding is within 25 bytes per byte
            if k + 1 < n {
                assert(block_closed(bs[k], bs[k + 1].bytes@[0]));
                assert(blen >= 200) by {
                    if bs[k].bytes@.len() != max_block_size() {
                        assert(count_trues(bs[k].used@) == max_normal_byte_num());
                        assert(count_trues(bs[k].used@) <= bs[k].bytes@.len());
                    }
                }
                assert(total as int <= 25 * (consumed + blen)) by {
                    assert(ev.len() <= 4866);
                    assert(25 * (consumed + blen) == 25 * consumed + 25 * blen);
                }
            }
            consumed = consumed + blen;
            k = k + 1;
            assert(forall|j: int|
                0 <= j < k ==> block_encodes((#[trigger] encs@[j])@, origs[j]) && encs@[j]@.len()
                    <= 4866) by {
                assert(forall|j: int| 0 <= j < k - 1 ==> encs@[j] == encs0[j]);
                assert(encs@[k - 1]@ == ev && origs[k - 1] == bb[k - 1]);
            }
            assert(forall|j: int|
                0 <= j < k ==> block_greedy((#[trigger] encs@[j])@, origs[j], bs[j].used@)) by {
                assert(forall|j: int| 0 <= j < k - 1 ==> encs@[j] == encs0[j]);
                assert(block_greedy(ev, bb[k - 1], bs[k - 1].used@));
            }
        }
    }
    proof {
        assert(k == n);
        assert(bb.take(k) =~= bb);
        assert(seq_concat(bb) == input@);
        assert(consumed == input@.len());
        assert(origs == bb);
    }
    if total > u32::MAX as u64 {
        proof {
            assert(input@.len() > 0xA00_0000);
        }
        return Err(BpeError::OutputTooLong);
    }
    let clen: u32 = total as u32;
    let dlen: u32 = input.len() as u32;
    let mut out: Vec<u8> = Vec::new();
    out.push(0x42);
    out.push(0x50);
    out.push(0x45);
    out.push(0x20);
    out.push(0x00);
    out.push(0x01);
    out.push(0x00);
    out.push(0x00);
    crate::util::push_le32(&mut out, clen);
    crate::util::push_le32(&mut out, dlen);
    let ghost header: Seq<u8> = out@;
    proof {
        assert(header.len() == 16);
        assert(header.subrange(0, 4) =~= bpe_magic());
        assert(header[8] == spec_le32(clen)[0] && header[9] == spec_le32(clen)[1] && header[10]
            == spec_le32(clen)[2] && header[11] == spec_le32(clen)[3]);
        assert(header[12] == spec_le32(dlen)[0] && header[13] == spec_le32(dlen)[1] && header[14]
            == spec_le32(dlen)[2] && header[15] == spec_le32(dlen)[3]);
    }
    let mut idx: usize = 0;
    while idx < encs.len()
        invariant
            idx <= encs@.len(),
            header.len() == 16,
            out@ == header + seq_concat(enc_views(encs@).take(idx as int)),
        decreases encs@.len() - idx,
    {
        let ghost out0 = out@;
        let e: &Vec<u8> = &encs[idx];
        out.extend_from_slice(e.as_slice());
        proof {
            lemma_concat_take_step(enc_views(encs@), idx as int);
            assert(enc_views(encs@)[idx as int] == encs@[idx as int]@);
            assert(out@ =~= header + seq_concat(enc_views(encs@).take(idx + 1))) by {
                assert(out@ == out0 + encs@[idx as int]@);
            }
        }
        idx = idx + 1;
    }
    proof {
        assert(enc_views(encs@).take(encs@.len() as int) =~= enc_views(encs@));
    }
    let ghost body: Seq<u8> = seq_concat(enc_views(encs@));
    proof {
        let s = out@;
        assert(s == header + body);
        assert(s.len() == 16 + total);
        assert(s.subrange(0, 4) =~= bpe_magic()) by {
            assert forall|i: int| 0 <= i < 4 implies #[trigger] s.subrange(0, 4)[i] == bpe_magic()[i]
                by {
                assert(s[i] == header[i]);
                assert(header.subrange(0, 4)[i] == header[i]);
            }
        }
        assert(s[8] == spec_le32(clen)[0] && s[9] == spec_le32(clen)[1] && s[10] == spec_le32(
            clen,
        )[2] && s[11] == spec_le32(clen)[3]);
        assert(s[12] == spec_le32(dlen)[0] && s[13] == spec_le32(dlen)[1] && s[14] == spec_le32(
            dlen,
        )[2] && s[15] == spec_le32(dlen)[3]);
        crate::util::lemma_le32_round_trip(clen);
        crate::util::lemma_le32_round_trip(dlen);
        assert(spec_le32_val(s[8], s[9], s[10], s[11]) == clen);
        assert(spec_le32_val(s[12], s[13], s[14], s[15]) == dlen);
        assert(s.subrange(16, s.len() as int) =~= body) by {
            assert forall|i: int| 0 <= i < body.len() implies #[trigger] s.subrange(
                16,
                s.len() as int,
            )[i] == body[i] by {
                assert(s[16 + i] == body[i]);
            }
        }
        lemma_concat_decodes(s, 16, enc_views(encs@), origs);
        assert(spec_decode_blocks(s, 16) == Some(input@));
        assert(spec_decompress(s) == Some(input@)) by {
            assert(!(input@.len() < dlen as int));
        }
        // the output image: fixed header fields and the greedy block row
        assert(s.subrange(4, 8) =~= seq![0u8, 1u8, 0u8, 0u8]) by {
            assert forall|i: int| 0 <= i < 4 implies #[trigger] s.subrange(4, 8)[i] == seq![
                0u8,
                1u8,
                0u8,
                0u8,
            ][i] by {
                assert(s[4 + i] == header[4 + i]);
            }
        }
        assert(s.subrange(8, 12) =~= spec_le32(clen));
        assert(s.subrange(12, 16) =~= spec_le32(dlen));
        assert(clen == (s.len() - 16) as u32);
        assert(s.skip(16) =~= body);
        let ghost useds: Seq<Seq<bool>> = Seq::new(bs.len(), |i: int| bs[i].used@);
        assert(blocks_partition(input@, bb, useds)) by {
            assert forall|i: int| 0 <= i < bb.len() implies block_shape_wf(
                #[trigger] bb[i],
                useds[i],
            ) by {
                assert(block_wf(bs[i]));
            }
            assert forall|i: int| 0 <= i < bb.len() - 1 implies block_shape_closed(
                #[trigger] bb[i],
                useds[i],
                bb[i + 1][0],
            ) by {
                assert(block_closed(bs[i], bs[i + 1].bytes@[0]));
            }
        }
        assert(seq_concat(enc_views(encs@)) == body);
        assert forall|i: int| 0 <= i < enc_views(encs@).len() implies block_greedy(
            #[trigger] enc_views(encs@)[i],
            bb[i],
            useds[i],
        ) by {
            assert(block_greedy(encs@[i]@, bb[i], bs[i].used@));
        }
        assert(bpe_body_blocks(body, input@));
    }
    Ok(out)
}

/// The byte runs held by a row of byte vectors.
pub open spec fn enc_views(es: Seq<Vec<u8>>) -> Seq<Seq<u8>> {
    Seq::new(es.len(), |i: int| es[i]@)
}

/// `true` when the first four bytes carry the BPE magic.
pub fn detect_format(prefix: &[u8]) -> (r: bool)
    ensures
        r == (prefix@.len() >= 4 && prefix@.subrange(0, 4) == bpe_magic()),
{
    if prefix.len() < 4 {
        return false;
    }
    let r = prefix[0] == 0x42 && prefix[1] == 0x50 && prefix[2] == 0x45 && prefix[3] == 0x20;
    proof {
        if r {
            assert(prefix@.subrange(0, 4) =~= bpe_magic());
        } else {
            assert(prefix@.subrange(0, 4) != bpe_magic()) by {
                if prefix@.subrange(0, 4) == bpe_magic() {
                    assert(prefix@.subrange(0, 4)[0] == 0x42u8);
                    assert(prefix@.subrange(0, 4)[1] == 0x50u8);
                    assert(prefix@.subrange(0, 4)[2] == 0x45u8);
                    assert(prefix@.subrange(0, 4)[3] == 0x20u8);
                }
            }
        }
    }
    r
}

} // verus!
