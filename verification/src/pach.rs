//! The PACH codec: a flat archive whose filenames are decimal numbers,
//! with 12-byte directory entries holding the number, a data-region-relative
//! offset, and a length; the data region is 4-byte aligned.

use vstd::prelude::*;

use crate::listing::{
    all_digits, digits_val, lemma_digits_val_nonneg, recs_view, sort_by_name, spec_sort, FileRec,
    RecV,
};
use crate::util::{
    copy_range, lemma_le32_round_trip, lemma_pad_mod, pad_len, push_le32, read_le32, spec_le32,
    spec_le32_val, spec_pad_len, write_padding_zeroes, zeros,
};

verus! {

/// Why a PACH operation was refused.
#[derive(Clone, Copy, Debug, PartialEq, Eq, Structural)]
pub enum PachError {
    /// The stream does not start with the PACH magic.
    BadMagic,
    /// The stream ends before its header or entry table does.
    TooShort,
    /// The archive holds no files, or no digit-named files were given.
    NoFiles,
    /// An entry's offset or data range does not fit the stream.
    BadEntry,
    /// A digit-only filename does not hold a 32-bit value.
    BadName,
    /// A length or offset field would overflow 32 bits.
    TooLarge,
}

/// Magic bytes `"PACH"`.
pub open spec fn pach_magic() -> Seq<u8> {
    seq![0x50u8, 0x41u8, 0x43u8, 0x48u8]
}

/// The decimal rendering of a number, most significant digit first and no
/// leading zeros.
pub open spec fn spec_decimal(v: nat) -> Seq<u8>
    decreases v,
{
    if v < 10 {
        seq![(48 + v) as u8]
    } else {
        spec_decimal(v / 10) + seq![(48 + v % 10) as u8]
    }
}

/// Appends the decimal rendering of `v`.
pub fn push_decimal(out: &mut Vec<u8>, v: u32)
    ensures
        final(out)@ == old(out)@ + spec_decimal(v as nat),
    decreases v,
{
    if v < 10 {
        out.push(48 + v as u8);
        proof {
            assert(out@ =~= old(out)@ + spec_decimal(v as nat));
        }
    } else {
        push_decimal(out, v / 10);
        out.push(48 + (v % 10) as u8);
        proof {
            assert(out@ =~= old(out)@ + spec_decimal(v as nat));
        }
    }
}

/// Reads a digit-only name as a 32-bit number; `None` when the name is
/// empty, holds a non-digit, or overflows.
pub fn parse_digits(name: &[u8]) -> (r: Option<u32>)
    ensures
        match r {
            Some(v) => name@.len() >= 1 && all_digits(name@) && digits_val(name@) == v,
            None => !(name@.len() >= 1 && all_digits(name@) && digits_val(name@) <= u32::MAX),
        },
{
    if name.len() == 0 {
        return None;
    }
    let mut i: usize = 0;
    let mut v: u32 = 0;
    while i < name.len()
        invariant
            i <= name@.len(),
            name@.len() >= 1,
            all_digits(name@.subrange(0, i as int)),
            v == digits_val(name@.subrange(0, i as int)),
        decreases name@.len() - i,
    {
        let b = name[i];
        if b < 48 || b > 57 {
            proof {
                assert(!all_digits(name@));
            }
            return None;
        }
        let nv: u64 = v as u64 * 10 + (b - 48) as u64;
        proof {
            assert(name@.subrange(0, i + 1).drop_last() =~= name@.subrange(0, i as int));
            assert(name@.subrange(0, i + 1).last() == name@[i as int]);
            assert(all_digits(name@.subrange(0, i + 1)));
            assert(digits_val(name@.subrange(0, i + 1)) == nv);
        }
        if nv > 0xFFFF_FFFF {
            proof {
                if all_digits(name@) {
                    assert(name@.take(i + 1) =~= name@.subrange(0, i + 1));
                    crate::listing::lemma_digits_val_prefix(name@, i + 1);
                }
            }
            return None;
        }
        v = nv as u32;
        i = i + 1;
    }
    proof {
        assert(name@.subrange(0, i as int) =~= name@);
    }
    Some(v)
}

/// `true` when every byte is an ASCII digit.
pub fn is_all_digits(name: &[u8]) -> (r: bool)
    ensures
        r == all_digits(name@),
{
    let mut i: usize = 0;
    while i < name.len()
        invariant
            i <= name@.len(),
            forall|j: int| 0 <= j < i ==> crate::listing::is_digit(#[trigger] name@[j]),
        decreases name@.len() - i,
    {
        let b = name[i];
        if b < 48 || b > 57 {
            proof {
                assert(!crate::listing::is_digit(name@[i as int]));
            }
            return false;
        }
        i = i + 1;
    }
    true
}

/// The records whose names are digit-only, in their given order.
pub open spec fn digit_filter(s: Seq<RecV>) -> Seq<RecV>
    decreases s.len(),
{
    if s.len() == 0 {
        Seq::empty()
    } else {
        (if all_digits(s[0].0) {
            seq![s[0]]
        } else {
            Seq::empty()
        }) + digit_filter(s.skip(1))
    }
}

/// Where file `i`'s data starts, relative to the data region; index
/// `files.len()` is the data region's total size.
pub open spec fn pach_offset(files: Seq<RecV>, i: int) -> int
    decreases i,
{
    if i <= 0 {
        0
    } else {
        pach_offset(files, i - 1) + files[i - 1].1.len() + spec_pad_len(
            files[i - 1].1.len() as int,
            4,
        )
    }
}

pub proof fn lemma_pach_offset_mono(files: Seq<RecV>, i: int, j: int)
    requires
        0 <= i <= j,
    ensures
        pach_offset(files, i) <= pach_offset(files, j),
    decreases j - i,
{
    if i < j {
        lemma_pach_offset_mono(files, i, j - 1);
    }
}

/// Every file in a PACH archive starts on a 4-byte boundary of the data
/// region.
pub proof fn lemma_pach_offsets_aligned(files: Seq<RecV>, i: int)
    requires
        0 <= i,
    ensures
        pach_offset(files, i) % 4 == 0,
    decreases i,
{
    if i > 0 {
        lemma_pach_offsets_aligned(files, i - 1);
        let l = files[i - 1].1.len() as int;
        lemma_pad_mod(l, 4);
        vstd::arithmetic::div_mod::lemma_add_mod_noop(
            pach_offset(files, i - 1),
            l + spec_pad_len(l, 4),
            4,
        );
    }
}

/// Every name is a number that fits 32 bits.
pub open spec fn pach_names_ok(files: Seq<RecV>) -> bool {
    forall|i: int|
        0 <= i < files.len() ==> {
            let nm = (#[trigger] files[i]).0;
            nm.len() >= 1 && all_digits(nm) && digits_val(nm) <= u32::MAX
        }
}

/// All length fields and the whole archive fit 32 bits.
pub open spec fn pach_sizes_ok(files: Seq<RecV>) -> bool {
    &&& forall|i: int| 0 <= i < files.len() ==> (#[trigger] files[i]).1.len() <= u32::MAX
    &&& 8 + 12 * files.len() + pach_offset(files, files.len() as int) <= u32::MAX
}

/// Entry `i`'s offset stays in 32 bits and its data range in the stream.
pub open spec fn pach_entry_ok(s: Seq<u8>, i: int) -> bool {
    let n = spec_le32_val(s[4], s[5], s[6], s[7]) as int;
    let e = 8 + 12 * i;
    let rel = spec_le32_val(s[e + 4], s[e + 5], s[e + 6], s[e + 7]) as int;
    let flen = spec_le32_val(s[e + 8], s[e + 9], s[e + 10], s[e + 11]) as int;
    &&& rel + 8 + 12 * n <= u32::MAX
    &&& rel + 8 + 12 * n + flen <= s.len()
}

/// The record entry `i` of the stream describes: the decimal rendering of
/// its number, and its data range.
pub open spec fn pach_rec(s: Seq<u8>, i: int) -> RecV {
    let n = spec_le32_val(s[4], s[5], s[6], s[7]) as int;
    let e = 8 + 12 * i;
    let no = spec_le32_val(s[e], s[e + 1], s[e + 2], s[e + 3]);
    let rel = spec_le32_val(s[e + 4], s[e + 5], s[e + 6], s[e + 7]) as int;
    let flen = spec_le32_val(s[e + 8], s[e + 9], s[e + 10], s[e + 11]) as int;
    let abs = rel + 8 + 12 * n;
    (spec_decimal(no as nat), s.subrange(abs, abs + flen))
}

/// What a PACH archive unpacks to.
pub open spec fn spec_pach_unpack(s: Seq<u8>) -> Option<Seq<RecV>> {
    if s.len() < 8 {
        None
    } else if s.subrange(0, 4) != pach_magic() {
        None
    } else {
        let n = spec_le32_val(s[4], s[5], s[6], s[7]) as int;
        if n == 0 {
            None
        } else if 8 + 12 * n > u32::MAX {
            None
        } else if 8 + 12 * n > s.len() {
            None
        } else if !(forall|i: int| 0 <= i < n ==> pach_entry_ok(s, i)) {
            None
        } else {
            Some(Seq::new(n as nat, |i: int| pach_rec(s, i)))
        }
    }
}

/// `true` when the first four bytes carry the PACH magic.
pub fn detect_format(prefix: &[u8]) -> (r: bool)
    ensures
        r == (prefix@.len() >= 4 && prefix@.subrange(0, 4) == pach_magic()),
{
    if prefix.len() < 4 {
        return false;
    }
    let r = prefix[0] == 0x50 && prefix[1] == 0x41 && prefix[2] == 0x43 && prefix[3] == 0x48;
    proof {
        if r {
            assert(prefix@.subrange(0, 4) =~= pach_magic());
        } else {
            assert(prefix@.subrange(0, 4) != pach_magic()) by {
                if prefix@.subrange(0, 4) == pach_magic() {
                    assert(prefix@.subrange(0, 4)[0] == 0x50u8);
                    assert(prefix@.subrange(0, 4)[1] == 0x41u8);
                    assert(prefix@.subrange(0, 4)[2] == 0x43u8);
                    assert(prefix@.subrange(0, 4)[3] == 0x48u8);
                }
            }
        }
    }
    r
}

/// The 8-byte PACH header.
pub open spec fn pach_header(n: int) -> Seq<u8> {
    pach_magic() + spec_le32(n as u32)
}

/// One 12-byte directory entry.
pub open spec fn pach_entry_bytes(r: RecV, rel: int) -> Seq<u8> {
    spec_le32(digits_val(r.0) as u32) + spec_le32(rel as u32) + spec_le32(r.1.len() as u32)
}

/// The directory entries for files `i` onward.
pub open spec fn pach_entries_from(files: Seq<RecV>, i: int) -> Seq<u8>
    decreases files.len() - i,
{
    if i < 0 || i >= files.len() {
        Seq::empty()
    } else {
        pach_entry_bytes(files[i], pach_offset(files, i)) + pach_entries_from(files, i + 1)
    }
}

/// The data region for files `i` onward, each file padded to 4 bytes.
pub open spec fn pach_data_from(files: Seq<RecV>, i: int) -> Seq<u8>
    decreases files.len() - i,
{
    if i < 0 || i >= files.len() {
        Seq::empty()
    } else {
        files[i].1 + zeros(spec_pad_len(files[i].1.len() as int, 4) as nat) + pach_data_from(
            files,
            i + 1,
        )
    }
}

pub proof fn lemma_pach_entries_len(files: Seq<RecV>, i: int)
    requires
        0 <= i <= files.len(),
    ensures
        pach_entries_from(files, i).len() == 12 * (files.len() - i),
    decreases files.len() - i,
{
    if i < files.len() {
        lemma_pach_entries_len(files, i + 1);
    }
}

pub proof fn lemma_pach_data_len(files: Seq<RecV>, i: int)
    requires
        0 <= i <= files.len(),
    ensures
        pach_data_from(files, i).len() == pach_offset(files, files.len() as int) - pach_offset(
            files,
            i,
        ),
    decreases files.len() - i,
{
    if i < files.len() {
        lemma_pach_data_len(files, i + 1);
    }
}

proof fn lemma_pach_entry_slice(files: Seq<RecV>, k: int, i: int)
    requires
        0 <= k <= i < files.len(),
    ensures
        pach_entries_from(files, k).subrange(12 * (i - k), 12 * (i - k) + 12) == pach_entry_bytes(
            files[i],
            pach_offset(files, i),
        ),
    decreases i - k,
{
    lemma_pach_entries_len(files, k);
    lemma_pach_entries_len(files, k + 1);
    let ek = pach_entry_bytes(files[k], pach_offset(files, k));
    let rest = pach_entries_from(files, k + 1);
    if i == k {
        assert(pach_entries_from(files, k).subrange(0, 12) =~= ek);
    } else {
        lemma_pach_entry_slice(files, k + 1, i);
        let lo = 12 * (i - k);
        assert(pach_entries_from(files, k).subrange(lo, lo + 12) =~= rest.subrange(
            12 * (i - k - 1),
            12 * (i - k - 1) + 12,
        )) by {
            assert forall|j: int| 0 <= j < 12 implies #[trigger] pach_entries_from(
                files,
                k,
            ).subrange(lo, lo + 12)[j] == rest.subrange(12 * (i - k - 1), 12 * (i - k - 1) + 12)[j]
                by {
                assert(pach_entries_from(files, k)[lo + j] == (ek + rest)[lo + j]);
                assert((ek + rest)[lo + j] == rest[lo + j - 12]);
            }
        }
    }
}

proof fn lemma_pach_data_slice(files: Seq<RecV>, k: int, i: int)
    requires
        0 <= k <= i < files.len(),
    ensures
        pach_data_from(files, k).subrange(
            pach_offset(files, i) - pach_offset(files, k),
            pach_offset(files, i) - pach_offset(files, k) + files[i].1.len(),
        ) == files[i].1,
    decreases i - k,
{
    let n = files.len() as int;
    let dk = files[k].1 + zeros(spec_pad_len(files[k].1.len() as int, 4) as nat);
    let rest = pach_data_from(files, k + 1);
    lemma_pach_data_len(files, k);
    lemma_pach_data_len(files, k + 1);
    lemma_pach_offset_mono(files, k, i);
    lemma_pach_offset_mono(files, k + 1, i + 1);
    lemma_pach_offset_mono(files, i + 1, n);
    assert(pach_offset(files, i + 1) == pach_offset(files, i) + files[i].1.len() + spec_pad_len(
        files[i].1.len() as int,
        4,
    ));
    assert(pach_offset(files, k + 1) == pach_offset(files, k) + files[k].1.len() + spec_pad_len(
        files[k].1.len() as int,
        4,
    ));
    assert(pach_data_from(files, k) == dk + rest);
    let lo = pach_offset(files, i) - pach_offset(files, k);
    let flen = files[i].1.len() as int;
    assert(lo + flen <= pach_data_from(files, k).len());
    if i == k {
        assert(pach_data_from(files, k).subrange(0, flen) =~= files[i].1) by {
            assert forall|j: int| 0 <= j < flen implies #[trigger] pach_data_from(
                files,
                k,
            ).subrange(0, flen)[j] == files[i].1[j] by {
                assert(pach_data_from(files, k)[j] == (dk + rest)[j]);
                assert((dk + rest)[j] == dk[j]);
                assert(dk[j] == files[k].1[j]);
            }
        }
    } else {
        lemma_pach_data_slice(files, k + 1, i);
        lemma_pach_offset_mono(files, k + 1, i);
        let step = pach_offset(files, k + 1) - pach_offset(files, k);
        assert(dk.len() == step);
        assert(lo >= step);
        assert(lo - step + flen <= rest.len());
        assert(pach_data_from(files, k).subrange(lo, lo + flen) =~= rest.subrange(
            lo - step,
            lo - step + flen,
        )) by {
            assert forall|j: int| 0 <= j < flen implies #[trigger] pach_data_from(
                files,
                k,
            ).subrange(lo, lo + flen)[j] == rest.subrange(lo - step, lo - step + flen)[j] by {
                assert(pach_data_from(files, k)[lo + j] == (dk + rest)[lo + j]);
                assert((dk + rest)[lo + j] == rest[lo + j - step]);
                assert(rest.subrange(lo - step, lo - step + flen)[j] == rest[lo - step + j]);
            }
        }
    }
}

/// Entry `i` of the built archive reads back as record `i` with its name
/// rendered in decimal.
#[verifier::rlimit(100)]
proof fn lemma_pach_image_entry(files: Seq<RecV>, s: Seq<u8>, i: int)
    requires
        1 <= files.len(),
        pach_names_ok(files),
        pach_sizes_ok(files),
        s == pach_header(files.len() as int) + pach_entries_from(files, 0) + pach_data_from(
            files,
            0,
        ),
        0 <= i < files.len(),
    ensures
        pach_entry_ok(s, i),
        pach_rec(s, i) == (spec_decimal(digits_val(files[i].0) as nat), files[i].1),
{
    let n = files.len() as int;
    lemma_pach_entries_len(files, 0);
    lemma_pach_data_len(files, 0);
    let hdr = pach_header(n);
    let ents = pach_entries_from(files, 0);
    let dat = pach_data_from(files, 0);
    assert(hdr.len() == 8);
    lemma_pach_offset_mono(files, 0, n);
    assert(s.len() == 8 + 12 * n + pach_offset(files, n));
    assert forall|j: int| 0 <= j < 8 implies #[trigger] s[j] == hdr[j] by {
        assert(s[j] == (hdr + ents + dat)[j]);
    }
    lemma_le32_round_trip(files.len() as u32);
    assert(spec_le32_val(s[4], s[5], s[6], s[7]) == n) by {
        assert(s[4] == hdr[4] && s[5] == hdr[5] && s[6] == hdr[6] && s[7] == hdr[7]);
        assert(hdr[4] == spec_le32(files.len() as u32)[0]);
        assert(hdr[5] == spec_le32(files.len() as u32)[1]);
        assert(hdr[6] == spec_le32(files.len() as u32)[2]);
        assert(hdr[7] == spec_le32(files.len() as u32)[3]);
    }
    lemma_pach_entry_slice(files, 0, i);
    let e = 8 + 12 * i;
    let eb = pach_entry_bytes(files[i], pach_offset(files, i));
    assert forall|j: int| 0 <= j < 12 implies #[trigger] s[e + j] == eb[j] by {
        assert(s[e + j] == (hdr + ents + dat)[e + j]);
        assert((hdr + ents + dat)[e + j] == ents[e + j - 8]);
        assert(ents.subrange(12 * i, 12 * i + 12)[j] == ents[12 * i + j]);
    }
    let no = digits_val(files[i].0);
    lemma_digits_val_nonneg(files[i].0);
    let rel = pach_offset(files, i);
    let flen = files[i].1.len() as int;
    lemma_pach_offset_mono(files, 0, i);
    lemma_pach_offset_mono(files, i + 1, n);
    assert(rel <= u32::MAX);
    let eb2 = pach_entry_bytes(files[i], pach_offset(files, i));
    let w0 = spec_le32(no as u32);
    let w1 = spec_le32(rel as u32);
    let w2 = spec_le32(flen as u32);
    assert(eb2 == w0 + w1 + w2);
    assert(w0.len() == 4 && w1.len() == 4 && w2.len() == 4);
    assert(s.subrange(e, e + 4) =~= w0) by {
        assert forall|j: int| 0 <= j < 4 implies #[trigger] s.subrange(e, e + 4)[j] == w0[j] by {
            assert(s.subrange(e, e + 4)[j] == s[e + j]);
            assert(s[e + j] == eb2[j]);
            assert(eb2[j] == (w0 + w1)[j]);
            assert((w0 + w1)[j] == w0[j]);
        }
    }
    crate::util::lemma_le32_read(s, e, no as u32);
    assert(s.subrange(e + 4, e + 4 + 4) =~= w1) by {
        assert forall|j: int| 0 <= j < 4 implies #[trigger] s.subrange(e + 4, e + 4 + 4)[j]
            == w1[j] by {
            assert(s.subrange(e + 4, e + 4 + 4)[j] == s[e + (4 + j)]);
            assert(s[e + (4 + j)] == eb2[4 + j]);
            assert(eb2[4 + j] == (w0 + w1)[4 + j]);
            assert((w0 + w1)[4 + j] == w1[j]);
        }
    }
    crate::util::lemma_le32_read(s, e + 4, rel as u32);
    assert(s.subrange(e + 8, e + 8 + 4) =~= w2) by {
        assert forall|j: int| 0 <= j < 4 implies #[trigger] s.subrange(e + 8, e + 8 + 4)[j]
            == w2[j] by {
            assert(s.subrange(e + 8, e + 8 + 4)[j] == s[e + (8 + j)]);
            assert(s[e + (8 + j)] == eb2[8 + j]);
            assert(eb2[8 + j] == w2[j]);
        }
    }
    crate::util::lemma_le32_read(s, e + 8, flen as u32);
    let abs = rel + 8 + 12 * n;
    lemma_pach_image_data(files, s, i);
}

/// The data range named by entry `i` of the built archive holds file `i`'s
/// contents.
#[verifier::rlimit(100)]
proof fn lemma_pach_image_data(files: Seq<RecV>, s: Seq<u8>, i: int)
    requires
        1 <= files.len(),
        pach_names_ok(files),
        pach_sizes_ok(files),
        s == pach_header(files.len() as int) + pach_entries_from(files, 0) + pach_data_from(
            files,
            0,
        ),
        0 <= i < files.len(),
    ensures
        s.subrange(
            pach_offset(files, i) + 8 + 12 * files.len(),
            pach_offset(files, i) + 8 + 12 * files.len() + files[i].1.len(),
        ) == files[i].1,
{
    let n = files.len() as int;
    lemma_pach_entries_len(files, 0);
    lemma_pach_data_len(files, 0);
    let hdr = pach_header(n);
    let ents = pach_entries_from(files, 0);
    let dat = pach_data_from(files, 0);
    assert(hdr.len() == 8);
    lemma_pach_offset_mono(files, 0, i);
    lemma_pach_offset_mono(files, i + 1, n);
    assert(s.len() == 8 + 12 * n + pach_offset(files, n));
    let rel = pach_offset(files, i);
    let flen = files[i].1.len() as int;
    let abs = rel + 8 + 12 * n;
    lemma_pach_data_slice(files, 0, i);
    assert(s.subrange(abs, abs + flen) =~= files[i].1) by {
        assert forall|j: int| 0 <= j < flen implies #[trigger] s.subrange(abs, abs + flen)[j]
            == files[i].1[j] by {
            assert(s[abs + j] == (hdr + ents + dat)[abs + j]);
            assert((hdr + ents + dat)[abs + j] == dat[abs - (8 + 12 * n) + j]);
            assert(dat.subrange(
                pach_offset(files, i) - pach_offset(files, 0),
                pach_offset(files, i) - pach_offset(files, 0) + flen,
            )[j] == dat[abs - (8 + 12 * n) + j]);
        }
    }
}

/// The archive built from sorted digit-named records unpacks to exactly
/// those records, names rendered in decimal.
#[verifier::rlimit(100)]
pub proof fn lemma_pach_unpack_image(files: Seq<RecV>, s: Seq<u8>)
    requires
        1 <= files.len(),
        pach_names_ok(files),
        pach_sizes_ok(files),
        s == pach_header(files.len() as int) + pach_entries_from(files, 0) + pach_data_from(
            files,
            0,
        ),
    ensures
        spec_pach_unpack(s) == Some(
            Seq::new(
                files.len(),
                |i: int| (spec_decimal(digits_val(files[i].0) as nat), files[i].1),
            ),
        ),
{
    let n = files.len() as int;
    lemma_pach_entries_len(files, 0);
    lemma_pach_data_len(files, 0);
    let hdr = pach_header(n);
    let ents = pach_entries_from(files, 0);
    let dat = pach_data_from(files, 0);
    assert(hdr.len() == 8);
    lemma_pach_offset_mono(files, 0, n);
    assert(s.len() == 8 + 12 * n + pach_offset(files, n));
    assert forall|j: int| 0 <= j < 8 implies #[trigger] s[j] == hdr[j] by {
        assert(s[j] == (hdr + ents + dat)[j]);
    }
    assert(s.subrange(0, 4) =~= pach_magic()) by {
        assert forall|j: int| 0 <= j < 4 implies #[trigger] s.subrange(0, 4)[j] == pach_magic()[j]
            by {
            assert(s[j] == hdr[j]);
            assert(hdr[j] == pach_magic()[j]);
        }
    }
    lemma_le32_round_trip(files.len() as u32);
    assert(spec_le32_val(s[4], s[5], s[6], s[7]) == n) by {
        assert(hdr[4] == spec_le32(files.len() as u32)[0]);
        assert(hdr[5] == spec_le32(files.len() as u32)[1]);
        assert(hdr[6] == spec_le32(files.len() as u32)[2]);
        assert(hdr[7] == spec_le32(files.len() as u32)[3]);
    }
    assert forall|i: int| 0 <= i < n implies #[trigger] pach_entry_ok(s, i) by {
        lemma_pach_image_entry(files, s, i);
    }
    assert forall|i: int| 0 <= i < n implies (#[trigger] pach_rec(s, i)) == (
    spec_decimal(digits_val(files[i].0) as nat), files[i].1) by {
        lemma_pach_image_entry(files, s, i);
    }
    assert(Seq::new(n as nat, |i: int| pach_rec(s, i)) =~= Seq::new(
        files.len(),
        |i: int| (spec_decimal(digits_val(files[i].0) as nat), files[i].1),
    ));
}

/// A name the unpacker could have written: the canonical decimal rendering
/// of a 32-bit number.
pub open spec fn canonical_digit_name(name: Seq<u8>) -> bool {
    &&& name.len() >= 1
    &&& all_digits(name)
    &&& digits_val(name) <= u32::MAX
    &&& spec_decimal(digits_val(name) as nat) == name
}

/// Unpacking after packing gives back records with canonical names exactly:
/// the PACH round trip at the record level.
pub proof fn lemma_pach_names_round_trip(files: Seq<RecV>)
    requires
        forall|i: int| 0 <= i < files.len() ==> canonical_digit_name((#[trigger] files[i]).0),
    ensures
        Seq::new(files.len(), |i: int| (spec_decimal(digits_val(files[i].0) as nat), files[i].1))
            == files,
{
    assert(Seq::new(
        files.len(),
        |i: int| (spec_decimal(digits_val(files[i].0) as nat), files[i].1),
    ) =~= files);
}

/// Unpacks a PACH archive into its records, each file named by the decimal
/// rendering of its entry's number. Success and the records are exactly
/// what `spec_pach_unpack` gives.
pub fn unpack(src: &[u8]) -> (r: Result<Vec<FileRec>, PachError>)
    ensures
        match r {
            Ok(v) => spec_pach_unpack(src@) == Some(recs_view(v@)),
            Err(e) => spec_pach_unpack(src@) is None,
        },
        r == Err::<Vec<FileRec>, PachError>(PachError::BadMagic) <==> (src@.len() < 4
            || src@.subrange(0, 4) != pach_magic()),
        src@.len() >= 8 && src@.subrange(0, 4) == pach_magic() ==> (r == Err::<
            Vec<FileRec>,
            PachError,
        >(PachError::NoFiles) <==> spec_le32_val(src@[4], src@[5], src@[6], src@[7]) == 0),
        r is Err ==> (r == Err::<Vec<FileRec>, PachError>(PachError::BadMagic) || r == Err::<
            Vec<FileRec>,
            PachError,
        >(PachError::TooShort) || r == Err::<Vec<FileRec>, PachError>(PachError::NoFiles) || r
            == Err::<Vec<FileRec>, PachError>(PachError::TooLarge) || r == Err::<
            Vec<FileRec>,
            PachError,
        >(PachError::BadEntry)),
{
    if src.len() < 4 {
        return Err(PachError::BadMagic);
    }
    if !(src[0] == 0x50 && src[1] == 0x41 && src[2] == 0x43 && src[3] == 0x48) {
        proof {
            assert(src@.subrange(0, 4) != pach_magic()) by {
                if src@.subrange(0, 4) == pach_magic() {
                    assert(src@.subrange(0, 4)[0] == 0x50u8);
                    assert(src@.subrange(0, 4)[1] == 0x41u8);
                    assert(src@.subrange(0, 4)[2] == 0x43u8);
                    assert(src@.subrange(0, 4)[3] == 0x48u8);
                }
            }
        }
        return Err(PachError::BadMagic);
    }
    proof {
        assert(src@.subrange(0, 4) =~= pach_magic());
    }
    if src.len() < 8 {
        return Err(PachError::TooShort);
    }
    let n32 = read_le32(src, 4);
    if n32 == 0 {
        return Err(PachError::NoFiles);
    }
    if 8u64 + 12u64 * (n32 as u64) > u32::MAX as u64 {
        return Err(PachError::TooLarge);
    }
    if 8u64 + 12u64 * (n32 as u64) > src.len() as u64 {
        return Err(PachError::TooShort);
    }
    let n = n32 as usize;
    let base: u32 = 8 + 12 * n32;
    let mut out: Vec<FileRec> = Vec::new();
    let mut i: usize = 0;
    while i < n
        invariant
            src@.len() >= 8,
            src@.subrange(0, 4) == pach_magic(),
            n == spec_le32_val(src@[4], src@[5], src@[6], src@[7]),
            n >= 1,
            8 + 12 * n <= u32::MAX,
            8 + 12 * n <= src@.len(),
            base == 8 + 12 * n,
            i <= n,
            out@.len() == i,
            forall|j: int| 0 <= j < i ==> #[trigger] pach_entry_ok(src@, j),
            forall|j: int| 0 <= j < i ==> (#[trigger] out@[j])@ == pach_rec(src@, j),
        decreases n - i,
    {
        let slen = src.len();
        let e = 8 + 12 * i;
        let no = read_le32(src, e);
        let rel = read_le32(src, e + 4);
        let flen = read_le32(src, e + 8);
        if rel as u64 + base as u64 > u32::MAX as u64 {
            proof {
                assert(!pach_entry_ok(src@, i as int));
            }
            return Err(PachError::BadEntry);
        }
        let abs = rel + base;
        if abs as u64 + flen as u64 > slen as u64 {
            proof {
                assert(!pach_entry_ok(src@, i as int));
            }
            return Err(PachError::BadEntry);
        }
        let mut name: Vec<u8> = Vec::new();
        push_decimal(&mut name, no);
        let data = copy_range(src, abs as usize, abs as usize + flen as usize);
        let ghost nm = name@;
        out.push(FileRec { name, data });
        proof {
            assert(nm =~= spec_decimal(no as nat));
            assert(pach_entry_ok(src@, i as int));
            assert(out@[i as int]@ == pach_rec(src@, i as int));
            assert(forall|j: int| 0 <= j < i ==> (#[trigger] out@[j])@ == pach_rec(src@, j));
            assert(forall|j: int| 0 <= j < i ==> #[trigger] pach_entry_ok(src@, j));
        }
        i = i + 1;
    }
    proof {
        assert(forall|j: int| 0 <= j < n ==> #[trigger] pach_entry_ok(src@, j));
        assert(spec_pach_unpack(src@) == Some(Seq::new(n as nat, |j: int| pach_rec(src@, j))));
        assert(recs_view(out@) =~= Seq::new(n as nat, |j: int| pach_rec(src@, j)));
    }
    Ok(out)
}

/// Packs digit-named records into a PACH archive: records whose names hold
/// any non-digit byte are skipped, the rest are sorted by numeric value and
/// laid out with 4-byte alignment. The output unpacks to exactly the kept,
/// sorted records (names in canonical decimal).
#[verifier::rlimit(100)]
pub fn pack(files: Vec<FileRec>) -> (r: Result<Vec<u8>, PachError>)
    ensures
        ({
            let sk = spec_sort(digit_filter(recs_view(files@)));
            &&& (r matches Ok(v) ==> spec_pach_unpack(v@) == Some(
                Seq::new(
                    sk.len(),
                    |i: int| (spec_decimal(digits_val(sk[i].0) as nat), sk[i].1),
                ),
            ))
            &&& (r matches Ok(v) ==> v@ == pach_header(sk.len() as int) + pach_entries_from(
                sk,
                0,
            ) + pach_data_from(sk, 0))
            &&& (r matches Ok(v) ==> v@.len() == 8 + 12 * sk.len() + pach_offset(
                sk,
                sk.len() as int,
            ))
            &&& (r is Ok <==> (sk.len() > 0 && pach_names_ok(sk) && pach_sizes_ok(sk)))
            &&& (r == Err::<Vec<u8>, PachError>(PachError::NoFiles) <==> sk.len() == 0)
            &&& (r == Err::<Vec<u8>, PachError>(PachError::BadName) <==> (sk.len() > 0
                && !pach_names_ok(sk)))
            &&& (r == Err::<Vec<u8>, PachError>(PachError::TooLarge) <==> (sk.len() > 0
                && pach_names_ok(sk) && !pach_sizes_ok(sk)))
        }),
{
    let ghost orig: Seq<RecV> = recs_view(files@);
    let mut input = files;
    let mut kept: Vec<FileRec> = Vec::new();
    proof {
        assert(recs_view(input@) =~= orig.skip(0));
        assert(recs_view(kept@) =~= Seq::<RecV>::empty());
        assert(digit_filter(orig) == recs_view(kept@) + digit_filter(recs_view(input@)));
    }
    while input.len() > 0
        invariant
            digit_filter(orig) == recs_view(kept@) + digit_filter(recs_view(input@)),
            orig == recs_view(files@),
        decreases input@.len(),
    {
        let ghost pre: Seq<FileRec> = input@;
        let x = input.remove(0);
        let ghost xv: RecV = x@;
        let keep = is_all_digits(x.name.as_slice());
        proof {
            assert(xv == recs_view(pre)[0]);
            assert(pre.remove(0) =~= pre.skip(1));
            assert(recs_view(input@) =~= recs_view(pre).skip(1)) by {
                assert forall|j: int| 0 <= j < input@.len() implies #[trigger] recs_view(
                    input@,
                )[j] == recs_view(pre).skip(1)[j] by {
                    assert(input@[j] == pre[j + 1]);
                    assert(recs_view(pre)[j + 1] == pre[j + 1]@);
                }
            }
            assert(digit_filter(recs_view(pre)) == (if all_digits(xv.0) {
                seq![xv]
            } else {
                Seq::<RecV>::empty()
            }) + digit_filter(recs_view(pre).skip(1)));
        }
        let ghost kept0 = kept@;
        if keep {
            kept.push(x);
            proof {
                assert(recs_view(kept@) =~= recs_view(kept0).push(xv));
                assert(recs_view(kept0) + (seq![xv] + digit_filter(recs_view(input@))) =~= (
                recs_view(kept0) + seq![xv]) + digit_filter(recs_view(input@)));
                assert(recs_view(kept0).push(xv) =~= recs_view(kept0) + seq![xv]);
            }
        } else {
            proof {
                assert(recs_view(kept@) + (Seq::<RecV>::empty() + digit_filter(
                    recs_view(input@),
                )) =~= recs_view(kept@) + digit_filter(recs_view(input@)));
            }
        }
    }
    proof {
        assert(recs_view(input@) =~= Seq::<RecV>::empty());
        assert(digit_filter(Seq::<RecV>::empty()) == Seq::<RecV>::empty());
        assert(recs_view(kept@) + Seq::<RecV>::empty() =~= recs_view(kept@));
        assert(recs_view(kept@) == digit_filter(orig));
    }
    let sorted = sort_by_name(kept);
    let ghost sk: Seq<RecV> = recs_view(sorted@);
    proof {
        crate::listing::lemma_sort_len(digit_filter(orig));
    }
    let n = sorted.len();
    if n == 0 {
        return Err(PachError::NoFiles);
    }
    // every kept name must be a 32-bit number
    let mut i: usize = 0;
    while i < n
        invariant
            n == sorted@.len(),
            n >= 1,
            sk == recs_view(sorted@),
            sk == spec_sort(digit_filter(recs_view(files@))),
            i <= n,
            forall|j: int|
                0 <= j < i ==> {
                    let nm = (#[trigger] sk[j]).0;
                    nm.len() >= 1 && all_digits(nm) && digits_val(nm) <= u32::MAX
                },
        decreases n - i,
    {
        let parsed = parse_digits(sorted[i].name.as_slice());
        if parsed.is_none() {
            proof {
                assert(!pach_names_ok(sk)) by {
                    let nm = sk[i as int].0;
                    assert(!(nm.len() >= 1 && all_digits(nm) && digits_val(nm) <= u32::MAX));
                }
            }
            return Err(PachError::BadName);
        }
        i = i + 1;
    }
    // lengths and the whole archive must fit 32 bits
    if n > 0x1555_5554 {
        proof {
            lemma_pach_offset_mono(sk, 0, sk.len() as int);
            assert(8 + 12 * sk.len() + pach_offset(sk, sk.len() as int) > u32::MAX);
            assert(!pach_sizes_ok(sk));
        }
        return Err(PachError::TooLarge);
    }
    let mut rel: u64 = 0;
    let mut i: usize = 0;
    while i < n
        invariant
            n == sorted@.len(),
            n >= 1,
            n <= 0x1555_5554,
            sk == recs_view(sorted@),
            sk == spec_sort(digit_filter(recs_view(files@))),
            pach_names_ok(sk),
            i <= n,
            rel as int == pach_offset(sk, i as int),
            8 + 12 * n + rel <= u32::MAX,
            forall|j: int| 0 <= j < i ==> (#[trigger] sk[j]).1.len() <= u32::MAX,
        decreases n - i,
    {
        let dlen = sorted[i].data.len();
        if dlen as u64 > u32::MAX as u64 {
            proof {
                assert(sk[i as int].1.len() > u32::MAX);
                assert(!pach_sizes_ok(sk));
            }
            return Err(PachError::TooLarge);
        }
        let pad = pad_len(dlen, 4);
        rel = rel + dlen as u64 + pad as u64;
        proof {
            assert(rel as int == pach_offset(sk, i + 1));
        }
        if 8 + 12 * (n as u64) + rel > u32::MAX as u64 {
            proof {
                lemma_pach_offset_mono(sk, i + 1, sk.len() as int);
                assert(8 + 12 * sk.len() + pach_offset(sk, sk.len() as int) > u32::MAX);
                assert(!pach_sizes_ok(sk));
            }
            return Err(PachError::TooLarge);
        }
        i = i + 1;
    }
    proof {
        lemma_pach_offset_mono(sk, 0, sk.len() as int);
        assert(pach_sizes_ok(sk));
    }
    // emit: header, entries, data
    let mut out: Vec<u8> = Vec::new();
    out.push(0x50);
    out.push(0x41);
    out.push(0x43);
    out.push(0x48);
    push_le32(&mut out, n as u32);
    proof {
        assert(out@ =~= pach_header(n as int));
    }
    let mut rel2: u64 = 0;
    let mut i: usize = 0;
    while i < n
        invariant
            n == sorted@.len(),
            n <= 0x1555_5554,
            sk == recs_view(sorted@),
            pach_names_ok(sk),
            pach_sizes_ok(sk),
            i <= n,
            rel2 as int == pach_offset(sk, i as int),
            out@ + pach_entries_from(sk, i as int) == pach_header(n as int) + pach_entries_from(
                sk,
                0,
            ),
        decreases n - i,
    {
        let ghost out0 = out@;
        let parsed = parse_digits(sorted[i].name.as_slice());
        let no = match parsed {
            Some(v) => v,
            None => {
                proof {
                    assert(sk[i as int].0.len() >= 1 && all_digits(sk[i as int].0) && digits_val(
                        sk[i as int].0,
                    ) <= u32::MAX);
                    assert(false);
                }
                0
            },
        };
        let dlen = sorted[i].data.len();
        proof {
            lemma_pach_offset_mono(sk, 0, i as int);
            lemma_pach_offset_mono(sk, i + 1, sk.len() as int);
            assert(pach_offset(sk, i + 1) <= u32::MAX);
            assert(sk[i as int].1.len() <= u32::MAX);
        }
        push_le32(&mut out, no);
        push_le32(&mut out, rel2 as u32);
        push_le32(&mut out, dlen as u32);
        proof {
            let eb = pach_entry_bytes(sk[i as int], pach_offset(sk, i as int));
            assert(out@ =~= out0 + eb);
            assert(pach_entries_from(sk, i as int) == eb + pach_entries_from(sk, i + 1));
            assert(out@ + pach_entries_from(sk, i + 1) =~= pach_header(n as int)
                + pach_entries_from(sk, 0)) by {
                assert(out0 + (eb + pach_entries_from(sk, i + 1)) =~= (out0 + eb)
                    + pach_entries_from(sk, i + 1));
            }
        }
        let pad = pad_len(dlen, 4);
        rel2 = rel2 + dlen as u64 + pad as u64;
        i = i + 1;
    }
    proof {
        assert(pach_entries_from(sk, n as int) =~= Seq::<u8>::empty());
        assert(out@ =~= pach_header(n as int) + pach_entries_from(sk, 0));
    }
    let ghost mid = out@;
    let mut i: usize = 0;
    while i < n
        invariant
            n == sorted@.len(),
            sk == recs_view(sorted@),
            i <= n,
            out@ + pach_data_from(sk, i as int) == mid + pach_data_from(sk, 0),
        decreases n - i,
    {
        let ghost out0 = out@;
        out.extend_from_slice(sorted[i].data.as_slice());
        let pad = pad_len(sorted[i].data.len(), 4);
        write_padding_zeroes(&mut out, pad);
        proof {
            let db = sk[i as int].1 + zeros(spec_pad_len(sk[i as int].1.len() as int, 4) as nat);
            assert(out@ =~= out0 + db);
            assert(pach_data_from(sk, i as int) == db + pach_data_from(sk, i + 1));
            assert(out@ + pach_data_from(sk, i + 1) =~= mid + pach_data_from(sk, 0)) by {
                assert(out0 + (db + pach_data_from(sk, i + 1)) =~= (out0 + db) + pach_data_from(
                    sk,
                    i + 1,
                ));
            }
        }
        i = i + 1;
    }
    proof {
        assert(pach_data_from(sk, n as int) =~= Seq::<u8>::empty());
        assert(out@ =~= pach_header(n as int) + pach_entries_from(sk, 0) + pach_data_from(sk, 0));
        lemma_pach_unpack_image(sk, out@);
        lemma_pach_entries_len(sk, 0);
        lemma_pach_data_len(sk, 0);
    }
    Ok(out)
}

} // verus!
