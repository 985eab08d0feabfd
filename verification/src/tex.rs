//! The TEX codec: a flat archive of named files with 32-byte directory
//! entries and a 16-byte-aligned data region.
//!
//! `spec_tex_unpack` is the on-disk format's meaning; `unpack` refines it
//! and `pack` promises that its output unpacks to exactly the (sorted)
//! records it was given.

use vstd::prelude::*;

use crate::listing::{recs_view, sort_by_name, spec_sort, FileRec, RecV};
use crate::util::{
    copy_range, lemma_le32_round_trip, lemma_pad_mod, pad_len, push_le32, push_zero_padded,
    read_le32, spec_le32, spec_le32_val, spec_pad_len, write_padding_zeroes, zeros,
};

verus! {

/// Why a TEX operation was refused.
#[derive(Clone, Copy, Debug, PartialEq, Eq, Structural)]
pub enum TexError {
    /// The stream ends before its header or entry table does.
    TooShort,
    /// The archive holds no files, or none were given to pack.
    NoFiles,
    /// An entry's data range runs past the end of the stream.
    BadEntry,
    /// A filename does not fit the 16-byte name and 4-byte extension form.
    BadName,
    /// A length field would overflow 32 bits.
    TooLarge,
}

/// The bytes before the first zero.
pub open spec fn spec_before_zero(s: Seq<u8>) -> Seq<u8>
    decreases s.len(),
{
    if s.len() == 0 {
        Seq::empty()
    } else if s[0] == 0 {
        Seq::empty()
    } else {
        seq![s[0]] + spec_before_zero(s.skip(1))
    }
}

pub proof fn lemma_before_zero_at(s: Seq<u8>, i: int)
    requires
        0 <= i <= s.len(),
        forall|j: int| 0 <= j < i ==> s[j] != 0,
        i == s.len() || s[i] == 0,
    ensures
        spec_before_zero(s) == s.take(i),
    decreases s.len(),
{
    if s.len() == 0 {
        assert(s.take(i) =~= Seq::<u8>::empty());
    } else if i == 0 {
        assert(s.take(0) =~= Seq::<u8>::empty());
    } else {
        assert(s[0] != 0);
        assert(forall|j: int| 0 <= j < i - 1 ==> s.skip(1)[j] == s[j + 1] && s[j + 1] != 0);
        assert(i - 1 == s.skip(1).len() || s.skip(1)[i - 1] == s[i]);
        lemma_before_zero_at(s.skip(1), i - 1);
        assert(seq![s[0]] + s.skip(1).take(i - 1) =~= s.take(i));
    }
}

/// The stripped prefix of a zero-padded field.
pub fn get_bytes_before_zero(bytes: &[u8]) -> (r: Vec<u8>)
    ensures
        r@ == spec_before_zero(bytes@),
{
    let mut i: usize = 0;
    loop
        invariant_except_break
            i <= bytes@.len(),
            forall|j: int| 0 <= j < i ==> bytes@[j] != 0,
        ensures
            i <= bytes@.len(),
            forall|j: int| 0 <= j < i ==> bytes@[j] != 0,
            i == bytes@.len() || bytes@[i as int] == 0,
        decreases bytes@.len() - i,
    {
        if i >= bytes.len() {
            break ;
        }
        if bytes[i] == 0 {
            break ;
        }
        i = i + 1;
    }
    proof {
        lemma_before_zero_at(bytes@, i as int);
    }
    copy_range(bytes, 0, i)
}

/// Index of the last `.` in a name, `-1` when there is none.
pub open spec fn last_dot(s: Seq<u8>) -> int
    decreases s.len(),
{
    if s.len() == 0 {
        -1
    } else if s.last() == 46 {
        s.len() - 1
    } else {
        last_dot(s.drop_last())
    }
}

pub proof fn lemma_last_dot_props(s: Seq<u8>)
    ensures
        -1 <= last_dot(s) < s.len(),
        last_dot(s) >= 0 ==> s[last_dot(s)] == 46,
        forall|k: int| last_dot(s) < k < s.len() ==> s[k] != 46,
    decreases s.len(),
{
    if s.len() > 0 && s.last() != 46 {
        lemma_last_dot_props(s.drop_last());
        assert forall|k: int| last_dot(s) < k < s.len() implies s[k] != 46 by {
            if k < s.len() - 1 {
                assert(s.drop_last()[k] == s[k]);
            }
        }
        if last_dot(s) >= 0 {
            assert(s.drop_last()[last_dot(s)] == s[last_dot(s)]);
        }
    }
}

pub proof fn lemma_last_dot_at(s: Seq<u8>, j: int)
    requires
        -1 <= j < s.len(),
        j >= 0 ==> s[j] == 46,
        forall|k: int| j < k < s.len() ==> s[k] != 46,
    ensures
        last_dot(s) == j,
    decreases s.len(),
{
    if s.len() == 0 {
    } else if s.last() == 46 {
        assert(j == s.len() - 1);
    } else {
        assert(j < s.len() - 1);
        assert(j >= 0 ==> s.drop_last()[j] == s[j]);
        assert(forall|k: int| j < k < s.len() - 1 ==> s.drop_last()[k] == s[k]);
        lemma_last_dot_at(s.drop_last(), j);
    }
}

/// A name with a dot is its stem, the dot, and its extension.
pub proof fn lemma_name_rebuild(s: Seq<u8>)
    requires
        last_dot(s) >= 0,
    ensures
        s.take(last_dot(s)) + seq![46u8] + s.skip(last_dot(s) + 1) == s,
{
    lemma_last_dot_props(s);
    assert(s.take(last_dot(s)) + seq![46u8] + s.skip(last_dot(s) + 1) =~= s);
}

/// Splits a filename at its last dot into stem and extension; a name with
/// no dot keeps everything in the stem and has an empty extension.
pub fn split_filename_and_ext(filename: &[u8]) -> (r: (Vec<u8>, Vec<u8>))
    ensures
        last_dot(filename@) >= 0 ==> r.0@ == filename@.take(last_dot(filename@)) && r.1@
            == filename@.skip(last_dot(filename@) + 1),
        last_dot(filename@) < 0 ==> r.0@ == filename@ && r.1@ == Seq::<u8>::empty(),
{
    let mut i: usize = filename.len();
    loop
        invariant_except_break
            i <= filename@.len(),
            forall|k: int| i <= k < filename@.len() ==> filename@[k] != 46,
        ensures
            i <= filename@.len(),
            forall|k: int| i <= k < filename@.len() ==> filename@[k] != 46,
            i > 0 ==> filename@[i - 1] == 46,
        decreases i,
    {
        if i == 0 {
            break ;
        }
        if filename[i - 1] == 46 {
            break ;
        }
        i = i - 1;
    }
    if i == 0 {
        proof {
            lemma_last_dot_at(filename@, -1);
        }
        let whole = copy_range(filename, 0, filename.len());
        proof {
            assert(filename@.subrange(0, filename@.len() as int) =~= filename@);
        }
        (whole, Vec::new())
    } else {
        proof {
            lemma_last_dot_at(filename@, i - 1);
        }
        (copy_range(filename, 0, i - 1), copy_range(filename, i, filename.len()))
    }
}

/// A packable TEX filename: a stem of 1 to 16 bytes, a dot, and an
/// extension of 1 to 4 bytes, with no zero byte in either part.
pub open spec fn tex_name_ok(name: Seq<u8>) -> bool {
    let ld = last_dot(name);
    &&& 1 <= ld <= 16
    &&& 1 <= name.len() - ld - 1 <= 4
    &&& forall|j: int| 0 <= j < name.len() && j != ld ==> name[j] != 0
}

/// Where file `i`'s data starts in the archive; index `files.len()` is the
/// archive's total length.
pub open spec fn tex_offset(files: Seq<RecV>, i: int) -> int
    decreases i,
{
    if i <= 0 {
        16 + 32 * files.len() as int
    } else {
        tex_offset(files, i - 1) + files[i - 1].1.len() + spec_pad_len(
            files[i - 1].1.len() as int,
            16,
        )
    }
}

/// All length fields fit their 32-bit slots.
pub open spec fn tex_sizes_ok(files: Seq<RecV>) -> bool {
    &&& forall|i: int| 0 <= i < files.len() ==> (#[trigger] files[i]).1.len() <= u32::MAX
    &&& tex_offset(files, files.len() as int) <= u32::MAX
}

pub proof fn lemma_tex_offset_mono(files: Seq<RecV>, i: int, j: int)
    requires
        0 <= i <= j,
    ensures
        tex_offset(files, i) <= tex_offset(files, j),
    decreases j - i,
{
    if i < j {
        lemma_tex_offset_mono(files, i, j - 1);
    }
}

/// Every file in a TEX archive starts on a 16-byte boundary.
pub proof fn lemma_tex_offsets_aligned(files: Seq<RecV>, i: int)
    requires
        0 <= i,
    ensures
        tex_offset(files, i) % 16 == 0,
    decreases i,
{
    if i <= 0 {
        assert(16 + 32 * files.len() == (2 * files.len() + 1) * 16);
        vstd::arithmetic::div_mod::lemma_mod_multiples_basic(2 * files.len() as int + 1, 16);
    } else {
        lemma_tex_offsets_aligned(files, i - 1);
        let l = files[i - 1].1.len() as int;
        lemma_pad_mod(l, 16);
        vstd::arithmetic::div_mod::lemma_add_mod_noop(
            tex_offset(files, i - 1),
            l + spec_pad_len(l, 16),
            16,
        );
    }
}

/// The record entry `i` of the stream describes.
pub open spec fn tex_rec(s: Seq<u8>, i: int) -> RecV {
    let e = 16 + 32 * i;
    let name = spec_before_zero(s.subrange(e, e + 16));
    let ext = spec_before_zero(s.subrange(e + 16, e + 20));
    let flen = spec_le32_val(s[e + 20], s[e + 21], s[e + 22], s[e + 23]) as int;
    let off = spec_le32_val(s[e + 24], s[e + 25], s[e + 26], s[e + 27]) as int;
    (name + seq![46u8] + ext, s.subrange(off, off + flen))
}

/// Entry `i`'s data range lies inside the stream.
pub open spec fn tex_entry_ok(s: Seq<u8>, i: int) -> bool {
    let e = 16 + 32 * i;
    let flen = spec_le32_val(s[e + 20], s[e + 21], s[e + 22], s[e + 23]) as int;
    let off = spec_le32_val(s[e + 24], s[e + 25], s[e + 26], s[e + 27]) as int;
    off + flen <= s.len()
}

/// What a TEX archive unpacks to: the file count, then one record per
/// 32-byte entry, each file's name rebuilt as `stem.ext` with the zero
/// padding stripped.
pub open spec fn spec_tex_unpack(s: Seq<u8>) -> Option<Seq<RecV>> {
    if s.len() < 16 {
        None
    } else {
        let n = spec_le32_val(s[0], s[1], s[2], s[3]) as int;
        if n == 0 {
            None
        } else if 16 + 32 * n > s.len() {
            None
        } else if !(forall|i: int| 0 <= i < n ==> tex_entry_ok(s, i)) {
            None
        } else {
            Some(Seq::new(n as nat, |i: int| tex_rec(s, i)))
        }
    }
}

/// The 16-byte TEX header.
pub open spec fn tex_header(n: int) -> Seq<u8> {
    spec_le32(n as u32) + seq![
        0u8,
        1u8,
        0u8,
        0u8,
        0u8,
        0u8,
        0u8,
        0u8,
        0x10u8,
        0u8,
        0u8,
        0u8,
    ]
}

/// One 32-byte directory entry.
pub open spec fn tex_entry_bytes(r: RecV, off: int) -> Seq<u8> {
    let ld = last_dot(r.0);
    let stem = r.0.take(ld);
    let ext = r.0.skip(ld + 1);
    stem + zeros((16 - stem.len()) as nat) + ext + zeros((4 - ext.len()) as nat) + spec_le32(
        r.1.len() as u32,
    ) + spec_le32(off as u32) + zeros(4)
}

/// The directory entries for files `i` onward.
pub open spec fn tex_entries_from(files: Seq<RecV>, i: int) -> Seq<u8>
    decreases files.len() - i,
{
    if i < 0 || i >= files.len() {
        Seq::empty()
    } else {
        tex_entry_bytes(files[i], tex_offset(files, i)) + tex_entries_from(files, i + 1)
    }
}

/// The data region for files `i` onward, each file padded to 16 bytes.
pub open spec fn tex_data_from(files: Seq<RecV>, i: int) -> Seq<u8>
    decreases files.len() - i,
{
    if i < 0 || i >= files.len() {
        Seq::empty()
    } else {
        files[i].1 + zeros(spec_pad_len(files[i].1.len() as int, 16) as nat) + tex_data_from(
            files,
            i + 1,
        )
    }
}

pub proof fn lemma_tex_entry_len(r: RecV, off: int)
    requires
        tex_name_ok(r.0),
    ensures
        tex_entry_bytes(r, off).len() == 32,
{
    lemma_last_dot_props(r.0);
}

pub proof fn lemma_tex_entries_len(files: Seq<RecV>, i: int)
    requires
        0 <= i <= files.len(),
        forall|j: int| 0 <= j < files.len() ==> tex_name_ok((#[trigger] files[j]).0),
    ensures
        tex_entries_from(files, i).len() == 32 * (files.len() - i),
    decreases files.len() - i,
{
    if i < files.len() {
        lemma_tex_entry_len(files[i], tex_offset(files, i));
        lemma_tex_entries_len(files, i + 1);
    }
}

pub proof fn lemma_tex_data_len(files: Seq<RecV>, i: int)
    requires
        0 <= i <= files.len(),
    ensures
        tex_data_from(files, i).len() == tex_offset(files, files.len() as int) - tex_offset(
            files,
            i,
        ),
    decreases files.len() - i,
{
    if i < files.len() {
        lemma_tex_data_len(files, i + 1);
    }
}

proof fn lemma_tex_entry_slice(files: Seq<RecV>, k: int, i: int)
    requires
        0 <= k <= i < files.len(),
        forall|j: int| 0 <= j < files.len() ==> tex_name_ok((#[trigger] files[j]).0),
    ensures
        tex_entries_from(files, k).subrange(32 * (i - k), 32 * (i - k) + 32) == tex_entry_bytes(
            files[i],
            tex_offset(files, i),
        ),
    decreases i - k,
{
    lemma_tex_entry_len(files[k], tex_offset(files, k));
    lemma_tex_entries_len(files, k);
    lemma_tex_entries_len(files, k + 1);
    let ek = tex_entry_bytes(files[k], tex_offset(files, k));
    let rest = tex_entries_from(files, k + 1);
    if i == k {
        assert(tex_entries_from(files, k).subrange(0, 32) =~= ek);
    } else {
        lemma_tex_entry_slice(files, k + 1, i);
        let lo = 32 * (i - k);
        assert(tex_entries_from(files, k).subrange(lo, lo + 32) =~= rest.subrange(
            32 * (i - k - 1),
            32 * (i - k - 1) + 32,
        )) by {
            assert forall|j: int| 0 <= j < 32 implies #[trigger] tex_entries_from(
                files,
                k,
            ).subrange(lo, lo + 32)[j] == rest.subrange(32 * (i - k - 1), 32 * (i - k - 1) + 32)[j]
                by {
                assert(tex_entries_from(files, k)[lo + j] == (ek + rest)[lo + j]);
                assert((ek + rest)[lo + j] == rest[lo + j - 32]);
            }
        }
    }
}

proof fn lemma_tex_data_slice(files: Seq<RecV>, k: int, i: int)
    requires
        0 <= k <= i < files.len(),
    ensures
        tex_data_from(files, k).subrange(
            tex_offset(files, i) - tex_offset(files, k),
            tex_offset(files, i) - tex_offset(files, k) + files[i].1.len(),
        ) == files[i].1,
    decreases i - k,
{
    let n = files.len() as int;
    let dk = files[k].1 + zeros(spec_pad_len(files[k].1.len() as int, 16) as nat);
    let rest = tex_data_from(files, k + 1);
    lemma_tex_data_len(files, k);
    lemma_tex_data_len(files, k + 1);
    lemma_tex_offset_mono(files, k, i);
    lemma_tex_offset_mono(files, k + 1, i + 1);
    lemma_tex_offset_mono(files, i + 1, n);
    assert(tex_offset(files, i + 1) == tex_offset(files, i) + files[i].1.len() + spec_pad_len(
        files[i].1.len() as int,
        16,
    ));
    assert(tex_offset(files, k + 1) == tex_offset(files, k) + files[k].1.len() + spec_pad_len(
        files[k].1.len() as int,
        16,
    ));
    assert(tex_data_from(files, k) == dk + rest);
    let lo = tex_offset(files, i) - tex_offset(files, k);
    let flen = files[i].1.len() as int;
    assert(lo + flen <= tex_data_from(files, k).len());
    if i == k {
        assert(tex_data_from(files, k).subrange(0, flen) =~= files[i].1) by {
            assert forall|j: int| 0 <= j < flen implies #[trigger] tex_data_from(
                files,
                k,
            ).subrange(0, flen)[j] == files[i].1[j] by {
                assert(tex_data_from(files, k)[j] == (dk + rest)[j]);
                assert((dk + rest)[j] == dk[j]);
                assert(dk[j] == files[k].1[j]);
            }
        }
    } else {
        lemma_tex_data_slice(files, k + 1, i);
        lemma_tex_offset_mono(files, k + 1, i);
        let step = tex_offset(files, k + 1) - tex_offset(files, k);
        assert(dk.len() == step);
        assert(lo >= step);
        assert(lo - step + flen <= rest.len());
        assert(tex_data_from(files, k).subrange(lo, lo + flen) =~= rest.subrange(
            lo - step,
            lo - step + flen,
        )) by {
            assert forall|j: int| 0 <= j < flen implies #[trigger] tex_data_from(
                files,
                k,
            ).subrange(lo, lo + flen)[j] == rest.subrange(lo - step, lo - step + flen)[j] by {
                assert(tex_data_from(files, k)[lo + j] == (dk + rest)[lo + j]);
                assert((dk + rest)[lo + j] == rest[lo + j - step]);
                assert(rest.subrange(lo - step, lo - step + flen)[j] == rest[lo - step + j]);
            }
        }
    }
}

/// Entry `i` of the built archive reads back as record `i`.
#[verifier::rlimit(100)]
proof fn lemma_tex_image_entry(files: Seq<RecV>, s: Seq<u8>, i: int)
    requires
        1 <= files.len() <= 0xFFFF_FFFF,
        forall|j: int| 0 <= j < files.len() ==> tex_name_ok((#[trigger] files[j]).0),
        tex_sizes_ok(files),
        s == tex_header(files.len() as int) + tex_entries_from(files, 0) + tex_data_from(files, 0),
        0 <= i < files.len(),
    ensures
        tex_entry_ok(s, i),
        tex_rec(s, i) == files[i],
{
    let n = files.len() as int;
    lemma_tex_entries_len(files, 0);
    lemma_tex_data_len(files, 0);
    let hdr = tex_header(n);
    let ents = tex_entries_from(files, 0);
    let dat = tex_data_from(files, 0);
    assert(hdr.len() == 16);
    assert(s.len() == tex_offset(files, n));
    lemma_tex_offset_mono(files, 0, n);
    lemma_tex_entry_slice(files, 0, i);
    lemma_tex_entry_len(files[i], tex_offset(files, i));
    lemma_last_dot_props(files[i].0);
    let e = 16 + 32 * i;
    let eb = tex_entry_bytes(files[i], tex_offset(files, i));
    assert forall|j: int| 0 <= j < 32 implies #[trigger] s[e + j] == eb[j] by {
        assert(s[e + j] == (hdr + ents + dat)[e + j]);
        assert((hdr + ents + dat)[e + j] == ents[e + j - 16]);
        assert(ents.subrange(32 * i, 32 * i + 32)[j] == ents[32 * i + j]);
    }
    let ld = last_dot(files[i].0);
    let stem = files[i].0.take(ld);
    let ext = files[i].0.skip(ld + 1);
    let flen = files[i].1.len() as int;
    let off = tex_offset(files, i);
    lemma_tex_offset_mono(files, 0, i);
    lemma_tex_offset_mono(files, i + 1, n);
    assert(off <= u32::MAX);
    // the name field strips back to the stem
    assert(s.subrange(e, e + 16) =~= stem + zeros((16 - stem.len()) as nat)) by {
        assert forall|j: int| 0 <= j < 16 implies #[trigger] s.subrange(e, e + 16)[j] == (stem
            + zeros((16 - stem.len()) as nat))[j] by {
            assert(s[e + j] == eb[j]);
            assert(eb[j] == (stem + zeros((16 - stem.len()) as nat))[j]);
        }
    }
    assert(forall|j: int| 0 <= j < ld ==> stem[j] == files[i].0[j]);
    lemma_before_zero_at(stem + zeros((16 - stem.len()) as nat), ld);
    assert((stem + zeros((16 - stem.len()) as nat)).take(ld) =~= stem);
    // the extension field strips back to the extension
    assert(s.subrange(e + 16, e + 20) =~= ext + zeros((4 - ext.len()) as nat)) by {
        assert forall|j: int| 0 <= j < 4 implies #[trigger] s.subrange(e + 16, e + 20)[j] == (ext
            + zeros((4 - ext.len()) as nat))[j] by {
            assert(s[e + 16 + j] == eb[16 + j]);
            assert(eb[16 + j] == (ext + zeros((4 - ext.len()) as nat))[j]);
        }
    }
    assert(forall|j: int| 0 <= j < ext.len() ==> ext[j] == files[i].0[ld + 1 + j]);
    lemma_before_zero_at(ext + zeros((4 - ext.len()) as nat), ext.len() as int);
    assert((ext + zeros((4 - ext.len()) as nat)).take(ext.len() as int) =~= ext);
    // length and offset fields read back
    assert(s[e + 20] == spec_le32(flen as u32)[0] && s[e + 21] == spec_le32(flen as u32)[1] && s[e
        + 22] == spec_le32(flen as u32)[2] && s[e + 23] == spec_le32(flen as u32)[3]);
    assert(s[e + 24] == spec_le32(off as u32)[0] && s[e + 25] == spec_le32(off as u32)[1] && s[e
        + 26] == spec_le32(off as u32)[2] && s[e + 27] == spec_le32(off as u32)[3]);
    lemma_le32_round_trip(flen as u32);
    lemma_le32_round_trip(off as u32);
    // the data range is the file's contents
    lemma_tex_data_slice(files, 0, i);
    assert(s.subrange(off, off + flen) =~= files[i].1) by {
        assert forall|j: int| 0 <= j < flen implies #[trigger] s.subrange(off, off + flen)[j]
            == files[i].1[j] by {
            assert(s[off + j] == (hdr + ents + dat)[off + j]);
            assert((hdr + ents + dat)[off + j] == dat[off - (16 + 32 * n) + j]);
            assert(dat.subrange(
                tex_offset(files, i) - tex_offset(files, 0),
                tex_offset(files, i) - tex_offset(files, 0) + flen,
            )[j] == dat[off - (16 + 32 * n) + j]);
        }
    }
    lemma_name_rebuild(files[i].0);
}

/// The archive built from sorted, valid records unpacks to exactly them.
#[verifier::rlimit(100)]
pub proof fn lemma_tex_unpack_image(files: Seq<RecV>, s: Seq<u8>)
    requires
        1 <= files.len() <= 0xFFFF_FFFF,
        forall|j: int| 0 <= j < files.len() ==> tex_name_ok((#[trigger] files[j]).0),
        tex_sizes_ok(files),
        s == tex_header(files.len() as int) + tex_entries_from(files, 0) + tex_data_from(files, 0),
    ensures
        spec_tex_unpack(s) == Some(files),
{
    let n = files.len() as int;
    lemma_tex_entries_len(files, 0);
    lemma_tex_data_len(files, 0);
    let hdr = tex_header(n);
    let ents = tex_entries_from(files, 0);
    let dat = tex_data_from(files, 0);
    assert(hdr.len() == 16);
    assert(s.len() == tex_offset(files, n));
    lemma_tex_offset_mono(files, 0, n);
    assert(s.len() >= 16 + 32 * n);
    assert forall|i: int| 0 <= i < 16 implies #[trigger] s[i] == hdr[i] by {
        assert(s[i] == (hdr + ents + dat)[i]);
    }
    lemma_le32_round_trip(files.len() as u32);
    assert(spec_le32_val(s[0], s[1], s[2], s[3]) == n) by {
        assert(s[0] == hdr[0] && s[1] == hdr[1] && s[2] == hdr[2] && s[3] == hdr[3]);
        assert(hdr[0] == spec_le32(files.len() as u32)[0]);
        assert(hdr[1] == spec_le32(files.len() as u32)[1]);
        assert(hdr[2] == spec_le32(files.len() as u32)[2]);
        assert(hdr[3] == spec_le32(files.len() as u32)[3]);
    }
    assert forall|i: int| 0 <= i < n implies #[trigger] tex_entry_ok(s, i) by {
        lemma_tex_image_entry(files, s, i);
    }
    assert forall|i: int| 0 <= i < n implies (#[trigger] tex_rec(s, i)) == files[i] by {
        lemma_tex_image_entry(files, s, i);
    }
    assert(Seq::new(n as nat, |i: int| tex_rec(s, i)) =~= files);
}

/// `true` when some byte is zero.
pub fn has_zero_byte(v: &[u8]) -> (r: bool)
    ensures
        r == exists|j: int| 0 <= j < v@.len() && v@[j] == 0,
{
    let mut i: usize = 0;
    while i < v.len()
        invariant
            i <= v@.len(),
            forall|j: int| 0 <= j < i ==> v@[j] != 0,
        decreases v@.len() - i,
    {
        if v[i] == 0 {
            return true;
        }
        i = i + 1;
    }
    false
}

/// Unpacks a TEX archive into its records. Success and the records are
/// exactly what `spec_tex_unpack` gives.
pub fn unpack(src: &[u8]) -> (r: Result<Vec<FileRec>, TexError>)
    ensures
        match r {
            Ok(v) => spec_tex_unpack(src@) == Some(recs_view(v@)),
            Err(e) => spec_tex_unpack(src@) is None,
        },
        r == Err::<Vec<FileRec>, TexError>(TexError::TooShort) <==> (src@.len() < 16 || (16 + 32
            * (spec_le32_val(src@[0], src@[1], src@[2], src@[3]) as int) > src@.len()
            && spec_le32_val(src@[0], src@[1], src@[2], src@[3]) != 0)),
        src@.len() >= 16 ==> (r == Err::<Vec<FileRec>, TexError>(TexError::NoFiles) <==>
            spec_le32_val(src@[0], src@[1], src@[2], src@[3]) == 0),
        r is Err ==> (r == Err::<Vec<FileRec>, TexError>(TexError::TooShort) || r == Err::<
            Vec<FileRec>,
            TexError,
        >(TexError::NoFiles) || r == Err::<Vec<FileRec>, TexError>(TexError::BadEntry)),
{
    if src.len() < 16 {
        return Err(TexError::TooShort);
    }
    let n32 = read_le32(src, 0);
    if n32 == 0 {
        return Err(TexError::NoFiles);
    }
    if 16u64 + 32u64 * (n32 as u64) > src.len() as u64 {
        return Err(TexError::TooShort);
    }
    let n = n32 as usize;
    let mut out: Vec<FileRec> = Vec::new();
    let mut i: usize = 0;
    while i < n
        invariant
            src@.len() >= 16,
            n == spec_le32_val(src@[0], src@[1], src@[2], src@[3]),
            n >= 1,
            16 + 32 * n <= src@.len(),
            i <= n,
            out@.len() == i,
            forall|j: int| 0 <= j < i ==> #[trigger] tex_entry_ok(src@, j),
            forall|j: int| 0 <= j < i ==> (#[trigger] out@[j])@ == tex_rec(src@, j),
        decreases n - i,
    {
        let slen = src.len();
        let e = 16 + 32 * i;
        let name_field = copy_range(src, e, e + 16);
        let stem = get_bytes_before_zero(name_field.as_slice());
        let ext_field = copy_range(src, e + 16, e + 20);
        let ext = get_bytes_before_zero(ext_field.as_slice());
        let flen = read_le32(src, e + 20);
        let off = read_le32(src, e + 24);
        if off as u64 + flen as u64 > src.len() as u64 {
            proof {
                assert(!tex_entry_ok(src@, i as int));
                assert(spec_tex_unpack(src@) is None);
            }
            return Err(TexError::BadEntry);
        }
        let mut name = stem;
        name.push(46);
        let mut ext2 = ext;
        name.append(&mut ext2);
        let data = copy_range(src, off as usize, off as usize + flen as usize);
        let ghost nm = name@;
        let ghost dt = data@;
        out.push(FileRec { name, data });
        proof {
            assert(tex_entry_ok(src@, i as int));
            assert(nm =~= spec_before_zero(src@.subrange(e as int, e + 16)) + seq![46u8]
                + spec_before_zero(src@.subrange(e + 16, e + 20)));
            assert(out@[i as int]@ == tex_rec(src@, i as int));
            assert(forall|j: int| 0 <= j < i ==> (#[trigger] out@[j])@ == tex_rec(src@, j));
            assert(forall|j: int| 0 <= j < i ==> #[trigger] tex_entry_ok(src@, j));
        }
        i = i + 1;
    }
    proof {
        assert(forall|j: int| 0 <= j < n ==> #[trigger] tex_entry_ok(src@, j));
        assert(spec_tex_unpack(src@) == Some(Seq::new(n as nat, |j: int| tex_rec(src@, j))));
        assert(recs_view(out@) =~= Seq::new(n as nat, |j: int| tex_rec(src@, j)));
    }
    Ok(out)
}

/// Packs records into a TEX archive: sorts them by numeric filename, lays
/// out one 32-byte entry per file, then the 16-byte-aligned data region.
/// The output unpacks to exactly the sorted records.
#[verifier::rlimit(100)]
pub fn pack(files: Vec<FileRec>) -> (r: Result<Vec<u8>, TexError>)
    ensures
        ({
            let sv = spec_sort(recs_view(files@));
            &&& (r matches Ok(v) ==> spec_tex_unpack(v@) == Some(sv))
            &&& (r matches Ok(v) ==> v@ == tex_header(sv.len() as int) + tex_entries_from(sv, 0)
                + tex_data_from(sv, 0))
            &&& (r matches Ok(v) ==> v@.len() == tex_offset(sv, sv.len() as int))
            &&& (r is Ok <==> (files@.len() > 0 && (forall|i: int|
                0 <= i < sv.len() ==> tex_name_ok((#[trigger] sv[i]).0)) && tex_sizes_ok(sv)))
            &&& (r == Err::<Vec<u8>, TexError>(TexError::NoFiles) <==> files@.len() == 0)
            &&& (r == Err::<Vec<u8>, TexError>(TexError::BadName) <==> (files@.len() > 0 && !(
            forall|i: int| 0 <= i < sv.len() ==> tex_name_ok((#[trigger] sv[i]).0))))
            &&& (r == Err::<Vec<u8>, TexError>(TexError::TooLarge) <==> (files@.len() > 0 && (
            forall|i: int| 0 <= i < sv.len() ==> tex_name_ok((#[trigger] sv[i]).0))
                && !tex_sizes_ok(sv)))
        }),
{
    let sorted = sort_by_name(files);
    let ghost sv: Seq<RecV> = recs_view(sorted@);
    proof {
        crate::listing::lemma_sort_len(recs_view(files@));
    }
    let n = sorted.len();
    if n == 0 {
        proof {
            assert(recs_view(Seq::<FileRec>::empty()) =~= Seq::<RecV>::empty());
        }
        return Err(TexError::NoFiles);
    }
    // first pass: every filename must fit the name.ext form
    let mut i: usize = 0;
    while i < n
        invariant
            n == sorted@.len(),
            sv == recs_view(sorted@),
            sv == spec_sort(recs_view(files@)),
            sv.len() == files@.len(),
            n >= 1,
            i <= n,
            forall|j: int| 0 <= j < i ==> tex_name_ok((#[trigger] sv[j]).0),
        decreases n - i,
    {
        let parts = split_filename_and_ext(sorted[i].name.as_slice());
        let stem = parts.0;
        let ext = parts.1;
        let ghost nm: Seq<u8> = sv[i as int].0;
        let ghost ld: int = last_dot(nm);
        let bad = stem.len() == 0 || stem.len() > 16 || ext.len() == 0 || ext.len() > 4
            || has_zero_byte(stem.as_slice()) || has_zero_byte(ext.as_slice());
        proof {
            lemma_last_dot_props(nm);
            if !bad {
                assert(ld >= 0) by {
                    if ld < 0 {
                        assert(ext@.len() == 0);
                    }
                }
                assert(stem@ == nm.take(ld) && ext@ == nm.skip(ld + 1));
                assert(tex_name_ok(nm)) by {
                    assert(1 <= ld <= 16);
                    assert(1 <= nm.len() - ld - 1 <= 4);
                    assert forall|j: int| 0 <= j < nm.len() && j != ld implies nm[j] != 0 by {
                        if j < ld {
                            assert(nm.take(ld)[j] == nm[j]);
                        } else {
                            assert(nm.skip(ld + 1)[j - ld - 1] == nm[j]);
                        }
                    }
                }
            } else {
                assert(!tex_name_ok(nm)) by {
                    if tex_name_ok(nm) {
                        assert(ld >= 1);
                        assert(stem@ == nm.take(ld) && ext@ == nm.skip(ld + 1));
                        assert(stem@.len() == ld);
                        assert(ext@.len() == nm.len() - ld - 1);
                        assert forall|j: int| 0 <= j < stem@.len() implies stem@[j] != 0 by {
                            assert(stem@[j] == nm[j]);
                        }
                        assert forall|j: int| 0 <= j < ext@.len() implies ext@[j] != 0 by {
                            assert(ext@[j] == nm[ld + 1 + j]);
                        }
                    }
                }
            }
        }
        if bad {
            proof {
                assert(!tex_name_ok(sv[i as int].0));
            }
            return Err(TexError::BadName);
        }
        i = i + 1;
    }
    // second pass: lengths and offsets must fit 32 bits
    if n > 0x7FF_FFFF {
        proof {
            lemma_tex_offset_mono(sv, 0, sv.len() as int);
        }
        return Err(TexError::TooLarge);
    }
    let mut off: u64 = 16 + 32 * (n as u64);
    let mut i: usize = 0;
    while i < n
        invariant
            n == sorted@.len(),
            n <= 0x7FF_FFFF,
            n >= 1,
            sv == recs_view(sorted@),
            sv == spec_sort(recs_view(files@)),
            sv.len() == files@.len(),
            forall|j: int| 0 <= j < n ==> tex_name_ok((#[trigger] sv[j]).0),
            i <= n,
            off as int == tex_offset(sv, i as int),
            off <= u32::MAX,
            forall|j: int| 0 <= j < i ==> (#[trigger] sv[j]).1.len() <= u32::MAX,
        decreases n - i,
    {
        let dlen = sorted[i].data.len();
        if dlen as u64 > u32::MAX as u64 {
            proof {
                assert(sv[i as int].1.len() > u32::MAX);
            }
            return Err(TexError::TooLarge);
        }
        let pad = pad_len(dlen, 16);
        off = off + dlen as u64 + pad as u64;
        proof {
            assert(off as int == tex_offset(sv, i + 1));
        }
        if off > u32::MAX as u64 {
            proof {
                lemma_tex_offset_mono(sv, i + 1, sv.len() as int);
            }
            return Err(TexError::TooLarge);
        }
        i = i + 1;
    }
    proof {
        lemma_tex_offset_mono(sv, 0, sv.len() as int);
        assert(tex_sizes_ok(sv));
    }
    // emit: header, entries, data
    let mut out: Vec<u8> = Vec::new();
    push_le32(&mut out, n as u32);
    out.push(0);
    out.push(1);
    out.push(0);
    out.push(0);
    out.push(0);
    out.push(0);
    out.push(0);
    out.push(0);
    out.push(0x10);
    out.push(0);
    out.push(0);
    out.push(0);
    proof {
        assert(out@ =~= tex_header(n as int));
    }
    let mut off2: u64 = 16 + 32 * (n as u64);
    let mut i: usize = 0;
    while i < n
        invariant
            n == sorted@.len(),
            n <= 0x7FF_FFFF,
            sv == recs_view(sorted@),
            forall|j: int| 0 <= j < n ==> tex_name_ok((#[trigger] sv[j]).0),
            tex_sizes_ok(sv),
            i <= n,
            off2 as int == tex_offset(sv, i as int),
            out@ + tex_entries_from(sv, i as int) == tex_header(n as int) + tex_entries_from(
                sv,
                0,
            ),
        decreases n - i,
    {
        let ghost out0 = out@;
        let parts = split_filename_and_ext(sorted[i].name.as_slice());
        let dlen = sorted[i].data.len();
        proof {
            lemma_last_dot_props(sv[i as int].0);
            lemma_tex_offset_mono(sv, 0, i as int);
            lemma_tex_offset_mono(sv, i + 1, sv.len() as int);
            assert(tex_offset(sv, i + 1) <= u32::MAX);
            assert(sv[i as int].1.len() <= u32::MAX);
        }
        push_zero_padded(&mut out, &parts.0, 16);
        push_zero_padded(&mut out, &parts.1, 4);
        push_le32(&mut out, dlen as u32);
        push_le32(&mut out, off2 as u32);
        write_padding_zeroes(&mut out, 4);
        proof {
            let eb = tex_entry_bytes(sv[i as int], tex_offset(sv, i as int));
            assert(out@ =~= out0 + eb);
            assert(tex_entries_from(sv, i as int) == eb + tex_entries_from(sv, i + 1));
            assert(out@ + tex_entries_from(sv, i + 1) =~= tex_header(n as int) + tex_entries_from(
                sv,
                0,
            )) by {
                assert(out0 + (eb + tex_entries_from(sv, i + 1)) =~= (out0 + eb)
                    + tex_entries_from(sv, i + 1));
            }
        }
        let pad = pad_len(dlen, 16);
        off2 = off2 + dlen as u64 + pad as u64;
        i = i + 1;
    }
    proof {
        assert(tex_entries_from(sv, n as int) =~= Seq::<u8>::empty());
        assert(out@ =~= tex_header(n as int) + tex_entries_from(sv, 0));
    }
    let ghost mid = out@;
    let mut i: usize = 0;
    while i < n
        invariant
            n == sorted@.len(),
            sv == recs_view(sorted@),
            i <= n,
            out@ + tex_data_from(sv, i as int) == mid + tex_data_from(sv, 0),
        decreases n - i,
    {
        let ghost out0 = out@;
        out.extend_from_slice(sorted[i].data.as_slice());
        let pad = pad_len(sorted[i].data.len(), 16);
        write_padding_zeroes(&mut out, pad);
        proof {
            let db = sv[i as int].1 + zeros(
                spec_pad_len(sv[i as int].1.len() as int, 16) as nat,
            );
            assert(out@ =~= out0 + db);
            assert(tex_data_from(sv, i as int) == db + tex_data_from(sv, i + 1));
            assert(out@ + tex_data_from(sv, i + 1) =~= mid + tex_data_from(sv, 0)) by {
                assert(out0 + (db + tex_data_from(sv, i + 1)) =~= (out0 + db) + tex_data_from(
                    sv,
                    i + 1,
                ));
            }
        }
        i = i + 1;
    }
    proof {
        assert(tex_data_from(sv, n as int) =~= Seq::<u8>::empty());
        assert(out@ =~= tex_header(n as int) + tex_entries_from(sv, 0) + tex_data_from(sv, 0));
        lemma_tex_unpack_image(sv, out@);
        lemma_tex_entries_len(sv, 0);
        lemma_tex_data_len(sv, 0);
    }
    Ok(out)
}

} // verus!
