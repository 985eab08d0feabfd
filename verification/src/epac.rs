//! The EPAC codec: a two-tier archive whose entry table mixes opaque
//! divider records with packed files addressed in 2048-byte blocks, plus
//! the `__entry__` sidecar that preserves the format's opaque bytes across
//! an unpack/pack cycle.

use vstd::prelude::*;

use crate::util::{
    copy_range, lemma_pad_mod, pad_len, push_le32, read_le32, spec_le32,
    spec_le32_val, spec_pad_len, write_padding_zeroes, zeros,
};

verus! {

/// Why an EPAC operation was refused.
#[derive(Clone, Copy, Debug, PartialEq, Eq, Structural)]
pub enum EpacError {
    /// The stream does not start with the EPAC magic.
    BadMagic,
    /// The stream ends before its header, table, or a data range does.
    TooShort,
    /// The entry table is empty.
    NoEntries,
    /// An entry does not fit its form (name length, marker byte, range).
    BadEntry,
    /// More entries than the table region holds.
    TooManyEntries,
    /// A size field would overflow 32 bits.
    TooLarge,
    /// The `__entry__` sidecar is malformed.
    BadSidecar,
}

/// Magic bytes `"EPAC"`.
pub open spec fn epac_magic() -> Seq<u8> {
    seq![0x45u8, 0x50u8, 0x41u8, 0x43u8]
}

/// The sixteen footer magic bytes, `"EOP5/1.10"` zero-padded.
pub open spec fn epac_footer_magic() -> Seq<u8> {
    seq![
        0x45u8,
        0x4Fu8,
        0x50u8,
        0x35u8,
        0x2Fu8,
        0x31u8,
        0x2Eu8,
        0x31u8,
        0x30u8,
        0u8,
        0u8,
        0u8,
        0u8,
        0u8,
        0u8,
        0u8,
    ]
}

/// Most entries the 0x800..0x4000 table region can hold.
pub open spec fn epac_max_entries() -> int {
    1194
}

/// One record of an EPAC archive.
#[derive(Debug, PartialEq, Eq)]
pub enum EpacEntry {
    /// An opaque grouping marker: a 4-byte name starting with `E` and a
    /// 4-byte field this library does not interpret.
    Divider { name: Vec<u8>, field: Vec<u8> },
    /// A packed file: a 4-byte name and its contents.
    File { name: Vec<u8>, data: Vec<u8> },
}

/// Mathematical image of an entry.
pub enum EpacEntryV {
    Divider { name: Seq<u8>, field: Seq<u8> },
    File { name: Seq<u8>, data: Seq<u8> },
}

impl View for EpacEntry {
    type V = EpacEntryV;

    open spec fn view(&self) -> EpacEntryV {
        match self {
            EpacEntry::Divider { name, field } => EpacEntryV::Divider {
                name: name@,
                field: field@,
            },
            EpacEntry::File { name, data } => EpacEntryV::File { name: name@, data: data@ },
        }
    }
}

/// The views of a row of entries.
pub open spec fn entries_view(s: Seq<EpacEntry>) -> Seq<EpacEntryV> {
    Seq::new(s.len(), |i: int| s[i]@)
}

/// An entry the packer accepts: 4-byte names, dividers marked by a leading
/// `E`, files never named by four zero bytes (the table terminator) nor
/// starting with `E` (the divider marker).
pub open spec fn epac_entry_wf(e: EpacEntryV) -> bool {
    match e {
        EpacEntryV::Divider { name, field } => name.len() == 4 && field.len() == 4 && name[0]
            == 0x45,
        EpacEntryV::File { name, data } => name.len() == 4 && name[0] != 0x45 && !(name[0] == 0
            && name[1] == 0 && name[2] == 0 && name[3] == 0),
    }
}

/// 2048-byte blocks taken by the files among entries `0 .. i`.
pub open spec fn epac_blocks(es: Seq<EpacEntryV>, i: int) -> int
    decreases i,
{
    if i <= 0 {
        0
    } else {
        epac_blocks(es, i - 1) + match es[i - 1] {
            EpacEntryV::File { name, data } => (data.len() + spec_pad_len(data.len() as int, 2048))
                / 2048,
            EpacEntryV::Divider { .. } => 0,
        }
    }
}

/// 256-byte units recorded for a file of `len` bytes, rounding up.
pub open spec fn epac_units(len: int) -> int {
    (len + spec_pad_len(len, 256)) / 256
}

/// The whole data region fits under the 32-bit ceiling together with the
/// fixed 0x4000-byte head and 0x800-byte footer.
pub open spec fn epac_sizes_ok(es: Seq<EpacEntryV>) -> bool {
    epac_blocks(es, es.len() as int) * 2048 <= u32::MAX - 0x4800
}

pub proof fn lemma_epac_blocks_mono(es: Seq<EpacEntryV>, i: int, j: int)
    requires
        0 <= i <= j,
    ensures
        epac_blocks(es, i) <= epac_blocks(es, j),
    decreases j - i,
{
    if i < j {
        lemma_epac_blocks_mono(es, i, j - 1);
        match es[j - 1] {
            EpacEntryV::File { name, data } => {
                lemma_pad_mod(data.len() as int, 2048);
                lemma_div_pad(data.len() as int, 2048);
            },
            EpacEntryV::Divider { .. } => {},
        }
    }
}

/// A rounded length divides out exactly.
pub proof fn lemma_div_pad(l: int, a: int)
    requires
        a > 0,
        l >= 0,
    ensures
        ((l + spec_pad_len(l, a)) / a) * a == l + spec_pad_len(l, a),
        (l + spec_pad_len(l, a)) / a >= 0,
{
    lemma_pad_mod(l, a);
    assert(((l + spec_pad_len(l, a)) / a) * a == l + spec_pad_len(l, a)) by (nonlinear_arith)
        requires
            a > 0,
            l + spec_pad_len(l, a) >= 0,
            (l + spec_pad_len(l, a)) % a == 0,
    ;
    assert((l + spec_pad_len(l, a)) / a >= 0) by (nonlinear_arith)
        requires
            a > 0,
            l + spec_pad_len(l, a) >= 0,
    ;
}

/// Rounding up to 256 never exceeds rounding up to 2048.
pub proof fn lemma_pad256_le_pad2048(l: int)
    requires
        l >= 0,
    ensures
        spec_pad_len(l, 256) <= spec_pad_len(l, 2048),
{
    if l % 2048 != 0 {
        assert(l % 256 == (l % 2048) % 256 && 0 <= l % 2048 < 2048) by (nonlinear_arith)
            requires
                l >= 0,
        ;
        let r = l % 2048;
        if l % 256 != 0 {
            assert(256 - r % 256 <= 2048 - r) by (nonlinear_arith)
                requires
                    0 < r < 2048,
                    r % 256 != 0,
            ;
        }
    } else {
        assert(l % 256 == 0) by (nonlinear_arith)
            requires
                l >= 0,
                l % 2048 == 0,
        ;
    }
}

/// A file entry as the unpacker returns it: contents padded with zeros out
/// to the recorded 256-byte unit count. Dividers come back as they are.
pub open spec fn epac_padded(e: EpacEntryV) -> EpacEntryV {
    match e {
        EpacEntryV::Divider { name, field } => EpacEntryV::Divider { name, field },
        EpacEntryV::File { name, data } => EpacEntryV::File {
            name,
            data: data + zeros(spec_pad_len(data.len() as int, 256) as nat),
        },
    }
}

/// Parses the entry table from slot `i`: stops at a slot whose first four
/// bytes are zero or when the table region is exhausted; a leading `E`
/// marks a divider, anything else a packed file whose data is read at
/// `offset * 2048 + 0x4000` for `units * 256` bytes.
pub open spec fn spec_epac_entries(s: Seq<u8>, i: int) -> Option<Seq<EpacEntryV>>
    decreases epac_max_entries() - i,
{
    if i < 0 || i > epac_max_entries() {
        None
    } else if i == epac_max_entries() {
        Some(Seq::empty())
    } else if 0x800 + 12 * (i + 1) > s.len() {
        None
    } else {
        let e = 0x800 + 12 * i;
        if s[e] == 0 && s[e + 1] == 0 && s[e + 2] == 0 && s[e + 3] == 0 {
            Some(Seq::empty())
        } else if s[e] == 0x45 {
            match spec_epac_entries(s, i + 1) {
                None => None,
                Some(rest) => Some(
                    seq![
                        EpacEntryV::Divider {
                            name: s.subrange(e, e + 4),
                            field: s.subrange(e + 4, e + 8),
                        },
                    ] + rest,
                ),
            }
        } else {
            let rel = spec_le32_val(s[e + 4], s[e + 5], s[e + 6], s[e + 7]) as int;
            let units = spec_le32_val(s[e + 8], s[e + 9], s[e + 10], s[e + 11]) as int;
            if rel * 2048 + 0x4000 > u32::MAX {
                None
            } else if units * 256 > u32::MAX {
                None
            } else if rel * 2048 + 0x4000 + units * 256 > s.len() {
                None
            } else {
                match spec_epac_entries(s, i + 1) {
                    None => None,
                    Some(rest) => Some(
                        seq![
                            EpacEntryV::File {
                                name: s.subrange(e, e + 4),
                                data: s.subrange(
                                    rel * 2048 + 0x4000,
                                    rel * 2048 + 0x4000 + units * 256,
                                ),
                            },
                        ] + rest,
                    ),
                }
            }
        }
    }
}

/// What an EPAC archive unpacks to: its opaque header field, its opaque
/// footer field, and the entry row.
pub open spec fn spec_epac_unpack(s: Seq<u8>) -> Option<(Seq<u8>, Seq<u8>, Seq<EpacEntryV>)> {
    if s.len() < 8 {
        None
    } else if s.subrange(0, 4) != epac_magic() {
        None
    } else if s.len() < 0x400 {
        None
    } else {
        match spec_epac_entries(s, 0) {
            None => None,
            Some(es) => if es.len() == 0 {
                None
            } else {
                Some(
                    (
                        s.subrange(4, 8),
                        s.subrange(s.len() - 0x400, s.len() - 0x400 + 4),
                        es,
                    ),
                )
            },
        }
    }
}

/// `true` when the first four bytes carry the EPAC magic.
pub fn detect_format(prefix: &[u8]) -> (r: bool)
    ensures
        r == (prefix@.len() >= 4 && prefix@.subrange(0, 4) == epac_magic()),
{
    if prefix.len() < 4 {
        return false;
    }
    let r = prefix[0] == 0x45 && prefix[1] == 0x50 && prefix[2] == 0x41 && prefix[3] == 0x43;
    proof {
        if r {
            assert(prefix@.subrange(0, 4) =~= epac_magic());
        } else {
            assert(prefix@.subrange(0, 4) != epac_magic()) by {
                if prefix@.subrange(0, 4) == epac_magic() {
                    assert(prefix@.subrange(0, 4)[0] == 0x45u8);
                    assert(prefix@.subrange(0, 4)[1] == 0x50u8);
                    assert(prefix@.subrange(0, 4)[2] == 0x41u8);
                    assert(prefix@.subrange(0, 4)[3] == 0x43u8);
                }
            }
        }
    }
    r
}

/// Unpacks an EPAC archive. Success and the result are exactly what
/// `spec_epac_unpack` gives; file contents come back in whole 256-byte
/// units, as the format records them.
pub fn unpack(src: &[u8]) -> (r: Result<(Vec<u8>, Vec<u8>, Vec<EpacEntry>), EpacError>)
    ensures
        match r {
            Ok(t) => spec_epac_unpack(src@) == Some((t.0@, t.1@, entries_view(t.2@))),
            Err(e) => spec_epac_unpack(src@) is None,
        },
        r == Err::<(Vec<u8>, Vec<u8>, Vec<EpacEntry>), EpacError>(EpacError::BadMagic) <==> (
        src@.len() < 4 || src@.subrange(0, 4) != epac_magic()),
        r is Err ==> (r == Err::<(Vec<u8>, Vec<u8>, Vec<EpacEntry>), EpacError>(
            EpacError::BadMagic,
        ) || r == Err::<(Vec<u8>, Vec<u8>, Vec<EpacEntry>), EpacError>(EpacError::TooShort) || r
            == Err::<(Vec<u8>, Vec<u8>, Vec<EpacEntry>), EpacError>(EpacError::NoEntries) || r
            == Err::<(Vec<u8>, Vec<u8>, Vec<EpacEntry>), EpacError>(EpacError::BadEntry)),
{
    if src.len() < 4 {
        return Err(EpacError::BadMagic);
    }
    if !(src[0] == 0x45 && src[1] == 0x50 && src[2] == 0x41 && src[3] == 0x43) {
        proof {
            assert(src@.subrange(0, 4) != epac_magic()) by {
                if src@.subrange(0, 4) == epac_magic() {
                    assert(src@.subrange(0, 4)[0] == 0x45u8);
                    assert(src@.subrange(0, 4)[1] == 0x50u8);
                    assert(src@.subrange(0, 4)[2] == 0x41u8);
                    assert(src@.subrange(0, 4)[3] == 0x43u8);
                }
            }
        }
        return Err(EpacError::BadMagic);
    }
    proof {
        assert(src@.subrange(0, 4) =~= epac_magic());
    }
    if src.len() < 0x400 {
        return Err(EpacError::TooShort);
    }
    let header_field = copy_range(src, 4, 8);
    let footer_field = copy_range(src, src.len() - 0x400, src.len() - 0x400 + 4);
    let mut out: Vec<EpacEntry> = Vec::new();
    let mut i: usize = 0;
    let found_end: bool;
    loop
        invariant_except_break
            src@.len() >= 0x400,
            src@.subrange(0, 4) == epac_magic(),
            0 <= i <= epac_max_entries(),
            out@.len() == i,
            spec_epac_entries(src@, 0) == match spec_epac_entries(src@, i as int) {
                None => None::<Seq<EpacEntryV>>,
                Some(rest) => Some(entries_view(out@) + rest),
            },
        ensures
            spec_epac_entries(src@, 0) == Some(entries_view(out@)),
        decreases epac_max_entries() - i,
    {
        if i == 1194 {
            proof {
                assert(spec_epac_entries(src@, i as int) == Some(Seq::<EpacEntryV>::empty()));
                assert(entries_view(out@) + Seq::<EpacEntryV>::empty() =~= entries_view(out@));
            }
            found_end = true;
            break ;
        }
        if 0x800 + 12 * (i + 1) > src.len() {
            proof {
                assert(spec_epac_entries(src@, i as int) is None);
            }
            return Err(EpacError::TooShort);
        }
        let e = 0x800 + 12 * i;
        if src[e] == 0 && src[e + 1] == 0 && src[e + 2] == 0 && src[e + 3] == 0 {
            proof {
                assert(spec_epac_entries(src@, i as int) == Some(Seq::<EpacEntryV>::empty()));
                assert(entries_view(out@) + Seq::<EpacEntryV>::empty() =~= entries_view(out@));
            }
            found_end = true;
            break ;
        }
        let ghost pre = out@;
        if src[e] == 0x45 {
            let name = copy_range(src, e, e + 4);
            let field = copy_range(src, e + 4, e + 8);
            out.push(EpacEntry::Divider { name, field });
            proof {
                let x = EpacEntryV::Divider {
                    name: src@.subrange(e as int, e + 4),
                    field: src@.subrange(e + 4, e + 8),
                };
                assert(entries_view(out@) =~= entries_view(pre).push(x));
                match spec_epac_entries(src@, i + 1) {
                    Some(rest) => {
                        assert(spec_epac_entries(src@, i as int) == Some(seq![x] + rest));
                        assert(entries_view(pre) + (seq![x] + rest) =~= (entries_view(pre)
                            + seq![x]) + rest);
                        assert(entries_view(pre).push(x) =~= entries_view(pre) + seq![x]);
                    },
                    None => {},
                }
            }
        } else {
            let rel = read_le32(src, e + 4);
            let units = read_le32(src, e + 8);
            if rel as u64 * 2048 + 0x4000 > u32::MAX as u64 {
                proof {
                    assert(spec_epac_entries(src@, i as int) is None);
                }
                return Err(EpacError::BadEntry);
            }
            if units as u64 * 256 > u32::MAX as u64 {
                proof {
                    assert(spec_epac_entries(src@, i as int) is None);
                }
                return Err(EpacError::BadEntry);
            }
            let abs = rel as usize * 2048 + 0x4000;
            let alen = units as usize * 256;
            if abs as u64 + alen as u64 > src.len() as u64 {
                proof {
                    assert(spec_epac_entries(src@, i as int) is None);
                }
                return Err(EpacError::BadEntry);
            }
            let name = copy_range(src, e, e + 4);
            let data = copy_range(src, abs, abs + alen);
            out.push(EpacEntry::File { name, data });
            proof {
                let x = EpacEntryV::File {
                    name: src@.subrange(e as int, e + 4),
                    data: src@.subrange(abs as int, abs + alen),
                };
                assert(entries_view(out@) =~= entries_view(pre).push(x));
                match spec_epac_entries(src@, i + 1) {
                    Some(rest) => {
                        assert(spec_epac_entries(src@, i as int) == Some(seq![x] + rest));
                        assert(entries_view(pre) + (seq![x] + rest) =~= (entries_view(pre)
                            + seq![x]) + rest);
                        assert(entries_view(pre).push(x) =~= entries_view(pre) + seq![x]);
                    },
                    None => {},
                }
            }
        }
        i = i + 1;
    }
    if out.len() == 0 {
        return Err(EpacError::NoEntries);
    }
    Ok((header_field, footer_field, out))
}


/// The first 0x800 bytes: magic, the opaque header field, the data region's
/// size, the fixed reserved word, then zeros.
pub open spec fn epac_head(hf: Seq<u8>, es: Seq<EpacEntryV>) -> Seq<u8> {
    epac_magic() + hf + spec_le32((epac_blocks(es, es.len() as int) * 2048) as u32) + seq![
        7u8,
        0u8,
        0u8,
        0u8,
    ] + zeros((0x800 - 16) as nat)
}

/// One 12-byte table slot.
pub open spec fn epac_entry_bytes(e: EpacEntryV, blk: int) -> Seq<u8> {
    match e {
        EpacEntryV::Divider { name, field } => name + field + spec_le32(blk as u32),
        EpacEntryV::File { name, data } => name + spec_le32(blk as u32) + spec_le32(
            epac_units(data.len() as int) as u32,
        ),
    }
}

/// The table slots for entries `i` onward.
pub open spec fn epac_entries_bytes(es: Seq<EpacEntryV>, i: int) -> Seq<u8>
    decreases es.len() - i,
{
    if i < 0 || i >= es.len() {
        Seq::empty()
    } else {
        epac_entry_bytes(es[i], epac_blocks(es, i)) + epac_entries_bytes(es, i + 1)
    }
}

/// The data region for entries `i` onward: each file padded to 2048 bytes,
/// dividers contributing nothing.
pub open spec fn epac_data_from(es: Seq<EpacEntryV>, i: int) -> Seq<u8>
    decreases es.len() - i,
{
    if i < 0 || i >= es.len() {
        Seq::empty()
    } else {
        (match es[i] {
            EpacEntryV::File { name, data } => data + zeros(
                spec_pad_len(data.len() as int, 2048) as nat,
            ),
            EpacEntryV::Divider { .. } => Seq::empty(),
        }) + epac_data_from(es, i + 1)
    }
}

/// The 0x800-byte footer: its magic, zeros, the opaque footer field at
/// offset 0x400, zeros.
pub open spec fn epac_footer(ff: Seq<u8>) -> Seq<u8> {
    epac_footer_magic() + zeros((0x400 - 16) as nat) + ff + zeros((0x400 - 4) as nat)
}

/// A whole packed archive.
pub open spec fn epac_image(hf: Seq<u8>, es: Seq<EpacEntryV>, ff: Seq<u8>) -> Seq<u8> {
    epac_head(hf, es) + epac_entries_bytes(es, 0) + zeros((0x3800 - 12 * es.len()) as nat)
        + epac_data_from(es, 0) + epac_footer(ff)
}

pub proof fn lemma_epac_entry_len(e: EpacEntryV, blk: int)
    requires
        epac_entry_wf(e),
    ensures
        epac_entry_bytes(e, blk).len() == 12,
{
}

pub proof fn lemma_epac_entries_len(es: Seq<EpacEntryV>, i: int)
    requires
        0 <= i <= es.len(),
        forall|j: int| 0 <= j < es.len() ==> epac_entry_wf(#[trigger] es[j]),
    ensures
        epac_entries_bytes(es, i).len() == 12 * (es.len() - i),
    decreases es.len() - i,
{
    if i < es.len() {
        lemma_epac_entry_len(es[i], epac_blocks(es, i));
        lemma_epac_entries_len(es, i + 1);
    }
}

pub proof fn lemma_epac_data_len(es: Seq<EpacEntryV>, i: int)
    requires
        0 <= i <= es.len(),
    ensures
        epac_data_from(es, i).len() == (epac_blocks(es, es.len() as int) - epac_blocks(es, i))
            * 2048,
    decreases es.len() - i,
{
    if i < es.len() {
        lemma_epac_data_len(es, i + 1);
        match es[i] {
            EpacEntryV::File { name, data } => {
                lemma_div_pad(data.len() as int, 2048);
                assert(epac_blocks(es, i + 1) == epac_blocks(es, i) + (data.len() + spec_pad_len(
                    data.len() as int,
                    2048,
                )) / 2048);
                assert((epac_blocks(es, es.len() as int) - epac_blocks(es, i)) * 2048 == (
                epac_blocks(es, es.len() as int) - epac_blocks(es, i + 1)) * 2048 + ((data.len()
                    + spec_pad_len(data.len() as int, 2048)) / 2048) * 2048) by (nonlinear_arith)
                    requires
                        epac_blocks(es, i + 1) == epac_blocks(es, i) + (data.len() + spec_pad_len(
                            data.len() as int,
                            2048,
                        )) / 2048,
                ;
            },
            EpacEntryV::Divider { .. } => {},
        }
    }
}

proof fn lemma_epac_entry_slice(es: Seq<EpacEntryV>, k: int, i: int)
    requires
        0 <= k <= i < es.len(),
        forall|j: int| 0 <= j < es.len() ==> epac_entry_wf(#[trigger] es[j]),
    ensures
        epac_entries_bytes(es, k).subrange(12 * (i - k), 12 * (i - k) + 12) == epac_entry_bytes(
            es[i],
            epac_blocks(es, i),
        ),
    decreases i - k,
{
    lemma_epac_entries_len(es, k);
    lemma_epac_entries_len(es, k + 1);
    lemma_epac_entry_len(es[k], epac_blocks(es, k));
    let ek = epac_entry_bytes(es[k], epac_blocks(es, k));
    let rest = epac_entries_bytes(es, k + 1);
    if i == k {
        assert(epac_entries_bytes(es, k).subrange(0, 12) =~= ek);
    } else {
        lemma_epac_entry_slice(es, k + 1, i);
        let lo = 12 * (i - k);
        assert(epac_entries_bytes(es, k).subrange(lo, lo + 12) =~= rest.subrange(
            12 * (i - k - 1),
            12 * (i - k - 1) + 12,
        )) by {
            assert forall|j: int| 0 <= j < 12 implies #[trigger] epac_entries_bytes(
                es,
                k,
            ).subrange(lo, lo + 12)[j] == rest.subrange(12 * (i - k - 1), 12 * (i - k - 1) + 12)[j]
                by {
                assert(epac_entries_bytes(es, k)[lo + j] == (ek + rest)[lo + j]);
                assert((ek + rest)[lo + j] == rest[lo + j - 12]);
            }
        }
    }
}

proof fn lemma_epac_data_slice(es: Seq<EpacEntryV>, k: int, i: int)
    requires
        0 <= k <= i < es.len(),
        es[i] is File,
    ensures
        ({
            let data = es[i]->File_data;
            let lo = (epac_blocks(es, i) - epac_blocks(es, k)) * 2048;
            epac_data_from(es, k).subrange(lo, lo + data.len() + spec_pad_len(
                data.len() as int,
                2048,
            )) == data + zeros(spec_pad_len(data.len() as int, 2048) as nat)
        }),
    decreases i - k,
{
    let n = es.len() as int;
    let data = es[i]->File_data;
    let slot = data + zeros(spec_pad_len(data.len() as int, 2048) as nat);
    let lo = (epac_blocks(es, i) - epac_blocks(es, k)) * 2048;
    lemma_epac_data_len(es, k);
    lemma_epac_data_len(es, k + 1);
    lemma_epac_blocks_mono(es, k, i);
    if k < i {
        lemma_epac_blocks_mono(es, k + 1, i);
    }
    lemma_epac_blocks_mono(es, i + 1, n);
    lemma_div_pad(data.len() as int, 2048);
    assert(epac_blocks(es, i + 1) * 2048 == epac_blocks(es, i) * 2048 + data.len() + spec_pad_len(
        data.len() as int,
        2048,
    )) by (nonlinear_arith)
        requires
            epac_blocks(es, i + 1) == epac_blocks(es, i) + (data.len() + spec_pad_len(
                data.len() as int,
                2048,
            )) / 2048,
            ((data.len() + spec_pad_len(data.len() as int, 2048)) / 2048) * 2048 == data.len()
                + spec_pad_len(data.len() as int, 2048),
    ;
    assert((epac_blocks(es, n) - epac_blocks(es, k)) * 2048 >= (epac_blocks(es, i + 1)
        - epac_blocks(es, k)) * 2048) by (nonlinear_arith)
        requires
            epac_blocks(es, n) >= epac_blocks(es, i + 1),
    ;
    assert((epac_blocks(es, i + 1) - epac_blocks(es, k)) * 2048 == lo + data.len() + spec_pad_len(
        data.len() as int,
        2048,
    )) by (nonlinear_arith)
        requires
            epac_blocks(es, i + 1) * 2048 == epac_blocks(es, i) * 2048 + data.len()
                + spec_pad_len(data.len() as int, 2048),
            lo == (epac_blocks(es, i) - epac_blocks(es, k)) * 2048,
    ;
    assert(lo + slot.len() <= epac_data_from(es, k).len());
    if i == k {
        assert(lo == 0);
        assert(epac_data_from(es, k) == slot + epac_data_from(es, k + 1));
        assert(epac_data_from(es, k).subrange(0, slot.len() as int) =~= slot) by {
            assert forall|j: int| 0 <= j < slot.len() implies #[trigger] epac_data_from(
                es,
                k,
            ).subrange(0, slot.len() as int)[j] == slot[j] by {
                assert(epac_data_from(es, k)[j] == (slot + epac_data_from(es, k + 1))[j]);
            }
        }
    } else {
        lemma_epac_data_slice(es, k + 1, i);
        let first: Seq<u8> = match es[k] {
            EpacEntryV::File { name, data } => data + zeros(
                spec_pad_len(data.len() as int, 2048) as nat,
            ),
            EpacEntryV::Divider { .. } => Seq::empty(),
        };
        let rest = epac_data_from(es, k + 1);
        assert(epac_data_from(es, k) == first + rest);
        let step = (epac_blocks(es, k + 1) - epac_blocks(es, k)) * 2048;
        assert(first.len() == step) by {
            match es[k] {
                EpacEntryV::File { name, data } => {
                    lemma_div_pad(data.len() as int, 2048);
                    assert(epac_blocks(es, k + 1) == epac_blocks(es, k) + (data.len()
                        + spec_pad_len(data.len() as int, 2048)) / 2048);
                    assert((epac_blocks(es, k + 1) - epac_blocks(es, k)) * 2048 == data.len()
                        + spec_pad_len(data.len() as int, 2048)) by (nonlinear_arith)
                        requires
                            epac_blocks(es, k + 1) - epac_blocks(es, k) == (data.len()
                                + spec_pad_len(data.len() as int, 2048)) / 2048,
                            ((data.len() + spec_pad_len(data.len() as int, 2048)) / 2048) * 2048
                                == data.len() + spec_pad_len(data.len() as int, 2048),
                    ;
                },
                EpacEntryV::Divider { .. } => {},
            }
        }
        let lo2 = (epac_blocks(es, i) - epac_blocks(es, k + 1)) * 2048;
        assert(lo == step + lo2) by (nonlinear_arith)
            requires
                lo == (epac_blocks(es, i) - epac_blocks(es, k)) * 2048,
                step == (epac_blocks(es, k + 1) - epac_blocks(es, k)) * 2048,
                lo2 == (epac_blocks(es, i) - epac_blocks(es, k + 1)) * 2048,
        ;
        assert(lo2 >= 0) by (nonlinear_arith)
            requires
                lo2 == (epac_blocks(es, i) - epac_blocks(es, k + 1)) * 2048,
                epac_blocks(es, i) >= epac_blocks(es, k + 1),
        ;
        assert(epac_data_from(es, k).subrange(lo, lo + slot.len() as int) =~= rest.subrange(
            lo2,
            lo2 + slot.len() as int,
        )) by {
            assert forall|j: int| 0 <= j < slot.len() implies #[trigger] epac_data_from(
                es,
                k,
            ).subrange(lo, lo + slot.len() as int)[j] == rest.subrange(
                lo2,
                lo2 + slot.len() as int,
            )[j] by {
                assert(epac_data_from(es, k)[lo + j] == (first + rest)[lo + j]);
                assert((first + rest)[lo + j] == rest[lo + j - step]);
                assert(rest.subrange(lo2, lo2 + slot.len() as int)[j] == rest[lo2 + j]);
            }
        }
    }
}

/// Slot `k` of the built archive parses as entries `k` onward, files padded
/// to their recorded 256-byte units.
#[verifier::rlimit(100)]
proof fn lemma_epac_entries_image(
    hf: Seq<u8>,
    es: Seq<EpacEntryV>,
    ff: Seq<u8>,
    s: Seq<u8>,
    k: int,
)
    requires
        hf.len() == 4,
        ff.len() == 4,
        1 <= es.len() <= epac_max_entries(),
        forall|j: int| 0 <= j < es.len() ==> epac_entry_wf(#[trigger] es[j]),
        epac_sizes_ok(es),
        s == epac_image(hf, es, ff),
        0 <= k <= es.len(),
    ensures
        spec_epac_entries(s, k) == Some(
            Seq::new((es.len() - k) as nat, |j: int| epac_padded(es[k + j])),
        ),
    decreases es.len() - k,
{
    let n = es.len() as int;
    let head = epac_head(hf, es);
    let ents = epac_entries_bytes(es, 0);
    let tpad = zeros((0x3800 - 12 * es.len()) as nat);
    let dat = epac_data_from(es, 0);
    let foot = epac_footer(ff);
    lemma_epac_entries_len(es, 0);
    lemma_epac_data_len(es, 0);
    lemma_epac_blocks_mono(es, 0, n);
    assert(head.len() == 0x800);
    assert(foot.len() == 0x800);
    assert(s.len() == 0x4800 + epac_blocks(es, n) * 2048);
    assert(epac_blocks(es, n) * 2048 >= 0) by (nonlinear_arith)
        requires
            epac_blocks(es, n) >= 0,
    ;
    if k == n {
        if k == epac_max_entries() {
        } else {
            let e = 0x800 + 12 * k;
            assert forall|j: int| 0 <= j < 4 implies #[trigger] s[e + j] == 0 by {
                assert(s[e + j] == ((((head + ents) + tpad) + dat) + foot)[e + j]);
                assert(((head + ents) + tpad)[e + j] == tpad[e + j - 0x800 - 12 * n]);
            }
            assert(Seq::new((n - k) as nat, |j: int| epac_padded(es[k + j])) =~= Seq::<
                EpacEntryV,
            >::empty());
        }
    } else {
        lemma_epac_entries_image(hf, es, ff, s, k + 1);
        lemma_epac_entry_slice(es, 0, k);
        lemma_epac_entry_len(es[k], epac_blocks(es, k));
        let e = 0x800 + 12 * k;
        let eb = epac_entry_bytes(es[k], epac_blocks(es, k));
        assert forall|j: int| 0 <= j < 12 implies #[trigger] s[e + j] == eb[j] by {
            assert(s[e + j] == ((((head + ents) + tpad) + dat) + foot)[e + j]);
            assert(((((head + ents) + tpad) + dat) + foot)[e + j] == ents[e + j - 0x800]);
            assert(ents.subrange(12 * k, 12 * k + 12)[j] == ents[12 * k + j]);
        }
        let rest = Seq::new((n - k - 1) as nat, |j: int| epac_padded(es[k + 1 + j]));
        match es[k] {
            EpacEntryV::Divider { name, field } => {
                assert(s[e + 0] == name[0] && s[e + 1] == name[1] && s[e + 2] == name[2] && s[e
                    + 3] == name[3]);
                assert(s[e] == 0x45);
                assert(s.subrange(e, e + 4) =~= name);
                assert(s.subrange(e + 4, e + 8) =~= field) by {
                    assert(s[e + 4 + 0] == eb[4] && s[e + 4 + 1] == eb[5] && s[e + 4 + 2] == eb[6]
                        && s[e + 4 + 3] == eb[7]);
                    assert(eb[4] == field[0] && eb[5] == field[1] && eb[6] == field[2] && eb[7]
                        == field[3]);
                }
                assert(spec_epac_entries(s, k) == Some(
                    seq![
                        EpacEntryV::Divider {
                            name: s.subrange(e, e + 4),
                            field: s.subrange(e + 4, e + 8),
                        },
                    ] + rest,
                ));
                assert(seq![epac_padded(es[k])] + rest =~= Seq::new(
                    (n - k) as nat,
                    |j: int| epac_padded(es[k + j]),
                ));
            },
            EpacEntryV::File { name, data } => {
                let blk = epac_blocks(es, k);
                let units = epac_units(data.len() as int);
                lemma_epac_blocks_mono(es, 0, k);
                lemma_epac_blocks_mono(es, k + 1, n);
                lemma_div_pad(data.len() as int, 256);
                lemma_div_pad(data.len() as int, 2048);
                lemma_pad256_le_pad2048(data.len() as int);
                assert(s[e + 0] == name[0] && s[e + 1] == name[1] && s[e + 2] == name[2] && s[e
                    + 3] == name[3]);
                assert(s[e] != 0x45);
                assert(!(s[e] == 0 && s[e + 1] == 0 && s[e + 2] == 0 && s[e + 3] == 0));
                assert(s.subrange(e, e + 4) =~= name);
                // the two 32-bit fields
                assert(blk * 2048 <= epac_blocks(es, n) * 2048) by (nonlinear_arith)
                    requires
                        blk <= epac_blocks(es, n),
                ;
                assert(blk >= 0);
                assert(blk <= u32::MAX);
                assert(units * 256 == data.len() + spec_pad_len(data.len() as int, 256));
                assert(units >= 0 && units * 256 <= u32::MAX) by {
                    assert(epac_blocks(es, k + 1) * 2048 == blk * 2048 + data.len()
                        + spec_pad_len(data.len() as int, 2048)) by (nonlinear_arith)
                        requires
                            epac_blocks(es, k + 1) == blk + (data.len() + spec_pad_len(
                                data.len() as int,
                                2048,
                            )) / 2048,
                            ((data.len() + spec_pad_len(data.len() as int, 2048)) / 2048) * 2048
                                == data.len() + spec_pad_len(data.len() as int, 2048),
                    ;
                    assert(epac_blocks(es, k + 1) * 2048 <= epac_blocks(es, n) * 2048)
                        by (nonlinear_arith)
                        requires
                            epac_blocks(es, k + 1) <= epac_blocks(es, n),
                    ;
                }
                assert(s.subrange(e + 4, e + 4 + 4) =~= spec_le32(blk as u32)) by {
                    assert forall|j: int| 0 <= j < 4 implies #[trigger] s.subrange(
                        e + 4,
                        e + 4 + 4,
                    )[j] == spec_le32(blk as u32)[j] by {
                        assert(s.subrange(e + 4, e + 4 + 4)[j] == s[e + (4 + j)]);
                        assert(s[e + (4 + j)] == eb[4 + j]);
                        assert(eb[4 + j] == (name + spec_le32(blk as u32))[4 + j]);
                    }
                }
                crate::util::lemma_le32_read(s, e + 4, blk as u32);
                assert(s.subrange(e + 8, e + 8 + 4) =~= spec_le32(units as u32)) by {
                    assert forall|j: int| 0 <= j < 4 implies #[trigger] s.subrange(
                        e + 8,
                        e + 8 + 4,
                    )[j] == spec_le32(units as u32)[j] by {
                        assert(s.subrange(e + 8, e + 8 + 4)[j] == s[e + (8 + j)]);
                        assert(s[e + (8 + j)] == eb[8 + j]);
                        assert(eb[8 + j] == spec_le32(units as u32)[j]);
                    }
                }
                crate::util::lemma_le32_read(s, e + 8, units as u32);
                // the data range
                let abs = blk * 2048 + 0x4000;
                assert(abs + units * 256 <= s.len()) by {
                    assert(epac_blocks(es, k + 1) * 2048 == blk * 2048 + data.len()
                        + spec_pad_len(data.len() as int, 2048)) by (nonlinear_arith)
                        requires
                            epac_blocks(es, k + 1) == blk + (data.len() + spec_pad_len(
                                data.len() as int,
                                2048,
                            )) / 2048,
                            ((data.len() + spec_pad_len(data.len() as int, 2048)) / 2048) * 2048
                                == data.len() + spec_pad_len(data.len() as int, 2048),
                    ;
                    assert(epac_blocks(es, k + 1) * 2048 <= epac_blocks(es, n) * 2048)
                        by (nonlinear_arith)
                        requires
                            epac_blocks(es, k + 1) <= epac_blocks(es, n),
                    ;
                }
                lemma_epac_data_slice(es, 0, k);
                let slot = data + zeros(spec_pad_len(data.len() as int, 2048) as nat);
                let padded = data + zeros(spec_pad_len(data.len() as int, 256) as nat);
                assert(s.subrange(abs, abs + units * 256) =~= padded) by {
                    assert forall|j: int| 0 <= j < units * 256 implies #[trigger] s.subrange(
                        abs,
                        abs + units * 256,
                    )[j] == padded[j] by {
                        assert(s[abs + j] == ((((head + ents) + tpad) + dat) + foot)[abs + j]);
                        assert(((((head + ents) + tpad) + dat) + foot)[abs + j] == dat[abs - 0x4000
                            + j]);
                        assert(dat.subrange(blk * 2048, blk * 2048 + slot.len() as int)[j]
                            == dat[blk * 2048 + j]);
                        assert(slot[j] == padded[j]);
                    }
                }
                assert(spec_epac_entries(s, k) == Some(
                    seq![
                        EpacEntryV::File {
                            name: s.subrange(e, e + 4),
                            data: s.subrange(abs, abs + units * 256),
                        },
                    ] + rest,
                ));
                assert(seq![epac_padded(es[k])] + rest =~= Seq::new(
                    (n - k) as nat,
                    |j: int| epac_padded(es[k + j]),
                ));
            },
        }
    }
}

/// The archive built from well-formed entries unpacks to its opaque fields
/// and its entries, file contents in whole 256-byte units.
#[verifier::rlimit(100)]
pub proof fn lemma_epac_unpack_image(hf: Seq<u8>, es: Seq<EpacEntryV>, ff: Seq<u8>, s: Seq<u8>)
    requires
        hf.len() == 4,
        ff.len() == 4,
        1 <= es.len() <= epac_max_entries(),
        forall|j: int| 0 <= j < es.len() ==> epac_entry_wf(#[trigger] es[j]),
        epac_sizes_ok(es),
        s == epac_image(hf, es, ff),
    ensures
        spec_epac_unpack(s) == Some(
            (hf, ff, Seq::new(es.len(), |i: int| epac_padded(es[i]))),
        ),
{
    let n = es.len() as int;
    let head = epac_head(hf, es);
    let ents = epac_entries_bytes(es, 0);
    let tpad = zeros((0x3800 - 12 * es.len()) as nat);
    let dat = epac_data_from(es, 0);
    let foot = epac_footer(ff);
    lemma_epac_entries_len(es, 0);
    lemma_epac_data_len(es, 0);
    lemma_epac_blocks_mono(es, 0, n);
    assert(head.len() == 0x800);
    assert(foot.len() == 0x800);
    assert(epac_blocks(es, n) * 2048 >= 0) by (nonlinear_arith)
        requires
            epac_blocks(es, n) >= 0,
    ;
    assert(s.len() == 0x4800 + epac_blocks(es, n) * 2048);
    assert forall|j: int| 0 <= j < 16 implies #[trigger] s[j] == head[j] by {
        assert(s[j] == ((((head + ents) + tpad) + dat) + foot)[j]);
    }
    assert(s.subrange(0, 4) =~= epac_magic()) by {
        assert forall|j: int| 0 <= j < 4 implies #[trigger] s.subrange(0, 4)[j] == epac_magic()[j]
            by {
            assert(s[j] == head[j]);
            assert(head[j] == epac_magic()[j]);
        }
    }
    assert(s.subrange(4, 8) =~= hf) by {
        assert forall|j: int| 0 <= j < 4 implies #[trigger] s.subrange(4, 8)[j] == hf[j] by {
            assert(s[4 + j] == head[4 + j]);
            assert(head[4 + j] == (epac_magic() + hf)[4 + j]);
        }
    }
    let fpos = s.len() - 0x400;
    assert(s.subrange(fpos, fpos + 4) =~= ff) by {
        assert forall|j: int| 0 <= j < 4 implies #[trigger] s.subrange(fpos, fpos + 4)[j] == ff[j]
            by {
            assert(s[fpos + j] == ((((head + ents) + tpad) + dat) + foot)[fpos + j]);
            assert(((((head + ents) + tpad) + dat) + foot)[fpos + j] == foot[fpos + j - (0x4000
                + epac_blocks(es, n) * 2048)]);
            assert(foot[0x400 + j] == (epac_footer_magic() + zeros((0x400 - 16) as nat) + ff)[0x400
                + j]);
        }
    }
    lemma_epac_entries_image(hf, es, ff, s, 0);
    assert(Seq::new(n as nat, |j: int| epac_padded(es[0 + j])) =~= Seq::new(
        es.len(),
        |i: int| epac_padded(es[i]),
    ));
}


/// Unit count for `l` bytes, computed the executable way.
pub proof fn lemma_units_calc(l: int)
    requires
        l >= 0,
    ensures
        epac_units(l) == l / 256 + if l % 256 == 0 {
            0int
        } else {
            1int
        },
{
    lemma_pad_mod(l, 256);
    assert((l + spec_pad_len(l, 256)) / 256 == l / 256 + if l % 256 == 0 {
        0int
    } else {
        1int
    }) by (nonlinear_arith)
        requires
            l >= 0,
            spec_pad_len(l, 256) == if l % 256 == 0 {
                0int
            } else {
                256 - l % 256
            },
    ;
}

/// Packs entries into an EPAC archive: the 0x4000-byte head (header fields
/// and entry table), the 2048-byte-aligned data region, and the 0x800-byte
/// footer. The output unpacks to the opaque fields and the same entries,
/// file contents in whole 256-byte units.
#[verifier::rlimit(100)]
pub fn pack(header_field: &Vec<u8>, footer_field: &Vec<u8>, entries: Vec<EpacEntry>) -> (r: Result<
    Vec<u8>,
    EpacError,
>)
    requires
        header_field@.len() == 4,
        footer_field@.len() == 4,
    ensures
        ({
            let ev = entries_view(entries@);
            &&& (r matches Ok(v) ==> spec_epac_unpack(v@) == Some(
                (
                    header_field@,
                    footer_field@,
                    Seq::new(ev.len(), |i: int| epac_padded(ev[i])),
                ),
            ))
            &&& (r matches Ok(v) ==> v@ == epac_image(header_field@, ev, footer_field@))
            &&& (r matches Ok(v) ==> v@.len() == 0x4800 + epac_blocks(ev, ev.len() as int)
                * 2048)
            &&& (r is Ok <==> (1 <= ev.len() <= epac_max_entries() && (forall|i: int|
                0 <= i < ev.len() ==> epac_entry_wf(#[trigger] ev[i])) && epac_sizes_ok(ev)))
            &&& (r == Err::<Vec<u8>, EpacError>(EpacError::NoEntries) <==> ev.len() == 0)
            &&& (r == Err::<Vec<u8>, EpacError>(EpacError::TooManyEntries) <==> ev.len()
                > epac_max_entries())
            &&& (r == Err::<Vec<u8>, EpacError>(EpacError::BadEntry) <==> (1 <= ev.len()
                <= epac_max_entries() && !(forall|i: int|
                0 <= i < ev.len() ==> epac_entry_wf(#[trigger] ev[i]))))
            &&& (r == Err::<Vec<u8>, EpacError>(EpacError::TooLarge) <==> (1 <= ev.len()
                <= epac_max_entries() && (forall|i: int|
                0 <= i < ev.len() ==> epac_entry_wf(#[trigger] ev[i])) && !epac_sizes_ok(ev)))
        }),
{
    let ghost ev: Seq<EpacEntryV> = entries_view(entries@);
    let n = entries.len();
    if n == 0 {
        return Err(EpacError::NoEntries);
    }
    if n > 1194 {
        return Err(EpacError::TooManyEntries);
    }
    // every entry must fit its 12-byte slot form
    let mut i: usize = 0;
    while i < n
        invariant
            n == entries@.len(),
            1 <= n <= epac_max_entries(),
            ev == entries_view(entries@),
            i <= n,
            forall|j: int| 0 <= j < i ==> epac_entry_wf(#[trigger] ev[j]),
        decreases n - i,
    {
        let ok: bool = match &entries[i] {
            EpacEntry::Divider { name, field } => name.len() == 4 && field.len() == 4 && name[0]
                == 0x45,
            EpacEntry::File { name, data } => name.len() == 4 && name[0] != 0x45 && !(name[0] == 0
                && name[1] == 0 && name[2] == 0 && name[3] == 0),
        };
        proof {
            assert(ok == epac_entry_wf(ev[i as int]));
        }
        if !ok {
            proof {
                assert(!epac_entry_wf(ev[i as int]));
            }
            return Err(EpacError::BadEntry);
        }
        i = i + 1;
    }
    // the data region must fit under the 32-bit ceiling
    let mut ds: u64 = 0;
    let mut i: usize = 0;
    while i < n
        invariant
            n == entries@.len(),
            1 <= n <= epac_max_entries(),
            ev == entries_view(entries@),
            forall|j: int| 0 <= j < n ==> epac_entry_wf(#[trigger] ev[j]),
            i <= n,
            ds as int == epac_blocks(ev, i as int) * 2048,
            ds <= u32::MAX - 0x4800,
        decreases n - i,
    {
        let dlen = match &entries[i] {
            EpacEntry::Divider { .. } => 0,
            EpacEntry::File { name, data } => data.len(),
        };
        match &entries[i] {
            EpacEntry::Divider { .. } => {
                proof {
                    assert(epac_blocks(ev, i + 1) == epac_blocks(ev, i as int));
                }
            },
            EpacEntry::File { name, data } => {
                if dlen as u64 > u32::MAX as u64 {
                    proof {
                        let l = ev[i as int]->File_data.len() as int;
                        lemma_div_pad(l, 2048);
                        assert(epac_blocks(ev, i + 1) * 2048 == epac_blocks(ev, i as int) * 2048
                            + l + spec_pad_len(l, 2048)) by (nonlinear_arith)
                            requires
                                epac_blocks(ev, i + 1) == epac_blocks(ev, i as int) + (l
                                    + spec_pad_len(l, 2048)) / 2048,
                                ((l + spec_pad_len(l, 2048)) / 2048) * 2048 == l + spec_pad_len(
                                    l,
                                    2048,
                                ),
                        ;
                        lemma_epac_blocks_mono(ev, i + 1, ev.len() as int);
                        assert(epac_blocks(ev, ev.len() as int) * 2048 >= epac_blocks(ev, i + 1)
                            * 2048) by (nonlinear_arith)
                            requires
                                epac_blocks(ev, ev.len() as int) >= epac_blocks(ev, i + 1),
                        ;
                        assert(!epac_sizes_ok(ev));
                    }
                    return Err(EpacError::TooLarge);
                }
                let pad = pad_len(dlen, 2048);
                let ghost l = ev[i as int]->File_data.len() as int;
                proof {
                    lemma_div_pad(l, 2048);
                    assert(epac_blocks(ev, i + 1) * 2048 == epac_blocks(ev, i as int) * 2048 + l
                        + spec_pad_len(l, 2048)) by (nonlinear_arith)
                        requires
                            epac_blocks(ev, i + 1) == epac_blocks(ev, i as int) + (l
                                + spec_pad_len(l, 2048)) / 2048,
                            ((l + spec_pad_len(l, 2048)) / 2048) * 2048 == l + spec_pad_len(
                                l,
                                2048,
                            ),
                    ;
                }
                ds = ds + dlen as u64 + pad as u64;
                if ds > (u32::MAX - 0x4800) as u64 {
                    proof {
                        lemma_epac_blocks_mono(ev, i + 1, ev.len() as int);
                        assert(epac_blocks(ev, ev.len() as int) * 2048 >= epac_blocks(ev, i + 1)
                            * 2048) by (nonlinear_arith)
                            requires
                                epac_blocks(ev, ev.len() as int) >= epac_blocks(ev, i + 1),
                        ;
                        assert(!epac_sizes_ok(ev));
                    }
                    return Err(EpacError::TooLarge);
                }
            },
        }
        i = i + 1;
    }
    proof {
        lemma_epac_blocks_mono(ev, 0, ev.len() as int);
        assert(epac_sizes_ok(ev));
    }
    // emit: head, entry table, table padding, data, footer
    let mut out: Vec<u8> = Vec::new();
    out.push(0x45);
    out.push(0x50);
    out.push(0x41);
    out.push(0x43);
    out.extend_from_slice(header_field.as_slice());
    push_le32(&mut out, ds as u32);
    out.push(7);
    out.push(0);
    out.push(0);
    out.push(0);
    write_padding_zeroes(&mut out, 0x800 - 16);
    proof {
        assert(out@ =~= epac_head(header_field@, ev));
    }
    let ghost head_done = out@;
    let mut blk: u64 = 0;
    let mut i: usize = 0;
    while i < n
        invariant
            n == entries@.len(),
            1 <= n <= epac_max_entries(),
            ev == entries_view(entries@),
            forall|j: int| 0 <= j < n ==> epac_entry_wf(#[trigger] ev[j]),
            epac_sizes_ok(ev),
            i <= n,
            blk as int == epac_blocks(ev, i as int),
            blk * 2048 <= u32::MAX - 0x4800,
            out@ + epac_entries_bytes(ev, i as int) == head_done + epac_entries_bytes(ev, 0),
        decreases n - i,
    {
        let ghost out0 = out@;
        proof {
            lemma_epac_blocks_mono(ev, 0, i as int);
            lemma_epac_blocks_mono(ev, i + 1, ev.len() as int);
        }
        match &entries[i] {
            EpacEntry::Divider { name, field } => {
                out.extend_from_slice(name.as_slice());
                out.extend_from_slice(field.as_slice());
                push_le32(&mut out, blk as u32);
                proof {
                    let eb = epac_entry_bytes(ev[i as int], epac_blocks(ev, i as int));
                    assert(out@ =~= out0 + eb);
                    assert(epac_blocks(ev, i + 1) == epac_blocks(ev, i as int));
                    assert(epac_entries_bytes(ev, i as int) == eb + epac_entries_bytes(ev, i + 1));
                    assert(out@ + epac_entries_bytes(ev, i + 1) =~= head_done
                        + epac_entries_bytes(ev, 0)) by {
                        assert(out0 + (eb + epac_entries_bytes(ev, i + 1)) =~= (out0 + eb)
                            + epac_entries_bytes(ev, i + 1));
                    }
                }
            },
            EpacEntry::File { name, data } => {
                let dlen = data.len();
                let ghost l = ev[i as int]->File_data.len() as int;
                proof {
                    lemma_div_pad(l, 2048);
                    lemma_units_calc(l);
                    assert(epac_blocks(ev, i + 1) * 2048 == epac_blocks(ev, i as int) * 2048 + l
                        + spec_pad_len(l, 2048)) by (nonlinear_arith)
                        requires
                            epac_blocks(ev, i + 1) == epac_blocks(ev, i as int) + (l
                                + spec_pad_len(l, 2048)) / 2048,
                            ((l + spec_pad_len(l, 2048)) / 2048) * 2048 == l + spec_pad_len(
                                l,
                                2048,
                            ),
                    ;
                    assert(epac_blocks(ev, ev.len() as int) * 2048 >= epac_blocks(ev, i + 1)
                        * 2048) by (nonlinear_arith)
                        requires
                            epac_blocks(ev, ev.len() as int) >= epac_blocks(ev, i + 1),
                    ;
                    assert(l <= u32::MAX);
                    lemma_pad256_le_pad2048(l);
                    assert(epac_units(l) * 256 == l + spec_pad_len(l, 256)) by {
                        lemma_div_pad(l, 256);
                    }
                }
                out.extend_from_slice(name.as_slice());
                push_le32(&mut out, blk as u32);
                let units = dlen / 256 + if dlen % 256 != 0 {
                    1
                } else {
                    0
                };
                push_le32(&mut out, units as u32);
                let pad = pad_len(dlen, 2048);
                blk = blk + ((dlen as u64 + pad as u64) / 2048);
                proof {
                    let eb = epac_entry_bytes(ev[i as int], epac_blocks(ev, i as int));
                    assert(units as int == epac_units(l));
                    assert(out@ =~= out0 + eb);
                    assert(blk as int == epac_blocks(ev, i + 1));
                    assert(epac_entries_bytes(ev, i as int) == eb + epac_entries_bytes(ev, i + 1));
                    assert(out@ + epac_entries_bytes(ev, i + 1) =~= head_done
                        + epac_entries_bytes(ev, 0)) by {
                        assert(out0 + (eb + epac_entries_bytes(ev, i + 1)) =~= (out0 + eb)
                            + epac_entries_bytes(ev, i + 1));
                    }
                }
            },
        }
        i = i + 1;
    }
    proof {
        assert(epac_entries_bytes(ev, n as int) =~= Seq::<u8>::empty());
        assert(out@ =~= head_done + epac_entries_bytes(ev, 0));
    }
    write_padding_zeroes(&mut out, 0x3800 - 12 * n);
    let ghost table_done = out@;
    proof {
        assert(table_done =~= head_done + epac_entries_bytes(ev, 0) + zeros(
            (0x3800 - 12 * ev.len()) as nat,
        ));
    }
    let mut i: usize = 0;
    while i < n
        invariant
            n == entries@.len(),
            ev == entries_view(entries@),
            i <= n,
            out@ + epac_data_from(ev, i as int) == table_done + epac_data_from(ev, 0),
        decreases n - i,
    {
        let ghost out0 = out@;
        match &entries[i] {
            EpacEntry::Divider { .. } => {
                proof {
                    assert(epac_data_from(ev, i as int) == Seq::<u8>::empty() + epac_data_from(
                        ev,
                        i + 1,
                    ));
                    assert(Seq::<u8>::empty() + epac_data_from(ev, i + 1) =~= epac_data_from(
                        ev,
                        i + 1,
                    ));
                }
            },
            EpacEntry::File { name, data } => {
                let dlen = data.len();
                let pad = pad_len(dlen, 2048);
                out.extend_from_slice(data.as_slice());
                write_padding_zeroes(&mut out, pad);
                proof {
                    let db = ev[i as int]->File_data + zeros(
                        spec_pad_len(ev[i as int]->File_data.len() as int, 2048) as nat,
                    );
                    assert(out@ =~= out0 + db);
                    assert(epac_data_from(ev, i as int) == db + epac_data_from(ev, i + 1));
                    assert(out@ + epac_data_from(ev, i + 1) =~= table_done + epac_data_from(
                        ev,
                        0,
                    )) by {
                        assert(out0 + (db + epac_data_from(ev, i + 1)) =~= (out0 + db)
                            + epac_data_from(ev, i + 1));
                    }
                }
            },
        }
        i = i + 1;
    }
    proof {
        assert(epac_data_from(ev, n as int) =~= Seq::<u8>::empty());
        assert(out@ =~= table_done + epac_data_from(ev, 0));
    }
    let ghost data_done = out@;
    out.push(0x45);
    out.push(0x4F);
    out.push(0x50);
    out.push(0x35);
    out.push(0x2F);
    out.push(0x31);
    out.push(0x2E);
    out.push(0x31);
    out.push(0x30);
    out.push(0);
    out.push(0);
    out.push(0);
    out.push(0);
    out.push(0);
    out.push(0);
    out.push(0);
    write_padding_zeroes(&mut out, 0x400 - 16);
    out.extend_from_slice(footer_field.as_slice());
    write_padding_zeroes(&mut out, 0x400 - 4);
    proof {
        assert(out@ =~= data_done + epac_footer(footer_field@));
        assert(out@ =~= epac_image(header_field@, ev, footer_field@));
        lemma_epac_unpack_image(header_field@, ev, footer_field@, out@);
        lemma_epac_entries_len(ev, 0);
        lemma_epac_data_len(ev, 0);
        lemma_epac_blocks_mono(ev, 0, ev.len() as int);
        assert(epac_blocks(ev, ev.len() as int) * 2048 >= 0) by (nonlinear_arith)
            requires
                epac_blocks(ev, ev.len() as int) >= 0,
        ;
    }
    Ok(out)
}


/// One record of the `__entry__` sidecar: a divider with its opaque field,
/// or a packed file's 4-byte name.
#[derive(Debug, PartialEq, Eq)]
pub enum SideEntry {
    Divider { name: Vec<u8>, field: Vec<u8> },
    FileName { name: Vec<u8> },
}

/// Mathematical image of a sidecar record.
pub enum SideEntryV {
    Divider { name: Seq<u8>, field: Seq<u8> },
    FileName { name: Seq<u8> },
}

impl View for SideEntry {
    type V = SideEntryV;

    open spec fn view(&self) -> SideEntryV {
        match self {
            SideEntry::Divider { name, field } => SideEntryV::Divider {
                name: name@,
                field: field@,
            },
            SideEntry::FileName { name } => SideEntryV::FileName { name: name@ },
        }
    }
}

/// The views of a row of sidecar records.
pub open spec fn sides_view(s: Seq<SideEntry>) -> Seq<SideEntryV> {
    Seq::new(s.len(), |i: int| s[i]@)
}

/// A sidecar record the encoder accepts: 4-byte names and fields, and a
/// file name that is not four zero bytes (the divider sentinel).
pub open spec fn side_entry_wf(e: SideEntryV) -> bool {
    match e {
        SideEntryV::Divider { name, field } => name.len() == 4 && field.len() == 4,
        SideEntryV::FileName { name } => name.len() == 4 && !(name[0] == 0 && name[1] == 0
            && name[2] == 0 && name[3] == 0),
    }
}

/// The sidecar record an archive entry stands for.
pub open spec fn side_of(e: EpacEntryV) -> SideEntryV {
    match e {
        EpacEntryV::Divider { name, field } => SideEntryV::Divider { name, field },
        EpacEntryV::File { name, data } => SideEntryV::FileName { name },
    }
}

/// The bytes of sidecar records `i` onward: a divider is a four-zero
/// sentinel, its name, and its field; a file is just its name.
pub open spec fn side_bytes_from(es: Seq<SideEntryV>, i: int) -> Seq<u8>
    decreases es.len() - i,
{
    if i < 0 || i >= es.len() {
        Seq::empty()
    } else {
        (match es[i] {
            SideEntryV::Divider { name, field } => seq![0u8, 0u8, 0u8, 0u8] + name + field,
            SideEntryV::FileName { name } => name,
        }) + side_bytes_from(es, i + 1)
    }
}

/// Parses sidecar records from `pos` to the end of the stream: a four-zero
/// word opens a divider record, any other word is a file name.
pub open spec fn spec_parse_side_entries(s: Seq<u8>, pos: int) -> Option<Seq<SideEntryV>>
    decreases s.len() - pos,
{
    if pos == s.len() {
        Some(Seq::empty())
    } else if pos < 0 || pos + 4 > s.len() {
        None
    } else if s[pos] == 0 && s[pos + 1] == 0 && s[pos + 2] == 0 && s[pos + 3] == 0 {
        if pos + 12 > s.len() {
            None
        } else {
            match spec_parse_side_entries(s, pos + 12) {
                None => None,
                Some(rest) => Some(
                    seq![
                        SideEntryV::Divider {
                            name: s.subrange(pos + 4, pos + 8),
                            field: s.subrange(pos + 8, pos + 12),
                        },
                    ] + rest,
                ),
            }
        }
    } else {
        match spec_parse_side_entries(s, pos + 4) {
            None => None,
            Some(rest) => Some(seq![SideEntryV::FileName { name: s.subrange(pos, pos + 4) }] + rest),
        }
    }
}

/// What an `__entry__` sidecar parses to: the opaque header field, the
/// opaque footer field, and the record row.
pub open spec fn spec_parse_sidecar(s: Seq<u8>) -> Option<(Seq<u8>, Seq<u8>, Seq<SideEntryV>)> {
    if s.len() < 8 {
        None
    } else {
        match spec_parse_side_entries(s, 8) {
            None => None,
            Some(es) => Some((s.subrange(0, 4), s.subrange(4, 8), es)),
        }
    }
}

/// The encoded records from `k` onward parse back to exactly them.
proof fn lemma_side_parse(es: Seq<SideEntryV>, s: Seq<u8>, pos: int, k: int)
    requires
        forall|j: int| 0 <= j < es.len() ==> side_entry_wf(#[trigger] es[j]),
        0 <= k <= es.len(),
        0 <= pos <= s.len(),
        s.subrange(pos, s.len() as int) == side_bytes_from(es, k),
    ensures
        spec_parse_side_entries(s, pos) == Some(Seq::new((es.len() - k) as nat, |j: int| es[k + j])),
    decreases es.len() - k,
{
    let n = es.len() as int;
    if k == n {
        assert(side_bytes_from(es, k).len() == 0);
        assert(pos == s.len());
        assert(Seq::new(0, |j: int| es[k + j]) =~= Seq::<SideEntryV>::empty());
    } else {
        let first: Seq<u8> = match es[k] {
            SideEntryV::Divider { name, field } => seq![0u8, 0u8, 0u8, 0u8] + name + field,
            SideEntryV::FileName { name } => name,
        };
        let rest = side_bytes_from(es, k + 1);
        assert(side_bytes_from(es, k) == first + rest);
        assert forall|j: int| 0 <= j < first.len() + rest.len() implies #[trigger] s[pos + j] == (
        first + rest)[j] by {
            assert(s.subrange(pos, s.len() as int)[j] == s[pos + j]);
        }
        let step = first.len() as int;
        assert(s.subrange(pos + step, s.len() as int) =~= rest) by {
            assert forall|j: int| 0 <= j < rest.len() implies #[trigger] s.subrange(
                pos + step,
                s.len() as int,
            )[j] == rest[j] by {
                assert(s[pos + (step + j)] == (first + rest)[step + j]);
            }
        }
        lemma_side_parse(es, s, pos + step, k + 1);
        let tail = Seq::new((n - k - 1) as nat, |j: int| es[k + 1 + j]);
        match es[k] {
            SideEntryV::Divider { name, field } => {
                assert(s[pos + 0] == 0 && s[pos + 1] == 0 && s[pos + 2] == 0 && s[pos + 3] == 0);
                assert(s.subrange(pos + 4, pos + 8) =~= name) by {
                    assert forall|j: int| 0 <= j < 4 implies #[trigger] s.subrange(
                        pos + 4,
                        pos + 8,
                    )[j] == name[j] by {
                        assert(s[pos + (4 + j)] == (first + rest)[4 + j]);
                        assert(first[4 + j] == (seq![0u8, 0u8, 0u8, 0u8] + name)[4 + j]);
                    }
                }
                assert(s.subrange(pos + 8, pos + 12) =~= field) by {
                    assert forall|j: int| 0 <= j < 4 implies #[trigger] s.subrange(
                        pos + 8,
                        pos + 12,
                    )[j] == field[j] by {
                        assert(s[pos + (8 + j)] == (first + rest)[8 + j]);
                    }
                }
                assert(spec_parse_side_entries(s, pos) == Some(seq![es[k]] + tail));
                assert(seq![es[k]] + tail =~= Seq::new((n - k) as nat, |j: int| es[k + j]));
            },
            SideEntryV::FileName { name } => {
                assert(s[pos + 0] == name[0] && s[pos + 1] == name[1] && s[pos + 2] == name[2]
                    && s[pos + 3] == name[3]);
                assert(!(s[pos] == 0 && s[pos + 1] == 0 && s[pos + 2] == 0 && s[pos + 3] == 0));
                assert(s.subrange(pos, pos + 4) =~= name);
                assert(spec_parse_side_entries(s, pos) == Some(seq![es[k]] + tail));
                assert(seq![es[k]] + tail =~= Seq::new((n - k) as nat, |j: int| es[k + j]));
            },
        }
    }
}

/// Writes an `__entry__` sidecar: the opaque header and footer fields,
/// then one record per entry. What comes out parses back to its inputs.
pub fn encode_sidecar(
    header_field: &Vec<u8>,
    footer_field: &Vec<u8>,
    sides: &Vec<SideEntry>,
) -> (r: Vec<u8>)
    requires
        header_field@.len() == 4,
        footer_field@.len() == 4,
        forall|j: int| 0 <= j < sides@.len() ==> side_entry_wf((#[trigger] sides@[j])@),
    ensures
        spec_parse_sidecar(r@) == Some((header_field@, footer_field@, sides_view(sides@))),
{
    let ghost sv: Seq<SideEntryV> = sides_view(sides@);
    proof {
        assert(forall|j: int| 0 <= j < sv.len() ==> side_entry_wf(#[trigger] sv[j]));
    }
    let mut out: Vec<u8> = Vec::new();
    out.extend_from_slice(header_field.as_slice());
    out.extend_from_slice(footer_field.as_slice());
    let ghost hdr = out@;
    let n = sides.len();
    let mut i: usize = 0;
    while i < n
        invariant
            n == sides@.len(),
            sv == sides_view(sides@),
            hdr == header_field@ + footer_field@,
            i <= n,
            out@ + side_bytes_from(sv, i as int) == hdr + side_bytes_from(sv, 0),
        decreases n - i,
    {
        let ghost out0 = out@;
        match &sides[i] {
            SideEntry::Divider { name, field } => {
                out.push(0);
                out.push(0);
                out.push(0);
                out.push(0);
                out.extend_from_slice(name.as_slice());
                out.extend_from_slice(field.as_slice());
                proof {
                    let fb = seq![0u8, 0u8, 0u8, 0u8] + sv[i as int]->Divider_name + sv[
                        i as int
                    ]->Divider_field;
                    assert(out@ =~= out0 + fb);
                    assert(side_bytes_from(sv, i as int) == fb + side_bytes_from(sv, i + 1));
                    assert(out@ + side_bytes_from(sv, i + 1) =~= hdr + side_bytes_from(sv, 0)) by {
                        assert(out0 + (fb + side_bytes_from(sv, i + 1)) =~= (out0 + fb)
                            + side_bytes_from(sv, i + 1));
                    }
                }
            },
            SideEntry::FileName { name } => {
                out.extend_from_slice(name.as_slice());
                proof {
                    let fb = sv[i as int]->FileName_name;
                    assert(out@ =~= out0 + fb);
                    assert(side_bytes_from(sv, i as int) == fb + side_bytes_from(sv, i + 1));
                    assert(out@ + side_bytes_from(sv, i + 1) =~= hdr + side_bytes_from(sv, 0)) by {
                        assert(out0 + (fb + side_bytes_from(sv, i + 1)) =~= (out0 + fb)
                            + side_bytes_from(sv, i + 1));
                    }
                }
            },
        }
        i = i + 1;
    }
    proof {
        assert(side_bytes_from(sv, n as int) =~= Seq::<u8>::empty());
        assert(out@ =~= hdr + side_bytes_from(sv, 0));
        assert(out@.subrange(8, out@.len() as int) =~= side_bytes_from(sv, 0)) by {
            assert forall|j: int| 0 <= j < side_bytes_from(sv, 0).len() implies #[trigger]
                out@.subrange(8, out@.len() as int)[j] == side_bytes_from(sv, 0)[j] by {
                assert(out@[8 + j] == (hdr + side_bytes_from(sv, 0))[8 + j]);
            }
        }
        lemma_side_parse(sv, out@, 8, 0);
        assert(Seq::new(sv.len(), |j: int| sv[0 + j]) =~= sv);
        assert(out@.subrange(0, 4) =~= header_field@);
        assert(out@.subrange(4, 8) =~= footer_field@);
    }
    out
}

/// Validates sidecar records and writes the `__entry__` bytes: the
/// precondition-free door for callers outside the library.
pub fn make_sidecar(
    header_field: &Vec<u8>,
    footer_field: &Vec<u8>,
    sides: &Vec<SideEntry>,
) -> (r: Result<Vec<u8>, EpacError>)
    ensures
        match r {
            Ok(v) => header_field@.len() == 4 && footer_field@.len() == 4 && (forall|j: int|
                0 <= j < sides@.len() ==> side_entry_wf((#[trigger] sides@[j])@))
                && spec_parse_sidecar(v@) == Some(
                (header_field@, footer_field@, sides_view(sides@)),
            ),
            Err(e) => e == EpacError::BadSidecar && !(header_field@.len() == 4
                && footer_field@.len() == 4 && (forall|j: int|
                0 <= j < sides@.len() ==> side_entry_wf((#[trigger] sides@[j])@))),
        },
{
    if header_field.len() != 4 || footer_field.len() != 4 {
        return Err(EpacError::BadSidecar);
    }
    let mut i: usize = 0;
    while i < sides.len()
        invariant
            header_field@.len() == 4,
            footer_field@.len() == 4,
            i <= sides@.len(),
            forall|j: int| 0 <= j < i ==> side_entry_wf((#[trigger] sides@[j])@),
        decreases sides@.len() - i,
    {
        let ok: bool = match &sides[i] {
            SideEntry::Divider { name, field } => name.len() == 4 && field.len() == 4,
            SideEntry::FileName { name } => name.len() == 4 && !(name[0] == 0 && name[1] == 0
                && name[2] == 0 && name[3] == 0),
        };
        proof {
            assert(ok == side_entry_wf(sides@[i as int]@));
        }
        if !ok {
            return Err(EpacError::BadSidecar);
        }
        i = i + 1;
    }
    Ok(encode_sidecar(header_field, footer_field, sides))
}

/// Reads an `__entry__` sidecar back into its fields and records. Success
/// and the records are exactly what `spec_parse_sidecar` gives.
pub fn parse_sidecar(src: &[u8]) -> (r: Result<(Vec<u8>, Vec<u8>, Vec<SideEntry>), EpacError>)
    ensures
        match r {
            Ok(t) => spec_parse_sidecar(src@) == Some((t.0@, t.1@, sides_view(t.2@))),
            Err(e) => spec_parse_sidecar(src@) is None && e == EpacError::BadSidecar,
        },
{
    if src.len() < 8 {
        return Err(EpacError::BadSidecar);
    }
    let header_field = copy_range(src, 0, 4);
    let footer_field = copy_range(src, 4, 8);
    let mut out: Vec<SideEntry> = Vec::new();
    let mut pos: usize = 8;
    loop
        invariant_except_break
            src@.len() >= 8,
            8 <= pos <= src@.len(),
            spec_parse_side_entries(src@, 8) == match spec_parse_side_entries(src@, pos as int) {
                None => None::<Seq<SideEntryV>>,
                Some(rest) => Some(sides_view(out@) + rest),
            },
        ensures
            spec_parse_side_entries(src@, 8) == Some(sides_view(out@)),
        decreases src@.len() - pos,
    {
        let slen = src.len();
        if pos == slen {
            proof {
                assert(sides_view(out@) + Seq::<SideEntryV>::empty() =~= sides_view(out@));
            }
            break ;
        }
        if slen - pos < 4 {
            proof {
                assert(spec_parse_side_entries(src@, pos as int) is None);
            }
            return Err(EpacError::BadSidecar);
        }
        let ghost pre = out@;
        if src[pos] == 0 && src[pos + 1] == 0 && src[pos + 2] == 0 && src[pos + 3] == 0 {
            if slen - pos < 12 {
                proof {
                    assert(spec_parse_side_entries(src@, pos as int) is None);
                }
                return Err(EpacError::BadSidecar);
            }
            let name = copy_range(src, pos + 4, pos + 8);
            let field = copy_range(src, pos + 8, pos + 12);
            out.push(SideEntry::Divider { name, field });
            proof {
                let x = SideEntryV::Divider {
                    name: src@.subrange(pos + 4, pos + 8),
                    field: src@.subrange(pos + 8, pos + 12),
                };
                assert(sides_view(out@) =~= sides_view(pre).push(x));
                match spec_parse_side_entries(src@, pos + 12) {
                    Some(rest) => {
                        assert(spec_parse_side_entries(src@, pos as int) == Some(seq![x] + rest));
                        assert(sides_view(pre) + (seq![x] + rest) =~= (sides_view(pre) + seq![x])
                            + rest);
                        assert(sides_view(pre).push(x) =~= sides_view(pre) + seq![x]);
                    },
                    None => {},
                }
            }
            pos = pos + 12;
        } else {
            let name = copy_range(src, pos, pos + 4);
            out.push(SideEntry::FileName { name });
            proof {
                let x = SideEntryV::FileName { name: src@.subrange(pos as int, pos + 4) };
                assert(sides_view(out@) =~= sides_view(pre).push(x));
                match spec_parse_side_entries(src@, pos + 4) {
                    Some(rest) => {
                        assert(spec_parse_side_entries(src@, pos as int) == Some(seq![x] + rest));
                        assert(sides_view(pre) + (seq![x] + rest) =~= (sides_view(pre) + seq![x])
                            + rest);
                        assert(sides_view(pre).push(x) =~= sides_view(pre) + seq![x]);
                    },
                    None => {},
                }
            }
            pos = pos + 4;
        }
    }
    Ok((header_field, footer_field, out))
}

/// The sidecar records of an unpacked archive: dividers kept whole, files
/// reduced to their names.
pub fn entries_to_sidecar(entries: &Vec<EpacEntry>) -> (r: Vec<SideEntry>)
    ensures
        sides_view(r@) == Seq::new(entries@.len(), |i: int| side_of(entries@[i]@)),
{
    let mut out: Vec<SideEntry> = Vec::new();
    let mut i: usize = 0;
    while i < entries.len()
        invariant
            i <= entries@.len(),
            out@.len() == i,
            forall|j: int| 0 <= j < i ==> (#[trigger] out@[j])@ == side_of(entries@[j]@),
        decreases entries@.len() - i,
    {
        match &entries[i] {
            EpacEntry::Divider { name, field } => {
                let n2 = copy_whole(name);
                let f2 = copy_whole(field);
                out.push(SideEntry::Divider { name: n2, field: f2 });
            },
            EpacEntry::File { name, data } => {
                let n2 = copy_whole(name);
                out.push(SideEntry::FileName { name: n2 });
            },
        }
        i = i + 1;
    }
    proof {
        assert(sides_view(out@) =~= Seq::new(entries@.len(), |i: int| side_of(entries@[i]@)));
    }
    out
}

/// A fresh copy of a byte vector.
fn copy_whole(v: &Vec<u8>) -> (r: Vec<u8>)
    ensures
        r@ == v@,
{
    let mut r: Vec<u8> = Vec::new();
    let mut i: usize = 0;
    while i < v.len()
        invariant
            i <= v@.len(),
            r@ == v@.subrange(0, i as int),
        decreases v@.len() - i,
    {
        r.push(v[i]);
        i = i + 1;
        proof {
            assert(r@ =~= v@.subrange(0, i as int));
        }
    }
    proof {
        assert(v@.subrange(0, v@.len() as int) =~= v@);
    }
    r
}

/// A file whose length is a whole number of 256-byte units comes back from
/// an unpack byte-identical; in particular a round trip over such entries
/// returns them unchanged.
pub proof fn lemma_epac_padded_id(e: EpacEntryV)
    requires
        e is File ==> e->File_data.len() % 256 == 0,
    ensures
        epac_padded(e) == e,
{
    match e {
        EpacEntryV::File { name, data } => {
            assert(spec_pad_len(data.len() as int, 256) == 0);
            assert(data + zeros(0) =~= data);
        },
        EpacEntryV::Divider { .. } => {},
    }
}

/// Every packed file starts on a 2048-byte boundary of the archive.
pub proof fn lemma_epac_offsets_aligned(es: Seq<EpacEntryV>, i: int)
    requires
        0 <= i,
    ensures
        (epac_blocks(es, i) * 2048 + 0x4000) % 2048 == 0,
{
    vstd::arithmetic::div_mod::lemma_mod_multiples_basic(epac_blocks(es, i), 2048int);
    vstd::arithmetic::div_mod::lemma_mod_multiples_basic(8int, 2048int);
    vstd::arithmetic::div_mod::lemma_add_mod_noop(
        epac_blocks(es, i) * 2048,
        8int * 2048,
        2048int,
    );
}

} // verus!



