//! Directory-listing order shared by the TEX and PACH packers: records are
//! sorted by interpreting the whole filename as an unsigned 32-bit decimal
//! number, names that do not parse counting as zero, and the sort is stable.

use vstd::prelude::*;

verus! {

/// A file handed to a packer or produced by an unpacker: a filename (as raw
/// bytes) and the file's contents.
#[derive(Debug, PartialEq, Eq)]
pub struct FileRec {
    pub name: Vec<u8>,
    pub data: Vec<u8>,
}

/// Mathematical image of a `FileRec`: name bytes and data bytes.
pub type RecV = (Seq<u8>, Seq<u8>);

impl View for FileRec {
    type V = RecV;

    open spec fn view(&self) -> RecV {
        (self.name@, self.data@)
    }
}

/// The views of a sequence of records.
pub open spec fn recs_view(s: Seq<FileRec>) -> Seq<RecV> {
    Seq::new(s.len(), |i: int| s[i]@)
}

/// ASCII decimal digit.
pub open spec fn is_digit(b: u8) -> bool {
    48 <= b <= 57
}

pub open spec fn all_digits(s: Seq<u8>) -> bool {
    forall|i: int| 0 <= i < s.len() ==> is_digit(#[trigger] s[i])
}

/// Value of a digit string read in base ten (meaningful when `all_digits`).
pub open spec fn digits_val(s: Seq<u8>) -> int
    decreases s.len(),
{
    if s.len() == 0 {
        0
    } else {
        digits_val(s.drop_last()) * 10 + (s.last() - 48)
    }
}

/// The number a digit string stands for, or zero when it is not a plain
/// decimal rendering of a 32-bit value.
pub open spec fn digits_key(s: Seq<u8>) -> u32 {
    if s.len() >= 1 && all_digits(s) && digits_val(s) <= u32::MAX {
        digits_val(s) as u32
    } else {
        0
    }
}

/// Sort key of a filename: its value as an unsigned 32-bit decimal number
/// (an optional leading `+` is accepted), or zero when it has none.
pub open spec fn name_key(s: Seq<u8>) -> u32 {
    if s.len() >= 1 && s[0] == 43 {
        digits_key(s.skip(1))
    } else {
        digits_key(s)
    }
}

pub proof fn lemma_digits_val_nonneg(s: Seq<u8>)
    requires
        all_digits(s),
    ensures
        digits_val(s) >= 0,
    decreases s.len(),
{
    if s.len() > 0 {
        assert(all_digits(s.drop_last()));
        lemma_digits_val_nonneg(s.drop_last());
    }
}

/// A digit string is worth at least any of its prefixes.
pub proof fn lemma_digits_val_prefix(s: Seq<u8>, k: int)
    requires
        all_digits(s),
        0 <= k <= s.len(),
    ensures
        digits_val(s.take(k)) <= digits_val(s),
    decreases s.len() - k,
{
    if k == s.len() {
        assert(s.take(k) =~= s);
    } else {
        assert(all_digits(s.drop_last()));
        assert(s.drop_last().take(k) =~= s.take(k));
        lemma_digits_val_prefix(s.drop_last(), k);
        lemma_digits_val_nonneg(s.drop_last());
    }
}

/// Reads a filename as an unsigned 32-bit decimal number, zero when it is
/// not one. This is the sort key used by the TEX and PACH packers.
pub fn name_num(name: &[u8]) -> (r: u32)
    ensures
        r == name_key(name@),
{
    let ghost whole: Seq<u8> = name@;
    let start: usize = if name.len() >= 1 && name[0] == 43 {
        1
    } else {
        0
    };
    let ghost digits: Seq<u8> = whole.skip(start as int);
    proof {
        assert(digits =~= whole.subrange(start as int, whole.len() as int));
        if start == 0 {
            assert(digits =~= whole);
        }
    }
    if name.len() == start {
        return 0;
    }
    let mut i: usize = start;
    let mut v: u32 = 0;
    while i < name.len()
        invariant
            start <= i <= whole.len(),
            start < whole.len(),
            name@ == whole,
            digits == whole.subrange(start as int, whole.len() as int),
            name_key(whole) == digits_key(digits),
            all_digits(whole.subrange(start as int, i as int)),
            v == digits_val(whole.subrange(start as int, i as int)),
        decreases whole.len() - i,
    {
        let b = name[i];
        if b < 48 || b > 57 {
            proof {
                assert(digits[i - start] == whole[i as int]);
                assert(!all_digits(digits));
            }
            return 0;
        }
        let nv: u64 = v as u64 * 10 + (b - 48) as u64;
        proof {
            assert(whole.subrange(start as int, i + 1).drop_last() =~= whole.subrange(
                start as int,
                i as int,
            ));
            assert(whole.subrange(start as int, i + 1).last() == whole[i as int]);
            assert(all_digits(whole.subrange(start as int, i + 1)));
            assert(digits_val(whole.subrange(start as int, i + 1)) == nv);
        }
        if nv > 0xFFFF_FFFF {
            proof {
                if all_digits(digits) {
                    assert(digits.take(i + 1 - start) =~= whole.subrange(start as int, i + 1));
                    lemma_digits_val_prefix(digits, i + 1 - start);
                    assert(digits_val(digits) > u32::MAX);
                }
            }
            return 0;
        }
        v = nv as u32;
        i = i + 1;
    }
    proof {
        assert(whole.subrange(start as int, i as int) =~= digits);
        assert(digits.len() >= 1);
        assert(digits_key(digits) == v);
    }
    v
}

/// Records in nondecreasing order of their filename keys.
pub open spec fn sorted_by_name(s: Seq<RecV>) -> bool {
    forall|i: int, j: int|
        0 <= i < j < s.len() ==> name_key(#[trigger] s[i].0) <= name_key(#[trigger] s[j].0)
}

/// Stable insertion of a record into a sorted run: the new record goes after
/// every record whose key is less than or equal to its own.
pub open spec fn spec_insert(sorted: Seq<RecV>, x: RecV) -> Seq<RecV>
    decreases sorted.len(),
{
    if sorted.len() == 0 {
        seq![x]
    } else if name_key(sorted.last().0) <= name_key(x.0) {
        sorted.push(x)
    } else {
        spec_insert(sorted.drop_last(), x).push(sorted.last())
    }
}

/// Stable insertion sort by filename key.
pub open spec fn spec_sort(s: Seq<RecV>) -> Seq<RecV>
    decreases s.len(),
{
    if s.len() == 0 {
        Seq::empty()
    } else {
        spec_insert(spec_sort(s.drop_last()), s.last())
    }
}

pub proof fn lemma_insert_len(sorted: Seq<RecV>, x: RecV)
    ensures
        spec_insert(sorted, x).len() == sorted.len() + 1,
    decreases sorted.len(),
{
    if sorted.len() > 0 && !(name_key(sorted.last().0) <= name_key(x.0)) {
        lemma_insert_len(sorted.drop_last(), x);
    }
}

/// Sorting keeps the number of records.
pub proof fn lemma_sort_len(s: Seq<RecV>)
    ensures
        spec_sort(s).len() == s.len(),
    decreases s.len(),
{
    if s.len() > 0 {
        lemma_sort_len(s.drop_last());
        lemma_insert_len(spec_sort(s.drop_last()), s.last());
    }
}

/// Where the insertion lands: splicing `x` at any position `j` whose left
/// neighbour is no bigger and whose right part is strictly bigger is exactly
/// `spec_insert`.
pub proof fn lemma_insert_shape(sorted: Seq<RecV>, x: RecV, j: int)
    requires
        0 <= j <= sorted.len(),
        j == 0 || name_key(sorted[j - 1].0) <= name_key(x.0),
        forall|i: int| j <= i < sorted.len() ==> name_key(#[trigger] sorted[i].0) > name_key(x.0),
    ensures
        spec_insert(sorted, x) == sorted.take(j) + seq![x] + sorted.skip(j),
    decreases sorted.len(),
{
    if sorted.len() == 0 {
        assert(spec_insert(sorted, x) =~= sorted.take(j) + seq![x] + sorted.skip(j));
    } else if name_key(sorted.last().0) <= name_key(x.0) {
        assert(j == sorted.len());
        assert(spec_insert(sorted, x) =~= sorted.take(j) + seq![x] + sorted.skip(j));
    } else {
        assert(j < sorted.len());
        lemma_insert_shape(sorted.drop_last(), x, j);
        assert(spec_insert(sorted, x) =~= sorted.take(j) + seq![x] + sorted.skip(j));
    }
}

/// Inserting into a sorted run keeps it sorted.
pub proof fn lemma_insert_sorted(sorted: Seq<RecV>, x: RecV, j: int)
    requires
        sorted_by_name(sorted),
        0 <= j <= sorted.len(),
        j == 0 || name_key(sorted[j - 1].0) <= name_key(x.0),
        forall|i: int| j <= i < sorted.len() ==> name_key(#[trigger] sorted[i].0) > name_key(x.0),
    ensures
        sorted_by_name(sorted.take(j) + seq![x] + sorted.skip(j)),
{
    let r = sorted.take(j) + seq![x] + sorted.skip(j);
    assert forall|a: int, b: int| 0 <= a < b < r.len() implies name_key(r[a].0) <= name_key(
        r[b].0,
    ) by {
        if a < j {
            assert(r[a] == sorted[a]);
        } else if a == j {
            assert(r[a] == x);
        } else {
            assert(r[a] == sorted[a - 1]);
        }
        if b < j {
            assert(r[b] == sorted[b]);
        } else if b == j {
            assert(r[b] == x);
        } else {
            assert(r[b] == sorted[b - 1]);
        }
    }
}

/// Sorting sorts: the output of `spec_sort` is in key order.
pub proof fn lemma_sort_sorted(s: Seq<RecV>)
    ensures
        sorted_by_name(spec_sort(s)),
    decreases s.len(),
{
    if s.len() > 0 {
        lemma_sort_sorted(s.drop_last());
        let prev = spec_sort(s.drop_last());
        let x = s.last();
        let j = first_above(prev, name_key(x.0));
        lemma_first_above(prev, name_key(x.0));
        lemma_insert_shape(prev, x, j);
        lemma_insert_sorted(prev, x, j);
    }
}

/// First position of a sorted run from which every key exceeds `k`.
pub open spec fn first_above(s: Seq<RecV>, k: u32) -> int
    decreases s.len(),
{
    if s.len() == 0 {
        0
    } else if name_key(s.last().0) <= k {
        s.len() as int
    } else {
        first_above(s.drop_last(), k)
    }
}

pub proof fn lemma_first_above(s: Seq<RecV>, k: u32)
    requires
        sorted_by_name(s),
    ensures
        0 <= first_above(s, k) <= s.len(),
        first_above(s, k) == 0 || name_key(s[first_above(s, k) - 1].0) <= k,
        forall|i: int| first_above(s, k) <= i < s.len() ==> name_key(#[trigger] s[i].0) > k,
    decreases s.len(),
{
    if s.len() > 0 && name_key(s.last().0) > k {
        assert(sorted_by_name(s.drop_last()));
        lemma_first_above(s.drop_last(), k);
        let j = first_above(s.drop_last(), k);
        assert forall|i: int| j <= i < s.len() implies name_key(#[trigger] s[i].0) > k by {
            if i < s.len() - 1 {
                assert(s[i] == s.drop_last()[i]);
            }
        }
    }
}

/// A run that is already in key order is left exactly as it is.
pub proof fn lemma_sort_of_sorted(s: Seq<RecV>)
    requires
        sorted_by_name(s),
    ensures
        spec_sort(s) == s,
    decreases s.len(),
{
    if s.len() > 0 {
        assert(sorted_by_name(s.drop_last()));
        lemma_sort_of_sorted(s.drop_last());
        if s.len() >= 2 {
            assert(name_key(s.drop_last().last().0) <= name_key(s.last().0));
        }
        assert(spec_sort(s) =~= s);
    } else {
        assert(spec_sort(s) =~= s);
    }
}

/// The filename order is total: any two names compare.
pub proof fn lemma_name_order_total(a: Seq<u8>, b: Seq<u8>)
    ensures
        name_key(a) <= name_key(b) || name_key(b) <= name_key(a),
{
}

/// The filename order is transitive.
pub proof fn lemma_name_order_transitive(a: Seq<u8>, b: Seq<u8>, c: Seq<u8>)
    requires
        name_key(a) <= name_key(b),
        name_key(b) <= name_key(c),
    ensures
        name_key(a) <= name_key(c),
{
}

/// Stable sort of records by filename key; the verified half of directory
/// listing (enumeration itself is I/O and stays outside the library).
pub fn sort_by_name(files: Vec<FileRec>) -> (r: Vec<FileRec>)
    ensures
        recs_view(r@) == spec_sort(recs_view(files@)),
        sorted_by_name(recs_view(r@)),
{
    let ghost orig: Seq<RecV> = recs_view(files@);
    let mut input = files;
    let mut out: Vec<FileRec> = Vec::new();
    let ghost mut k: int = 0;
    proof {
        assert(recs_view(input@) =~= orig.skip(0));
        assert(recs_view(out@) =~= spec_sort(orig.take(0)));
    }
    while input.len() > 0
        invariant
            0 <= k <= orig.len(),
            recs_view(input@) == orig.skip(k),
            recs_view(out@) == spec_sort(orig.take(k)),
            sorted_by_name(recs_view(out@)),
        decreases input@.len(),
    {
        let ghost pre: Seq<FileRec> = input@;
        let x = input.remove(0);
        let ghost xv: RecV = x@;
        let kx = name_num(x.name.as_slice());
        proof {
            assert(k < orig.len()) by {
                assert(recs_view(pre).len() == orig.skip(k).len());
            }
            assert(xv == recs_view(pre)[0]);
            assert(xv == orig[k]);
            assert(pre.len() == orig.len() - k) by {
                assert(recs_view(pre).len() == orig.skip(k).len());
            }
            assert(pre.remove(0) =~= pre.skip(1));
            assert(input@.len() == pre.len() - 1);
            assert(recs_view(input@) =~= orig.skip(k + 1)) by {
                assert(input@ == pre.skip(1));
                assert forall|i: int| 0 <= i < input@.len() implies recs_view(input@)[i]
                    == orig.skip(k + 1)[i] by {
                    assert(input@[i] == pre[i + 1]);
                    assert(recs_view(pre)[i + 1] == orig.skip(k)[i + 1]);
                    assert(recs_view(pre)[i + 1] == pre[i + 1]@);
                    assert(orig.skip(k)[i + 1] == orig[k + i + 1]);
                    assert(orig.skip(k + 1)[i] == orig[k + 1 + i]);
                }
            }
        }
        let mut j: usize = out.len();
        loop
            invariant
                j <= out.len(),
                recs_view(out@) == spec_sort(orig.take(k)),
                sorted_by_name(recs_view(out@)),
                kx == name_key(xv.0),
                forall|i: int|
                    j <= i < out@.len() ==> name_key(#[trigger] recs_view(out@)[i].0) > kx,
            ensures
                j <= out@.len(),
                j == 0 || name_key(recs_view(out@)[j - 1].0) <= kx,
                forall|i: int|
                    j <= i < out@.len() ==> name_key(#[trigger] recs_view(out@)[i].0) > kx,
            decreases j,
        {
            if j == 0 {
                break ;
            }
            let kj = name_num(out[j - 1].name.as_slice());
            proof {
                assert(recs_view(out@)[j - 1].0 == out@[j - 1].name@);
            }
            if kj <= kx {
                break ;
            }
            j = j - 1;
        }
        let ghost prev = recs_view(out@);
        out.insert(j, x);
        proof {
            lemma_insert_shape(prev, xv, j as int);
            assert(recs_view(out@) =~= prev.take(j as int) + seq![xv] + prev.skip(j as int));
            lemma_insert_sorted(prev, xv, j as int);
            assert(orig.take(k + 1).drop_last() =~= orig.take(k));
            assert(orig.take(k + 1).last() == orig[k]);
            assert(recs_view(out@) == spec_sort(orig.take(k + 1)));
            k = k + 1;
        }
    }
    proof {
        assert(orig.take(k) =~= orig);
        assert(recs_view(files@) == orig);
    }
    out
}

} // verus!
