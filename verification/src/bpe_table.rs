//! Run-length encoding of a block's substitution table, and the proof that
//! the table parser reads such an encoding back to exactly the table it
//! came from.

use vstd::prelude::*;

use crate::bpe::{spec_parse_entries, spec_parse_runs};

verus! {

/// A block's substitution table: one slot per byte value, `Some(pair)` when
/// that value is a code.
pub type Table = Seq<Option<(u8, u8)>>;

/// No pair's first byte names its own code. The encoder guarantees this
/// (a code byte never occurs in the block whose pairs are counted), and the
/// run-length scheme needs it: after a not-substituted run the parser tells
/// the two marker forms apart by comparing the next byte with the cursor.
pub open spec fn table_ok(t: Table) -> bool {
    forall|v: int| 0 <= v < 256 && (#[trigger] t[v]) is Some ==> t[v]->Some_0.0 != v
}

/// Length of the substituted run starting at value `c`, capped at `cap`.
pub open spec fn sub_run(t: Table, c: int, cap: int) -> int
    decreases cap,
{
    if cap <= 0 || !(0 <= c <= 255) || t[c] is None {
        0
    } else {
        1 + sub_run(t, c + 1, cap - 1)
    }
}

/// Length of the not-substituted run starting at value `c`, capped at `cap`.
pub open spec fn nsub_run(t: Table, c: int, cap: int) -> int
    decreases cap,
{
    if cap <= 0 || !(0 <= c <= 255) || t[c] is Some {
        0
    } else {
        1 + nsub_run(t, c + 1, cap - 1)
    }
}

/// The pair records of values `c .. c + l`, two bytes each.
pub open spec fn pairs_seq(t: Table, c: int, l: int) -> Seq<u8>
    decreases l,
{
    if l <= 0 {
        Seq::empty()
    } else {
        seq![t[c]->Some_0.0, t[c]->Some_0.1] + pairs_seq(t, c + 1, l - 1)
    }
}

pub proof fn lemma_sub_run_props(t: Table, c: int, cap: int)
    requires
        0 <= c <= 256,
        cap >= 0,
    ensures
        0 <= sub_run(t, c, cap) <= cap,
        c + sub_run(t, c, cap) <= 256,
        forall|v: int| c <= v < c + sub_run(t, c, cap) ==> (#[trigger] t[v]) is Some,
        sub_run(t, c, cap) < cap && c + sub_run(t, c, cap) <= 255 ==> t[c + sub_run(
            t,
            c,
            cap,
        )] is None,
        cap > 0 && c <= 255 && t[c] is Some ==> sub_run(t, c, cap) >= 1,
    decreases cap,
{
    if cap > 0 && 0 <= c <= 255 && t[c] is Some {
        lemma_sub_run_props(t, c + 1, cap - 1);
    }
}

pub proof fn lemma_nsub_run_props(t: Table, c: int, cap: int)
    requires
        0 <= c <= 256,
        cap >= 0,
    ensures
        0 <= nsub_run(t, c, cap) <= cap,
        c + nsub_run(t, c, cap) <= 256,
        forall|v: int| c <= v < c + nsub_run(t, c, cap) ==> (#[trigger] t[v]) is None,
        nsub_run(t, c, cap) < cap && c + nsub_run(t, c, cap) <= 255 ==> t[c + nsub_run(
            t,
            c,
            cap,
        )] is Some,
        cap > 0 && c <= 255 && t[c] is None ==> nsub_run(t, c, cap) >= 1,
    decreases cap,
{
    if cap > 0 && 0 <= c <= 255 && t[c] is None {
        lemma_nsub_run_props(t, c + 1, cap - 1);
    }
}

/// The run-length encoding of the table from value `c` upward: alternating
/// substituted runs (control byte below 0x80, then the pair records) and
/// not-substituted runs (control byte at least 0x80, then one marker entry
/// unless the run reaches value 255).
pub open spec fn spec_encode_table(t: Table, c: int) -> Seq<u8>
    decreases 256 - c,
        via spec_encode_table_dec
{
    if !(0 <= c <= 255) {
        Seq::empty()
    } else if t[c] is Some {
        let l = sub_run(t, c, 128);
        seq![(l - 1) as u8] + pairs_seq(t, c, l) + spec_encode_table(t, c + l)
    } else {
        let l = nsub_run(t, c, 128);
        if c + l > 255 {
            seq![(l - 1 + 128) as u8]
        } else if t[c + l] is Some {
            seq![(l - 1 + 128) as u8, t[c + l]->Some_0.0, t[c + l]->Some_0.1]
                + spec_encode_table(t, c + l + 1)
        } else {
            seq![(l - 1 + 128) as u8, (c + l) as u8] + spec_encode_table(t, c + l + 1)
        }
    }
}

#[via_fn]
proof fn spec_encode_table_dec(t: Table, c: int) {
    if 0 <= c <= 255 {
        lemma_sub_run_props(t, c, 128);
        lemma_nsub_run_props(t, c, 128);
    }
}

/// The table's encoding never exceeds three bytes per remaining value, and
/// is never empty while values remain.
pub proof fn lemma_encode_table_len(t: Table, c: int)
    requires
        0 <= c <= 256,
    ensures
        spec_encode_table(t, c).len() <= 3 * (256 - c),
        c <= 255 ==> spec_encode_table(t, c).len() >= 1,
    decreases 256 - c,
{
    if c <= 255 {
        if t[c] is Some {
            let l = sub_run(t, c, 128);
            lemma_sub_run_props(t, c, 128);
            lemma_pairs_seq_len(t, c, l);
            lemma_encode_table_len(t, c + l);
        } else {
            let l = nsub_run(t, c, 128);
            lemma_nsub_run_props(t, c, 128);
            if c + l <= 255 {
                lemma_encode_table_len(t, c + l + 1);
            }
        }
    }
}

pub proof fn lemma_pairs_seq_len(t: Table, c: int, l: int)
    ensures
        pairs_seq(t, c, l).len() == if l <= 0 {
            0int
        } else {
            2 * l
        },
    decreases l,
{
    if l > 0 {
        lemma_pairs_seq_len(t, c + 1, l - 1);
    }
}

pub proof fn lemma_pairs_seq_snoc(t: Table, c: int, l: int)
    requires
        l >= 0,
    ensures
        pairs_seq(t, c, l + 1) == pairs_seq(t, c, l) + seq![
            t[c + l]->Some_0.0,
            t[c + l]->Some_0.1,
        ],
    decreases l,
{
    if l == 0 {
        assert(pairs_seq(t, c + 1, 0) == Seq::<u8>::empty());
        assert(pairs_seq(t, c, 0) == Seq::<u8>::empty());
        assert(pairs_seq(t, c, 1) =~= pairs_seq(t, c, 0) + seq![t[c]->Some_0.0, t[c]->Some_0.1]);
    } else {
        lemma_pairs_seq_snoc(t, c + 1, l - 1);
        assert(pairs_seq(t, c, l + 1) =~= pairs_seq(t, c, l) + seq![
            t[c + l]->Some_0.0,
            t[c + l]->Some_0.1,
        ]);
    }
}

/// Writes the run of pair records for the substituted values `from ..= to`:
/// the control byte, then each value's two pair bytes.
pub fn write_substituted_range(
    buffer: &mut Vec<u8>,
    from: u8,
    to: u8,
    substitution_map: &Vec<Option<(u8, u8)>>,
)
    requires
        substitution_map@.len() == 256,
        from <= to,
        to - from <= 127,
        forall|v: int| from <= v <= to ==> (#[trigger] substitution_map@[v]) is Some,
    ensures
        final(buffer)@ == old(buffer)@ + seq![(to - from) as u8] + pairs_seq(
            substitution_map@,
            from as int,
            to - from + 1,
        ),
{
    let ghost t = substitution_map@;
    buffer.push(to - from);
    proof {
        assert(buffer@ =~= old(buffer)@ + seq![(to - from) as u8] + pairs_seq(t, from as int, 0));
    }
    let mut v: u16 = from as u16;
    while v <= to as u16
        invariant
            t == substitution_map@,
            substitution_map@.len() == 256,
            from <= v <= to + 1,
            to - from <= 127,
            forall|u: int| from <= u <= to ==> (#[trigger] t[u]) is Some,
            buffer@ == old(buffer)@ + seq![(to - from) as u8] + pairs_seq(
                t,
                from as int,
                v - from,
            ),
        decreases to + 1 - v,
    {
        let p = substitution_map[v as usize].unwrap();
        buffer.push(p.0);
        buffer.push(p.1);
        proof {
            lemma_pairs_seq_snoc(t, from as int, v - from);
            assert(buffer@ =~= old(buffer)@ + seq![(to - from) as u8] + pairs_seq(
                t,
                from as int,
                v - from + 1,
            ));
        }
        v = v + 1;
    }
}

/// Writes the control byte of a not-substituted run of values `from ..= to`
/// and its marker entry: the following value's pair record if that value is
/// substituted, its plain byte otherwise, and nothing when the run reaches
/// value 255.
pub fn write_not_substituted_range(
    buffer: &mut Vec<u8>,
    from: u8,
    to: u8,
    substitution_map: &Vec<Option<(u8, u8)>>,
)
    requires
        substitution_map@.len() == 256,
        from <= to,
        to - from <= 127,
    ensures
        final(buffer)@ == old(buffer)@ + seq![(to - from + 128) as u8] + (if to == 255 {
            Seq::<u8>::empty()
        } else if substitution_map@[to + 1] is Some {
            seq![
                substitution_map@[to + 1]->Some_0.0,
                substitution_map@[to + 1]->Some_0.1,
            ]
        } else {
            seq![(to + 1) as u8]
        }),
{
    buffer.push(to - from + 128);
    if to < 255 {
        match substitution_map[(to + 1) as usize] {
            Some(p) => {
                buffer.push(p.0);
                buffer.push(p.1);
                proof {
                    assert(buffer@ =~= old(buffer)@ + seq![(to - from + 128) as u8] + seq![
                        substitution_map@[to + 1]->Some_0.0,
                        substitution_map@[to + 1]->Some_0.1,
                    ]);
                }
            },
            None => {
                buffer.push(to + 1);
                proof {
                    assert(buffer@ =~= old(buffer)@ + seq![(to - from + 128) as u8] + seq![
                        (to + 1) as u8,
                    ]);
                }
            },
        }
    } else {
        proof {
            assert(buffer@ =~= old(buffer)@ + seq![(to - from + 128) as u8] + Seq::<u8>::empty());
        }
    }
}

/// Writes the whole table's run-length encoding.
pub fn encode_table(tbl: &Vec<Option<(u8, u8)>>, out: &mut Vec<u8>)
    requires
        tbl@.len() == 256,
    ensures
        final(out)@ == old(out)@ + spec_encode_table(tbl@, 0),
{
    let ghost t = tbl@;
    let ghost base: int = out@.len() as int;
    let mut c: u16 = 0;
    proof {
        assert(out@.skip(base) =~= Seq::<u8>::empty());
    }
    while c <= 255
        invariant
            t == tbl@,
            tbl@.len() == 256,
            0 <= c <= 256,
            out@.len() >= base >= 0,
            out@.subrange(0, base) == old(out)@,
            spec_encode_table(t, 0) == out@.skip(base) + spec_encode_table(t, c as int),
        decreases 256 - c,
    {
        let ghost out_pre = out@;
        if tbl[c as usize].is_some() {
            let mut l: u16 = 1;
            while c + l <= 255 && l < 128 && tbl[(c + l) as usize].is_some()
                invariant
                    t == tbl@,
                    tbl@.len() == 256,
                    0 <= c <= 255,
                    1 <= l <= 128,
                    c + l <= 256,
                    forall|v: int| c <= v < c + l ==> (#[trigger] t[v]) is Some,
                decreases 256 - l,
            {
                l = l + 1;
            }
            proof {
                lemma_sub_run_props(t, c as int, 128);
                let sr = sub_run(t, c as int, 128);
                if (l as int) < sr {
                    assert(t[c + l] is Some);
                    assert(false);
                }
                if (l as int) > sr {
                    assert(sr < 128 && c + sr <= 255 ==> t[c + sr] is None);
                    assert(t[c + sr] is Some);
                    assert(false);
                }
            }
            write_substituted_range(out, c as u8, (c + l - 1) as u8, tbl);
            proof {
                lemma_pairs_seq_len(t, c as int, l as int);
                assert(spec_encode_table(t, c as int) == seq![(l - 1) as u8] + pairs_seq(
                    t,
                    c as int,
                    l as int,
                ) + spec_encode_table(t, c + l));
                assert(out@.subrange(0, base) =~= old(out)@);
                assert(spec_encode_table(t, 0) =~= out@.skip(base) + spec_encode_table(
                    t,
                    c + l,
                )) by {
                    assert(out@.skip(base) =~= out_pre.skip(base) + seq![(l - 1) as u8]
                        + pairs_seq(t, c as int, l as int));
                    assert(out_pre.skip(base) + (seq![(l - 1) as u8] + pairs_seq(
                        t,
                        c as int,
                        l as int,
                    ) + spec_encode_table(t, c + l)) =~= (out_pre.skip(base) + seq![(l - 1) as u8]
                        + pairs_seq(t, c as int, l as int)) + spec_encode_table(t, c + l));
                }
            }
            c = c + l;
        } else {
            let mut l: u16 = 1;
            while c + l <= 255 && l < 128 && tbl[(c + l) as usize].is_none()
                invariant
                    t == tbl@,
                    tbl@.len() == 256,
                    0 <= c <= 255,
                    1 <= l <= 128,
                    c + l <= 256,
                    forall|v: int| c <= v < c + l ==> (#[trigger] t[v]) is None,
                decreases 256 - l,
            {
                l = l + 1;
            }
            proof {
                lemma_nsub_run_props(t, c as int, 128);
                let nr = nsub_run(t, c as int, 128);
                if (l as int) < nr {
                    assert(t[c + l] is None);
                    assert(false);
                }
                if (l as int) > nr {
                    assert(nr < 128 && c + nr <= 255 ==> t[c + nr] is Some);
                    assert(t[c + nr] is None);
                    assert(false);
                }
            }
            if c + l > 255 {
                out.push((l - 1 + 128) as u8);
                proof {
                    assert(spec_encode_table(t, c as int) == seq![(l - 1 + 128) as u8]);
                    assert(out@.subrange(0, base) =~= old(out)@);
                    assert(spec_encode_table(t, 0) =~= out@.skip(base) + spec_encode_table(
                        t,
                        256,
                    )) by {
                        assert(out@.skip(base) =~= out_pre.skip(base) + seq![(l - 1 + 128) as u8]);
                    }
                }
                c = 256;
            } else {
                write_not_substituted_range(out, c as u8, (c + l - 1) as u8, tbl);
                proof {
                    let marker: Seq<u8> = if t[c + l] is Some {
                        seq![t[c + l]->Some_0.0, t[c + l]->Some_0.1]
                    } else {
                        seq![(c + l) as u8]
                    };
                    assert(spec_encode_table(t, c as int) == seq![(l - 1 + 128) as u8] + marker
                        + spec_encode_table(t, c + l + 1)) by {
                        if t[c + l] is Some {
                            assert(seq![(l - 1 + 128) as u8, t[c + l]->Some_0.0, t[c
                                + l]->Some_0.1] =~= seq![(l - 1 + 128) as u8] + marker);
                        } else {
                            assert(seq![(l - 1 + 128) as u8, ((c + l)) as u8] =~= seq![(l - 1
                                + 128) as u8] + marker);
                        }
                    }
                    assert(out@.subrange(0, base) =~= old(out)@);
                    assert(spec_encode_table(t, 0) =~= out@.skip(base) + spec_encode_table(
                        t,
                        c + l + 1,
                    )) by {
                        assert(out@.skip(base) =~= out_pre.skip(base) + seq![(l - 1 + 128) as u8]
                            + marker);
                        assert(out_pre.skip(base) + (seq![(l - 1 + 128) as u8] + marker
                            + spec_encode_table(t, c + l + 1)) =~= (out_pre.skip(base) + seq![(l
                            - 1 + 128) as u8] + marker) + spec_encode_table(t, c + l + 1));
                    }
                }
                c = c + l + 1;
            }
        }
    }
    proof {
        assert(spec_encode_table(t, c as int) =~= Seq::<u8>::empty());
        assert(spec_encode_table(t, 0) =~= out@.skip(base));
        assert(out@ =~= out@.subrange(0, base) + out@.skip(base));
    }
}

/// The part of the table at values `lo .. hi`, as a map.
pub open spec fn map_range(t: Table, lo: int, hi: int) -> Map<u8, (u8, u8)> {
    Map::new(|b: u8| lo <= b < hi && t[b as int] is Some, |b: u8| t[b as int]->Some_0)
}

/// The whole table from value `c` upward, as a map.
pub open spec fn map_from(t: Table, c: int) -> Map<u8, (u8, u8)> {
    Map::new(|b: u8| b >= c && t[b as int] is Some, |b: u8| t[b as int]->Some_0)
}

/// A run of pair records parses as the corresponding table entries.
proof fn lemma_parse_entries_sub(t: Table, s: Seq<u8>, pos: int, c: int, l: int, m: Map<u8, (u8, u8)>)
    requires
        t.len() == 256,
        table_ok(t),
        0 <= c,
        1 <= l <= 128,
        c + l <= 256,
        forall|v: int| c <= v < c + l ==> (#[trigger] t[v]) is Some,
        0 <= pos,
        pos + 2 * l <= s.len(),
        s.subrange(pos, pos + 2 * l) == pairs_seq(t, c, l),
    ensures
        c + l == 256 ==> spec_parse_entries(s, pos, c, m, l) == Some(
            (m.union_prefer_right(map_range(t, c, c + l)), pos + 2 * l),
        ),
        c + l < 256 ==> spec_parse_entries(s, pos, c, m, l) == spec_parse_runs(
            s,
            pos + 2 * l,
            c + l,
            m.union_prefer_right(map_range(t, c, c + l)),
        ),
    decreases l,
{
    lemma_pairs_seq_len(t, c + 1, l - 1);
    let ps = pairs_seq(t, c, l);
    let a = t[c]->Some_0.0;
    let b = t[c]->Some_0.1;
    assert(t[c] is Some);
    assert(c <= 255);
    assert(ps == seq![a, b] + pairs_seq(t, c + 1, l - 1));
    assert(s.subrange(pos, pos + 2 * l)[0] == s[pos]);
    assert(s.subrange(pos, pos + 2 * l)[1] == s[pos + 1]);
    assert(s[pos] == a);
    assert(s[pos + 1] == b);
    assert(a != c) by {
        assert(table_ok(t));
        assert(t[c] is Some ==> t[c]->Some_0.0 != c);
    }
    let m2 = m.insert(c as u8, (a, b));
    if l == 1 {
        assert(m2 =~~= m.union_prefer_right(map_range(t, c, c + l)));
        if c == 255 {
            assert(spec_parse_entries(s, pos, c, m, l) == Some((m2, pos + 2)));
        } else {
            assert(spec_parse_entries(s, pos, c, m, l) == spec_parse_runs(s, pos + 2, c + 1, m2));
        }
    } else {
        assert(c < 255) by {
            assert(t[c + 1] is Some);
        }
        assert(s.subrange(pos + 2, pos + 2 * l) =~= pairs_seq(t, c + 1, l - 1)) by {
            assert forall|i: int| 0 <= i < 2 * l - 2 implies #[trigger] s.subrange(pos + 2, pos + 2 * l)[i]
                == pairs_seq(t, c + 1, l - 1)[i] by {
                assert(s.subrange(pos + 2, pos + 2 * l)[i] == s[pos + 2 + i]);
                assert(s.subrange(pos, pos + 2 * l)[i + 2] == s[pos + 2 + i]);
                assert(ps[i + 2] == pairs_seq(t, c + 1, l - 1)[i]);
            }
        }
        lemma_parse_entries_sub(t, s, pos + 2, c + 1, l - 1, m2);
        assert(m2.union_prefer_right(map_range(t, c + 1, c + l)) =~~= m.union_prefer_right(
            map_range(t, c, c + l),
        ));
        assert(spec_parse_entries(s, pos, c, m, l) == spec_parse_entries(
            s,
            pos + 2,
            c + 1,
            m2,
            l - 1,
        ));
    }
}

/// The table parser, fed the table's own encoding, returns exactly the
/// table: the printer/parser inverse at the heart of the block round trip.
pub proof fn lemma_parse_encode(t: Table, s: Seq<u8>, pos: int, c: int, m: Map<u8, (u8, u8)>)
    requires
        t.len() == 256,
        table_ok(t),
        0 <= c <= 255,
        0 <= pos,
        pos + spec_encode_table(t, c).len() <= s.len(),
        s.subrange(pos, pos + spec_encode_table(t, c).len()) == spec_encode_table(t, c),
    ensures
        spec_parse_runs(s, pos, c, m) == Some(
            (m.union_prefer_right(map_from(t, c)), pos + spec_encode_table(t, c).len()),
        ),
    decreases 256 - c,
{
    let enc = spec_encode_table(t, c);
    assert(s.subrange(pos, pos + enc.len())[0] == s[pos]);
    if t[c] is Some {
        let l = sub_run(t, c, 128);
        lemma_sub_run_props(t, c, 128);
        lemma_pairs_seq_len(t, c, l);
        let enc2 = spec_encode_table(t, c + l);
        lemma_encode_table_len(t, c + l);
        assert(enc == seq![(l - 1) as u8] + pairs_seq(t, c, l) + enc2);
        assert(s[pos] == (l - 1) as u8);
        assert(s[pos] < 0x80);
        assert(s.subrange(pos + 1, pos + 1 + 2 * l) =~= pairs_seq(t, c, l)) by {
            assert forall|i: int| 0 <= i < 2 * l implies #[trigger] s.subrange(pos + 1, pos + 1 + 2 * l)[i]
                == pairs_seq(t, c, l)[i] by {
                assert(s.subrange(pos, pos + enc.len())[i + 1] == s[pos + 1 + i]);
                assert(enc[i + 1] == pairs_seq(t, c, l)[i]);
            }
        }
        lemma_parse_entries_sub(t, s, pos + 1, c, l, m);
        let mr = m.union_prefer_right(map_range(t, c, c + l));
        assert(spec_parse_runs(s, pos, c, m) == spec_parse_entries(s, pos + 1, c, m, l)) by {
            assert(s[pos] == (l - 1) as u8 && l - 1 < 128);
        }
        if c + l == 256 {
            assert(mr =~~= m.union_prefer_right(map_from(t, c)));
            assert(enc2.len() == 0);
        } else {
            assert(s.subrange(pos + 1 + 2 * l, pos + 1 + 2 * l + enc2.len()) =~= enc2) by {
                assert forall|i: int| 0 <= i < enc2.len() implies #[trigger] s.subrange(
                    pos + 1 + 2 * l,
                    pos + 1 + 2 * l + enc2.len(),
                )[i] == enc2[i] by {
                    assert(s.subrange(pos, pos + enc.len())[1 + 2 * l + i] == s[pos + 1 + 2 * l
                        + i]);
                    assert(enc[1 + 2 * l + i] == enc2[i]);
                }
            }
            lemma_parse_encode(t, s, pos + 1 + 2 * l, c + l, mr);
            assert(mr.union_prefer_right(map_from(t, c + l)) =~~= m.union_prefer_right(
                map_from(t, c),
            ));
        }
    } else {
        let l = nsub_run(t, c, 128);
        lemma_nsub_run_props(t, c, 128);
        assert(l >= 1);
        if c + l > 255 {
            assert(c + l == 256);
            assert(enc == seq![(l - 1 + 128) as u8]);
            assert(s[pos] == (l - 1 + 128) as u8);
            assert(s[pos] >= 0x80);
            assert(s[pos] - 0x80 + 1 == l);
            assert(spec_parse_runs(s, pos, c, m) == Some((m, pos + 1)));
            assert(m.union_prefer_right(map_from(t, c)) =~~= m);
        } else {
            assert(s[pos] == (l - 1 + 128) as u8);
            assert(s[pos] >= 0x80);
            assert(s[pos] - 0x80 + 1 == l);
            assert(spec_parse_runs(s, pos, c, m) == spec_parse_entries(s, pos + 1, c + l, m, 1));
            let enc2 = spec_encode_table(t, c + l + 1);
            lemma_encode_table_len(t, c + l + 1);
            if t[c + l] is Some {
                let a = t[c + l]->Some_0.0;
                let b = t[c + l]->Some_0.1;
                assert(enc == seq![(l - 1 + 128) as u8, a, b] + enc2);
                assert(s.subrange(pos, pos + enc.len())[1] == s[pos + 1]);
                assert(s.subrange(pos, pos + enc.len())[2] == s[pos + 2]);
                assert(s[pos + 1] == a);
                assert(s[pos + 2] == b);
                assert(a != c + l) by {
                    assert(t[c + l] is Some ==> t[c + l]->Some_0.0 != c + l);
                }
                let m2 = m.insert((c + l) as u8, (a, b));
                if c + l == 255 {
                    assert(spec_parse_entries(s, pos + 1, c + l, m, 1) == Some((m2, pos + 3)));
                    assert(m2 =~~= m.union_prefer_right(map_from(t, c)));
                    assert(enc2.len() == 0);
                } else {
                    assert(spec_parse_entries(s, pos + 1, c + l, m, 1) == spec_parse_runs(
                        s,
                        pos + 3,
                        c + l + 1,
                        m2,
                    ));
                    assert(s.subrange(pos + 3, pos + 3 + enc2.len()) =~= enc2) by {
                        assert forall|i: int| 0 <= i < enc2.len() implies #[trigger] s.subrange(
                            pos + 3,
                            pos + 3 + enc2.len(),
                        )[i] == enc2[i] by {
                            assert(s.subrange(pos, pos + enc.len())[3 + i] == s[pos + 3 + i]);
                            assert(enc[3 + i] == enc2[i]);
                        }
                    }
                    lemma_parse_encode(t, s, pos + 3, c + l + 1, m2);
                    assert(m2.union_prefer_right(map_from(t, c + l + 1)) =~~= m.union_prefer_right(
                        map_from(t, c),
                    ));
                }
            } else {
                assert(enc == seq![(l - 1 + 128) as u8, (c + l) as u8] + enc2);
                assert(s.subrange(pos, pos + enc.len())[1] == s[pos + 1]);
                assert(s[pos + 1] == (c + l) as u8);
                if c + l == 255 {
                    assert(spec_parse_entries(s, pos + 1, c + l, m, 1) == Some((m, pos + 2)));
                    assert(m =~~= m.union_prefer_right(map_from(t, c)));
                    assert(enc2.len() == 0);
                } else {
                    assert(spec_parse_entries(s, pos + 1, c + l, m, 1) == spec_parse_runs(
                        s,
                        pos + 2,
                        c + l + 1,
                        m,
                    ));
                    assert(s.subrange(pos + 2, pos + 2 + enc2.len()) =~= enc2) by {
                        assert forall|i: int| 0 <= i < enc2.len() implies #[trigger] s.subrange(
                            pos + 2,
                            pos + 2 + enc2.len(),
                        )[i] == enc2[i] by {
                            assert(s.subrange(pos, pos + enc.len())[2 + i] == s[pos + 2 + i]);
                            assert(enc[2 + i] == enc2[i]);
                        }
                    }
                    lemma_parse_encode(t, s, pos + 2, c + l + 1, m);
                    assert(m.union_prefer_right(map_from(t, c + l + 1)) =~~= m.union_prefer_right(
                        map_from(t, c),
                    ));
                }
            }
        }
    }
}

} // verus!
