//! The semantics of a block's substitution chain: the substitutions in the
//! order the compressor chose them, what bytes they may mention, and the
//! facts that make each greedy rewrite invisible to the decoder.

use vstd::prelude::*;

use crate::bpe::{flatten_fuel, spec_expand, spec_flatten};

verus! {

/// One substitution round: the code byte and the pair it replaced.
pub type ChainEntry = (u8, (u8, u8));

/// The substitutions chosen so far, oldest first.
pub type Chain = Seq<ChainEntry>;

/// The chain as a map from code byte to pair (later entries win, though a
/// well-formed chain never repeats a code).
pub open spec fn chain_map(ch: Chain) -> Map<u8, (u8, u8)>
    decreases ch.len(),
{
    if ch.len() == 0 {
        Map::empty()
    } else {
        chain_map(ch.drop_last()).insert(ch.last().0, ch.last().1)
    }
}

/// `b` is one of the chain's code bytes.
pub open spec fn chain_code(ch: Chain, b: u8) -> bool {
    exists|i: int| 0 <= i < ch.len() && (#[trigger] ch[i]).0 == b
}

/// `b` may occur in the rewritten block: it was in the original block
/// (`used`) or it is a code assigned by the chain.
pub open spec fn allowed(used: Seq<bool>, ch: Chain, b: u8) -> bool {
    used[b as int] || chain_code(ch, b)
}

/// A chain the compressor can produce: every code byte is outside the
/// block's original byte set and fresh, and every pair byte was already
/// available when its round ran.
pub open spec fn wf_chain(used: Seq<bool>, ch: Chain) -> bool {
    forall|i: int|
        0 <= i < ch.len() ==> {
            &&& !used[(#[trigger] ch[i]).0 as int]
            &&& !chain_code(ch.take(i), ch[i].0)
            &&& allowed(used, ch.take(i), ch[i].1.0)
            &&& allowed(used, ch.take(i), ch[i].1.1)
        }
}

/// Membership in a chain prefix carries over to the whole chain.
pub proof fn lemma_chain_code_prefix(ch: Chain, k: int, b: u8)
    requires
        0 <= k <= ch.len(),
        chain_code(ch.take(k), b),
    ensures
        chain_code(ch, b),
{
    let i = choose|i: int| 0 <= i < ch.take(k).len() && ch.take(k)[i].0 == b;
    assert(ch[i].0 == b);
}

/// The chain map's domain is exactly the set of code bytes.
pub proof fn lemma_chain_map_dom(ch: Chain)
    ensures
        forall|b: u8| chain_map(ch).dom().contains(b) <==> chain_code(ch, b),
    decreases ch.len(),
{
    if ch.len() == 0 {
        assert forall|b: u8| chain_map(ch).dom().contains(b) <==> chain_code(ch, b) by {
            assert(!chain_map(ch).dom().contains(b));
            if chain_code(ch, b) {
                let i = choose|i: int| 0 <= i < ch.len() && ch[i].0 == b;
                assert(false);
            }
        }
    } else {
        let pre = ch.drop_last();
        lemma_chain_map_dom(pre);
        assert forall|b: u8| chain_map(ch).dom().contains(b) <==> chain_code(ch, b) by {
            if chain_map(ch).dom().contains(b) {
                if b == ch.last().0 {
                    assert(ch[ch.len() - 1].0 == b);
                } else {
                    assert(chain_code(pre, b));
                    let i = choose|i: int| 0 <= i < pre.len() && pre[i].0 == b;
                    assert(ch[i].0 == b);
                }
            }
            if chain_code(ch, b) {
                let i = choose|i: int| 0 <= i < ch.len() && ch[i].0 == b;
                if i < ch.len() - 1 {
                    assert(pre[i].0 == b);
                    assert(chain_code(pre, b));
                }
            }
        }
    }
}

/// A well-formed chain never reuses a code byte.
pub proof fn lemma_wf_distinct(used: Seq<bool>, ch: Chain, i: int, j: int)
    requires
        wf_chain(used, ch),
        0 <= i < j < ch.len(),
    ensures
        ch[i].0 != ch[j].0,
{
    if ch[i].0 == ch[j].0 {
        assert(ch.take(j)[i].0 == ch[j].0);
        assert(chain_code(ch.take(j), ch[j].0));
    }
}

/// Looking a code up in the chain map gives that code's pair.
pub proof fn lemma_chain_map_at(used: Seq<bool>, ch: Chain, i: int)
    requires
        wf_chain(used, ch),
        0 <= i < ch.len(),
    ensures
        chain_map(ch).dom().contains(ch[i].0),
        chain_map(ch)[ch[i].0] == ch[i].1,
    decreases ch.len(),
{
    if i == ch.len() - 1 {
    } else {
        let pre = ch.drop_last();
        assert(wf_chain(used, pre)) by {
            assert forall|k: int| 0 <= k < pre.len() implies {
                &&& !used[(#[trigger] pre[k]).0 as int]
                &&& !chain_code(pre.take(k), pre[k].0)
                &&& allowed(used, pre.take(k), pre[k].1.0)
                &&& allowed(used, pre.take(k), pre[k].1.1)
            } by {
                assert(pre[k] == ch[k]);
                assert(pre.take(k) =~= ch.take(k));
            }
        }
        lemma_chain_map_at(used, pre, i);
        lemma_wf_distinct(used, ch, i, ch.len() - 1);
        assert(pre[i] == ch[i]);
    }
}

/// A well-formed chain stays well-formed when its last entry is dropped.
pub proof fn lemma_wf_drop_last(used: Seq<bool>, ch: Chain)
    requires
        wf_chain(used, ch),
        ch.len() > 0,
    ensures
        wf_chain(used, ch.drop_last()),
{
    let pre = ch.drop_last();
    assert forall|k: int| 0 <= k < pre.len() implies {
        &&& !used[(#[trigger] pre[k]).0 as int]
        &&& !chain_code(pre.take(k), pre[k].0)
        &&& allowed(used, pre.take(k), pre[k].1.0)
        &&& allowed(used, pre.take(k), pre[k].1.1)
    } by {
        assert(pre[k] == ch[k]);
        assert(pre.take(k) =~= ch.take(k));
    }
}

/// More fuel never changes a flattening that succeeded.
pub proof fn lemma_flatten_mono(m: Map<u8, (u8, u8)>, b: u8, f: nat, g: nat)
    requires
        f <= g,
        spec_flatten(m, b, f) is Some,
    ensures
        spec_flatten(m, b, g) == spec_flatten(m, b, f),
    decreases f,
{
    if m.dom().contains(b) {
        let p = m[b];
        lemma_flatten_mono(m, p.0, (f - 1) as nat, (g - 1) as nat);
        lemma_flatten_mono(m, p.1, (f - 1) as nat, (g - 1) as nat);
    }
}

/// Adding a fresh code to the chain does not change the flattening of any
/// byte that was already available: its expansion can never reach the new
/// code.
pub proof fn lemma_flatten_preserved(used: Seq<bool>, ch: Chain, e: ChainEntry, b: u8, fuel: nat)
    requires
        wf_chain(used, ch.push(e)),
        allowed(used, ch, b),
    ensures
        spec_flatten(chain_map(ch.push(e)), b, fuel) == spec_flatten(chain_map(ch), b, fuel),
    decreases fuel,
{
    let m = chain_map(ch);
    let m2 = chain_map(ch.push(e));
    assert(ch.push(e).drop_last() =~= ch);
    assert(m2 == m.insert(e.0, e.1));
    assert(ch.push(e).take(ch.len() as int) =~= ch);
    assert(ch.push(e)[ch.len() as int] == e);
    assert(!chain_code(ch, e.0));
    assert(!used[e.0 as int]);
    assert(b != e.0);
    lemma_chain_map_dom(ch);
    if m.dom().contains(b) {
        assert(m2.dom().contains(b) && m2[b] == m[b]);
        if fuel == 0 {
        } else {
            assert(chain_code(ch, b));
            let i = choose|i: int| 0 <= i < ch.len() && ch[i].0 == b;
            assert(wf_chain(used, ch)) by {
                lemma_wf_drop_last(used, ch.push(e));
                assert(ch.push(e).drop_last() =~= ch);
            }
            lemma_chain_map_at(used, ch, i);
            assert(m[b] == ch[i].1);
            let p = m[b];
            assert(allowed(used, ch.take(i), p.0) && allowed(used, ch.take(i), p.1));
            if chain_code(ch.take(i), p.0) {
                lemma_chain_code_prefix(ch, i, p.0);
            }
            if chain_code(ch.take(i), p.1) {
                lemma_chain_code_prefix(ch, i, p.1);
            }
            lemma_flatten_preserved(used, ch, e, p.0, (fuel - 1) as nat);
            lemma_flatten_preserved(used, ch, e, p.1, (fuel - 1) as nat);
        }
    } else {
        assert(!m2.dom().contains(b));
    }
}

/// Every available byte flattens within fuel proportional to how early its
/// defining round ran.
pub proof fn lemma_flatten_defined_at(used: Seq<bool>, ch: Chain, b: u8, fuel: nat, bound: int)
    requires
        wf_chain(used, ch),
        0 <= bound <= ch.len(),
        used[b as int] || chain_code(ch.take(bound), b),
        fuel >= bound,
    ensures
        spec_flatten(chain_map(ch), b, fuel) is Some,
    decreases bound,
{
    let m = chain_map(ch);
    lemma_chain_map_dom(ch);
    if !m.dom().contains(b) {
    } else {
        assert(chain_code(ch, b));
        if used[b as int] {
            let i = choose|i: int| 0 <= i < ch.len() && ch[i].0 == b;
            assert(!used[ch[i].0 as int]);
            assert(false);
        }
        let i = choose|i: int| 0 <= i < ch.take(bound).len() && ch.take(bound)[i].0 == b;
        assert(ch[i].0 == b);
        lemma_chain_map_at(used, ch, i);
        let p = m[b];
        assert(p == ch[i].1);
        assert(allowed(used, ch.take(i), p.0) && allowed(used, ch.take(i), p.1));
        lemma_flatten_defined_at(used, ch, p.0, (fuel - 1) as nat, i);
        lemma_flatten_defined_at(used, ch, p.1, (fuel - 1) as nat, i);
    }
}

/// With no substitutions yet, expansion is the identity.
pub proof fn lemma_expand_id(s: Seq<u8>)
    ensures
        spec_expand(Map::empty(), s) == Some(s),
    decreases s.len(),
{
    if s.len() == 0 {
        assert(spec_expand(Map::<u8, (u8, u8)>::empty(), s) == Some(Seq::<u8>::empty()));
        assert(s =~= Seq::<u8>::empty());
    } else {
        lemma_expand_id(s.skip(1));
        assert(!Map::<u8, (u8, u8)>::empty().dom().contains(s[0]));
        assert(spec_flatten(Map::empty(), s[0], flatten_fuel()) == Some(seq![s[0]]));
        assert(seq![s[0]] + s.skip(1) =~= s);
    }
}

/// Adding a fresh code does not change the expansion of a run of available
/// bytes.
pub proof fn lemma_expand_preserved(used: Seq<bool>, ch: Chain, e: ChainEntry, s: Seq<u8>)
    requires
        wf_chain(used, ch.push(e)),
        forall|j: int| 0 <= j < s.len() ==> allowed(used, ch, #[trigger] s[j]),
    ensures
        spec_expand(chain_map(ch.push(e)), s) == spec_expand(chain_map(ch), s),
    decreases s.len(),
{
    if s.len() > 0 {
        lemma_flatten_preserved(used, ch, e, s[0], flatten_fuel());
        assert(forall|j: int| 0 <= j < s.skip(1).len() ==> allowed(used, ch, #[trigger] s.skip(1)[j]));
        lemma_expand_preserved(used, ch, e, s.skip(1));
    }
}

/// The block after one greedy left-to-right rewrite: every occurrence of
/// `a b` scanned forward becomes `code`.
pub open spec fn replace_pairs(s: Seq<u8>, a: u8, b: u8, code: u8) -> Seq<u8>
    decreases s.len(),
{
    if s.len() >= 2 && s[0] == a && s[1] == b {
        seq![code] + replace_pairs(s.skip(2), a, b, code)
    } else if s.len() >= 1 {
        seq![s[0]] + replace_pairs(s.skip(1), a, b, code)
    } else {
        Seq::empty()
    }
}

/// The rewrite is invisible to expansion: replacing `a b` by a code that
/// flattens to `a`'s expansion followed by `b`'s leaves the block's
/// expansion unchanged.
pub proof fn lemma_expand_replace(m: Map<u8, (u8, u8)>, s: Seq<u8>, a: u8, b: u8, code: u8)
    requires
        spec_flatten(m, a, flatten_fuel()) is Some,
        spec_flatten(m, b, flatten_fuel()) is Some,
        spec_flatten(m, code, flatten_fuel()) == Some(
            spec_flatten(m, a, flatten_fuel())->Some_0 + spec_flatten(m, b, flatten_fuel())->Some_0,
        ),
    ensures
        spec_expand(m, replace_pairs(s, a, b, code)) == spec_expand(m, s),
    decreases s.len(),
{
    let fa = spec_flatten(m, a, flatten_fuel())->Some_0;
    let fb = spec_flatten(m, b, flatten_fuel())->Some_0;
    if s.len() >= 2 && s[0] == a && s[1] == b {
        let r = seq![code] + replace_pairs(s.skip(2), a, b, code);
        assert(r[0] == code);
        assert(r.skip(1) =~= replace_pairs(s.skip(2), a, b, code));
        lemma_expand_replace(m, s.skip(2), a, b, code);
        assert(s.skip(1)[0] == s[1]);
        assert(s.skip(1).skip(1) =~= s.skip(2));
        // expand(s) = fa + (fb + expand(s.skip(2))); expand(r) = (fa + fb) + expand(s.skip(2))
        match spec_expand(m, s.skip(2)) {
            Some(rest) => {
                assert(spec_expand(m, s.skip(1)) == Some(fb + rest));
                assert(spec_expand(m, s) == Some(fa + (fb + rest)));
                assert(spec_expand(m, r) == Some((fa + fb) + rest));
                assert(fa + (fb + rest) =~= (fa + fb) + rest);
            },
            None => {
                assert(spec_expand(m, s.skip(1)) is None);
                assert(spec_expand(m, s) is None);
                assert(spec_expand(m, r) is None);
            },
        }
    } else if s.len() >= 1 {
        let r = seq![s[0]] + replace_pairs(s.skip(1), a, b, code);
        assert(r[0] == s[0]);
        assert(r.skip(1) =~= replace_pairs(s.skip(1), a, b, code));
        lemma_expand_replace(m, s.skip(1), a, b, code);
    }
}

} // verus!
