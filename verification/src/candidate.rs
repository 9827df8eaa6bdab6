//! The candidate filter: keeps the lexicon entries consistent with every
//! (guess, pattern) constraint, and orders the survivors by weight.

use vstd::prelude::*;
use vstd::seq_lib::to_multiset_build;
use vstd::seq_lib::to_multiset_insert;
use crate::lexicon::Lexicon;
use crate::lexicon::keys_distinct;
use crate::lexicon::lex_map;
use crate::lexicon::lemma_lex_map_contains_key;
use crate::lexicon::lemma_lex_map_index;
use crate::score::check_wordle;
use crate::score::match_result;
use crate::score::matches_spec;
use crate::score::pattern_wf;
use crate::score::score_spec;

verus! {

/// Word `w` satisfies the constraint `c`: scoring `c`'s guess against `w`
/// yields a feedback vector that `c`'s pattern encodes.
pub open spec fn constraint_ok(w: Seq<char>, c: (String, String)) -> bool {
    matches_spec(score_spec(c.0@, w), c.1@)
}

/// Word `w` satisfies every constraint of `cs`.
pub open spec fn keeps(w: Seq<char>, cs: Seq<(String, String)>) -> bool {
    forall|j: int| 0 <= j < cs.len() ==> constraint_ok(w, #[trigger] cs[j])
}

/// Every constraint's pattern holds only feedback digits and is no longer
/// than its guess (the scorer's vector has the guess's length, and the
/// matcher must not read past it).
pub open spec fn constraints_wf(cs: Seq<(String, String)>) -> bool {
    forall|j: int|
        0 <= j < cs.len() ==> pattern_wf((#[trigger] cs[j]).1@) && cs[j].1@.len()
            <= cs[j].0@.len()
}

/// The sub-mapping of `m` whose words satisfy every constraint of `cs`,
/// weights unchanged.
pub open spec fn filtered(m: Map<Seq<char>, u64>, cs: Seq<(String, String)>) -> Map<
    Seq<char>,
    u64,
> {
    Map::new(|w: Seq<char>| m.contains_key(w) && keeps(w, cs), |w: Seq<char>| m[w])
}

/// With no constraints, filtering changes nothing: every word of the
/// mapping survives with its weight.
pub proof fn lemma_filtered_no_constraints(m: Map<Seq<char>, u64>, cs: Seq<(String, String)>)
    requires
        cs.len() == 0,
    ensures
        filtered(m, cs) == m,
{
    assert(filtered(m, cs) =~= m);
}

/// Filtering is idempotent: applying the same constraint list to an
/// already-filtered mapping yields the same mapping again.
pub proof fn lemma_filtered_idempotent(m: Map<Seq<char>, u64>, cs: Seq<(String, String)>)
    ensures
        filtered(filtered(m, cs), cs) == filtered(m, cs),
{
    assert(filtered(filtered(m, cs), cs) =~= filtered(m, cs));
}

/// Filters the lexicon down to the words that satisfy every constraint of
/// `result_list`; each survivor keeps its weight.
pub fn get_candidate(word_weight: &Lexicon, result_list: &Vec<(String, String)>) -> (candidate:
    Lexicon)
    requires
        word_weight.wf(),
        constraints_wf(result_list@),
    ensures
        candidate.wf(),
        candidate@ == filtered(word_weight@, result_list@),
{
    let ghost src = word_weight.entries@;
    let ghost cs = result_list@;
    let mut entries: Vec<(String, u64)> = Vec::new();
    let n: usize = word_weight.entries.len();
    let mut idx: usize = 0;
    while idx < n
        invariant
            word_weight.wf(),
            constraints_wf(cs),
            src == word_weight.entries@,
            cs == result_list@,
            n == src.len(),
            idx <= n,
            keys_distinct(entries@),
            forall|j: int| 0 <= j < entries@.len() ==> exists|k: int|
                0 <= k < idx && #[trigger] entries@[j] == src[k] && keeps(entries@[j].0@, cs),
            forall|k: int|
                0 <= k < idx && keeps((#[trigger] src[k]).0@, cs) ==> exists|j: int|
                    0 <= j < entries@.len() && #[trigger] entries@[j] == src[k],
        decreases n - idx,
    {
        let ghost pre = entries@;
        let m: usize = result_list.len();
        let mut ok: bool = true;
        let mut j: usize = 0;
        while j < m
            invariant
                constraints_wf(cs),
                src == word_weight.entries@,
                cs == result_list@,
                m == cs.len(),
                idx < n,
                n == src.len(),
                j <= m,
                ok == (forall|q: int|
                    0 <= q < j ==> constraint_ok(src[idx as int].0@, #[trigger] cs[q])),
            decreases m - j,
        {
            let r = check_wordle(&result_list[j].0, &word_weight.entries[idx].0);
            let good = match_result(r, &result_list[j].1);
            proof {
                if !good {
                    assert(!constraint_ok(src[idx as int].0@, cs[j as int]));
                }
            }
            if !good {
                ok = false;
            }
            j = j + 1;
        }
        if ok {
            let word = word_weight.entries[idx].0.clone();
            let weight = word_weight.entries[idx].1;
            entries.push((word, weight));
            proof {
                assert(entries@[entries@.len() - 1] == src[idx as int]);
                assert(keeps(src[idx as int].0@, cs));
                assert forall|a: int, b: int| 0 <= a < b < entries@.len() implies (
                #[trigger] entries@[a]).0@ != (#[trigger] entries@[b]).0@ by {
                    assert(entries@[a] == pre[a]);
                    if b < entries@.len() - 1 {
                        assert(entries@[b] == pre[b]);
                    } else {
                        let k = choose|k: int|
                            0 <= k < idx && #[trigger] pre[a] == src[k] && keeps(pre[a].0@, cs);
                        assert(src[k].0@ != src[idx as int].0@);
                    }
                }
            }
        }
        proof {
            assert forall|k: int|
                0 <= k < idx + 1 && keeps((#[trigger] src[k]).0@, cs) implies exists|j: int|
                0 <= j < entries@.len() && #[trigger] entries@[j] == src[k] by {
                if k < idx {
                    let j = choose|j: int| 0 <= j < pre.len() && #[trigger] pre[j] == src[k];
                    assert(entries@[j] == src[k]);
                } else {
                    assert(ok);
                    assert(entries@[entries@.len() - 1] == src[idx as int]);
                }
            }
        }
        idx = idx + 1;
    }
    let candidate = Lexicon { entries };
    proof {
        let m1 = lex_map(candidate.entries@);
        let m0 = lex_map(src);
        let f = filtered(m0, cs);
        assert forall|w: Seq<char>| #[trigger] m1.dom().contains(w) implies f.dom().contains(w)
            && m1[w] == f[w] by {
            lemma_lex_map_contains_key(candidate.entries@, w);
            let j = choose|j: int|
                0 <= j < candidate.entries@.len() && (#[trigger] candidate.entries@[j]).0@ == w;
            lemma_lex_map_index(candidate.entries@, j);
            let k = choose|k: int|
                0 <= k < n && #[trigger] candidate.entries@[j] == src[k] && keeps(
                    candidate.entries@[j].0@,
                    cs,
                );
            lemma_lex_map_index(src, k);
        }
        assert forall|w: Seq<char>| #[trigger] f.dom().contains(w) implies m1.dom().contains(
            w,
        ) by {
            lemma_lex_map_contains_key(src, w);
            let k = choose|k: int| 0 <= k < src.len() && (#[trigger] src[k]).0@ == w;
            assert(keeps(src[k].0@, cs));
            let j = choose|j: int|
                0 <= j < candidate.entries@.len() && #[trigger] candidate.entries@[j] == src[k];
            lemma_lex_map_contains_key(candidate.entries@, w);
            assert((candidate.entries@[j]).0@ == w);
        }
        assert(m1.dom() =~= f.dom());
        assert(m1 =~= f);
    }
    candidate
}

/// The view of an entry: the word's characters with the weight.
pub open spec fn entry_view(p: (String, u64)) -> (Seq<char>, u64) {
    (p.0@, p.1)
}

/// The views of a sequence of entries, in order.
pub open spec fn entry_views(s: Seq<(String, u64)>) -> Seq<(Seq<char>, u64)> {
    s.map_values(|p: (String, u64)| entry_view(p))
}

/// Orders the lexicon's entries by ascending weight: the result is a
/// rearrangement of the entries (as a multiset) whose weights never
/// decrease from one position to the next.
pub fn sort_hash_by_value(h: &Lexicon) -> (v: Vec<(String, u64)>)
    ensures
        v@.len() == h.entries@.len(),
        forall|a: int, b: int| 0 <= a < b < v@.len() ==> v@[a].1 <= v@[b].1,
        entry_views(v@).to_multiset() == entry_views(h.entries@).to_multiset(),
{
    let ghost src = h.entries@;
    let mut v: Vec<(String, u64)> = Vec::new();
    let mut i: usize = 0;
    proof {
        assert(entry_views(v@) =~= entry_views(src.take(0)));
    }
    while i < h.entries.len()
        invariant
            src == h.entries@,
            i <= src.len(),
            v@.len() == i,
            forall|a: int, b: int| 0 <= a < b < v@.len() ==> v@[a].1 <= v@[b].1,
            entry_views(v@).to_multiset() == entry_views(src.take(i as int)).to_multiset(),
        decreases src.len() - i,
    {
        let ghost pre = v@;
        let weight = h.entries[i].1;
        let mut pos: usize = 0;
        while pos < v.len() && v[pos].1 <= weight
            invariant
                pre == v@,
                pos <= v@.len(),
                forall|a: int| 0 <= a < pos ==> v@[a].1 <= weight,
            decreases v@.len() - pos,
        {
            pos = pos + 1;
        }
        let pair = (h.entries[i].0.clone(), weight);
        let ghost gpair = pair;
        v.insert(pos, pair);
        proof {
            assert(v@ == pre.insert(pos as int, gpair));
            assert(v@[pos as int] == gpair);
            assert forall|a: int, b: int| 0 <= a < b < v@.len() implies v@[a].1 <= v@[b].1 by {
                if a < pos {
                    assert(v@[a] == pre[a]);
                } else if a > pos {
                    assert(v@[a] == pre[a - 1]);
                }
                if b < pos {
                    assert(v@[b] == pre[b]);
                } else if b > pos {
                    assert(v@[b] == pre[b - 1]);
                }
                if b == pos && a < pos {
                    assert(pre[a].1 <= weight);
                }
                if a == pos && b > pos {
                    assert(pos < pre.len());
                    assert(weight < pre[pos as int].1 || pos == pre.len());
                    assert(pre[pos as int].1 <= pre[b - 1].1);
                }
            }
            to_multiset_insert(entry_views(pre), pos as int, entry_view(gpair));
            assert(entry_views(v@) =~= entry_views(pre).insert(pos as int, entry_view(gpair)));
            to_multiset_build(entry_views(src.take(i as int)), entry_view(src[i as int]));
            assert(entry_views(src.take(i + 1)) =~= entry_views(src.take(i as int)).push(
                entry_view(src[i as int]),
            ));
            assert(entry_view(gpair) == entry_view(src[i as int]));
        }
        i = i + 1;
    }
    proof {
        assert(src.take(src.len() as int) =~= src);
        assert(entry_views(src.take(src.len() as int)) =~= entry_views(src));
    }
    v
}

} // verus!
