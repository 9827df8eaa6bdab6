//! The weighted lexicon: a mapping from word to weight with unique keys.
//!
//! Executable code holds the entries as a vector of `(word, weight)` pairs;
//! contracts speak of the abstraction `lex_map`, a `Map` from the word's
//! character sequence to its weight.

use vstd::prelude::*;

verus! {

/// The mapping that a sequence of `(word, weight)` entries denotes; a later
/// entry with the same key overrides an earlier one.
pub open spec fn lex_map(s: Seq<(String, u64)>) -> Map<Seq<char>, u64>
    decreases s.len(),
{
    if s.len() == 0 {
        Map::empty()
    } else {
        lex_map(s.drop_last()).insert(s.last().0@, s.last().1)
    }
}

/// No two entries hold the same word.
pub open spec fn keys_distinct(s: Seq<(String, u64)>) -> bool {
    forall|i: int, j: int|
        0 <= i < j < s.len() ==> (#[trigger] s[i]).0@ != (#[trigger] s[j]).0@
}

/// A word is a key of `lex_map(s)` exactly when some entry holds it.
pub proof fn lemma_lex_map_contains_key(s: Seq<(String, u64)>, w: Seq<char>)
    ensures
        lex_map(s).contains_key(w) <==> exists|i: int|
            0 <= i < s.len() && (#[trigger] s[i]).0@ == w,
    decreases s.len(),
{
    if s.len() > 0 {
        lemma_lex_map_contains_key(s.drop_last(), w);
        let last: int = s.len() - 1;
        if s[last].0@ == w {
            assert(lex_map(s).contains_key(w));
        } else {
            if lex_map(s).contains_key(w) {
                let i = choose|i: int|
                    0 <= i < s.drop_last().len() && (#[trigger] s.drop_last()[i]).0@ == w;
                assert((s[i]).0@ == w);
            }
            if exists|i: int| 0 <= i < s.len() && (#[trigger] s[i]).0@ == w {
                let i = choose|i: int| 0 <= i < s.len() && (#[trigger] s[i]).0@ == w;
                assert((s.drop_last()[i]).0@ == w);
            }
        }
    }
}

/// With distinct keys, `lex_map(s)` maps each entry's word to its weight.
pub proof fn lemma_lex_map_index(s: Seq<(String, u64)>, i: int)
    requires
        keys_distinct(s),
        0 <= i < s.len(),
    ensures
        lex_map(s).contains_key(s[i].0@),
        lex_map(s)[s[i].0@] == s[i].1,
    decreases s.len(),
{
    let last: int = s.len() - 1;
    if i < last {
        lemma_keys_distinct_drop_last(s);
        lemma_lex_map_index(s.drop_last(), i);
        assert(s.drop_last()[i] == s[i]);
        assert(s[i].0@ != s[last].0@);
    }
}

/// Dropping the last entry keeps the keys distinct.
pub proof fn lemma_keys_distinct_drop_last(s: Seq<(String, u64)>)
    requires
        keys_distinct(s),
        s.len() > 0,
    ensures
        keys_distinct(s.drop_last()),
{
    assert forall|a: int, b: int| 0 <= a < b < s.drop_last().len() implies (
    #[trigger] s.drop_last()[a]).0@ != (#[trigger] s.drop_last()[b]).0@ by {
        assert(s.drop_last()[a] == s[a]);
        assert(s.drop_last()[b] == s[b]);
    }
}

/// Pushing an entry inserts its word into the mapping.
pub proof fn lemma_lex_map_push(s: Seq<(String, u64)>, p: (String, u64))
    ensures
        lex_map(s.push(p)) == lex_map(s).insert(p.0@, p.1),
{
    assert(s.push(p).drop_last() =~= s);
    assert(s.push(p).last() == p);
}

/// With distinct keys the domain of `lex_map(s)` is finite and has exactly
/// one element per entry.
pub proof fn lemma_lex_map_dom(s: Seq<(String, u64)>)
    requires
        keys_distinct(s),
    ensures
        lex_map(s).dom().finite(),
        lex_map(s).dom().len() == s.len(),
    decreases s.len(),
{
    if s.len() > 0 {
        let last: int = s.len() - 1;
        lemma_keys_distinct_drop_last(s);
        lemma_lex_map_dom(s.drop_last());
        lemma_lex_map_contains_key(s.drop_last(), s[last].0@);
        assert forall|i: int| 0 <= i < s.drop_last().len() implies (#[trigger] s.drop_last()[i]).0@
            != s[last].0@ by {
            assert(s.drop_last()[i] == s[i]);
        }
        assert(!lex_map(s.drop_last()).contains_key(s[last].0@));
    }
}

/// A weighted lexicon: words with their weights, each word at most once.
pub struct Lexicon {
    pub entries: Vec<(String, u64)>,
}

impl View for Lexicon {
    type V = Map<Seq<char>, u64>;

    open spec fn view(&self) -> Map<Seq<char>, u64> {
        lex_map(self.entries@)
    }
}

impl Lexicon {
    /// Well-formedness: no word occurs in two entries.
    pub open spec fn wf(self) -> bool {
        keys_distinct(self.entries@)
    }

    /// The empty lexicon.
    pub fn new() -> (l: Lexicon)
        ensures
            l.wf(),
            l@ == Map::<Seq<char>, u64>::empty(),
            l.entries@.len() == 0,
    {
        Lexicon { entries: Vec::new() }
    }

    /// Does the lexicon hold `word`?
    pub fn contains_word(&self, word: &String) -> (b: bool)
        ensures
            b == self@.contains_key(word@),
    {
        let mut j: usize = 0;
        while j < self.entries.len()
            invariant
                j <= self.entries@.len(),
                forall|k: int| 0 <= k < j ==> (#[trigger] self.entries@[k]).0@ != word@,
            decreases self.entries@.len() - j,
        {
            if self.entries[j].0.eq(word) {
                proof {
                    lemma_lex_map_contains_key(self.entries@, word@);
                }
                return true;
            }
            j = j + 1;
        }
        proof {
            lemma_lex_map_contains_key(self.entries@, word@);
        }
        false
    }

    /// The weight stored for `word`, if any.
    pub fn get(&self, word: &String) -> (r: Option<u64>)
        requires
            self.wf(),
        ensures
            r == if self@.contains_key(word@) {
                Some(self@[word@])
            } else {
                None::<u64>
            },
    {
        let mut j: usize = 0;
        while j < self.entries.len()
            invariant
                self.wf(),
                j <= self.entries@.len(),
                forall|k: int| 0 <= k < j ==> (#[trigger] self.entries@[k]).0@ != word@,
            decreases self.entries@.len() - j,
        {
            if self.entries[j].0.eq(word) {
                proof {
                    lemma_lex_map_index(self.entries@, j as int);
                }
                return Some(self.entries[j].1);
            }
            j = j + 1;
        }
        proof {
            lemma_lex_map_contains_key(self.entries@, word@);
        }
        None
    }

    /// The number of entries; with distinct keys this is the size of the
    /// mapping's domain.
    pub fn len(&self) -> (n: usize)
        ensures
            n == self.entries@.len(),
            self.wf() ==> n == self@.dom().len(),
    {
        proof {
            if self.wf() {
                lemma_lex_map_dom(self.entries@);
            }
        }
        self.entries.len()
    }

    /// Records `weight` for `word`, overriding any earlier weight.
    pub fn insert(&mut self, word: String, weight: u64)
        requires
            old(self).wf(),
        ensures
            final(self).wf(),
            final(self)@ == old(self)@.insert(word@, weight),
    {
        let mut j: usize = 0;
        while j < self.entries.len()
            invariant
                self.wf(),
                self.entries@ == old(self).entries@,
                j <= self.entries@.len(),
                forall|k: int| 0 <= k < j ==> (#[trigger] self.entries@[k]).0@ != word@,
            decreases self.entries@.len() - j,
        {
            if self.entries[j].0.eq(&word) {
                self.entries.set(j, (word, weight));
                proof {
                    lemma_lex_map_update(old(self).entries@, j as int, self.entries@[j as int]);
                }
                return ;
            }
            j = j + 1;
        }
        let pair = (word, weight);
        let ghost gpair = pair;
        self.entries.push(pair);
        proof {
            lemma_lex_map_push(old(self).entries@, gpair);
            let n: int = self.entries@.len() as int;
            assert forall|i: int, k: int| 0 <= i < k < n implies (#[trigger] self.entries@[i]).0@
                != (#[trigger] self.entries@[k]).0@ by {
                assert(self.entries@[i] == old(self).entries@[i]);
                if k < n - 1 {
                    assert(self.entries@[k] == old(self).entries@[k]);
                } else {
                    assert(self.entries@[k] == gpair);
                    assert(old(self).entries@[i].0@ != gpair.0@);
                }
            }
        }
    }
}

/// Replacing the entry at `j` by one with the same word updates that word's
/// weight in the mapping.
pub proof fn lemma_lex_map_update(s: Seq<(String, u64)>, j: int, p: (String, u64))
    requires
        keys_distinct(s),
        0 <= j < s.len(),
        p.0@ == s[j].0@,
    ensures
        lex_map(s.update(j, p)) == lex_map(s).insert(p.0@, p.1),
        keys_distinct(s.update(j, p)),
    decreases s.len(),
{
    let last: int = s.len() - 1;
    assert forall|i: int, k: int| 0 <= i < k < s.len() implies (#[trigger] s.update(j, p)[i]).0@
        != (#[trigger] s.update(j, p)[k]).0@ by {
        assert(s.update(j, p)[i].0@ == s[i].0@);
        assert(s.update(j, p)[k].0@ == s[k].0@);
    }
    if j == last {
        assert(s.update(j, p).drop_last() =~= s.drop_last());
        assert(s.update(j, p).last() == p);
        assert(lex_map(s.update(j, p)) == lex_map(s.drop_last()).insert(p.0@, p.1));
        assert(lex_map(s.drop_last()).insert(s[last].0@, s[last].1).insert(p.0@, p.1)
            =~= lex_map(s.drop_last()).insert(p.0@, p.1));
    } else {
        assert(s.update(j, p).drop_last() =~= s.drop_last().update(j, p));
        assert(s.drop_last()[j] == s[j]);
        lemma_keys_distinct_drop_last(s);
        lemma_lex_map_update(s.drop_last(), j, p);
        assert(s.update(j, p).last() == s[last]);
        assert(s[last].0@ != p.0@);
        assert(lex_map(s.drop_last()).insert(p.0@, p.1).insert(s[last].0@, s[last].1)
            =~= lex_map(s.drop_last()).insert(s[last].0@, s[last].1).insert(p.0@, p.1));
    }
}

} // verus!
