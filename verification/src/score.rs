//! The feedback scorer and the pattern matcher.
//!
//! `check_wordle` computes the per-position hit/blow/miss vector of a guess
//! against a target word; `match_result` checks that vector against a digit
//! pattern supplied by the caller.

use vstd::prelude::*;
use vstd::string::StrSliceExecFns;

verus! {

/// The guessed letter has no usable correspondence in the target.
pub const MISS: u8 = 0;

/// The guessed letter occurs elsewhere in the target (present but misplaced).
pub const BLOW: u8 = 1;

/// The guessed letter equals the target letter at the same position.
pub const HIT: u8 = 2;

/// Target position `t` can serve as a blow source for guess position `i`:
/// it is a different position, holds the guessed letter, and is not itself
/// an exact positional match (exact matches are never lent out as blows).
pub open spec fn blow_source(guess: Seq<char>, target: Seq<char>, i: int, t: int) -> bool {
    t != i && target[t] == guess[i] && guess[t] != target[t]
}

/// The status scoring assigns to position `i` of `guess` against a `target`
/// of the same length: `HIT` on an exact positional match, otherwise `BLOW`
/// when some target position can serve as a blow source, otherwise `MISS`.
pub open spec fn status_at(guess: Seq<char>, target: Seq<char>, i: int) -> u8 {
    if guess[i] == target[i] {
        HIT
    } else if exists|t: int|
        0 <= t < target.len() && #[trigger] blow_source(guess, target, i, t) {
        BLOW
    } else {
        MISS
    }
}

/// The feedback vector for `guess` against `target`: one status per guess
/// position when the lengths agree, and all `MISS` otherwise. A length
/// mismatch is deliberately not an error: the filter relies on the all-`MISS`
/// vector to reject candidates of the wrong length.
pub open spec fn score_spec(guess: Seq<char>, target: Seq<char>) -> Seq<u8> {
    if guess.len() == target.len() {
        Seq::new(guess.len(), |i: int| status_at(guess, target, i))
    } else {
        Seq::new(guess.len(), |i: int| MISS)
    }
}

/// Scoring a word against itself marks every position `HIT`.
pub proof fn lemma_score_self(w: Seq<char>)
    ensures
        score_spec(w, w).len() == w.len(),
        forall|i: int| 0 <= i < w.len() ==> score_spec(w, w)[i] == HIT,
{
}

/// Scoring a guess against a target of a different length marks every
/// position `MISS`.
pub proof fn lemma_score_length_mismatch(guess: Seq<char>, target: Seq<char>)
    requires
        guess.len() != target.len(),
    ensures
        score_spec(guess, target).len() == guess.len(),
        forall|i: int| 0 <= i < guess.len() ==> score_spec(guess, target)[i] == MISS,
{
}

/// Every character of `pat` is one of the feedback digits `'0'`, `'1'`, `'2'`.
pub open spec fn pattern_wf(pat: Seq<char>) -> bool {
    forall|i: int| 0 <= i < pat.len() ==> '0' as int <= #[trigger] pat[i] as int <= '2' as int
}

/// `pat` encodes a prefix of the feedback vector `v` digit by digit:
/// `'0'` stands for `MISS`, `'1'` for `BLOW`, `'2'` for `HIT`.
pub open spec fn matches_spec(v: Seq<u8>, pat: Seq<char>) -> bool {
    forall|i: int| 0 <= i < pat.len() ==> #[trigger] v[i] as int == pat[i] as int - '0' as int
}

/// Checks the feedback vector `result` against the digit pattern `r`.
/// A pattern shorter than the vector checks only the positions it covers;
/// a pattern longer than the vector is a contract violation and is ruled
/// out by the precondition.
pub fn match_result(result: Vec<u8>, r: &String) -> (b: bool)
    requires
        r@.len() <= result@.len(),
        pattern_wf(r@),
    ensures
        b == matches_spec(result@, r@),
{
    let rlen: usize = r.as_str().unicode_len();
    let mut pos: usize = 0;
    while pos < rlen
        invariant
            pos <= rlen,
            rlen == r@.len(),
            r@.len() <= result@.len(),
            pattern_wf(r@),
            forall|k: int| 0 <= k < pos ==> #[trigger] result@[k] as int == r@[k] as int
                - '0' as int,
        decreases rlen - pos,
    {
        let c = r.as_str().get_char(pos);
        let d: u32 = c as u32 - '0' as u32;
        if result[pos] as u32 != d {
            assert(!matches_spec(result@, r@));
            return false;
        }
        pos = pos + 1;
    }
    true
}

/// Computes the feedback vector of `guess` against `word`.
pub fn check_wordle(guess: &String, word: &String) -> (result: Vec<u8>)
    ensures
        result@ == score_spec(guess@, word@),
{
    let glen: usize = guess.as_str().unicode_len();
    let wlen: usize = word.as_str().unicode_len();
    let mut result: Vec<u8> = Vec::new();
    if glen != wlen {
        let mut i: usize = 0;
        while i < glen
            invariant
                i <= glen,
                glen == guess@.len(),
                result@.len() == i,
                forall|k: int| 0 <= k < i ==> result@[k] == MISS,
            decreases glen - i,
        {
            result.push(MISS);
            i = i + 1;
        }
        assert(result@ =~= score_spec(guess@, word@));
    } else {
        let mut i: usize = 0;
        while i < glen
            invariant
                i <= glen,
                glen == guess@.len(),
                glen == word@.len(),
                wlen == glen,
                result@.len() == i,
                forall|k: int| 0 <= k < i ==> result@[k] == status_at(guess@, word@, k),
            decreases glen - i,
        {
            let c = guess.as_str().get_char(i);
            if word.as_str().get_char(i) == c {
                result.push(HIT);
            } else {
                let mut status: u8 = MISS;
                let mut t: usize = 0;
                while t < wlen
                    invariant
                        t <= wlen,
                        i < glen,
                        glen == guess@.len(),
                        glen == word@.len(),
                        wlen == glen,
                        c == guess@[i as int],
                        guess@[i as int] != word@[i as int],
                        status == MISS || status == BLOW,
                        status == BLOW ==> exists|u: int|
                            0 <= u < word@.len() && #[trigger] blow_source(
                                guess@,
                                word@,
                                i as int,
                                u,
                            ),
                        status == MISS ==> forall|u: int|
                            0 <= u < t ==> !(#[trigger] blow_source(guess@, word@, i as int, u)),
                    decreases wlen - t,
                {
                    if t != i && word.as_str().get_char(t) == c && status == MISS {
                        if guess.as_str().get_char(t) != word.as_str().get_char(t) {
                            assert(blow_source(guess@, word@, i as int, t as int));
                            status = BLOW;
                        }
                    }
                    t = t + 1;
                }
                result.push(status);
                assert(result@[i as int] == status_at(guess@, word@, i as int));
            }
            i = i + 1;
        }
        assert(result@ =~= score_spec(guess@, word@));
    }
    result
}

} // verus!
