//! Guess selection: scores every allowed guess by the total number of
//! candidates that would remain across all still-possible answers, and picks
//! the guess with the lowest score, earliest first on ties.

use vstd::prelude::*;
use crate::words::{Word, WordleError, wf_words};
use crate::state::{
    WordleStatus, possible_of, derived_admits, lemma_possible_membership,
};
use crate::laws::lemma_derived_admits_answer;

verus! {

/// The candidates of `poss` that stay consistent once feedback for `guess`
/// against `answer` is layered on `s`.
pub open spec fn derived_possible_of(
    s: WordleStatus,
    guess: Seq<char>,
    answer: Seq<char>,
    poss: Seq<Word>,
) -> Seq<Word> {
    poss.filter(|w: Word| derived_admits(s, guess, answer, w@))
}

/// How many candidates of `poss` stay consistent after that feedback.
pub open spec fn remaining_after(
    s: WordleStatus,
    guess: Seq<char>,
    answer: Seq<char>,
    poss: Seq<Word>,
) -> int {
    derived_possible_of(s, guess, answer, poss).len() as int
}

/// The summed cost of a guess over the first `k` still-possible answers:
/// for each answer, the candidates that would remain less the answer
/// itself.
pub open spec fn cost_prefix(s: WordleStatus, guess: Seq<char>, poss: Seq<Word>, k: int) -> int
    decreases k,
{
    if k <= 0 {
        0
    } else {
        cost_prefix(s, guess, poss, k - 1) + (remaining_after(s, guess, poss[k - 1]@, poss) - 1)
    }
}

/// The total cost of a guess over all still-possible answers; lower is
/// better.
pub open spec fn guess_cost(s: WordleStatus, guess: Seq<char>, poss: Seq<Word>) -> int {
    cost_prefix(s, guess, poss, poss.len() as int)
}

/// Every cached entry records the exact count of candidates its state
/// leaves.
spec fn cache_ok(cache: Seq<(WordleStatus, usize)>, poss: Seq<Word>) -> bool {
    forall|t: int|
        0 <= t < cache.len() ==> (#[trigger] cache[t]).1 as int == possible_of(
            cache[t].0,
            poss,
        ).len()
}

/// A state that admits candidate for candidate what the derived knowledge
/// admits leaves the same candidates.
proof fn lemma_possible_agree(
    post: WordleStatus,
    s: WordleStatus,
    guess: Seq<char>,
    answer: Seq<char>,
    poss: Seq<Word>,
)
    requires
        forall|i: int, c: char|
            0 <= i < 5 ==> (post.allows(i, c) <==> crate::state::derived_allows(
                s,
                guess,
                answer,
                i,
                c,
            )),
        forall|c: char| post.must(c) <==> crate::state::derived_must(s, guess, answer, c),
    ensures
        possible_of(post, poss) == derived_possible_of(s, guess, answer, poss),
    decreases poss.len(),
{
    reveal(Seq::filter);
    if poss.len() > 0 {
        lemma_possible_agree(post, s, guess, answer, poss.drop_last());
        let w = poss.last()@;
        assert(post.admits(w) <==> derived_admits(s, guess, answer, w)) by {
            if post.admits(w) {
                assert forall|c: char|
                    #[trigger] crate::state::derived_must(s, guess, answer, c) implies w.contains(
                    c,
                ) by {
                    assert(post.must(c));
                }
                assert forall|i: int| 0 <= i < 5 implies crate::state::derived_allows(
                    s,
                    guess,
                    answer,
                    i,
                    w[i],
                ) by {
                    assert(post.allows(i, w[i]));
                }
            }
            if derived_admits(s, guess, answer, w) {
                assert forall|c: char| #[trigger] post.must(c) implies w.contains(c) by {
                    assert(crate::state::derived_must(s, guess, answer, c));
                }
                assert forall|i: int| 0 <= i < 5 implies post.allows(i, w[i]) by {
                    assert(crate::state::derived_allows(s, guess, answer, i, w[i]));
                }
            }
        }
    }
}

/// A candidate that stays consistent keeps the remaining count above zero.
proof fn lemma_remaining_at_least_one(
    s: WordleStatus,
    guess: Seq<char>,
    answer: Seq<char>,
    poss: Seq<Word>,
    x: Word,
)
    requires
        poss.contains(x),
        derived_admits(s, guess, answer, x@),
    ensures
        remaining_after(s, guess, answer, poss) >= 1,
    decreases poss.len(),
{
    reveal(Seq::filter);
    let pred_last = derived_admits(s, guess, answer, poss.last()@);
    if !pred_last {
        assert(poss.last() != x);
        let j = choose|j: int| 0 <= j < poss.len() && poss[j] == x;
        assert(poss.drop_last()[j] == x);
        lemma_remaining_at_least_one(s, guess, answer, poss.drop_last(), x);
    }
}

/// Looks up, or computes and remembers, how many candidates a derived state
/// leaves.
fn cached_remaining(
    cache: &mut Vec<(WordleStatus, usize)>,
    post: WordleStatus,
    possible: &Vec<Word>,
) -> (n: usize)
    requires
        post.wf(),
        wf_words(possible@),
        cache_ok(old(cache)@, possible@),
    ensures
        cache_ok(final(cache)@, possible@),
        n as int == possible_of(post, possible@).len(),
{
    let mut t: usize = 0;
    while t < cache.len()
        invariant
            t <= cache@.len(),
            cache_ok(cache@, possible@),
        decreases cache@.len() - t,
    {
        let hit = cache[t].0.equals(&post);
        if hit {
            return cache[t].1;
        }
        t += 1;
    }
    let found = post.get_possible_answers(possible);
    let n = found.len();
    cache.push((post, n));
    n
}

/// The outcome of a best-guess search: the chosen word, how many candidate
/// answers were still possible, and, when the scoring loop ran, the chosen
/// guess's position, its summed cost, and every guess's summed cost (divide
/// by the candidate count for the average the cost stands for).
#[derive(Debug)]
pub struct BestGuess {
    pub word: Word,
    pub num_possible: usize,
    pub scored: bool,
    pub best_index: usize,
    pub total_cost: u64,
    pub per_guess_costs: Vec<u64>,
}

impl WordleStatus {
    /// Picks the guess that leaves the fewest candidates behind on average.
    ///
    /// Fails with `NoCandidates` when no candidate answer is consistent with
    /// this knowledge. With fewer than three candidates left, returns the
    /// first of them unscored. Otherwise scores every allowed guess and
    /// returns the one with the lowest total cost, the earliest on ties.
    pub fn best_guess(&self, allowed_guesses: &Vec<Word>, allowed_answers: &Vec<Word>) -> (r:
        Result<BestGuess, WordleError>)
        requires
            self.wf(),
            wf_words(allowed_guesses@),
            wf_words(allowed_answers@),
            allowed_guesses@.len() >= 1,
            allowed_answers@.len() < 0x1_0000_0000,
        ensures
            match r {
                Err(e) => e == WordleError::NoCandidates && possible_of(
                    *self,
                    allowed_answers@,
                ).len() == 0,
                Ok(b) => {
                    let poss = possible_of(*self, allowed_answers@);
                    &&& poss.len() > 0
                    &&& b.num_possible == poss.len()
                    &&& b.word.wf()
                    &&& if poss.len() < 3 {
                        &&& !b.scored
                        &&& b.word == poss[0]
                        &&& b.per_guess_costs@.len() == 0
                        &&& b.best_index == 0
                        &&& b.total_cost == 0
                    } else {
                        &&& b.scored
                        &&& b.per_guess_costs@.len() == allowed_guesses@.len()
                        &&& forall|k: int|
                            0 <= k < allowed_guesses@.len()
                                ==> #[trigger] b.per_guess_costs@[k] as int == guess_cost(
                                *self,
                                allowed_guesses@[k]@,
                                poss,
                            )
                        &&& b.best_index < allowed_guesses@.len()
                        &&& b.word == allowed_guesses@[b.best_index as int]
                        &&& b.total_cost == b.per_guess_costs@[b.best_index as int]
                        &&& forall|k: int|
                            0 <= k < allowed_guesses@.len() ==> b.total_cost as int
                                <= #[trigger] b.per_guess_costs@[k] as int
                        &&& forall|k: int|
                            0 <= k < b.best_index ==> #[trigger] b.per_guess_costs@[k] as int
                                > b.total_cost as int
                    }
                },
            },
    {
        let possible = self.get_possible_answers(allowed_answers);
        proof {
            lemma_possible_membership(*self, allowed_answers@);
        }
        if possible.len() == 0 {
            return Err(WordleError::NoCandidates);
        }
        if possible.len() < 3 {
            let w = possible[0];
            proof {
                let j = choose|j: int|
                    0 <= j < allowed_answers@.len() && allowed_answers@[j] == possible@[0];
                assert(allowed_answers@[j].wf());
            }
            return Ok(
                BestGuess {
                    word: w,
                    num_possible: possible.len(),
                    scored: false,
                    best_index: 0,
                    total_cost: 0,
                    per_guess_costs: Vec::new(),
                },
            );
        }
        let ghost poss = possible@;
        let num = possible.len();
        let mut cache: Vec<(WordleStatus, usize)> = Vec::new();
        let mut per_guess: Vec<u64> = Vec::new();
        let mut best_k: usize = 0;
        let mut best_cost: u64 = 0;
        let mut k: usize = 0;
        proof {
            assert forall|j: int| 0 <= j < poss.len() implies (#[trigger] poss[j]).wf() by {
                let t = choose|t: int|
                    0 <= t < allowed_answers@.len() && allowed_answers@[t] == poss[j];
                assert(allowed_answers@[t].wf());
            }
        }
        while k < allowed_guesses.len()
            invariant
                self.wf(),
                wf_words(allowed_guesses@),
                wf_words(poss),
                poss == possible_of(*self, allowed_answers@),
                poss == possible@,
                num == poss.len(),
                3 <= num,
                num < 0x1_0000_0000,
                k <= allowed_guesses@.len(),
                allowed_guesses@.len() >= 1,
                per_guess@.len() == k,
                cache_ok(cache@, poss),
                forall|t: int|
                    0 <= t < k ==> #[trigger] per_guess@[t] as int == guess_cost(
                        *self,
                        allowed_guesses@[t]@,
                        poss,
                    ),
                k > 0 ==> best_k < k && best_cost == per_guess@[best_k as int],
                k > 0 ==> forall|t: int|
                    0 <= t < k ==> best_cost as int <= #[trigger] per_guess@[t] as int,
                k > 0 ==> forall|t: int|
                    0 <= t < best_k ==> #[trigger] per_guess@[t] as int > best_cost as int,
            decreases allowed_guesses@.len() - k,
        {
            let g = allowed_guesses[k];
            let mut total: u64 = 0;
            let mut ai: usize = 0;
            while ai < num
                invariant
                    self.wf(),
                    wf_words(allowed_guesses@),
                    wf_words(poss),
                    poss == possible_of(*self, allowed_answers@),
                    poss == possible@,
                    num == poss.len(),
                    3 <= num,
                    num < 0x1_0000_0000,
                    k < allowed_guesses@.len(),
                    g == allowed_guesses@[k as int],
                    g.wf(),
                    ai <= num,
                    cache_ok(cache@, poss),
                    total as int == cost_prefix(*self, g@, poss, ai as int),
                    total as int <= (ai as int) * (num as int),
                decreases num - ai,
            {
                let a = possible[ai];
                proof {
                    lemma_possible_membership(*self, allowed_answers@);
                    assert(self.admits(a@));
                    assert(a.wf());
                }
                let post = self.guess_word(&g, &a);
                let n = cached_remaining(&mut cache, post, &possible);
                proof {
                    lemma_possible_agree(post, *self, g@, a@, poss);
                    assert(n as int == remaining_after(*self, g@, a@, poss));
                    lemma_derived_admits_answer(*self, g, a);
                    assert(poss.contains(a)) by {
                        assert(poss[ai as int] == a);
                    }
                    lemma_remaining_at_least_one(*self, g@, a@, poss, a);
                    assert(possible_of(post, poss).len() <= poss.len()) by {
                        lemma_possible_membership(post, poss);
                    }
                    assert((total as int) + (n - 1) <= ((ai as int) + 1) * (num as int)) by {
                        assert((ai as int) * (num as int) + (num as int) == ((ai as int) + 1) * (
                        num as int)) by (nonlinear_arith);
                    }
                    assert(((ai as int) + 1) * (num as int) <= (num as int) * (num as int))
                        by (nonlinear_arith)
                        requires
                            (ai as int) + 1 <= (num as int),
                            (num as int) >= 0,
                    ;
                    assert((num as int) * (num as int) < 0x1_0000_0000_0000_0000)
                        by (nonlinear_arith)
                        requires
                            0 <= (num as int) && (num as int) < 0x1_0000_0000,
                    ;
                }
                total = total + (n - 1) as u64;
                ai += 1;
            }
            proof {
                assert(total as int == guess_cost(*self, g@, poss));
            }
            per_guess.push(total);
            if k == 0 || total < best_cost {
                best_cost = total;
                best_k = k;
            }
            k += 1;
        }
        Ok(
            BestGuess {
                word: allowed_guesses[best_k],
                num_possible: num,
                scored: true,
                best_index: best_k,
                total_cost: best_cost,
                per_guess_costs: per_guess,
            },
        )
    }
}

} // verus!
