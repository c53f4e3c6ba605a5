//! The general laws of the solver, proved once and for all inputs.

use vstd::prelude::*;
use crate::words::{Word, wf_words, valid_word_seq};
use crate::state::{
    WordleStatus, possible_of, derived_admits, derived_must, derived_allows,
    lemma_possible_contains, lemma_state_canonical,
};
use crate::search::derived_possible_of;

verus! {

/// A derived constraint always admits the true answer that produced it:
/// whenever the current knowledge admits `a`, the knowledge derived from
/// feedback for any guess `g` against `a` still admits `a`.
pub proof fn lemma_derived_admits_answer(s: WordleStatus, g: Word, a: Word)
    requires
        g.wf(),
        a.wf(),
        s.admits(a@),
    ensures
        derived_admits(s, g@, a@, a@),
{
    assert forall|c: char| #[trigger] derived_must(s, g@, a@, c) implies a@.contains(c) by {
        if s.must(c) {
            assert(a@.contains(c));
        }
    }
    assert forall|i: int| 0 <= i < 5 implies derived_allows(s, g@, a@, i, a@[i]) by {
        if g@[i] == a@[i] {
            assert(s.allows(i, a@[i]));
        } else {
            assert(a@.contains(a@[i]));
        }
    }
}

/// Layering feedback only strengthens the knowledge: whenever the current
/// knowledge admits the answer the feedback came from, every word the
/// derived knowledge admits was admitted before.
pub proof fn lemma_derive_refines(s: WordleStatus, g: Word, a: Word, w: Word)
    requires
        g.wf(),
        a.wf(),
        s.admits(a@),
    ensures
        derived_admits(s, g@, a@, w@) ==> s.admits(w@),
{
    if derived_admits(s, g@, a@, w@) {
        assert forall|c: char| #[trigger] s.must(c) implies w@.contains(c) by {
            assert(derived_must(s, g@, a@, c));
        }
        assert forall|i: int| 0 <= i < 5 implies s.allows(i, w@[i]) by {
            assert(derived_allows(s, g@, a@, i, w@[i]));
            if g@[i] == a@[i] {
                assert(w@[i] == a@[i]);
            }
        }
    }
}

/// Every candidate appearing in a filtered list comes from the list it was
/// filtered from and is admitted by the derived knowledge.
proof fn lemma_derived_possible_membership(
    s: WordleStatus,
    guess: Seq<char>,
    answer: Seq<char>,
    ws: Seq<Word>,
)
    ensures
        forall|k: int|
            0 <= k < derived_possible_of(s, guess, answer, ws).len() ==> ws.contains(
                #[trigger] derived_possible_of(s, guess, answer, ws)[k],
            ) && derived_admits(s, guess, answer, derived_possible_of(s, guess, answer, ws)[k]@),
    decreases ws.len(),
{
    reveal(Seq::filter);
    if ws.len() > 0 {
        let prefix = ws.drop_last();
        lemma_derived_possible_membership(s, guess, answer, prefix);
        let sub = derived_possible_of(s, guess, answer, prefix);
        let out = derived_possible_of(s, guess, answer, ws);
        assert forall|k: int| 0 <= k < out.len() implies ws.contains(#[trigger] out[k])
            && derived_admits(s, guess, answer, out[k]@) by {
            if k < sub.len() {
                assert(prefix.contains(sub[k]));
                let j = choose|j: int| 0 <= j < prefix.len() && prefix[j] == sub[k];
                assert(ws[j] == out[k]);
            } else {
                assert(out[k] == ws.last());
                assert(ws[ws.len() - 1] == ws.last());
            }
        }
    }
}

/// The candidate set only shrinks: for any list, every word left after
/// layering feedback for a guess against an admitted answer was also left
/// before the feedback.
pub proof fn lemma_derive_shrinks_candidates(
    s: WordleStatus,
    g: Word,
    a: Word,
    l: Seq<Word>,
)
    requires
        g.wf(),
        a.wf(),
        s.admits(a@),
    ensures
        forall|x: Word|
            derived_possible_of(s, g@, a@, l).contains(x) ==> #[trigger] possible_of(
                s,
                l,
            ).contains(x),
{
    lemma_derived_possible_membership(s, g@, a@, l);
    assert forall|x: Word| derived_possible_of(s, g@, a@, l).contains(x) implies #[trigger]
        possible_of(s, l).contains(x) by {
        let k = choose|k: int|
            0 <= k < derived_possible_of(s, g@, a@, l).len() && derived_possible_of(
                s,
                g@,
                a@,
                l,
            )[k] == x;
        lemma_derive_refines(s, g, a, x);
        lemma_possible_contains(s, l, x);
    }
}

/// Knowledge built from feedback keeps no candidate that fresh knowledge
/// would drop: against a state that admits every valid word — as a freshly
/// created one does — any knowledge leaves a subset of the candidates.
pub proof fn lemma_feedback_within_fresh(s: WordleStatus, fresh: WordleStatus, l: Seq<Word>)
    requires
        wf_words(l),
        forall|w: Seq<char>| valid_word_seq(w) ==> fresh.admits(w),
    ensures
        forall|x: Word|
            possible_of(s, l).contains(x) ==> #[trigger] possible_of(fresh, l).contains(x),
{
    crate::state::lemma_possible_membership(s, l);
    assert forall|x: Word| possible_of(s, l).contains(x) implies #[trigger] possible_of(
        fresh,
        l,
    ).contains(x) by {
        let k = choose|k: int|
            0 <= k < possible_of(s, l).len() && possible_of(s, l)[k] == x;
        let j = choose|j: int| 0 <= j < l.len() && l[j] == x;
        assert(l[j].wf());
        lemma_possible_contains(fresh, l, x);
    }
}

/// A candidate list is filtered in place: the result is a subsequence of
/// the list, keeping its relative order, never duplicating an entry.
pub open spec fn subsequence_of(a: Seq<Word>, b: Seq<Word>) -> bool
    decreases b.len(),
{
    if a.len() == 0 {
        true
    } else if b.len() == 0 {
        false
    } else if a.last() == b.last() {
        subsequence_of(a.drop_last(), b.drop_last()) || subsequence_of(a, b.drop_last())
    } else {
        subsequence_of(a, b.drop_last())
    }
}

/// Filtering preserves relative order and never reorders or duplicates:
/// the filtered candidates form a subsequence of the original list.
pub proof fn lemma_filter_preserves_order(s: WordleStatus, l: Seq<Word>)
    ensures
        subsequence_of(possible_of(s, l), l),
    decreases l.len(),
{
    reveal(Seq::filter);
    if l.len() > 0 {
        let prefix = l.drop_last();
        lemma_filter_preserves_order(s, prefix);
        let sub = possible_of(s, prefix);
        let out = possible_of(s, l);
        if s.admits(l.last()@) {
            assert(out == sub.push(l.last()));
            assert(out.last() == l.last());
            assert(out.drop_last() =~= sub);
        } else {
            assert(out == sub);
            if out.len() > 0 {
                assert(subsequence_of(out, l));
            }
        }
    }
}

/// Deriving knowledge from a guess is deterministic: any two states that
/// carry the feedback of the same guess against the same answer, layered on
/// the same knowledge — as two calls of `guess_word` with identical
/// arguments do — are structurally equal.
pub proof fn lemma_derive_deterministic(
    s: WordleStatus,
    g: Word,
    a: Word,
    r1: WordleStatus,
    r2: WordleStatus,
)
    requires
        r1.wf(),
        r2.wf(),
        forall|i: int, c: char|
            0 <= i < 5 ==> (r1.allows(i, c) <==> derived_allows(s, g@, a@, i, c)),
        forall|c: char| r1.must(c) <==> derived_must(s, g@, a@, c),
        forall|i: int, c: char|
            0 <= i < 5 ==> (r2.allows(i, c) <==> derived_allows(s, g@, a@, i, c)),
        forall|c: char| r2.must(c) <==> derived_must(s, g@, a@, c),
    ensures
        r1 == r2,
{
    lemma_state_canonical(r1, r2);
}

} // verus!
