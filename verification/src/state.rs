//! The accumulated knowledge about the hidden answer: per-position letter
//! constraints and the set of letters the answer must contain.

use vstd::prelude::*;
use crate::letters::{
    is_lower, lidx, letter_at_index, mask_has, mask_wf, ALL_LETTERS_MASK,
    lemma_letter_index_roundtrip, lemma_index_letter_roundtrip, lemma_full_mask,
    lemma_empty_mask, lemma_single_mask, lemma_clear_mask, lemma_set_mask,
    lemma_mask_extensional, letter_index, index_letter, is_lowercase_letter, mask_contains,
};
use crate::words::{Word, valid_word_seq, wf_words};

verus! {

/// The set of letters still possible at one position of the answer,
/// carried as a 26-bit mask.
#[derive(Clone, Copy, Debug)]
#[verifier::ext_equal]
pub struct WordlePosition {
    mask: u32,
}

impl WordlePosition {
    /// Only the 26 letter bits can be set.
    pub closed spec fn wf(self) -> bool {
        mask_wf(self.mask)
    }

    /// Whether the letter `c` is still possible at this position.
    pub closed spec fn admits_letter(self, c: char) -> bool {
        is_lower(c) && mask_has(self.mask, lidx(c))
    }

    /// A fresh position constraint: all 26 letters are possible.
    pub fn new() -> (r: WordlePosition)
        ensures
            r.wf(),
            forall|c: char| r.admits_letter(c) <==> is_lower(c),
    {
        proof {
            lemma_full_mask();
            assert forall|c: char| is_lower(c) implies mask_has(ALL_LETTERS_MASK, lidx(c)) by {
                lemma_letter_index_roundtrip(c);
            }
        }
        WordlePosition { mask: ALL_LETTERS_MASK }
    }

    /// Restricts the position to the single letter `c` (green feedback).
    pub fn restrict_to_single(&self, c: char) -> (r: WordlePosition)
        requires
            is_lower(c),
        ensures
            r.wf(),
            forall|d: char| r.admits_letter(d) <==> d == c,
    {
        let i = letter_index(c);
        proof {
            lemma_single_mask(i);
            assert forall|d: char| (is_lower(d) && mask_has(1u32 << i, lidx(d))) <==> d == c by {
                lemma_letter_index_roundtrip(c);
                if is_lower(d) {
                    lemma_letter_index_roundtrip(d);
                }
            }
        }
        WordlePosition { mask: 1u32 << i }
    }

    /// Removes the letter `c` from the position (a no-op if absent).
    pub fn exclude(&self, c: char) -> (r: WordlePosition)
        requires
            self.wf(),
            is_lower(c),
        ensures
            r.wf(),
            forall|d: char| r.admits_letter(d) <==> self.admits_letter(d) && d != c,
    {
        let i = letter_index(c);
        proof {
            lemma_clear_mask(self.mask, i);
            assert forall|d: char|
                (is_lower(d) && mask_has(self.mask & !(1u32 << i), lidx(d)))
                    <==> (self.admits_letter(d) && d != c) by {
                lemma_letter_index_roundtrip(c);
                if is_lower(d) {
                    lemma_letter_index_roundtrip(d);
                    assert(mask_has(self.mask & !(1u32 << i), lidx(d)) <==> (mask_has(
                        self.mask,
                        lidx(d),
                    ) && lidx(d) != i));
                    if lidx(d) == lidx(c) {
                        assert(d == c);
                    }
                }
            }
        }
        WordlePosition { mask: self.mask & !(1u32 << i) }
    }

    /// Whether the letter `c` is still possible at this position.
    pub fn contains(&self, c: char) -> (r: bool)
        ensures
            r == self.admits_letter(c),
    {
        if !is_lowercase_letter(c) {
            return false;
        }
        mask_contains(self.mask, letter_index(c))
    }
}

/// The accumulated knowledge about the hidden answer: one letter constraint
/// per position, plus the letters the answer must contain somewhere.
#[derive(Clone, Copy, Debug)]
#[verifier::ext_equal]
pub struct WordleStatus {
    info: [WordlePosition; 5],
    must_contain: u32,
}

impl WordleStatus {
    /// All five positions and the must-contain set are well formed.
    pub closed spec fn wf(self) -> bool {
        &&& forall|i: int| 0 <= i < 5 ==> (#[trigger] self.info@[i]).wf()
        &&& mask_wf(self.must_contain)
    }

    /// The constraint at position `i`.
    pub closed spec fn position(self, i: int) -> WordlePosition {
        self.info@[i]
    }

    /// Whether the letter `c` is still possible at position `i`.
    pub open spec fn allows(self, i: int, c: char) -> bool {
        self.position(i).admits_letter(c)
    }

    /// Whether the letter `c` is known to appear somewhere in the answer.
    pub closed spec fn must(self, c: char) -> bool {
        is_lower(c) && mask_has(self.must_contain, lidx(c))
    }

    /// Whether a word is consistent with this knowledge: it carries every
    /// must-contain letter, and each of its letters is still possible at
    /// its position.
    pub open spec fn admits(self, w: Seq<char>) -> bool {
        &&& forall|c: char| #[trigger] self.must(c) ==> w.contains(c)
        &&& forall|i: int| 0 <= i < 5 ==> self.allows(i, w[i])
    }

    /// Fresh knowledge: every letter possible everywhere, nothing required.
    pub fn new() -> (r: WordleStatus)
        ensures
            r.wf(),
            forall|i: int, c: char| 0 <= i < 5 ==> (r.allows(i, c) <==> is_lower(c)),
            forall|c: char| !r.must(c),
            forall|w: Seq<char>| valid_word_seq(w) ==> r.admits(w),
    {
        let p = WordlePosition::new();
        let r = WordleStatus { info: [p; 5], must_contain: 0 };
        proof {
            lemma_empty_mask();
            assert(forall|i: int| 0 <= i < 5 ==> r.info@[i] == p);
            assert forall|w: Seq<char>| valid_word_seq(w) implies r.admits(w) by {
                assert(forall|i: int| 0 <= i < 5 ==> r.allows(i, w[i]));
            }
        }
        r
    }
}

/// The words of `ws` that are consistent with the knowledge `s`, in their
/// original order.
pub open spec fn possible_of(s: WordleStatus, ws: Seq<Word>) -> Seq<Word> {
    ws.filter(|w: Word| s.admits(w@))
}

/// What feedback allows at position `i`: the letter must not be ruled out by
/// a green letter at that position, must not be yellow at that position, and
/// must not be grey anywhere.
pub open spec fn feedback_allows(
    greens: Seq<Option<char>>,
    yellows: [Vec<char>; 5],
    greys: Seq<char>,
    i: int,
    c: char,
) -> bool {
    &&& is_lower(c)
    &&& (greens[i] matches Some(l) ==> c == l)
    &&& !yellows@[i]@.contains(c)
    &&& !greys.contains(c)
}

/// What feedback requires: every yellow letter appears somewhere in the
/// answer.
pub open spec fn feedback_must(yellows: [Vec<char>; 5], c: char) -> bool {
    exists|i: int| 0 <= i < 5 && (#[trigger] yellows@[i])@.contains(c)
}

proof fn lemma_take_contains_step(s: Seq<char>, k: int, c: char)
    requires
        0 <= k < s.len(),
    ensures
        s.take(k + 1).contains(c) <==> (s.take(k).contains(c) || s[k] == c),
{
    if s.take(k + 1).contains(c) {
        let i = choose|i: int| 0 <= i < k + 1 && #[trigger] s.take(k + 1)[i] == c;
        if i < k {
            assert(s.take(k)[i] == c);
        } else {
            assert(s[k] == c);
        }
    }
    if s.take(k).contains(c) {
        let i = choose|i: int| 0 <= i < k && #[trigger] s.take(k)[i] == c;
        assert(s.take(k + 1)[i] == c);
    }
    if s[k] == c {
        assert(s.take(k + 1)[k] == c);
    }
}

/// Removes every listed letter from a position constraint.
fn exclude_all(p: WordlePosition, letters: &Vec<char>) -> (r: WordlePosition)
    requires
        p.wf(),
        forall|k: int| 0 <= k < letters@.len() ==> is_lower(#[trigger] letters@[k]),
    ensures
        r.wf(),
        forall|c: char| r.admits_letter(c) <==> p.admits_letter(c) && !letters@.contains(c),
{
    let mut cur = p;
    let mut k: usize = 0;
    while k < letters.len()
        invariant
            k <= letters@.len(),
            p.wf(),
            cur.wf(),
            forall|j: int| 0 <= j < letters@.len() ==> is_lower(#[trigger] letters@[j]),
            forall|c: char|
                cur.admits_letter(c) <==> p.admits_letter(c) && !letters@.take(k as int).contains(c),
        decreases letters@.len() - k,
    {
        let l = letters[k];
        let next = cur.exclude(l);
        proof {
            assert forall|c: char|
                next.admits_letter(c)
                    <==> p.admits_letter(c) && !letters@.take(k + 1int).contains(c) by {
                lemma_take_contains_step(letters@, k as int, c);
            }
        }
        cur = next;
        k += 1;
    }
    proof {
        assert(letters@.take(letters@.len() as int) =~= letters@);
    }
    cur
}

/// Adds every listed letter to a must-contain mask.
fn insert_letters(m: u32, letters: &Vec<char>) -> (r: u32)
    requires
        mask_wf(m),
        forall|k: int| 0 <= k < letters@.len() ==> is_lower(#[trigger] letters@[k]),
    ensures
        mask_wf(r),
        forall|c: char|
            is_lower(c) ==> (mask_has(r, lidx(c)) <==> mask_has(m, lidx(c)) || letters@.contains(c)),
{
    let mut cur = m;
    let mut k: usize = 0;
    while k < letters.len()
        invariant
            k <= letters@.len(),
            mask_wf(m),
            mask_wf(cur),
            forall|j: int| 0 <= j < letters@.len() ==> is_lower(#[trigger] letters@[j]),
            forall|c: char|
                is_lower(c) ==> (mask_has(cur, lidx(c)) <==> mask_has(m, lidx(c))
                    || letters@.take(k as int).contains(c)),
        decreases letters@.len() - k,
    {
        let l = letters[k];
        let i = letter_index(l);
        let next = cur | (1u32 << i);
        proof {
            lemma_set_mask(cur, i);
            assert forall|c: char| is_lower(c) implies (mask_has(next, lidx(c)) <==> mask_has(
                m,
                lidx(c),
            ) || letters@.take(k + 1int).contains(c)) by {
                lemma_take_contains_step(letters@, k as int, c);
                lemma_letter_index_roundtrip(l);
                lemma_letter_index_roundtrip(c);
            }
        }
        cur = next;
        k += 1;
    }
    proof {
        assert(letters@.take(letters@.len() as int) =~= letters@);
    }
    cur
}

/// Builds the constraint for one position from its feedback.
fn feedback_position(green: Option<char>, yellow: &Vec<char>, greys: &Vec<char>) -> (p:
    WordlePosition)
    requires
        green matches Some(l) ==> is_lower(l),
        forall|k: int| 0 <= k < yellow@.len() ==> is_lower(#[trigger] yellow@[k]),
        forall|k: int| 0 <= k < greys@.len() ==> is_lower(#[trigger] greys@[k]),
    ensures
        p.wf(),
        forall|c: char|
            p.admits_letter(c) <==> (is_lower(c) && (green matches Some(l) ==> c == l)
                && !yellow@.contains(c) && !greys@.contains(c)),
{
    let base = match green {
        Some(l) => WordlePosition::new().restrict_to_single(l),
        None => WordlePosition::new(),
    };
    let after_yellow = exclude_all(base, yellow);
    exclude_all(after_yellow, greys)
}

/// What position `i` allows after true feedback for `guess` against
/// `answer` is layered on `s`: a green position keeps only the revealed
/// letter; otherwise the guessed letter is ruled out at its own position and
/// every grey guess letter is ruled out everywhere.
pub open spec fn derived_allows(
    s: WordleStatus,
    guess: Seq<char>,
    answer: Seq<char>,
    i: int,
    c: char,
) -> bool {
    if guess[i] == answer[i] {
        is_lower(c) && c == guess[i]
    } else {
        s.allows(i, c) && !(guess.contains(c) && !answer.contains(c)) && c != guess[i]
    }
}

/// What must appear somewhere after that feedback: everything known before,
/// plus every yellow guess letter.
pub open spec fn derived_must(
    s: WordleStatus,
    guess: Seq<char>,
    answer: Seq<char>,
    c: char,
) -> bool {
    s.must(c) || (exists|i: int|
        0 <= i < 5 && #[trigger] guess[i] == c && answer.contains(c) && guess[i] != answer[i])
}

/// Whether a word is consistent with the knowledge derived from that
/// feedback.
pub open spec fn derived_admits(
    s: WordleStatus,
    guess: Seq<char>,
    answer: Seq<char>,
    w: Seq<char>,
) -> bool {
    &&& forall|c: char| #[trigger] derived_must(s, guess, answer, c) ==> w.contains(c)
    &&& forall|i: int| 0 <= i < 5 ==> derived_allows(s, guess, answer, i, w[i])
}

impl WordleStatus {
    /// The constraint at position `i`, as a value.
    pub fn position_at(&self, i: usize) -> (p: WordlePosition)
        requires
            i < 5,
        ensures
            p == self.position(i as int),
    {
        self.info[i]
    }

    /// The constraint a non-green position `i` is left with after feedback
    /// for `guess` against `answer`.
    fn derived_position(&self, guess: &Word, answer: &Word, i: usize) -> (p: WordlePosition)
        requires
            self.wf(),
            guess.wf(),
            answer.wf(),
            i < 5,
        ensures
            p.wf(),
            forall|c: char| p.admits_letter(c) <==> derived_allows(*self, guess@, answer@, i as int, c),
    {
        let gi = guess.letter_at(i);
        let ai = answer.letter_at(i);
        if gi == ai {
            return WordlePosition::new().restrict_to_single(gi);
        }
        let mut p = self.position_at(i);
        p = p.exclude(gi);
        let mut j: usize = 0;
        while j < 5
        invariant
            self.wf(),
            guess.wf(),
            answer.wf(),
            i < 5,
            j <= 5,
            gi == guess@[i as int],
            gi != answer@[i as int],
            p.wf(),
            forall|c: char|
                p.admits_letter(c) <==> (self.allows(i as int, c) && c != gi && !(exists|t: int|
                    0 <= t < j && #[trigger] guess@[t] == c && !answer@.contains(c))),
            decreases 5 - j,
        {
            let gj = guess.letter_at(j);
            if !answer.contains_letter(gj) {
                let next = p.exclude(gj);
                proof {
                    assert forall|c: char|
                        next.admits_letter(c) <==> (self.allows(i as int, c) && c != gi && !(
                        exists|t: int|
                            0 <= t < j + 1 && #[trigger] guess@[t] == c && !answer@.contains(
                                c,
                            ))) by {
                        if next.admits_letter(c) {
                            assert(forall|t: int|
                                0 <= t < j + 1 ==> !(#[trigger] guess@[t] == c
                                    && !answer@.contains(c)));
                        } else {
                            if p.admits_letter(c) {
                                assert(guess@[j as int] == c && !answer@.contains(c));
                            }
                        }
                    }
                }
                p = next;
            } else {
                proof {
                    assert forall|c: char|
                        p.admits_letter(c) <==> (self.allows(i as int, c) && c != gi && !(
                        exists|t: int|
                            0 <= t < j + 1 && #[trigger] guess@[t] == c && !answer@.contains(
                                c,
                            ))) by {
                        if self.allows(i as int, c) && c != gi && !(exists|t: int|
                            0 <= t < j + 1 && #[trigger] guess@[t] == c && !answer@.contains(c)) {
                            assert(!(exists|t: int|
                                0 <= t < j && #[trigger] guess@[t] == c && !answer@.contains(c)));
                        }
                    }
                }
            }
            j += 1;
        }
        proof {
            assert forall|c: char|
                p.admits_letter(c) <==> derived_allows(*self, guess@, answer@, i as int, c) by {
                if guess@.contains(c) && !answer@.contains(c) {
                    let t = choose|t: int| 0 <= t < 5 && guess@[t] == c;
                    assert(guess@[t] == c && !answer@.contains(c));
                }
            }
        }
        p
    }

    /// The must-contain set after feedback for `guess` against `answer`:
    /// every yellow guess letter is added.
    fn derived_must_mask(&self, guess: &Word, answer: &Word) -> (m: u32)
        requires
            self.wf(),
            guess.wf(),
            answer.wf(),
        ensures
            mask_wf(m),
            forall|c: char|
                (is_lower(c) && mask_has(m, lidx(c))) <==> derived_must(*self, guess@, answer@, c),
    {
        let mut m = self.must_contain;
        let mut i: usize = 0;
        while i < 5
            invariant
                self.wf(),
                guess.wf(),
                answer.wf(),
                i <= 5,
                mask_wf(m),
                forall|c: char|
                    (is_lower(c) && mask_has(m, lidx(c))) <==> (self.must(c) || (exists|t: int|
                        0 <= t < i && #[trigger] guess@[t] == c && answer@.contains(c)
                            && guess@[t] != answer@[t])),
            decreases 5 - i,
        {
            let gi = guess.letter_at(i);
            let ai = answer.letter_at(i);
            if gi != ai && answer.contains_letter(gi) {
                let b = letter_index(gi);
                let next = m | (1u32 << b);
                proof {
                    lemma_set_mask(m, b);
                    assert forall|c: char|
                        (is_lower(c) && mask_has(next, lidx(c))) <==> (self.must(c) || (exists|t: int|
                            0 <= t < i + 1 && #[trigger] guess@[t] == c && answer@.contains(c)
                                && guess@[t] != answer@[t])) by {
                        lemma_letter_index_roundtrip(gi);
                        if is_lower(c) {
                            lemma_letter_index_roundtrip(c);
                            if lidx(c) == b {
                                assert(c == gi);
                                assert(guess@[i as int] == c && answer@.contains(c)
                                    && guess@[i as int] != answer@[i as int]);
                            }
                        }
                    }
                }
                m = next;
            } else {
                proof {
                    assert forall|c: char|
                        (is_lower(c) && mask_has(m, lidx(c))) <==> (self.must(c) || (exists|t: int|
                            0 <= t < i + 1 && #[trigger] guess@[t] == c && answer@.contains(c)
                                && guess@[t] != answer@[t])) by {
                        if !(is_lower(c) && mask_has(m, lidx(c))) {
                            if exists|t: int|
                                0 <= t < i + 1 && #[trigger] guess@[t] == c && answer@.contains(c)
                                    && guess@[t] != answer@[t] {
                                let t = choose|t: int|
                                    0 <= t < i + 1 && #[trigger] guess@[t] == c
                                        && answer@.contains(c) && guess@[t] != answer@[t];
                                assert(t < i);
                            }
                        }
                    }
                }
            }
            i += 1;
        }
        m
    }

    /// The knowledge after revealing true feedback for `guess` against
    /// `answer`, layered on top of this one.
    pub fn guess_word(&self, guess: &Word, answer: &Word) -> (r: WordleStatus)
        requires
            self.wf(),
            guess.wf(),
            answer.wf(),
        ensures
            r.wf(),
            forall|i: int, c: char|
                0 <= i < 5 ==> (r.allows(i, c) <==> derived_allows(*self, guess@, answer@, i, c)),
            forall|c: char| r.must(c) <==> derived_must(*self, guess@, answer@, c),
    {
        let p0 = self.derived_position(guess, answer, 0);
        let p1 = self.derived_position(guess, answer, 1);
        let p2 = self.derived_position(guess, answer, 2);
        let p3 = self.derived_position(guess, answer, 3);
        let p4 = self.derived_position(guess, answer, 4);
        let must = self.derived_must_mask(guess, answer);
        let r = WordleStatus { info: [p0, p1, p2, p3, p4], must_contain: must };
        proof {
            assert(r.info@[0] == p0 && r.info@[1] == p1 && r.info@[2] == p2 && r.info@[3] == p3
                && r.info@[4] == p4);
        }
        r
    }

    /// Builds the knowledge from externally supplied feedback: greens first
    /// (one exact letter per position), then yellows (excluded at their own
    /// position, required somewhere), then greys (excluded everywhere).
    pub fn with_data(greens: [Option<char>; 5], yellows: [Vec<char>; 5], greys: Vec<char>) -> (r:
        WordleStatus)
        requires
            forall|i: int| 0 <= i < 5 ==> ((#[trigger] greens@[i]) matches Some(l) ==> is_lower(l)),
            forall|i: int, k: int|
                0 <= i < 5 && 0 <= k < yellows@[i]@.len() ==> is_lower(#[trigger] yellows@[i]@[k]),
            forall|k: int| 0 <= k < greys@.len() ==> is_lower(#[trigger] greys@[k]),
        ensures
            r.wf(),
            forall|i: int, c: char|
                0 <= i < 5 ==> (r.allows(i, c) <==> feedback_allows(greens@, yellows, greys@, i, c)),
            forall|c: char| r.must(c) <==> feedback_must(yellows, c),
    {
        let p0 = feedback_position(greens[0], &yellows[0], &greys);
        let p1 = feedback_position(greens[1], &yellows[1], &greys);
        let p2 = feedback_position(greens[2], &yellows[2], &greys);
        let p3 = feedback_position(greens[3], &yellows[3], &greys);
        let p4 = feedback_position(greens[4], &yellows[4], &greys);
        let mut must: u32 = 0;
        proof {
            lemma_empty_mask();
        }
        must = insert_letters(must, &yellows[0]);
        must = insert_letters(must, &yellows[1]);
        must = insert_letters(must, &yellows[2]);
        must = insert_letters(must, &yellows[3]);
        must = insert_letters(must, &yellows[4]);
        let r = WordleStatus { info: [p0, p1, p2, p3, p4], must_contain: must };
        proof {
            assert(r.info@[0] == p0 && r.info@[1] == p1 && r.info@[2] == p2 && r.info@[3] == p3
                && r.info@[4] == p4);
            assert forall|c: char| r.must(c) <==> feedback_must(yellows, c) by {
                if feedback_must(yellows, c) {
                    let i = choose|i: int| 0 <= i < 5 && (#[trigger] yellows@[i])@.contains(c);
                    let k = choose|k: int| 0 <= k < yellows@[i]@.len() && yellows@[i]@[k] == c;
                    assert(is_lower(c));
                }
            }
        }
        r
    }
}

proof fn lemma_filter_snoc(s: Seq<Word>, x: Word, pred: spec_fn(Word) -> bool)
    ensures
        s.push(x).filter(pred) == if pred(x) {
            s.filter(pred).push(x)
        } else {
            s.filter(pred)
        },
{
    reveal(Seq::filter);
    assert(s.push(x).drop_last() =~= s);
    assert(s.push(x).last() == x);
}

impl WordleStatus {
    /// Whether the word is consistent with this knowledge.
    pub fn word_matches(&self, word: &Word) -> (r: bool)
        requires
            self.wf(),
            word.wf(),
        ensures
            r == self.admits(word@),
    {
        let mut j: u32 = 0;
        while j < 26
            invariant
                self.wf(),
                word.wf(),
                j <= 26,
                forall|t: u32|
                    t < j && mask_has(self.must_contain, t) ==> word@.contains(
                        #[trigger] letter_at_index(t),
                    ),
            decreases 26 - j,
        {
            if mask_contains(self.must_contain, j) {
                let c = index_letter(j);
                if !word.contains_letter(c) {
                    proof {
                        assert(self.must(c));
                    }
                    return false;
                }
            }
            j += 1;
        }
        proof {
            assert forall|c: char| #[trigger] self.must(c) implies word@.contains(c) by {
                lemma_letter_index_roundtrip(c);
                assert(mask_has(self.must_contain, lidx(c)));
                assert(word@.contains(letter_at_index(lidx(c))));
            }
        }
        let mut i: usize = 0;
        while i < 5
            invariant
                self.wf(),
                word.wf(),
                i <= 5,
                forall|c: char| #[trigger] self.must(c) ==> word@.contains(c),
                forall|t: int| 0 <= t < i ==> self.allows(t, word@[t]),
            decreases 5 - i,
        {
            let c = word.letter_at(i);
            if !self.position_at(i).contains(c) {
                proof {
                    assert(!self.allows(i as int, word@[i as int]));
                }
                return false;
            }
            i += 1;
        }
        true
    }

    /// The candidates consistent with this knowledge, in their original
    /// order.
    pub fn get_possible_answers(&self, allowed_answers: &Vec<Word>) -> (r: Vec<Word>)
        requires
            self.wf(),
            wf_words(allowed_answers@),
        ensures
            r@ == possible_of(*self, allowed_answers@),
    {
        let ghost pred = |w: Word| self.admits(w@);
        let mut r: Vec<Word> = Vec::new();
        let mut i: usize = 0;
        proof {
            reveal(Seq::filter);
            assert(allowed_answers@.take(0).filter(pred) =~= Seq::<Word>::empty());
        }
        while i < allowed_answers.len()
            invariant
                self.wf(),
                wf_words(allowed_answers@),
                i <= allowed_answers@.len(),
                r@ == allowed_answers@.take(i as int).filter(pred),
                pred == (|w: Word| self.admits(w@)),
            decreases allowed_answers@.len() - i,
        {
            let w = allowed_answers[i];
            proof {
                assert(allowed_answers@.take(i + 1int) =~= allowed_answers@.take(i as int).push(
                    allowed_answers@[i as int],
                ));
                lemma_filter_snoc(allowed_answers@.take(i as int), allowed_answers@[i as int], pred);
            }
            if self.word_matches(&w) {
                r.push(w);
            }
            i += 1;
        }
        proof {
            assert(allowed_answers@.take(allowed_answers@.len() as int) =~= allowed_answers@);
        }
        r
    }

    /// Whether two states carry exactly the same knowledge. States are kept
    /// in a canonical form, so equal knowledge means equal values.
    pub fn equals(&self, other: &WordleStatus) -> (r: bool)
        ensures
            r == (*self == *other),
    {
        let r = self.info[0].mask == other.info[0].mask && self.info[1].mask == other.info[1].mask
            && self.info[2].mask == other.info[2].mask && self.info[3].mask == other.info[3].mask
            && self.info[4].mask == other.info[4].mask && self.must_contain == other.must_contain;
        proof {
            if r {
                assert forall|i: int| 0 <= i < 5 implies self.info@[i] == other.info@[i] by {
                    assert(self.info@[i] =~= other.info@[i]);
                }
                assert(self.info@ =~= other.info@);
                assert(self.info =~= other.info);
                assert(*self =~= *other);
            }
        }
        r
    }
}

/// Every filtered candidate comes from the original list and is admitted.
pub proof fn lemma_possible_membership(s: WordleStatus, ws: Seq<Word>)
    ensures
        possible_of(s, ws).len() <= ws.len(),
        forall|k: int|
            0 <= k < possible_of(s, ws).len() ==> ws.contains(#[trigger] possible_of(s, ws)[k])
                && s.admits(possible_of(s, ws)[k]@),
    decreases ws.len(),
{
    reveal(Seq::filter);
    if ws.len() > 0 {
        let prefix = ws.drop_last();
        lemma_possible_membership(s, prefix);
        let sub = possible_of(s, prefix);
        let out = possible_of(s, ws);
        assert forall|k: int| 0 <= k < out.len() implies ws.contains(#[trigger] out[k])
            && s.admits(out[k]@) by {
            if k < sub.len() {
                assert(prefix.contains(sub[k]));
                let j = choose|j: int| 0 <= j < prefix.len() && prefix[j] == sub[k];
                assert(ws[j] == out[k]);
            } else {
                assert(out[k] == ws.last());
                assert(ws[ws.len() - 1] == ws.last());
            }
        }
    }
}

/// A listed candidate that the knowledge admits appears in the filtered
/// list.
pub proof fn lemma_possible_contains(s: WordleStatus, ws: Seq<Word>, x: Word)
    requires
        ws.contains(x),
        s.admits(x@),
    ensures
        possible_of(s, ws).contains(x),
    decreases ws.len(),
{
    reveal(Seq::filter);
    if s.admits(ws.last()@) && ws.last() == x {
        assert(possible_of(s, ws).last() == x);
    } else {
        assert(ws.last() != x);
        let j = choose|j: int| 0 <= j < ws.len() && ws[j] == x;
        assert(ws.drop_last()[j] == x);
        lemma_possible_contains(s, ws.drop_last(), x);
        let sub = possible_of(s, ws.drop_last());
        let i = choose|i: int| 0 <= i < sub.len() && sub[i] == x;
        assert(possible_of(s, ws)[i] == x);
    }
}

/// Equal per-position knowledge and equal must-contain knowledge make equal
/// state values: the representation is canonical, so states derived from
/// identical feedback are structurally identical (what a result cache keyed
/// by state value relies on).
pub proof fn lemma_state_canonical(s1: WordleStatus, s2: WordleStatus)
    requires
        s1.wf(),
        s2.wf(),
        forall|i: int, c: char| 0 <= i < 5 ==> (s1.allows(i, c) <==> s2.allows(i, c)),
        forall|c: char| s1.must(c) <==> s2.must(c),
    ensures
        s1 == s2,
{
    assert forall|i: int| 0 <= i < 5 implies s1.info@[i] == s2.info@[i] by {
        assert forall|j: u32| j < 26 implies (mask_has(s1.info@[i].mask, j) <==> mask_has(
            s2.info@[i].mask,
            j,
        )) by {
            lemma_index_letter_roundtrip(j);
            let c = letter_at_index(j);
            assert(s1.allows(i, c) <==> s2.allows(i, c));
        }
        lemma_mask_extensional(s1.info@[i].mask, s2.info@[i].mask);
        assert(s1.info@[i] =~= s2.info@[i]);
    }
    assert forall|j: u32| j < 26 implies (mask_has(s1.must_contain, j) <==> mask_has(
        s2.must_contain,
        j,
    )) by {
        lemma_index_letter_roundtrip(j);
        let c = letter_at_index(j);
        assert(s1.must(c) <==> s2.must(c));
    }
    lemma_mask_extensional(s1.must_contain, s2.must_contain);
    assert(s1.info@ =~= s2.info@);
    assert(s1.info =~= s2.info);
    assert(s1 =~= s2);
}

} // verus!
