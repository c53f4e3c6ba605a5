//! Five-letter words and the errors the solver can report.

use vstd::prelude::*;
use vstd::string::StrSliceExecFns;
use crate::letters::is_lower;
use crate::letters::is_lowercase_letter;

verus! {

/// The ways the solver can fail: a word that is not exactly five lowercase
/// letters, or feedback so restrictive that no candidate answer is left.
#[derive(Clone, Copy, Debug, PartialEq, Eq, Structural)]
pub enum WordleError {
    InvalidWordFormat,
    NoCandidates,
}

/// Whether a character sequence spells a valid word: exactly five lowercase
/// letters.
pub open spec fn valid_word_seq(s: Seq<char>) -> bool {
    s.len() == 5 && forall|i: int| 0 <= i < 5 ==> is_lower(#[trigger] s[i])
}

/// Whether every word of a list is well formed.
pub open spec fn wf_words(ws: Seq<Word>) -> bool {
    forall|i: int| 0 <= i < ws.len() ==> (#[trigger] ws[i]).wf()
}

/// An immutable five-letter lowercase word, a candidate guess or answer.
#[derive(Clone, Copy, Debug)]
pub struct Word {
    chars: [char; 5],
}

impl View for Word {
    type V = Seq<char>;

    closed spec fn view(&self) -> Seq<char> {
        self.chars@
    }
}

impl Word {
    /// A word is well formed when it holds five lowercase letters.
    pub open spec fn wf(self) -> bool {
        valid_word_seq(self@)
    }

    /// Builds a word from text, rejecting anything that is not exactly five
    /// lowercase letters.
    pub fn new(text: &str) -> (r: Result<Word, WordleError>)
        ensures
            match r {
                Ok(w) => w.wf() && w@ == text@ && valid_word_seq(text@),
                Err(e) => e == WordleError::InvalidWordFormat && !valid_word_seq(text@),
            },
    {
        if text.unicode_len() != 5 {
            return Err(WordleError::InvalidWordFormat);
        }
        let c0 = text.get_char(0);
        let c1 = text.get_char(1);
        let c2 = text.get_char(2);
        let c3 = text.get_char(3);
        let c4 = text.get_char(4);
        if !(is_lowercase_letter(c0) && is_lowercase_letter(c1) && is_lowercase_letter(c2)
            && is_lowercase_letter(c3) && is_lowercase_letter(c4)) {
            return Err(WordleError::InvalidWordFormat);
        }
        let w = Word { chars: [c0, c1, c2, c3, c4] };
        proof {
            assert(w@ =~= text@);
        }
        Ok(w)
    }

    /// The letter at position `i`.
    pub fn letter_at(&self, i: usize) -> (c: char)
        requires
            i < 5,
        ensures
            c == self@[i as int],
    {
        self.chars[i]
    }

    /// Whether the letter `c` appears anywhere in the word.
    pub fn contains_letter(&self, c: char) -> (r: bool)
        ensures
            r == self@.contains(c),
    {
        let r = self.chars[0] == c || self.chars[1] == c || self.chars[2] == c
            || self.chars[3] == c || self.chars[4] == c;
        proof {
            if r {
                assert(self@.contains(c)) by {
                    if self.chars@[0] == c {
                        assert(self@[0] == c);
                    } else if self.chars@[1] == c {
                        assert(self@[1] == c);
                    } else if self.chars@[2] == c {
                        assert(self@[2] == c);
                    } else if self.chars@[3] == c {
                        assert(self@[3] == c);
                    } else {
                        assert(self@[4] == c);
                    }
                }
            } else {
                assert(forall|i: int| 0 <= i < 5 ==> self@[i] != c);
            }
        }
        r
    }

    /// The word's letters as text.
    pub fn to_string(&self) -> (r: String)
        ensures
            r@ == self@,
    {
        let mut s = String::new();
        push_char(&mut s, self.chars[0]);
        push_char(&mut s, self.chars[1]);
        push_char(&mut s, self.chars[2]);
        push_char(&mut s, self.chars[3]);
        push_char(&mut s, self.chars[4]);
        proof {
            assert(s@ =~= self@);
        }
        s
    }
}

/// Relies on `String::push`: it appends exactly the one given character to
/// the end of the string.
#[verifier::external_body]
fn push_char(s: &mut String, c: char)
    ensures
        final(s)@ == old(s)@.push(c),
{
    s.push(c);
}

/// Parses one word per line, failing on the first line that is not exactly
/// five lowercase letters.
pub fn parse_word_list(lines: &Vec<String>) -> (r: Result<Vec<Word>, WordleError>)
    ensures
        match r {
            Ok(ws) => {
                &&& ws@.len() == lines@.len()
                &&& forall|i: int|
                    0 <= i < lines@.len() ==> (#[trigger] ws@[i]).wf() && ws@[i]@ == lines@[i]@
            },
            Err(e) => {
                &&& e == WordleError::InvalidWordFormat
                &&& exists|i: int| 0 <= i < lines@.len() && !valid_word_seq(#[trigger] lines@[i]@)
            },
        },
{
    let mut ws: Vec<Word> = Vec::new();
    let mut i: usize = 0;
    while i < lines.len()
        invariant
            i <= lines@.len(),
            ws@.len() == i,
            forall|j: int| 0 <= j < i ==> (#[trigger] ws@[j]).wf() && ws@[j]@ == lines@[j]@,
        decreases lines@.len() - i,
    {
        match Word::new(lines[i].as_str()) {
            Ok(w) => {
                ws.push(w);
            },
            Err(e) => {
                return Err(e);
            },
        }
        i += 1;
    }
    Ok(ws)
}

} // verus!
