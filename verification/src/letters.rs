//! Lowercase letters, their indices in the alphabet, and 26-bit letter masks.
//!
//! A set of letters is carried as the low 26 bits of a `u32`: bit `i` stands
//! for the letter with index `i` (`a` is 0, `z` is 25).

use vstd::prelude::*;

verus! {

/// All 26 letters: bits 0 through 25 set.
pub const ALL_LETTERS_MASK: u32 = 0x3FF_FFFF;

/// Whether `c` is one of the 26 lowercase letters `a` through `z`.
pub open spec fn is_lower(c: char) -> bool {
    97 <= c as u32 <= 122
}

/// The alphabet index of a lowercase letter: `a` is 0, `z` is 25.
pub open spec fn lidx(c: char) -> u32 {
    (c as u32 - 97) as u32
}

/// The lowercase letter with alphabet index `i`.
pub open spec fn letter_at_index(i: u32) -> char {
    ((97 + i) as u8) as char
}

/// Whether bit `i` of the mask `m` is set and `i` names a letter.
pub open spec fn mask_has(m: u32, i: u32) -> bool {
    i < 26 && (m >> i) & 1 == 1
}

/// A mask is well formed when only the 26 letter bits can be set.
pub open spec fn mask_wf(m: u32) -> bool {
    m < 0x400_0000
}

pub proof fn lemma_letter_index_roundtrip(c: char)
    requires
        is_lower(c),
    ensures
        lidx(c) < 26,
        letter_at_index(lidx(c)) == c,
{
}

pub proof fn lemma_index_letter_roundtrip(i: u32)
    requires
        i < 26,
    ensures
        is_lower(letter_at_index(i)),
        lidx(letter_at_index(i)) == i,
{
}

pub proof fn lemma_full_mask()
    by (bit_vector)
    ensures
        forall|j: u32| j < 26 ==> mask_has(0x3FF_FFFFu32, j),
        mask_wf(0x3FF_FFFF),
{
}

pub proof fn lemma_empty_mask()
    by (bit_vector)
    ensures
        forall|j: u32| !mask_has(0u32, j),
        mask_wf(0),
{
}

pub proof fn lemma_single_mask(i: u32)
    by (bit_vector)
    requires
        i < 26,
    ensures
        forall|j: u32| mask_has(1u32 << i, j) <==> j == i,
        mask_wf(1u32 << i),
{
}

pub proof fn lemma_clear_mask(m: u32, i: u32)
    by (bit_vector)
    requires
        i < 26,
        mask_wf(m),
    ensures
        forall|j: u32| mask_has(m & !(1u32 << i), j) <==> mask_has(m, j) && j != i,
        mask_wf(m & !(1u32 << i)),
{
}

pub proof fn lemma_set_mask(m: u32, i: u32)
    by (bit_vector)
    requires
        i < 26,
        mask_wf(m),
    ensures
        forall|j: u32| mask_has(m | (1u32 << i), j) <==> mask_has(m, j) || j == i,
        mask_wf(m | (1u32 << i)),
{
}

pub proof fn lemma_mask_extensional(m1: u32, m2: u32)
    requires
        mask_wf(m1),
        mask_wf(m2),
        forall|j: u32| j < 26 ==> (mask_has(m1, j) <==> mask_has(m2, j)),
    ensures
        m1 == m2,
{
    assert(m1 == m2) by (bit_vector)
        requires
            mask_wf(m1),
            mask_wf(m2),
            mask_has(m1, 0) <==> mask_has(m2, 0),
            mask_has(m1, 1) <==> mask_has(m2, 1),
            mask_has(m1, 2) <==> mask_has(m2, 2),
            mask_has(m1, 3) <==> mask_has(m2, 3),
            mask_has(m1, 4) <==> mask_has(m2, 4),
            mask_has(m1, 5) <==> mask_has(m2, 5),
            mask_has(m1, 6) <==> mask_has(m2, 6),
            mask_has(m1, 7) <==> mask_has(m2, 7),
            mask_has(m1, 8) <==> mask_has(m2, 8),
            mask_has(m1, 9) <==> mask_has(m2, 9),
            mask_has(m1, 10) <==> mask_has(m2, 10),
            mask_has(m1, 11) <==> mask_has(m2, 11),
            mask_has(m1, 12) <==> mask_has(m2, 12),
            mask_has(m1, 13) <==> mask_has(m2, 13),
            mask_has(m1, 14) <==> mask_has(m2, 14),
            mask_has(m1, 15) <==> mask_has(m2, 15),
            mask_has(m1, 16) <==> mask_has(m2, 16),
            mask_has(m1, 17) <==> mask_has(m2, 17),
            mask_has(m1, 18) <==> mask_has(m2, 18),
            mask_has(m1, 19) <==> mask_has(m2, 19),
            mask_has(m1, 20) <==> mask_has(m2, 20),
            mask_has(m1, 21) <==> mask_has(m2, 21),
            mask_has(m1, 22) <==> mask_has(m2, 22),
            mask_has(m1, 23) <==> mask_has(m2, 23),
            mask_has(m1, 24) <==> mask_has(m2, 24),
            mask_has(m1, 25) <==> mask_has(m2, 25),
    ;
}

/// The alphabet index of a lowercase letter.
pub fn letter_index(c: char) -> (i: u32)
    requires
        is_lower(c),
    ensures
        i == lidx(c),
        i < 26,
{
    c as u32 - 97
}

/// The lowercase letter with a given alphabet index.
pub fn index_letter(i: u32) -> (c: char)
    requires
        i < 26,
    ensures
        c == letter_at_index(i),
        is_lower(c),
        lidx(c) == i,
{
    proof {
        lemma_index_letter_roundtrip(i);
    }
    (97 + i as u8) as char
}

/// Whether `c` is a lowercase letter.
pub fn is_lowercase_letter(c: char) -> (r: bool)
    ensures
        r == is_lower(c),
{
    let u = c as u32;
    97 <= u && u <= 122
}

/// Whether the letter bit `i` is set in the mask `m`.
pub fn mask_contains(m: u32, i: u32) -> (r: bool)
    requires
        i < 26,
    ensures
        r == mask_has(m, i),
{
    (m >> i) & 1 == 1
}

} // verus!
