//! Words as byte strings of lowercase ASCII letters, and the per-word set of
//! letters that occur in them.
use vstd::prelude::*;

verus! {

/// Length of every word that takes part in scoring.
pub const WORD_LEN: usize = 5;

/// Number of letters in the alphabet, and so the size of a presence set.
pub const ALPHABET: usize = 26;

/// ASCII code of `a`.
pub const LETTER_A: u8 = 97;

/// ASCII code of `z`.
pub const LETTER_Z: u8 = 122;

pub open spec fn is_letter(b: u8) -> bool {
    LETTER_A <= b <= LETTER_Z
}

/// A word: exactly `WORD_LEN` lowercase letters.
pub open spec fn is_word(w: Seq<u8>) -> bool {
    &&& w.len() == WORD_LEN
    &&& forall|i: int| 0 <= i < w.len() ==> is_letter(#[trigger] w[i])
}

/// `c` occurs somewhere in `w`.
pub open spec fn has_letter(w: Seq<u8>, c: u8) -> bool {
    exists|j: int| 0 <= j < w.len() && w[j] == c
}

/// The letter presence set of `w`: entry `k` tells whether the `k`-th letter
/// of the alphabet occurs in `w`.
pub open spec fn presence_of(w: Seq<u8>) -> Seq<bool> {
    Seq::new(ALPHABET as nat, |k: int| has_letter(w, (LETTER_A + k) as u8))
}

/// Position of a letter in the alphabet.
pub fn to_idx(c: u8) -> (r: usize)
    requires
        is_letter(c),
    ensures
        r == c - LETTER_A,
        r < ALPHABET,
{
    (c - LETTER_A) as usize
}

/// Builds the letter presence set of `word`.
pub fn make_letter_map(word: &Vec<u8>) -> (r: Vec<bool>)
    requires
        forall|i: int| 0 <= i < word@.len() ==> is_letter(#[trigger] word@[i]),
    ensures
        r@ == presence_of(word@),
{
    let mut result: Vec<bool> = vec![false; ALPHABET];
    let mut i: usize = 0;
    while i < word.len()
        invariant
            i <= word@.len(),
            result@.len() == ALPHABET,
            forall|i: int| 0 <= i < word@.len() ==> is_letter(#[trigger] word@[i]),
            forall|k: int|
                0 <= k < ALPHABET ==> (#[trigger] result@[k] <==> exists|j: int|
                    0 <= j < i && word@[j] == (LETTER_A + k) as u8),
        decreases word@.len() - i,
    {
        let c = word[i];
        let k = to_idx(c);
        result.set(k, true);
        assert forall|m: int|
            0 <= m < ALPHABET implies (#[trigger] result@[m] <==> exists|j: int|
                0 <= j < i + 1 && word@[j] == (LETTER_A + m) as u8) by {
            if m == k {
                assert(word@[i as int] == (LETTER_A + m) as u8);
            } else {
                if exists|j: int| 0 <= j < i + 1 && word@[j] == (LETTER_A + m) as u8 {
                    let j = choose|j: int| 0 <= j < i + 1 && word@[j] == (LETTER_A + m) as u8;
                    assert(j != i);
                }
            }
        }
        i = i + 1;
    }
    assert(result@ =~= presence_of(word@));
    result
}

/// Whether `c` occurs anywhere in `word`.
pub fn contains_letter(word: &Vec<u8>, c: u8) -> (r: bool)
    ensures
        r == has_letter(word@, c),
{
    let mut i: usize = 0;
    while i < word.len()
        invariant
            i <= word@.len(),
            forall|j: int| 0 <= j < i ==> word@[j] != c,
        decreases word@.len() - i,
    {
        if word[i] == c {
            return true;
        }
        i = i + 1;
    }
    false
}

/// Whether two words hold the same letters at every position.
pub fn same_word(a: &Vec<u8>, b: &Vec<u8>) -> (r: bool)
    ensures
        r == (a@ == b@),
{
    if a.len() != b.len() {
        return false;
    }
    let mut i: usize = 0;
    while i < a.len()
        invariant
            i <= a@.len(),
            a@.len() == b@.len(),
            forall|j: int| 0 <= j < i ==> a@[j] == b@[j],
        decreases a@.len() - i,
    {
        if a[i] != b[i] {
            return false;
        }
        i = i + 1;
    }
    assert(a@ =~= b@);
    true
}

} // verus!
