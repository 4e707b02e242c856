//! Feedback hints, what it means for a word to agree with them, and the set of
//! hints that one guess earns against one answer.
use crate::word::{contains_letter, has_letter, is_word, presence_of, LETTER_A};
use vstd::prelude::*;

verus! {

/// One unit of feedback about a letter, and possibly a position.
#[derive(Clone, Copy, Debug, PartialEq, Eq, Structural)]
pub enum Hint {
    /// The letter occurs nowhere in the answer.
    AbsentEverywhere(u8),
    /// The letter is not at this position of the answer.
    AbsentAtPosition(u8, usize),
    /// The letter occurs somewhere in the answer.
    PresentSomewhere(u8),
    /// The letter is at this position of the answer.
    PresentAtPosition(u8, usize),
}

/// Outcome of checking a guess against an answer.
#[derive(Debug)]
pub enum CheckResult {
    /// The guess is the answer.
    ExactMatch,
    /// The guess differs: the hints it earned, each once.
    Feedback(Vec<Hint>),
}

/// The position a hint speaks of, if any, lies inside a word of length `n`.
pub open spec fn hint_fits(h: Hint, n: nat) -> bool {
    match h {
        Hint::AbsentAtPosition(_, i) => i < n,
        Hint::PresentAtPosition(_, i) => i < n,
        _ => true,
    }
}

/// `w` agrees with the hint `h`.
pub open spec fn consistent(w: Seq<u8>, h: Hint) -> bool {
    match h {
        Hint::AbsentEverywhere(c) => !has_letter(w, c),
        Hint::AbsentAtPosition(c, i) => w[i as int] != c,
        Hint::PresentSomewhere(c) => has_letter(w, c),
        Hint::PresentAtPosition(c, i) => w[i as int] == c,
    }
}

/// `w` agrees with every hint of `hs`.
pub open spec fn admits(w: Seq<u8>, hs: Set<Hint>) -> bool {
    forall|h: Hint| #[trigger] hs.contains(h) ==> consistent(w, h)
}

/// The hints that position `i` of the guess `g` earns against the answer `a`.
/// A letter that misses its position counts as present when the guess's own
/// letter presence set holds it.
pub open spec fn hints_at(g: Seq<u8>, a: Seq<u8>, i: int) -> Set<Hint> {
    let c = g[i];
    if c == a[i] {
        set![Hint::PresentAtPosition(c, i as usize), Hint::PresentSomewhere(c)]
    } else if presence_of(g)[c - LETTER_A] {
        set![Hint::PresentSomewhere(c), Hint::AbsentAtPosition(c, i as usize)]
    } else {
        set![Hint::AbsentEverywhere(c)]
    }
}

/// All hints that the guess `g` earns against the answer `a`.
pub open spec fn feedback(g: Seq<u8>, a: Seq<u8>) -> Set<Hint> {
    Set::new(|h: Hint| exists|i: int| 0 <= i < g.len() && #[trigger] hints_at(g, a, i).contains(h))
}

/// Every letter of a word counts as present in that word's own presence set.
pub proof fn lemma_own_letter_present(g: Seq<u8>, i: int)
    requires
        is_word(g),
        0 <= i < g.len(),
    ensures
        presence_of(g)[g[i] - LETTER_A],
{
    let k = g[i] - LETTER_A;
    assert((LETTER_A + k) as u8 == g[i]);
    assert(has_letter(g, (LETTER_A + k) as u8));
}

/// An answer agrees with all the feedback that it gives a guess exactly when
/// each letter of the guess that misses its position occurs elsewhere in the
/// answer. So the answer is never ruled out by its own feedback on such pairs,
/// and is ruled out on all others.
pub proof fn lemma_feedback_sound(g: Seq<u8>, a: Seq<u8>)
    requires
        is_word(g),
        is_word(a),
    ensures
        admits(a, feedback(g, a)) <==> (forall|i: int|
            0 <= i < g.len() && g[i] != a[i] ==> #[trigger] has_letter(a, g[i])),
{
    if admits(a, feedback(g, a)) {
        assert forall|i: int| 0 <= i < g.len() && g[i] != a[i] implies #[trigger] has_letter(
            a,
            g[i],
        ) by {
            lemma_own_letter_present(g, i);
            let h = Hint::PresentSomewhere(g[i]);
            assert(hints_at(g, a, i).contains(h));
            assert(feedback(g, a).contains(h));
        }
    }
    if forall|i: int| 0 <= i < g.len() && g[i] != a[i] ==> #[trigger] has_letter(a, g[i]) {
        assert forall|h: Hint| #[trigger] feedback(g, a).contains(h) implies consistent(a, h) by {
            let i = choose|i: int| 0 <= i < g.len() && #[trigger] hints_at(g, a, i).contains(h);
            lemma_own_letter_present(g, i);
            if g[i] == a[i] {
                assert(has_letter(a, g[i]));
            } else {
                assert(has_letter(a, g[i]));
            }
        }
    }
}

/// Feedback never says of a letter and position both that the letter is there
/// and that it is not.
pub proof fn lemma_feedback_coherent(g: Seq<u8>, a: Seq<u8>, c: u8, i: usize)
    requires
        is_word(g),
        is_word(a),
    ensures
        !(feedback(g, a).contains(Hint::PresentAtPosition(c, i)) && feedback(g, a).contains(
            Hint::AbsentAtPosition(c, i),
        )),
{
    if feedback(g, a).contains(Hint::PresentAtPosition(c, i)) && feedback(g, a).contains(
        Hint::AbsentAtPosition(c, i),
    ) {
        let j = choose|j: int|
            0 <= j < g.len() && #[trigger] hints_at(g, a, j).contains(
                Hint::PresentAtPosition(c, i),
            );
        let k = choose|k: int|
            0 <= k < g.len() && #[trigger] hints_at(g, a, k).contains(
                Hint::AbsentAtPosition(c, i),
            );
        assert(j == i as int && g[j] == a[j] && g[j] == c);
        assert(k == i as int && g[k] != a[k]);
    }
}

/// Whether `word` agrees with `hint`.
pub fn is_consistent(word: &Vec<u8>, hint: Hint) -> (r: bool)
    requires
        hint_fits(hint, word@.len()),
    ensures
        r == consistent(word@, hint),
{
    match hint {
        Hint::AbsentEverywhere(c) => !contains_letter(word, c),
        Hint::AbsentAtPosition(c, i) => word[i] != c,
        Hint::PresentSomewhere(c) => contains_letter(word, c),
        Hint::PresentAtPosition(c, i) => word[i] == c,
    }
}

/// Whether `word` agrees with every hint of `hints`.
pub fn is_consistent_with_all(word: &Vec<u8>, hints: &Vec<Hint>) -> (r: bool)
    requires
        forall|k: int| 0 <= k < hints@.len() ==> hint_fits(#[trigger] hints@[k], word@.len()),
    ensures
        r == (forall|k: int| 0 <= k < hints@.len() ==> consistent(word@, #[trigger] hints@[k])),
{
    let mut k: usize = 0;
    while k < hints.len()
        invariant
            k <= hints@.len(),
            forall|k: int| 0 <= k < hints@.len() ==> hint_fits(#[trigger] hints@[k], word@.len()),
            forall|j: int| 0 <= j < k ==> consistent(word@, #[trigger] hints@[j]),
        decreases hints@.len() - k,
    {
        if !is_consistent(word, hints[k]) {
            return false;
        }
        k = k + 1;
    }
    true
}

/// Adds `h` to `hints` unless it is there already.
pub fn add_hint(hints: &mut Vec<Hint>, h: Hint)
    requires
        old(hints)@.no_duplicates(),
    ensures
        final(hints)@.no_duplicates(),
        forall|x: Hint| #[trigger] final(hints)@.contains(x) <==> (old(hints)@.contains(x) || x == h),
{
    let mut k: usize = 0;
    while k < hints.len()
        invariant
            k <= hints@.len(),
            hints@ == old(hints)@,
            hints@.no_duplicates(),
            forall|j: int| 0 <= j < k ==> hints@[j] != h,
        decreases hints@.len() - k,
    {
        if hints[k] == h {
            return;
        }
        k = k + 1;
    }
    hints.push(h);
    assert forall|x: Hint| #[trigger] hints@.contains(x) <==> (old(hints)@.contains(x) || x == h) by {
        if old(hints)@.contains(x) {
            let j = choose|j: int| 0 <= j < old(hints)@.len() && old(hints)@[j] == x;
            assert(hints@[j] == x);
        }
        if x == h {
            assert(hints@[old(hints)@.len() as int] == x);
        }
    }
}

} // verus!
