//! The corpus of words, built once with its letter presence index, and the
//! operations that read it: feedback, scoring and the choice of the best
//! opening guess.
use crate::hint::{
    add_hint, consistent, feedback, hint_fits, hints_at, is_consistent_with_all, CheckResult, Hint,
};
use crate::score::{admits_count, ambiguity, costs_of, is_best, pick_best, lemma_sum_by_take, score_of, sum_by};
use crate::text::{split_tokens, tokens_of};
use crate::word::{
    is_letter, is_word, LETTER_A, LETTER_Z, make_letter_map, presence_of, same_word, to_idx, WORD_LEN};
use vstd::prelude::*;

verus! {

/// Why no corpus or no best word could be had.
#[derive(Clone, Copy, Debug, PartialEq, Eq, Structural)]
pub enum CorpusError {
    /// No word of the required length was found.
    EmptyCorpus,
    /// A word of the required length holds something other than lowercase
    /// letters.
    MalformedResource,
}

/// The words of `ws` that have the required length, in order.
pub open spec fn of_word_length(ws: Seq<Seq<u8>>) -> Seq<Seq<u8>> {
    ws.filter(|w: Seq<u8>| w.len() == WORD_LEN)
}

/// The score of each word of `ws` used as the guess, in corpus order.
pub open spec fn score_costs(ws: Seq<Seq<u8>>) -> Seq<int> {
    Seq::new(ws.len(), |i: int| score_of(ws, ws[i]) as int)
}

/// The largest corpus whose scores are sure to fit in a `u64`.
pub const MAX_CORPUS: usize = 0xffff_ffff;

/// An ordered sequence of words, with the letter presence set of each.
pub struct Corpus {
    words: Vec<Vec<u8>>,
    presence: Vec<Vec<bool>>,
}

impl View for Corpus {
    type V = Seq<Seq<u8>>;

    closed spec fn view(&self) -> Seq<Seq<u8>> {
        Seq::new(self.words@.len(), |i: int| self.words@[i]@)
    }
}

impl Corpus {
    /// Each entry is a word, and entry `i` of the index is the presence set of
    /// word `i`.
    pub closed spec fn wf(&self) -> bool {
        &&& self.presence@.len() == self.words@.len()
        &&& forall|i: int| 0 <= i < self.words@.len() ==> #[trigger] is_word(self.words@[i]@)
        &&& forall|i: int|
            0 <= i < self.words@.len() ==> #[trigger] self.presence@[i]@ == presence_of(
                self.words@[i]@,
            )
    }

    /// Keeps the entries of `words` that have the required length, in order,
    /// and indexes their letters. Fails when a kept entry is not all
    /// lowercase letters. An empty result is no error.
    pub fn from_words(words: &Vec<Vec<u8>>) -> (r: Result<Corpus, CorpusError>)
        ensures
            r is Ok <==> forall|j: int|
                0 <= j < words@.len() && words@[j]@.len() == WORD_LEN ==> #[trigger] is_word(
                    words@[j]@,
                ),
            r matches Err(e) ==> e == CorpusError::MalformedResource,
            r matches Ok(c) ==> c.wf() && c@ == of_word_length(
                words@.map_values(|w: Vec<u8>| w@),
            ),
    {
        let ghost src = words@.map_values(|w: Vec<u8>| w@);
        let mut kept: Vec<Vec<u8>> = Vec::new();
        let mut presence: Vec<Vec<bool>> = Vec::new();
        let mut i: usize = 0;
        while i < words.len()
            invariant
                i <= words@.len(),
                src == words@.map_values(|w: Vec<u8>| w@),
                presence@.len() == kept@.len(),
                forall|k: int| 0 <= k < kept@.len() ==> #[trigger] is_word(kept@[k]@),
                Seq::new(kept@.len(), |k: int| kept@[k]@) == of_word_length(src.take(i as int)),
                forall|j: int|
                    0 <= j < i && words@[j]@.len() == WORD_LEN ==> #[trigger] is_word(words@[j]@),
                forall|k: int| 0 <= k < kept@.len() ==> #[trigger] presence@[k]@ == presence_of(kept@[k]@),
            decreases words@.len() - i,
        {
            let ghost before = Seq::new(kept@.len(), |k: int| kept@[k]@);
            proof {
                assert(src.take(i + 1).drop_last() =~= src.take(i as int));
                reveal(Seq::filter);
                assert(src.take(i + 1).last() == words@[i as int]@);
            }
            let w = &words[i];
            if w.len() == WORD_LEN {
                let mut j: usize = 0;
                while j < WORD_LEN
                    invariant
                        j <= WORD_LEN,
                        i < words@.len(),
                        w@ == words@[i as int]@,
                        w@.len() == WORD_LEN,
                        forall|m: int| 0 <= m < j ==> is_letter(#[trigger] w@[m]),
                    decreases WORD_LEN - j,
                {
                    if !(LETTER_A <= w[j] && w[j] <= LETTER_Z) {
                        assert(!is_word(words@[i as int]@));
                        return Err(CorpusError::MalformedResource);
                    }
                    j = j + 1;
                }
                let letters = make_letter_map(w);
                let copy = w.clone();
                assert(copy@ =~= w@);
                kept.push(copy);
                presence.push(letters);
                assert(Seq::new(kept@.len(), |k: int| kept@[k]@) =~= before.push(w@));
            } else {
                assert(Seq::new(kept@.len(), |k: int| kept@[k]@) =~= before);
            }
            i = i + 1;
        }
        assert(src.take(i as int) =~= src);
        let c = Corpus { words: kept, presence };
        assert(c@ =~= of_word_length(src));
        Ok(c)
    }

    /// Checks the word at `guess_idx` against `answer`: an exact match when the
    /// two are equal, else the set of hints that each position earns, where a
    /// letter off its position counts as present when the guess's own presence
    /// set holds it.
    pub fn check(&self, guess_idx: usize, answer: &Vec<u8>) -> (r: CheckResult)
        requires
            self.wf(),
            guess_idx < self@.len(),
            is_word(answer@),
        ensures
            r is ExactMatch <==> self@[guess_idx as int] == answer@,
            r matches CheckResult::Feedback(hs) ==> {
                &&& hs@.no_duplicates()
                &&& forall|h: Hint| #[trigger] hs@.contains(h) <==> feedback(
                    self@[guess_idx as int],
                    answer@,
                ).contains(h)
                &&& forall|h: Hint| #[trigger] hs@.contains(h) ==> hint_fits(h, WORD_LEN as nat)
            },
    {
        let guess = &self.words[guess_idx];
        let ghost g = guess@;
        let ghost a = answer@;
        if same_word(guess, answer) {
            return CheckResult::ExactMatch;
        }
        let mut hints: Vec<Hint> = Vec::new();
        let mut i: usize = 0;
        while i < WORD_LEN
            invariant
                self.wf(),
                guess_idx < self@.len(),
                g == self.words@[guess_idx as int]@,
                guess@ == g,
                answer@ == a,
                is_word(g),
                is_word(a),
                i <= WORD_LEN,
                hints@.no_duplicates(),
                forall|h: Hint| #[trigger] hints@.contains(h) ==> hint_fits(h, WORD_LEN as nat),
                forall|h: Hint|
                    #[trigger] hints@.contains(h) <==> exists|j: int|
                        0 <= j < i && #[trigger] hints_at(g, a, j).contains(h),
            decreases WORD_LEN - i,
        {
            let ghost before = hints@;
            let gc = guess[i];
            let ac = answer[i];
            if gc == ac {
                add_hint(&mut hints, Hint::PresentAtPosition(gc, i));
                add_hint(&mut hints, Hint::PresentSomewhere(gc));
            } else if self.presence[guess_idx][to_idx(gc)] {
                add_hint(&mut hints, Hint::PresentSomewhere(gc));
                add_hint(&mut hints, Hint::AbsentAtPosition(gc, i));
            } else {
                add_hint(&mut hints, Hint::AbsentEverywhere(gc));
            }
            assert forall|h: Hint|
                #[trigger] hints@.contains(h) <==> exists|j: int|
                    0 <= j < i + 1 && #[trigger] hints_at(g, a, j).contains(h) by {
                if hints_at(g, a, i as int).contains(h) {
                    assert(hints@.contains(h));
                }
                if exists|j: int| 0 <= j < i + 1 && #[trigger] hints_at(g, a, j).contains(h) {
                    let j = choose|j: int| 0 <= j < i + 1 && #[trigger] hints_at(g, a, j).contains(h);
                    if j < i {
                        assert(before.contains(h));
                    }
                }
            }
            i = i + 1;
        }
        assert forall|h: Hint| #[trigger] hints@.contains(h) <==> feedback(g, a).contains(h) by {
            if feedback(g, a).contains(h) {
                let j = choose|j: int| 0 <= j < g.len() && #[trigger] hints_at(g, a, j).contains(h);
                assert(hints_at(g, a, j).contains(h));
            }
        }
        CheckResult::Feedback(hints)
    }

    /// The score of the word at `guess_idx`: over every answer of the corpus
    /// other than the guess itself, the number of corpus words that agree with
    /// all the hints the guess earns against that answer.
    pub fn score(&self, guess_idx: usize) -> (r: u64)
        requires
            self.wf(),
            guess_idx < self@.len(),
            self@.len() <= MAX_CORPUS,
        ensures
            r == score_of(self@, self@[guess_idx as int]),
    {
        let ghost ws = self@;
        let ghost g = ws[guess_idx as int];
        let ghost fa = |a: Seq<u8>| ambiguity(ws, g, a);
        let n = self.words.len();
        let mut total: u64 = 0;
        let mut j: usize = 0;
        while j < n
            invariant
                self.wf(),
                ws == self@,
                n == ws.len(),
                n <= MAX_CORPUS,
                guess_idx < n,
                g == ws[guess_idx as int],
                fa == (|a: Seq<u8>| ambiguity(ws, g, a)),
                j <= n,
                total == sum_by(ws.take(j as int), fa),
                total <= j * n,
            decreases n - j,
        {
            let answer = &self.words[j];
            let ghost a = ws[j as int];
            assert(answer@ == a);
            assert(is_word(self.words@[j as int]@));
            let ghost fs = |s: Seq<u8>| admits_count(s, feedback(g, a));
            proof {
                lemma_sum_by_take(ws, fa, j as int);
            }
            match self.check(guess_idx, answer) {
                CheckResult::ExactMatch => {
                    assert(fa(a) == 0);
                },
                CheckResult::Feedback(hints) => {
                    let mut count: u64 = 0;
                    let mut k: usize = 0;
                    while k < n
                        invariant
                            self.wf(),
                            ws == self@,
                            n == ws.len(),
                            n <= MAX_CORPUS,
                            k <= n,
                            fs == (|s: Seq<u8>| admits_count(s, feedback(g, a))),
                            forall|h: Hint| #[trigger] hints@.contains(h) <==> feedback(g, a).contains(h),
                            forall|h: Hint| #[trigger] hints@.contains(h) ==> hint_fits(h, WORD_LEN as nat),
                            count == sum_by(ws.take(k as int), fs),
                            count <= k,
                        decreases n - k,
                    {
                        let second = &self.words[k];
                        assert(second@ == ws[k as int]);
                        assert(is_word(self.words@[k as int]@));
                        assert forall|m: int| 0 <= m < hints@.len() implies hint_fits(
                            #[trigger] hints@[m],
                            second@.len(),
                        ) by {
                            assert(hints@.contains(hints@[m]));
                        }
                        let ok = is_consistent_with_all(second, &hints);
                        proof {
                            lemma_sum_by_take(ws, fs, k as int);
                            if ok {
                                assert forall|h: Hint| #[trigger] feedback(g, a).contains(h) implies consistent(second@, h) by {
                                    assert(hints@.contains(h));
                                }
                            } else {
                                let m = choose|m: int| 0 <= m < hints@.len() && !consistent(second@, #[trigger] hints@[m]);
                                assert(hints@.contains(hints@[m]));
                            }
                        }
                        if ok {
                            count = count + 1;
                        }
                        k = k + 1;
                    }
                    assert(ws.take(n as int) =~= ws);
                    assert(fa(a) == count);
                    assert(total + count <= j * n + n);
                    assert(j * n + n == (j + 1) * n) by (nonlinear_arith);
                    assert((j + 1) * n <= n * n) by (nonlinear_arith)
                        requires j < n;
                    assert(n * n <= MAX_CORPUS * MAX_CORPUS) by (nonlinear_arith)
                        requires n <= MAX_CORPUS;
                    total = total + count;
                },
            }
            assert(j * n + n == (j + 1) * n) by (nonlinear_arith);
            j = j + 1;
        }
        assert(ws.take(n as int) =~= ws);
        total
    }

    /// The score of every word of the corpus, in corpus order.
    pub fn scores(&self) -> (r: Vec<u64>)
        requires
            self.wf(),
            self@.len() <= MAX_CORPUS,
        ensures
            r@.len() == self@.len(),
            forall|i: int| 0 <= i < r@.len() ==> #[trigger] r@[i] == score_of(self@, self@[i]),
    {
        let mut r: Vec<u64> = Vec::new();
        let mut i: usize = 0;
        while i < self.words.len()
            invariant
                self.wf(),
                self@.len() <= MAX_CORPUS,
                i <= self@.len(),
                r@.len() == i,
                forall|m: int| 0 <= m < i ==> #[trigger] r@[m] == score_of(self@, self@[m]),
            decreases self@.len() - i,
        {
            let s = self.score(i);
            r.push(s);
            i = i + 1;
        }
        r
    }

    /// The index of the word with the least score, the first in corpus order
    /// among equals; `EmptyCorpus` when the corpus holds no word.
    pub fn select_best(&self) -> (r: Result<usize, CorpusError>)
        requires
            self.wf(),
            self@.len() <= MAX_CORPUS,
        ensures
            r is Err <==> self@.len() == 0,
            r matches Err(e) ==> e == CorpusError::EmptyCorpus,
            r matches Ok(i) ==> is_best(score_costs(self@), i as int),
    {
        let scores = self.scores();
        assert(costs_of(scores@) =~= score_costs(self@));
        match pick_best(&scores) {
            Some(i) => Ok(i),
            None => Err(CorpusError::EmptyCorpus),
        }
    }

    /// Builds the corpus from a word list: its whitespace-separated tokens of
    /// the required length, in order. Fails when such a token is not all
    /// lowercase letters.
    pub fn from_text(text: &[u8]) -> (r: Result<Corpus, CorpusError>)
        ensures
            r is Ok <==> forall|j: int|
                0 <= j < tokens_of(text@).len() && tokens_of(text@)[j].len() == WORD_LEN
                    ==> #[trigger] is_word(tokens_of(text@)[j]),
            r matches Err(e) ==> e == CorpusError::MalformedResource,
            r matches Ok(c) ==> c.wf() && c@ == of_word_length(tokens_of(text@)),
    {
        let tokens = split_tokens(text);
        let r = Corpus::from_words(&tokens);
        proof {
            let tv = tokens@.map_values(|w: Vec<u8>| w@);
            assert(forall|j: int| 0 <= j < tokens@.len() ==> #[trigger] tv[j] == tokens@[j]@);
            if r is Ok {
                assert forall|j: int|
                    0 <= j < tv.len() && tv[j].len() == WORD_LEN implies #[trigger] is_word(
                        tv[j],
                    ) by {
                    assert(tv[j] == tokens@[j]@);
                    assert(is_word(tokens@[j]@));
                }
            } else {
                let j = choose|j: int|
                    0 <= j < tokens@.len() && tokens@[j]@.len() == WORD_LEN && !#[trigger] is_word(
                        tokens@[j]@,
                    );
                assert(tv[j] == tokens@[j]@);
            }
        }
        r
    }

    /// Number of words.
    pub fn len(&self) -> (r: usize)
        ensures
            r == self@.len(),
    {
        self.words.len()
    }

    /// The word at `idx`.
    pub fn word(&self, idx: usize) -> (r: &Vec<u8>)
        requires
            idx < self@.len(),
        ensures
            r@ == self@[idx as int],
    {
        &self.words[idx]
    }
}

} // verus!
