use wordle_start::corpus::{Corpus, CorpusError};
use wordle_start::hint::{is_consistent, is_consistent_with_all, CheckResult, Hint};
use wordle_start::score::pick_best;
use wordle_start::text::split_tokens;
use wordle_start::word::{contains_letter, make_letter_map, same_word, to_idx};

fn corpus_of(words: &[&str]) -> Corpus {
    let list: Vec<Vec<u8>> = words.iter().map(|w| w.as_bytes().to_vec()).collect();
    Corpus::from_words(&list).unwrap()
}

fn feedback_of(result: CheckResult) -> Vec<Hint> {
    match result {
        CheckResult::Feedback(hints) => hints,
        CheckResult::ExactMatch => panic!("expected feedback"),
    }
}

#[test]
fn check_word_against_itself_is_exact_match() {
    let corpus = corpus_of(&["apple", "angle", "apply", "zebra"]);
    for i in 0..corpus.len() {
        let w = corpus.word(i).clone();
        assert!(matches!(corpus.check(i, &w), CheckResult::ExactMatch));
    }
}

#[test]
fn check_apple_against_angle() {
    let corpus = corpus_of(&["apple", "angle", "apply"]);
    let hints = feedback_of(corpus.check(0, &b"angle".to_vec()));
    let p = b'p';
    let letters = make_letter_map(&b"apple".to_vec());
    assert!(letters[to_idx(p)]);
    let expected = vec![
        Hint::PresentAtPosition(b'a', 0),
        Hint::PresentSomewhere(b'a'),
        Hint::PresentSomewhere(p),
        Hint::AbsentAtPosition(p, 1),
        Hint::AbsentAtPosition(p, 2),
        Hint::PresentAtPosition(b'l', 3),
        Hint::PresentSomewhere(b'l'),
        Hint::PresentAtPosition(b'e', 4),
        Hint::PresentSomewhere(b'e'),
    ];
    assert_eq!(hints.len(), expected.len());
    for h in &expected {
        assert!(hints.contains(h));
    }
    assert!(!hints.contains(&Hint::AbsentEverywhere(p)));
}

#[test]
fn feedback_has_no_duplicates() {
    let corpus = corpus_of(&["apple", "apply"]);
    let hints = feedback_of(corpus.check(0, &b"apply".to_vec()));
    for i in 0..hints.len() {
        for j in 0..hints.len() {
            if i != j {
                assert_ne!(hints[i], hints[j]);
            }
        }
    }
    assert_eq!(hints.len(), 9);
    assert!(hints.contains(&Hint::AbsentAtPosition(b'e', 4)));
    assert!(hints.contains(&Hint::PresentSomewhere(b'e')));
}

#[test]
fn answer_agrees_with_its_feedback_when_letters_are_shared() {
    let corpus = corpus_of(&["abcde", "abced"]);
    let answer = b"abced".to_vec();
    let hints = feedback_of(corpus.check(0, &answer));
    assert!(is_consistent_with_all(&answer, &hints));
}

#[test]
fn answer_can_disagree_with_feedback_on_missing_letter() {
    let corpus = corpus_of(&["apple", "angle"]);
    let answer = b"angle".to_vec();
    let hints = feedback_of(corpus.check(0, &answer));
    assert!(!is_consistent_with_all(&answer, &hints));
}

#[test]
fn is_consistent_each_kind() {
    let w = b"crane".to_vec();
    assert!(is_consistent(&w, Hint::AbsentEverywhere(b'z')));
    assert!(!is_consistent(&w, Hint::AbsentEverywhere(b'a')));
    assert!(is_consistent(&w, Hint::AbsentAtPosition(b'a', 0)));
    assert!(!is_consistent(&w, Hint::AbsentAtPosition(b'a', 2)));
    assert!(is_consistent(&w, Hint::PresentSomewhere(b'e')));
    assert!(!is_consistent(&w, Hint::PresentSomewhere(b'q')));
    assert!(is_consistent(&w, Hint::PresentAtPosition(b'c', 0)));
    assert!(!is_consistent(&w, Hint::PresentAtPosition(b'c', 1)));
    // same input, same answer
    assert_eq!(
        is_consistent(&w, Hint::PresentSomewhere(b'r')),
        is_consistent(&w, Hint::PresentSomewhere(b'r'))
    );
}

#[test]
fn empty_corpus_has_no_best_word() {
    let corpus = corpus_of(&[]);
    assert_eq!(corpus.len(), 0);
    assert_eq!(corpus.select_best(), Err(CorpusError::EmptyCorpus));
    let filtered = Corpus::from_text(b"a bb cccc toolong\n".as_slice()).unwrap();
    assert_eq!(filtered.len(), 0);
    assert_eq!(filtered.select_best(), Err(CorpusError::EmptyCorpus));
}

#[test]
fn single_word_corpus_scores_zero() {
    let corpus = corpus_of(&["crane"]);
    assert_eq!(corpus.score(0), 0);
    assert_eq!(corpus.select_best(), Ok(0));
}

#[test]
fn disjoint_words_score_zero() {
    let corpus = corpus_of(&["abcde", "fghij"]);
    let hints = feedback_of(corpus.check(0, &b"fghij".to_vec()));
    assert_eq!(hints.len(), 10);
    assert!(hints.contains(&Hint::PresentSomewhere(b'a')));
    assert!(hints.contains(&Hint::AbsentAtPosition(b'a', 0)));
    assert_eq!(corpus.score(0), 0);
    assert_eq!(corpus.score(1), 0);
    assert_eq!(corpus.select_best(), Ok(0));
}

#[test]
fn toy_corpus_scores() {
    let corpus = corpus_of(&["apple", "angle", "apply"]);
    assert_eq!(corpus.scores(), vec![0, 0, 0]);
    assert_eq!(corpus.select_best(), Ok(0));
}

#[test]
fn swapped_letters_leave_ambiguity() {
    let corpus = corpus_of(&["abcde", "abced", "fghij"]);
    assert_eq!(corpus.score(0), 1);
    assert_eq!(corpus.score(1), 1);
    assert_eq!(corpus.score(2), 0);
    assert_eq!(corpus.select_best(), Ok(2));
}

#[test]
fn score_ignores_corpus_order() {
    let a = corpus_of(&["abcde", "abced", "fghij"]);
    let b = corpus_of(&["fghij", "abced", "abcde"]);
    assert_eq!(a.score(0), b.score(2));
    assert_eq!(a.score(1), b.score(1));
    assert_eq!(a.score(2), b.score(0));
}

#[test]
fn best_word_is_stable() {
    let corpus = corpus_of(&["abcde", "abced", "fghij", "klmno"]);
    let first = corpus.select_best();
    assert_eq!(first, Ok(2));
    assert_eq!(corpus.select_best(), first);
}

#[test]
fn pick_best_takes_first_of_ties() {
    assert_eq!(pick_best(&vec![]), None);
    assert_eq!(pick_best(&vec![5, 3, 7, 3]), Some(1));
    assert_eq!(pick_best(&vec![4]), Some(0));
    assert_eq!(pick_best(&vec![9, 8, 7]), Some(2));
}

#[test]
fn from_words_keeps_five_letter_entries() {
    let list: Vec<Vec<u8>> = vec![b"abc".to_vec(), b"crane".to_vec(), b"sixsix".to_vec(), b"slate".to_vec()];
    let corpus = Corpus::from_words(&list).unwrap();
    assert_eq!(corpus.len(), 2);
    assert_eq!(corpus.word(0), &b"crane".to_vec());
    assert_eq!(corpus.word(1), &b"slate".to_vec());
}

#[test]
fn from_words_rejects_non_letters() {
    let list: Vec<Vec<u8>> = vec![b"crane".to_vec(), b"Slate".to_vec()];
    assert!(matches!(Corpus::from_words(&list), Err(CorpusError::MalformedResource)));
    let list: Vec<Vec<u8>> = vec![b"ab1de".to_vec()];
    assert!(matches!(Corpus::from_words(&list), Err(CorpusError::MalformedResource)));
}

#[test]
fn from_text_splits_on_whitespace() {
    let corpus = Corpus::from_text(b"  crane\tslate\r\nab cdefgh\x0cirate\n".as_slice()).unwrap();
    assert_eq!(corpus.len(), 3);
    assert_eq!(corpus.word(0), &b"crane".to_vec());
    assert_eq!(corpus.word(1), &b"slate".to_vec());
    assert_eq!(corpus.word(2), &b"irate".to_vec());
}

#[test]
fn split_tokens_cases() {
    assert_eq!(split_tokens(b"".as_slice()), Vec::<Vec<u8>>::new());
    assert_eq!(split_tokens(b"   ".as_slice()), Vec::<Vec<u8>>::new());
    assert_eq!(
        split_tokens(b"ab  c\nd".as_slice()),
        vec![b"ab".to_vec(), b"c".to_vec(), b"d".to_vec()]
    );
}

#[test]
fn letter_helpers() {
    assert_eq!(to_idx(b'a'), 0);
    assert_eq!(to_idx(b'z'), 25);
    let m = make_letter_map(&b"apple".to_vec());
    assert_eq!(m.len(), 26);
    let present: Vec<usize> = (0..26).filter(|&k| m[k]).collect();
    assert_eq!(present, vec![0, 4, 11, 15]);
    assert!(contains_letter(&b"apple".to_vec(), b'l'));
    assert!(!contains_letter(&b"apple".to_vec(), b'z'));
    assert!(same_word(&b"apple".to_vec(), &b"apple".to_vec()));
    assert!(!same_word(&b"apple".to_vec(), &b"apply".to_vec()));
}

#[test]
fn from_text_rejects_uppercase_word() {
    let r = Corpus::from_text(b"crane Slate ab".as_slice());
    assert!(matches!(r, Err(CorpusError::MalformedResource)));
    let ok = Corpus::from_text(b"crane SLATEY ab".as_slice()).unwrap();
    assert_eq!(ok.len(), 1);
}
