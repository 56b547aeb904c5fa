use letterspan::index::AnagramIndex;
use letterspan::letter_set::LetterSet;
use letterspan::word::Word;

#[test]
fn groups_by_letter_content() {
    let words = vec![
        Word::from_str("abc").unwrap(),
        Word::from_str("cab").unwrap(),
        Word::from_str("def").unwrap(),
        Word::from_str("bca").unwrap(),
    ];
    let index = AnagramIndex::build(&words);
    let keys = index.keys();
    assert_eq!(keys.len(), 2);
    assert_eq!(keys[0], LetterSet::from_str("abc").unwrap());
    assert_eq!(keys[1], LetterSet::from_str("def").unwrap());
    let g0 = index.words_for(keys[0]).unwrap();
    let g1 = index.words_for(keys[1]).unwrap();
    assert_eq!(g0.len() + g1.len(), words.len());
    assert_eq!(g0.len(), 3);
    assert_eq!(g0[0].word, "abc");
    assert_eq!(g0[1].word, "cab");
    assert_eq!(g0[2].word, "bca");
    assert_eq!(g1.len(), 1);
    assert_eq!(g1[0].word, "def");
}

#[test]
fn words_for_absent_key() {
    let words = vec![Word::from_str("abc").unwrap()];
    let index = AnagramIndex::build(&words);
    let other = LetterSet::from_str("xyz").unwrap();
    assert!(index.words_for(other).is_none());
}

#[test]
fn empty_build_has_no_keys() {
    let words: Vec<Word> = Vec::new();
    let index = AnagramIndex::build(&words);
    assert_eq!(index.keys().len(), 0);
}

#[test]
fn word_keeps_text_and_content() {
    let w = Word::from_str("fjord").unwrap();
    assert_eq!(w.word, "fjord");
    assert_eq!(w.letters, LetterSet::from_str("fjord").unwrap());
    assert_eq!(w.letters.len(), 5);
    let e = Word::from_str("fj0rd").unwrap_err();
    assert_eq!(e.index, 2);
}
