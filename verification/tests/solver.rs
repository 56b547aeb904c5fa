use letterspan::index::AnagramIndex;
use letterspan::letter_set::LetterSet;
use letterspan::search::{find_results, LetterSetSet};
use letterspan::word::Word;

fn keys_of(pool: &[&str]) -> Vec<LetterSet> {
    let words: Vec<Word> = pool.iter().map(|w| Word::from_str(w).unwrap()).collect();
    let index = AnagramIndex::build(&words);
    index.keys().clone()
}

fn masks_of(pool: &[&str]) -> Vec<LetterSet> {
    pool.iter().map(|w| LetterSet::from_str(w).unwrap()).collect()
}

#[test]
fn concrete_scenario_five_words() {
    // the five disjoint words plus a distractor sharing letters with two of them
    let pool = ["fjord", "gucks", "nymph", "vibex", "waltz", "favor"];
    let keys = keys_of(&pool);
    assert_eq!(keys.len(), 6);
    let results = find_results(&keys, 0, 5, &LetterSetSet::new(5));
    assert_eq!(results.len(), 1);
    let members = results[0].members();
    let expected = masks_of(&["fjord", "gucks", "nymph", "vibex", "waltz"]);
    assert_eq!(members.len(), expected.len());
    for (m, e) in members.iter().zip(expected.iter()) {
        assert_eq!(m, e);
    }
    let favor = LetterSet::from_str("favor").unwrap();
    for r in &results {
        for m in r.members().iter() {
            assert_ne!(*m, favor);
        }
    }
}

#[test]
fn exhaustive_small_alphabet() {
    // ten symbols a..j, two letters per key, five keys per combination;
    // exactly two coverings exist and both are found, in discovery order
    let pool = ["ab", "cd", "ef", "gh", "ij", "ac", "bd"];
    let keys = keys_of(&pool);
    let results = find_results(&keys, 0, 5, &LetterSetSet::new(5));
    assert_eq!(results.len(), 2);
    let first = masks_of(&["ab", "cd", "ef", "gh", "ij"]);
    let second = masks_of(&["ef", "gh", "ij", "ac", "bd"]);
    assert_eq!(results[0].members().as_slice(), first.as_slice());
    assert_eq!(results[1].members().as_slice(), second.as_slice());
}

#[test]
fn empty_and_degenerate_pools() {
    let keys: Vec<LetterSet> = Vec::new();
    let results = find_results(&keys, 0, 5, &LetterSetSet::new(5));
    assert_eq!(results.len(), 0);
    let keys = keys_of(&["ab", "cd"]);
    let results = find_results(&keys, 0, 5, &LetterSetSet::new(5));
    assert_eq!(results.len(), 0);
}

#[test]
fn combination_validity() {
    // every emitted combination: length 5, pairwise disjoint, union of
    // population 5 keys of population 2 each has population 10
    let pool = ["ab", "cd", "ef", "gh", "ij", "ac", "bd"];
    let keys = keys_of(&pool);
    let results = find_results(&keys, 0, 5, &LetterSetSet::new(5));
    assert!(results.len() > 0);
    for r in &results {
        assert_eq!(r.len(), 5);
        let ms = r.members();
        assert_eq!(ms.len(), 5);
        let mut union = LetterSet::empty();
        for a in 0..ms.len() {
            for b in (a + 1)..ms.len() {
                assert!(!ms[a].overlaps(ms[b]));
            }
            union = union.union(ms[a]);
        }
        assert_eq!(union.len(), 10);
    }
}

#[test]
fn full_alphabet_population() {
    // five 5-letter keys: the union covers 25 of the 26 letters
    let pool = ["fjord", "gucks", "nymph", "vibex", "waltz"];
    let keys = keys_of(&pool);
    let results = find_results(&keys, 0, 5, &LetterSetSet::new(5));
    assert_eq!(results.len(), 1);
    let mut union = LetterSet::empty();
    for m in results[0].members().iter() {
        union = union.union(*m);
    }
    assert_eq!(union.len(), 25);
    // q is the letter left out
    assert!(!union.overlaps(LetterSet::from_str("q").unwrap()));
}

#[test]
fn no_duplicate_combinations() {
    let pool = ["ab", "cd", "ef", "gh", "ij", "ac", "bd"];
    let keys = keys_of(&pool);
    let results = find_results(&keys, 0, 5, &LetterSetSet::new(5));
    let mut seen: Vec<Vec<Vec<u8>>> = Vec::new();
    for r in &results {
        let mut letters: Vec<Vec<u8>> = r.members().iter().map(|m| m.letters()).collect();
        letters.sort();
        assert!(!seen.contains(&letters));
        seen.push(letters);
    }
}

#[test]
fn anagrams_share_a_key_in_results() {
    let pool = ["fjord", "gucks", "nymph", "vibex", "waltz", "zwalt"];
    let words: Vec<Word> = pool.iter().map(|w| Word::from_str(w).unwrap()).collect();
    let index = AnagramIndex::build(&words);
    let keys = index.keys();
    assert_eq!(keys.len(), 5);
    let results = find_results(keys, 0, 5, &LetterSetSet::new(5));
    assert_eq!(results.len(), 1);
    let waltz_key = LetterSet::from_str("waltz").unwrap();
    let group = index.words_for(waltz_key).unwrap();
    assert_eq!(group.len(), 2);
    assert_eq!(group[0].word, "waltz");
    assert_eq!(group[1].word, "zwalt");
}

#[test]
fn combination_push_and_overlaps() {
    let s = LetterSetSet::new(3);
    assert_eq!(s.len(), 0);
    assert_eq!(s.capacity(), 3);
    let a = LetterSet::from_str("ab").unwrap();
    let b = LetterSet::from_str("cd").unwrap();
    let s = s.push(a);
    assert_eq!(s.len(), 1);
    assert!(s.overlaps(LetterSet::from_str("bc").unwrap()));
    assert!(!s.overlaps(b));
    let s = s.push(b);
    assert_eq!(s.len(), 2);
    assert_eq!(s.members()[0], a);
    assert_eq!(s.members()[1], b);
    assert!(s.overlaps(a));
    assert!(s.overlaps(b));
}

#[test]
fn search_with_smaller_target() {
    // the target size is a parameter: pairs instead of quintuples
    let pool = ["ab", "cd", "ac", "bd"];
    let keys = keys_of(&pool);
    let results = find_results(&keys, 0, 2, &LetterSetSet::new(2));
    // pairs in discovery order: (ab, cd), (ac, bd)
    assert_eq!(results.len(), 2);
    let ab = LetterSet::from_str("ab").unwrap();
    let cd = LetterSet::from_str("cd").unwrap();
    let ac = LetterSet::from_str("ac").unwrap();
    let bd = LetterSet::from_str("bd").unwrap();
    assert_eq!(results[0].members().as_slice(), [ab, cd]);
    assert_eq!(results[1].members().as_slice(), [ac, bd]);
}
