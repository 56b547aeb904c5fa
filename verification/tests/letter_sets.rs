use letterspan::letter_set::LetterSet;

#[test]
fn permutation_invariance() {
    let a = LetterSet::from_str("abc").unwrap();
    let b = LetterSet::from_str("cba").unwrap();
    let c = LetterSet::from_str("aabbcc").unwrap();
    assert_eq!(a, b);
    assert_eq!(a, c);
    let d = LetterSet::from_str("waltz").unwrap();
    let e = LetterSet::from_str("zwalt").unwrap();
    assert_eq!(d, e);
}

#[test]
fn population_counts() {
    assert_eq!(LetterSet::from_str("hello").unwrap().len(), 4);
    assert_eq!(LetterSet::from_str("abcde").unwrap().len(), 5);
    assert_eq!(LetterSet::from_str("").unwrap().len(), 0);
    assert_eq!(LetterSet::from_str("zzzzz").unwrap().len(), 1);
    assert_eq!(LetterSet::from_str("abcdefghijklmnopqrstuvwxyz").unwrap().len(), 26);
}

#[test]
fn invalid_characters_rejected() {
    let e = LetterSet::from_str("ab!c").unwrap_err();
    assert_eq!(e.index, 2);
    let e = LetterSet::from_str("Abc").unwrap_err();
    assert_eq!(e.index, 0);
    let e = LetterSet::from_str("abc def").unwrap_err();
    assert_eq!(e.index, 3);
}

#[test]
fn empty_set_behaviour() {
    let e = LetterSet::empty();
    assert!(e.is_empty());
    assert_eq!(e.len(), 0);
    assert_eq!(LetterSet::from_str("").unwrap(), e);
    let a = LetterSet::from_str("xyz").unwrap();
    assert!(!a.is_empty());
    assert!(!a.overlaps(e));
    assert!(!e.overlaps(a));
}

#[test]
fn overlap_iff_shared_letter() {
    let a = LetterSet::from_str("abc").unwrap();
    let b = LetterSet::from_str("cde").unwrap();
    let c = LetterSet::from_str("def").unwrap();
    assert!(a.overlaps(b));
    assert!(b.overlaps(a));
    assert!(!a.overlaps(c));
    assert!(!c.overlaps(a));
    assert!(b.overlaps(c));
}

#[test]
fn union_and_intersection() {
    let a = LetterSet::from_str("abc").unwrap();
    let b = LetterSet::from_str("cde").unwrap();
    assert_eq!(a.union(b).len(), 5);
    assert_eq!(a.union(b), LetterSet::from_str("abcde").unwrap());
    assert_eq!(a.intersection(b), LetterSet::from_str("c").unwrap());
    assert_eq!(a.intersection(b).len(), 1);
    assert!(a.intersection(LetterSet::from_str("xyz").unwrap()).is_empty());
}

#[test]
fn letters_render_sorted() {
    let a = LetterSet::from_str("cab").unwrap();
    assert_eq!(a.letters(), b"abc".to_vec());
    let w = LetterSet::from_str("waltz").unwrap();
    assert_eq!(w.letters(), b"altwz".to_vec());
    assert_eq!(LetterSet::empty().letters(), Vec::<u8>::new());
}
