//! A candidate word paired with its letter content.

use crate::letter_set::{is_lower_letter, mask_inv, mask_of, InvalidCharacterError, LetterSet};
use vstd::prelude::*;

verus! {

/// A source word together with the set of its distinct letters.  Grouping is
/// keyed purely on the letter content, never on the text.
#[derive(Debug)]
pub struct Word {
    /// The word as written.
    pub word: String,
    /// Its letter content.
    pub letters: LetterSet,
}

impl Word {
    /// Reads a word and computes its letter content; rejects any character
    /// outside `a`..=`z`, reporting the position of the first one.
    pub fn from_str(word: &str) -> (r: Result<Word, InvalidCharacterError>)
        ensures
            match r {
                Ok(w) => {
                    &&& w.word@ == word@
                    &&& w.letters@ == mask_of(word@)
                    &&& mask_inv(w.letters@)
                    &&& forall|k: int| 0 <= k < word@.len() ==> is_lower_letter(word@[k])
                },
                Err(e) => {
                    &&& e.index < word@.len()
                    &&& !is_lower_letter(word@[e.index as int])
                    &&& forall|k: int| 0 <= k < e.index ==> is_lower_letter(word@[k])
                },
            },
    {
        match LetterSet::from_str(word) {
            Ok(letters) => Ok(Word { word: word.to_owned(), letters }),
            Err(e) => Err(e),
        }
    }
}

impl Clone for Word {
    /// An identical word: same text, same letter content.
    fn clone(&self) -> (r: Self)
        ensures
            r.word@ == self.word@,
            r.letters == self.letters,
    {
        Word { word: self.word.clone(), letters: self.letters }
    }
}

} // verus!
