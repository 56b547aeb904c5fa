//! Fixed-width bitmask encoding of the distinct lowercase letters of a word.
//!
//! A mask assigns bit `j` to the letter with alphabet offset `j` (0 for `a`,
//! 25 for `z`).  Equal letter content means equal mask, independent of the
//! order or repetition of the characters.

use vstd::prelude::*;
use vstd::string::*;

verus! {

/// True when bit `j` of the mask `m` is set.
pub open spec fn bit_set(m: u32, j: u32) -> bool {
    (m >> j) & 1u32 == 1u32
}

/// A well-formed mask only carries the 26 alphabet bits.
pub open spec fn mask_inv(m: u32) -> bool {
    m >> 26u32 == 0u32
}

/// True when `c` is a lowercase letter `a`..=`z`.
pub open spec fn is_lower_letter(c: char) -> bool {
    97 <= c as u32 <= 122
}

/// The mask contributed by one character: the bit of a lowercase letter.
pub open spec fn char_mask(c: char) -> u32 {
    if is_lower_letter(c) {
        1u32 << ((c as u32 - 97) as u32)
    } else {
        0u32
    }
}

/// The mask of the distinct lowercase letters of `s`.
pub open spec fn mask_of(s: Seq<char>) -> u32
    decreases s.len(),
{
    if s.len() == 0 {
        0u32
    } else {
        mask_of(s.drop_last()) | char_mask(s.last())
    }
}

/// The alphabet offsets (0 for `a` .. 25 for `z`) of the distinct lowercase
/// letters occurring in `s`.
pub open spec fn letters_of(s: Seq<char>) -> Set<u32> {
    Set::new(|j: u32| j < 26 && exists|k: int| 0 <= k < s.len() && s[k] as u32 == j + 97)
}

/// The alphabet offsets whose bits are set in `m`.
pub open spec fn letters_of_mask(m: u32) -> Set<u32> {
    Set::new(|j: u32| j < 26 && bit_set(m, j))
}

/// The number of set bits of `m` below bit `n`.
pub open spec fn pop_count(m: u32, n: u32) -> nat
    decreases n,
{
    if n == 0 {
        0nat
    } else {
        pop_count(m, (n - 1) as u32) + if bit_set(m, (n - 1) as u32) {
            1nat
        } else {
            0nat
        }
    }
}

/// The number of set bits of `m`.
pub open spec fn pop(m: u32) -> nat {
    pop_count(m, 32)
}

/// The letters of the bits of `m` below bit `n`, in alphabetical order, as
/// ASCII bytes.
pub open spec fn letter_bytes(m: u32, n: u32) -> Seq<u8>
    decreases n,
{
    if n == 0 {
        Seq::empty()
    } else {
        let r = letter_bytes(m, (n - 1) as u32);
        if bit_set(m, (n - 1) as u32) {
            r.push((96 + n) as u8)
        } else {
            r
        }
    }
}

/// Error raised when a word holds a character outside `a`..=`z`.
#[derive(Clone, Copy, Debug, PartialEq, Eq, Structural)]
pub struct InvalidCharacterError {
    /// Position of the first offending character.
    pub index: usize,
}

/// The set of distinct letters of a word, one bit per letter.
#[derive(Clone, Copy, Debug, PartialEq, Eq, Structural, Hash)]
pub struct LetterSet {
    mask: u32,
}

impl View for LetterSet {
    type V = u32;

    closed spec fn view(&self) -> u32 {
        self.mask
    }
}

impl LetterSet {
    /// The set with no letters.
    pub fn empty() -> (r: Self)
        ensures
            r@ == 0u32,
            mask_inv(r@),
    {
        proof {
            assert(0u32 >> 26u32 == 0u32) by (bit_vector);
        }
        LetterSet { mask: 0 }
    }

    /// Reads the distinct letters of `s` into a set; rejects any character
    /// outside `a`..=`z`, reporting the position of the first one.
    pub fn from_str(s: &str) -> (r: Result<Self, InvalidCharacterError>)
        ensures
            match r {
                Ok(ls) => {
                    &&& ls@ == mask_of(s@)
                    &&& mask_inv(ls@)
                    &&& forall|k: int| 0 <= k < s@.len() ==> is_lower_letter(s@[k])
                },
                Err(e) => {
                    &&& e.index < s@.len()
                    &&& !is_lower_letter(s@[e.index as int])
                    &&& forall|k: int| 0 <= k < e.index ==> is_lower_letter(s@[k])
                },
            },
    {
        let n = s.unicode_len();
        let mut mask: u32 = 0;
        let mut i: usize = 0;
        proof {
            assert(0u32 >> 26u32 == 0u32) by (bit_vector);
            assert(s@.take(0) =~= Seq::<char>::empty());
        }
        while i < n
            invariant
                i <= n,
                n == s@.len(),
                mask == mask_of(s@.take(i as int)),
                mask_inv(mask),
                forall|k: int| 0 <= k < i ==> is_lower_letter(s@[k]),
            decreases n - i,
        {
            let c = s.get_char(i);
            let cv = c as u32;
            if cv < 97 || cv > 122 {
                return Err(InvalidCharacterError { index: i });
            }
            let bit: u32 = 1u32 << (cv - 97);
            let next: u32 = mask | bit;
            proof {
                let pre = s@.take(i as int);
                let ext = s@.take(i as int + 1);
                assert(ext.drop_last() =~= pre);
                assert(ext.last() == s@[i as int]);
                assert(char_mask(s@[i as int]) == bit);
                assert(mask_inv(next)) by (bit_vector)
                    requires
                        mask >> 26u32 == 0u32,
                        bit == 1u32 << ((cv - 97) as u32),
                        97 <= cv <= 122,
                        next == mask | bit,
                ;
            }
            mask = next;
            i = i + 1;
        }
        proof {
            assert(s@.take(n as int) =~= s@);
        }
        Ok(LetterSet { mask })
    }

    /// The number of distinct letters in the set.
    pub fn len(&self) -> (r: u32)
        ensures
            r as nat == pop(self@),
    {
        let mut count: u32 = 0;
        let mut j: u32 = 0;
        while j < 32
            invariant
                j <= 32,
                count <= j,
                count as nat == pop_count(self@, j),
            decreases 32 - j,
        {
            if (self.mask >> j) & 1u32 == 1u32 {
                count = count + 1;
            }
            j = j + 1;
        }
        count
    }

    /// The letters present, in alphabetical order, as ASCII bytes; for
    /// diagnostic display.
    pub fn letters(&self) -> (r: Vec<u8>)
        ensures
            r@ == letter_bytes(self@, 32),
    {
        let mut r: Vec<u8> = Vec::new();
        let mut j: u32 = 0;
        proof {
            assert(r@ =~= Seq::<u8>::empty());
        }
        while j < 32
            invariant
                j <= 32,
                r@ == letter_bytes(self@, j),
            decreases 32 - j,
        {
            if (self.mask >> j) & 1u32 == 1u32 {
                let b: u8 = (97 + j as u8);
                r.push(b);
                proof {
                    assert(96 + (j + 1) == 97 + j);
                }
            }
            j = j + 1;
        }
        r
    }

    /// True when the set holds no letter.
    pub fn is_empty(&self) -> (r: bool)
        ensures
            r == (self@ == 0u32),
    {
        self.mask == 0
    }

    /// True when the two sets share at least one letter.
    pub fn overlaps(self, other: Self) -> (r: bool)
        ensures
            r == ((self@ & other@) != 0u32),
    {
        (self.mask & other.mask) != 0
    }

    /// The letters present in either set.
    pub fn union(self, other: Self) -> (r: Self)
        ensures
            r@ == (self@ | other@),
            mask_inv(self@) && mask_inv(other@) ==> mask_inv(r@),
    {
        proof {
            let a = self@;
            let b = other@;
            if mask_inv(a) && mask_inv(b) {
                assert((a | b) >> 26u32 == 0u32) by (bit_vector)
                    requires
                        a >> 26u32 == 0u32,
                        b >> 26u32 == 0u32,
                ;
            }
        }
        LetterSet { mask: self.mask | other.mask }
    }

    /// The letters present in both sets.
    pub fn intersection(self, other: Self) -> (r: Self)
        ensures
            r@ == (self@ & other@),
            mask_inv(self@) ==> mask_inv(r@),
    {
        proof {
            let a = self@;
            let b = other@;
            if mask_inv(a) {
                assert((a & b) >> 26u32 == 0u32) by (bit_vector)
                    requires
                        a >> 26u32 == 0u32,
                ;
            }
        }
        LetterSet { mask: self.mask & other.mask }
    }
}

/// Letter sets are equal exactly when their masks are equal.
pub proof fn lemma_eq_is_mask_eq(a: LetterSet, b: LetterSet)
    ensures
        (a == b) <==> (a@ == b@),
{
}

/// Bit `j` of `mask_of(s)` is set exactly when the letter with offset `j`
/// occurs in `s`, and the mask is well formed.
pub proof fn lemma_mask_of_bits(s: Seq<char>)
    ensures
        mask_inv(mask_of(s)),
        forall|j: u32| j < 26 ==> (bit_set(mask_of(s), j) <==> letters_of(s).contains(j)),
    decreases s.len(),
{
    if s.len() == 0 {
        assert(mask_inv(0u32)) by (bit_vector);
        assert forall|j: u32| j < 26 implies !bit_set(mask_of(s), j) by {
            assert(!bit_set(0u32, j)) by (bit_vector);
        }
    } else {
        let d = s.drop_last();
        let c = s.last();
        lemma_mask_of_bits(d);
        let m0 = mask_of(d);
        let cm = char_mask(c);
        if is_lower_letter(c) {
            let e = (c as u32 - 97) as u32;
            assert(mask_inv(m0 | (1u32 << e))) by (bit_vector)
                requires
                    m0 >> 26u32 == 0u32,
                    e < 26u32,
            ;
        } else {
            assert(m0 | 0u32 == m0) by (bit_vector);
        }
        assert forall|j: u32| j < 26 implies (bit_set(mask_of(s), j) <==> letters_of(s).contains(
            j,
        )) by {
            assert(bit_set(m0 | cm, j) == (bit_set(m0, j) || bit_set(cm, j))) by (bit_vector);
            if is_lower_letter(c) {
                let e = (c as u32 - 97) as u32;
                assert(bit_set(1u32 << e, j) <==> e == j) by (bit_vector)
                    requires
                        e < 26u32,
                        j < 26u32,
                ;
            } else {
                assert(!bit_set(0u32, j)) by (bit_vector);
            }
            assert(bit_set(cm, j) <==> (c as u32 == j + 97));
            if letters_of(d).contains(j) {
                let k = choose|k: int| 0 <= k < d.len() && d[k] as u32 == j + 97;
                assert(s[k] as u32 == j + 97);
                assert(letters_of(s).contains(j));
            }
            if c as u32 == j + 97 {
                assert(s[s.len() - 1] as u32 == j + 97);
                assert(letters_of(s).contains(j));
            }
            if letters_of(s).contains(j) {
                let k = choose|k: int| 0 <= k < s.len() && s[k] as u32 == j + 97;
                if k < s.len() - 1 {
                    assert(d[k] as u32 == j + 97);
                    assert(letters_of(d).contains(j));
                } else {
                    assert(c as u32 == j + 97);
                }
            }
        }
    }
}

/// Two well-formed masks with the same bits are the same value.
pub proof fn lemma_mask_ext(a: u32, b: u32)
    requires
        mask_inv(a),
        mask_inv(b),
        forall|j: u32| j < 26 ==> bit_set(a, j) == bit_set(b, j),
    ensures
        a == b,
{
    lemma_mask_ext_rec(a, b, 26);
}

proof fn lemma_mask_ext_rec(a: u32, b: u32, n: u32)
    requires
        n <= 26,
        a >> n == b >> n,
        forall|j: u32| j < n ==> bit_set(a, j) == bit_set(b, j),
    ensures
        a == b,
    decreases n,
{
    if n == 0 {
        assert(a == b) by (bit_vector)
            requires
                a >> 0u32 == b >> 0u32,
        ;
    } else {
        let m = (n - 1) as u32;
        assert(bit_set(a, m) == bit_set(b, m));
        assert(a >> m == b >> m) by (bit_vector)
            requires
                a >> n == b >> n,
                ((a >> m) & 1u32 == 1u32) == ((b >> m) & 1u32 == 1u32),
                n == m + 1,
                n <= 26u32,
        ;
        lemma_mask_ext_rec(a, b, m);
    }
}

/// The empty mask has no set bits.
pub proof fn lemma_pop_zero()
    ensures
        pop(0u32) == 0,
{
    lemma_pop_count_zero(32);
}

proof fn lemma_pop_count_zero(n: u32)
    ensures
        pop_count(0u32, n) == 0,
    decreases n,
{
    if n > 0 {
        let m = (n - 1) as u32;
        assert(!bit_set(0u32, m)) by (bit_vector);
        lemma_pop_count_zero(m);
    }
}

/// Disjoint masks add their bit counts.
pub proof fn lemma_pop_or_disjoint(a: u32, b: u32)
    requires
        a & b == 0u32,
    ensures
        pop(a | b) == pop(a) + pop(b),
{
    lemma_pop_or_rec(a, b, 32);
}

proof fn lemma_pop_or_rec(a: u32, b: u32, n: u32)
    requires
        n <= 32,
        a & b == 0u32,
    ensures
        pop_count(a | b, n) == pop_count(a, n) + pop_count(b, n),
    decreases n,
{
    if n > 0 {
        let m = (n - 1) as u32;
        lemma_pop_or_rec(a, b, m);
        assert(bit_set(a | b, m) == (bit_set(a, m) || bit_set(b, m))) by (bit_vector);
        assert(!(bit_set(a, m) && bit_set(b, m))) by (bit_vector)
            requires
                a & b == 0u32,
        ;
    }
}

proof fn lemma_pop_count_card(m: u32, n: u32)
    requires
        n <= 26,
    ensures
        Set::new(|j: u32| j < n && bit_set(m, j)).finite(),
        pop_count(m, n) == Set::new(|j: u32| j < n && bit_set(m, j)).len(),
    decreases n,
{
    let sn = Set::new(|j: u32| j < n && bit_set(m, j));
    if n == 0 {
        assert(sn =~= Set::<u32>::empty());
    } else {
        let p = (n - 1) as u32;
        lemma_pop_count_card(m, p);
        let sp = Set::new(|j: u32| j < p && bit_set(m, j));
        if bit_set(m, p) {
            assert(sn =~= sp.insert(p));
            assert(!sp.contains(p));
        } else {
            assert(sn =~= sp);
        }
    }
}

proof fn lemma_pop_high_zero(m: u32, n: u32)
    requires
        mask_inv(m),
        26 <= n <= 32,
    ensures
        pop_count(m, n) == pop_count(m, 26),
    decreases n,
{
    if n > 26 {
        let p = (n - 1) as u32;
        assert(!bit_set(m, p)) by (bit_vector)
            requires
                m >> 26u32 == 0u32,
                26 <= p < 32u32,
        ;
        lemma_pop_high_zero(m, p);
    }
}

/// The bit count of a well-formed mask is the size of its letter set.
pub proof fn lemma_pop_is_card(m: u32)
    requires
        mask_inv(m),
    ensures
        letters_of_mask(m).finite(),
        pop(m) == letters_of_mask(m).len(),
{
    lemma_pop_high_zero(m, 32);
    lemma_pop_count_card(m, 26);
    assert(letters_of_mask(m) =~= Set::new(|j: u32| j < 26 && bit_set(m, j)));
}

/// Permutation invariance: two strings made of the same characters (whatever
/// the order or repetition) have the same letter-content mask.
pub proof fn lemma_anagram_same_mask(s1: Seq<char>, s2: Seq<char>)
    requires
        forall|c: char| s1.contains(c) == s2.contains(c),
    ensures
        mask_of(s1) == mask_of(s2),
{
    lemma_mask_of_bits(s1);
    lemma_mask_of_bits(s2);
    assert forall|j: u32| j < 26 implies bit_set(mask_of(s1), j) == bit_set(mask_of(s2), j) by {
        if letters_of(s1).contains(j) {
            let k = choose|k: int| 0 <= k < s1.len() && s1[k] as u32 == j + 97;
            assert(s1.contains(s1[k]));
            let k2 = choose|k2: int| 0 <= k2 < s2.len() && s2[k2] == s1[k];
            assert(s2[k2] as u32 == j + 97);
            assert(letters_of(s2).contains(j));
        }
        if letters_of(s2).contains(j) {
            let k = choose|k: int| 0 <= k < s2.len() && s2[k] as u32 == j + 97;
            assert(s2.contains(s2[k]));
            let k1 = choose|k1: int| 0 <= k1 < s1.len() && s1[k1] == s2[k];
            assert(s1[k1] as u32 == j + 97);
            assert(letters_of(s1).contains(j));
        }
    }
    lemma_mask_ext(mask_of(s1), mask_of(s2));
}

/// Population correctness: the bit count of a string's mask is the number of
/// distinct letters occurring in the string.
pub proof fn lemma_population_distinct(s: Seq<char>)
    ensures
        letters_of(s).finite(),
        pop(mask_of(s)) == letters_of(s).len(),
{
    lemma_mask_of_bits(s);
    lemma_pop_is_card(mask_of(s));
    assert(letters_of_mask(mask_of(s)) =~= letters_of(s));
}

/// Overlap correctness: two well-formed masks overlap exactly when they share
/// a set bit, and no mask overlaps the empty mask.
pub proof fn lemma_overlaps_iff(a: u32, b: u32)
    requires
        mask_inv(a),
        mask_inv(b),
    ensures
        ((a & b) != 0u32) <==> exists|j: u32| j < 26 && bit_set(a, j) && bit_set(b, j),
        (a & 0u32) == 0u32,
{
    assert((a & 0u32) == 0u32) by (bit_vector);
    if exists|j: u32| j < 26 && bit_set(a, j) && bit_set(b, j) {
        let j = choose|j: u32| j < 26 && bit_set(a, j) && bit_set(b, j);
        assert((a & b) != 0u32) by (bit_vector)
            requires
                j < 26u32,
                (a >> j) & 1u32 == 1u32,
                (b >> j) & 1u32 == 1u32,
        ;
    }
    if (a & b) != 0u32 {
        assert(mask_inv(a & b)) by (bit_vector)
            requires
                a >> 26u32 == 0u32,
        ;
        if !(exists|j: u32| j < 26 && bit_set(a, j) && bit_set(b, j)) {
            assert forall|j: u32| j < 26 implies bit_set(a & b, j) == bit_set(0u32, j) by {
                assert(bit_set(a & b, j) == (bit_set(a, j) && bit_set(b, j))) by (bit_vector);
                assert(!bit_set(0u32, j)) by (bit_vector);
            }
            assert(mask_inv(0u32)) by (bit_vector);
            lemma_mask_ext(a & b, 0u32);
            assert(false);
        }
    }
}

} // verus!
