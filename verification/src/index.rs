//! Groups candidate words by identical letter content (anagram groups).
//!
//! Two words belong to the same group exactly when their letter-content
//! masks coincide.  The index keeps one key per distinct mask, in order of
//! first occurrence, and every word of the input in the group of its key,
//! in input order.

use crate::letter_set::{lemma_eq_is_mask_eq, LetterSet};
use crate::search::masks_of;
use crate::word::Word;
use vstd::prelude::*;

verus! {

/// The mask of each word of a sequence.
pub open spec fn word_masks(ws: Seq<Word>) -> Seq<u32> {
    ws.map_values(|w: Word| w.letters@)
}

/// The view of a word: its text and its mask.
pub open spec fn word_view(w: Word) -> (Seq<char>, u32) {
    (w.word@, w.letters@)
}

/// The views of a sequence of words.
pub open spec fn word_views(ws: Seq<Word>) -> Seq<(Seq<char>, u32)> {
    ws.map_values(|w: Word| word_view(w))
}

/// The mask of each word view of a sequence.
pub open spec fn pair_masks(ws: Seq<(Seq<char>, u32)>) -> Seq<u32> {
    ws.map_values(|p: (Seq<char>, u32)| p.1)
}

/// The distinct masks of `s`, in order of first occurrence.
pub open spec fn distinct_firsts(s: Seq<u32>) -> Seq<u32>
    decreases s.len(),
{
    if s.len() == 0 {
        Seq::empty()
    } else {
        let d = distinct_firsts(s.drop_last());
        if d.contains(s.last()) {
            d
        } else {
            d.push(s.last())
        }
    }
}

/// The word views whose mask is `m`, in input order.
pub open spec fn group_of(ws: Seq<(Seq<char>, u32)>, m: u32) -> Seq<(Seq<char>, u32)>
    decreases ws.len(),
{
    if ws.len() == 0 {
        Seq::empty()
    } else {
        let r = group_of(ws.drop_last(), m);
        if ws.last().1 == m {
            r.push(ws.last())
        } else {
            r
        }
    }
}

/// The total size of the groups of a key list.
pub open spec fn sum_group_sizes(keys: Seq<u32>, ws: Seq<(Seq<char>, u32)>) -> nat
    decreases keys.len(),
{
    if keys.len() == 0 {
        0nat
    } else {
        sum_group_sizes(keys.drop_last(), ws) + group_of(ws, keys.last()).len()
    }
}

fn contains_key(keys: &Vec<LetterSet>, m: LetterSet) -> (r: bool)
    ensures
        r == masks_of(keys@).contains(m@),
{
    let mut j: usize = 0;
    while j < keys.len()
        invariant
            j <= keys@.len(),
            forall|q: int| 0 <= q < j ==> #[trigger] masks_of(keys@)[q] != m@,
        decreases keys@.len() - j,
    {
        if keys[j] == m {
            proof {
                lemma_eq_is_mask_eq(keys@[j as int], m);
                assert(masks_of(keys@)[j as int] == m@);
            }
            return true;
        }
        proof {
            lemma_eq_is_mask_eq(keys@[j as int], m);
        }
        j = j + 1;
    }
    proof {
        if masks_of(keys@).contains(m@) {
            let q = choose|q: int|
                0 <= q < masks_of(keys@).len() && masks_of(keys@)[q] == m@;
            assert(masks_of(keys@)[q] != m@);
        }
    }
    false
}

/// A mapping from letter-content key to the non-empty, ordered group of
/// words sharing that exact content.
pub struct AnagramIndex {
    keys: Vec<LetterSet>,
    groups: Vec<Vec<Word>>,
}

impl AnagramIndex {
    /// The distinct letter-content keys, in order of first occurrence.
    pub closed spec fn keys_view(&self) -> Seq<u32> {
        masks_of(self.keys@)
    }

    /// The word groups, one per key, in the same order.
    pub closed spec fn group_views(&self) -> Seq<Seq<(Seq<char>, u32)>> {
        self.groups@.map_values(|g: Vec<Word>| word_views(g@))
    }

    /// Well-formedness: keys are unique, and each key has a non-empty group.
    pub open spec fn inv(&self) -> bool {
        &&& self.keys_view().no_duplicates()
        &&& self.group_views().len() == self.keys_view().len()
        &&& forall|j: int| 0 <= j < self.group_views().len() ==> (#[trigger] self.group_views()[j]).len() >= 1
    }

    /// Builds the index from an ordered candidate list: one key per distinct
    /// letter content, in order of first occurrence, each mapped to every
    /// word of that content, in input order.
    pub fn build(words: &Vec<Word>) -> (r: Self)
        ensures
            r.inv(),
            r.keys_view() == distinct_firsts(word_masks(words@)),
            forall|j: int|
                0 <= j < r.keys_view().len() ==> #[trigger] r.group_views()[j] == group_of(
                    word_views(words@),
                    r.keys_view()[j],
                ),
    {
        let mut keys: Vec<LetterSet> = Vec::new();
        let mut i: usize = 0;
        proof {
            assert(word_masks(words@.take(0)) =~= Seq::<u32>::empty());
            assert(masks_of(keys@) =~= Seq::<u32>::empty());
        }
        while i < words.len()
            invariant
                i <= words@.len(),
                masks_of(keys@) == distinct_firsts(word_masks(words@.take(i as int))),
            decreases words@.len() - i,
        {
            let m = words[i].letters;
            let found = contains_key(&keys, m);
            proof {
                let pre = word_masks(words@.take(i as int));
                let ext = word_masks(words@.take(i as int + 1));
                assert(ext.drop_last() =~= pre);
                assert(ext.last() == words@[i as int].letters@);
                assert(found == distinct_firsts(pre).contains(m@));
            }
            if !found {
                let ghost old_keys = keys@;
                keys.push(m);
                proof {
                    assert(masks_of(keys@) =~= masks_of(old_keys).push(m@));
                }
            }
            i = i + 1;
        }
        proof {
            assert(words@.take(words@.len() as int) =~= words@);
        }
        let ghost all_keys = masks_of(keys@);
        let mut groups: Vec<Vec<Word>> = Vec::new();
        let mut j: usize = 0;
        while j < keys.len()
            invariant
                j <= keys@.len(),
                groups@.len() == j,
                masks_of(keys@) == all_keys,
                all_keys == distinct_firsts(word_masks(words@)),
                forall|q: int|
                    0 <= q < j ==> word_views((#[trigger] groups@[q])@) == group_of(
                        word_views(words@),
                        all_keys[q],
                    ),
            decreases keys@.len() - j,
        {
            let key = keys[j];
            let mut g: Vec<Word> = Vec::new();
            let mut k: usize = 0;
            proof {
                assert(word_views(words@.take(0)) =~= Seq::<(Seq<char>, u32)>::empty());
                assert(word_views(g@) =~= Seq::<(Seq<char>, u32)>::empty());
            }
            while k < words.len()
                invariant
                    k <= words@.len(),
                    key == keys@[j as int],
                    j < keys@.len(),
                    word_views(g@) == group_of(word_views(words@.take(k as int)), key@),
                decreases words@.len() - k,
            {
                let w = &words[k];
                proof {
                    let pre = word_views(words@.take(k as int));
                    let ext = word_views(words@.take(k as int + 1));
                    assert(ext.drop_last() =~= pre);
                    assert(ext.last() == word_view(words@[k as int]));
                    lemma_eq_is_mask_eq(words@[k as int].letters, key);
                }
                if w.letters == key {
                    let ghost old_g = g@;
                    g.push(w.clone());
                    proof {
                        assert(word_views(g@) =~= word_views(old_g).push(
                            word_view(words@[k as int]),
                        ));
                    }
                }
                k = k + 1;
            }
            proof {
                assert(words@.take(words@.len() as int) =~= words@);
            }
            groups.push(g);
            j = j + 1;
        }
        let r = AnagramIndex { keys, groups };
        proof {
            lemma_distinct_firsts_props(word_masks(words@));
            assert forall|q: int| 0 <= q < r.group_views().len() implies (
            #[trigger] r.group_views()[q]).len() >= 1 by {
                assert(r.group_views()[q] == group_of(word_views(words@), all_keys[q]));
                assert(all_keys.contains(all_keys[q]));
                assert(word_masks(words@).contains(all_keys[q]));
                let wi = choose|wi: int|
                    0 <= wi < word_masks(words@).len() && word_masks(words@)[wi] == all_keys[q];
                assert(word_views(words@)[wi].1 == all_keys[q]);
                lemma_group_nonempty(word_views(words@), all_keys[q]);
            }
        }
        r
    }

    /// The distinct letter-content keys, in the order first encountered.
    pub fn keys(&self) -> (r: &Vec<LetterSet>)
        ensures
            masks_of(r@) == self.keys_view(),
    {
        &self.keys
    }

    /// The full anagram group of a key, or nothing when the key is absent.
    pub fn words_for(&self, key: LetterSet) -> (r: Option<&Vec<Word>>)
        requires
            self.inv(),
        ensures
            match r {
                Some(g) => exists|j: int|
                    0 <= j < self.keys_view().len() && #[trigger] self.keys_view()[j] == key@
                        && word_views(g@) == self.group_views()[j],
                None => !self.keys_view().contains(key@),
            },
    {
        proof {
            assert(self.groups@.len() == self.keys@.len());
        }
        let mut j: usize = 0;
        while j < self.keys.len()
            invariant
                j <= self.keys@.len(),
                self.groups@.len() == self.keys@.len(),
                forall|q: int| 0 <= q < j ==> #[trigger] self.keys_view()[q] != key@,
            decreases self.keys@.len() - j,
        {
            if self.keys[j] == key {
                proof {
                    lemma_eq_is_mask_eq(self.keys@[j as int], key);
                    assert(self.keys_view()[j as int] == key@);
                    assert(self.group_views()[j as int] == word_views(self.groups@[j as int]@));
                }
                return Some(&self.groups[j]);
            }
            proof {
                lemma_eq_is_mask_eq(self.keys@[j as int], key);
            }
            j = j + 1;
        }
        proof {
            if self.keys_view().contains(key@) {
                let q = choose|q: int|
                    0 <= q < self.keys_view().len() && self.keys_view()[q] == key@;
                assert(self.keys_view()[q] != key@);
            }
        }
        None
    }
}

/// The distinct-firsts list has no duplicates and holds exactly the masks of
/// the input.
pub proof fn lemma_distinct_firsts_props(s: Seq<u32>)
    ensures
        distinct_firsts(s).no_duplicates(),
        forall|x: u32| distinct_firsts(s).contains(x) == s.contains(x),
    decreases s.len(),
{
    if s.len() > 0 {
        let dl = s.drop_last();
        let l = s.last();
        let d0 = distinct_firsts(dl);
        let d = distinct_firsts(s);
        lemma_distinct_firsts_props(dl);
        assert forall|x: u32| d.contains(x) == s.contains(x) by {
            if s.contains(x) {
                let k = choose|k: int| 0 <= k < s.len() && s[k] == x;
                if k < s.len() - 1 {
                    assert(dl[k] == x);
                    assert(dl.contains(x));
                    assert(d0.contains(x));
                    if !d0.contains(l) {
                        let q = choose|q: int| 0 <= q < d0.len() && d0[q] == x;
                        assert(d[q] == x);
                    }
                    assert(d.contains(x));
                } else {
                    assert(x == l);
                    if d0.contains(l) {
                        assert(d.contains(x));
                    } else {
                        assert(d[d0.len() as int] == l);
                        assert(d.contains(x));
                    }
                }
            }
            if d.contains(x) {
                let q = choose|q: int| 0 <= q < d.len() && d[q] == x;
                if q < d0.len() {
                    assert(d0[q] == x);
                    assert(d0.contains(x));
                    assert(dl.contains(x));
                    let k = choose|k: int| 0 <= k < dl.len() && dl[k] == x;
                    assert(s[k] == x);
                    assert(s.contains(x));
                } else {
                    assert(x == l);
                    assert(s[s.len() - 1] == x);
                    assert(s.contains(x));
                }
            }
        }
        if !d0.contains(l) {
            assert forall|a: int, b: int|
                0 <= a < d.len() && 0 <= b < d.len() && a != b implies d[a] != d[b] by {
                if a < d0.len() && b < d0.len() {
                } else if a < d0.len() {
                    assert(d[b] == l);
                    assert(d0[a] == d[a]);
                    if d[a] == l {
                        assert(d0.contains(l));
                    }
                } else {
                    assert(d[a] == l);
                    assert(d0[b] == d[b]);
                    if d[b] == l {
                        assert(d0.contains(l));
                    }
                }
            }
        }
    }
}

proof fn lemma_group_push(ws: Seq<(Seq<char>, u32)>, x: (Seq<char>, u32), m: u32)
    ensures
        group_of(ws.push(x), m) == if x.1 == m {
            group_of(ws, m).push(x)
        } else {
            group_of(ws, m)
        },
{
    assert(ws.push(x).drop_last() =~= ws);
    assert(ws.push(x).last() == x);
}

/// A mask that occurs in the input has a non-empty group.
pub proof fn lemma_group_nonempty(ws: Seq<(Seq<char>, u32)>, m: u32)
    requires
        exists|i: int| 0 <= i < ws.len() && #[trigger] ws[i].1 == m,
    ensures
        group_of(ws, m).len() >= 1,
    decreases ws.len(),
{
    let i = choose|i: int| 0 <= i < ws.len() && #[trigger] ws[i].1 == m;
    if i == ws.len() - 1 {
    } else {
        assert(ws.drop_last()[i].1 == m);
        lemma_group_nonempty(ws.drop_last(), m);
    }
}

/// A mask that does not occur in the input has an empty group.
pub proof fn lemma_group_absent(ws: Seq<(Seq<char>, u32)>, m: u32)
    requires
        forall|i: int| 0 <= i < ws.len() ==> #[trigger] ws[i].1 != m,
    ensures
        group_of(ws, m).len() == 0,
    decreases ws.len(),
{
    if ws.len() > 0 {
        assert(ws[ws.len() - 1].1 != m);
        assert forall|i: int| 0 <= i < ws.drop_last().len() implies #[trigger] ws.drop_last()[i].1
            != m by {
            assert(ws[i].1 != m);
        }
        lemma_group_absent(ws.drop_last(), m);
    }
}

proof fn lemma_sum_empty(keys: Seq<u32>)
    ensures
        sum_group_sizes(keys, Seq::empty()) == 0,
    decreases keys.len(),
{
    if keys.len() > 0 {
        lemma_sum_empty(keys.drop_last());
    }
}

proof fn lemma_sum_push(keys: Seq<u32>, ws: Seq<(Seq<char>, u32)>, x: (Seq<char>, u32))
    requires
        keys.no_duplicates(),
    ensures
        sum_group_sizes(keys, ws.push(x)) == sum_group_sizes(keys, ws) + if keys.contains(x.1) {
            1nat
        } else {
            0nat
        },
    decreases keys.len(),
{
    if keys.len() == 0 {
        if keys.contains(x.1) {
            let i = choose|i: int| 0 <= i < keys.len() && keys[i] == x.1;
        }
    } else {
        let dk = keys.drop_last();
        let kl = keys.last();
        assert forall|a: int, b: int|
            0 <= a < dk.len() && 0 <= b < dk.len() && a != b implies dk[a] != dk[b] by {
            assert(keys[a] == dk[a]);
            assert(keys[b] == dk[b]);
        }
        lemma_sum_push(dk, ws, x);
        lemma_group_push(ws, x, kl);
        if x.1 == kl {
            assert(!dk.contains(x.1)) by {
                if dk.contains(x.1) {
                    let i = choose|i: int| 0 <= i < dk.len() && dk[i] == x.1;
                    assert(keys[i] == keys[keys.len() - 1]);
                }
            }
            assert(keys[keys.len() - 1] == kl);
            assert(keys.contains(x.1));
        } else {
            assert(keys.contains(x.1) == dk.contains(x.1)) by {
                if keys.contains(x.1) {
                    let i = choose|i: int| 0 <= i < keys.len() && keys[i] == x.1;
                    assert(i < keys.len() - 1);
                    assert(dk[i] == x.1);
                    assert(dk.contains(x.1));
                }
                if dk.contains(x.1) {
                    let i = choose|i: int| 0 <= i < dk.len() && dk[i] == x.1;
                    assert(keys[i] == x.1);
                    assert(keys.contains(x.1));
                }
            }
        }
    }
}

/// Grouping: building over `n` word views with `k` distinct letter contents
/// yields exactly `k` unique keys, each with a non-empty group, and the
/// group sizes add up to `n`.
pub proof fn lemma_grouping(ws: Seq<(Seq<char>, u32)>, ks: Seq<u32>)
    requires
        ks == distinct_firsts(pair_masks(ws)),
    ensures
        ks.no_duplicates(),
        ks.len() == pair_masks(ws).to_set().len(),
        forall|x: u32| ks.contains(x) == pair_masks(ws).contains(x),
        forall|j: int| 0 <= j < ks.len() ==> group_of(ws, #[trigger] ks[j]).len() >= 1,
        sum_group_sizes(ks, ws) == ws.len(),
    decreases ws.len(),
{
    let ms = pair_masks(ws);
    lemma_distinct_firsts_props(ms);
    ks.unique_seq_to_set();
    assert(ks.to_set() =~= ms.to_set());
    assert forall|j: int| 0 <= j < ks.len() implies group_of(ws, #[trigger] ks[j]).len() >= 1 by {
        assert(ks.contains(ks[j]));
        assert(ms.contains(ks[j]));
        let i = choose|i: int| 0 <= i < ms.len() && ms[i] == ks[j];
        assert(ws[i].1 == ks[j]);
        lemma_group_nonempty(ws, ks[j]);
    }
    if ws.len() == 0 {
        assert(ms =~= Seq::<u32>::empty());
        lemma_sum_empty(ks);
        assert(ws =~= Seq::<(Seq<char>, u32)>::empty());
    } else {
        let dw = ws.drop_last();
        let x = ws.last();
        let ms0 = pair_masks(dw);
        assert(ms.drop_last() =~= ms0);
        assert(ms.last() == x.1);
        let ks0 = distinct_firsts(ms0);
        lemma_grouping(dw, ks0);
        lemma_distinct_firsts_props(ms0);
        assert(ws =~= dw.push(x));
        if ks0.contains(x.1) {
            assert(ks == ks0);
            lemma_sum_push(ks0, dw, x);
        } else {
            assert(ks == ks0.push(x.1));
            lemma_sum_push(ks0, dw, x);
            assert(sum_group_sizes(ks0, dw.push(x)) == sum_group_sizes(ks0, dw));
            assert(ks.drop_last() =~= ks0);
            assert(ks.last() == x.1);
            assert(sum_group_sizes(ks, ws) == sum_group_sizes(ks0, ws) + group_of(ws, x.1).len());
            assert(!ms0.contains(x.1));
            assert forall|i: int| 0 <= i < dw.len() implies #[trigger] dw[i].1 != x.1 by {
                if dw[i].1 == x.1 {
                    assert(ms0[i] == x.1);
                    assert(ms0.contains(x.1));
                }
            }
            lemma_group_absent(dw, x.1);
            lemma_group_push(dw, x, x.1);
        }
    }
}

} // verus!
