//! Dictionaries: sets of words, and a dictionary grouped by word length.
use crate::curated::{listed, THREE_LETTER_WORDS, TWO_LETTER_WORDS};
use std::collections::HashMap;
use vstd::prelude::*;
use vstd::slice::slice_to_vec;

verus! {

broadcast use vstd::std_specs::hash::group_hash_axioms;

/// One step of the 64-bit FNV-1a hash.
pub open spec fn hash_step(h: u64, b: u8) -> u64 {
    vstd::wrapping::u64_specs::wrapping_mul(h ^ (b as u64), 0x100_0000_01b3)
}

/// The 64-bit FNV-1a hash of a word.
pub open spec fn word_hash(w: Seq<u8>) -> u64
    decreases w.len(),
{
    if w.len() == 0 {
        0xcbf2_9ce4_8422_2325
    } else {
        hash_step(word_hash(w.drop_last()), w.last())
    }
}

/// Computes [`word_hash`].
pub fn hash_word(word: &[u8]) -> (h: u64)
    ensures
        h == word_hash(word@),
{
    let mut h: u64 = 0xcbf2_9ce4_8422_2325;
    let mut i: usize = 0;
    while i < word.len()
        invariant
            i <= word.len(),
            h == word_hash(word@.take(i as int)),
        decreases word.len() - i,
    {
        assert(word@.take(i + 1).drop_last() =~= word@.take(i as int));
        h = (h ^ (word[i] as u64)).wrapping_mul(0x100_0000_01b3);
        i += 1;
    }
    assert(word@.take(i as int) =~= word@);
    h
}

/// Whether two byte strings hold the same bytes.
pub fn same_bytes(a: &[u8], b: &[u8]) -> (r: bool)
    ensures
        r == (a@ == b@),
{
    if a.len() != b.len() {
        return false;
    }
    let mut i: usize = 0;
    while i < a.len()
        invariant
            i <= a.len(),
            a.len() == b.len(),
            forall|j: int| 0 <= j < i ==> a[j] == b[j],
        decreases a.len() - i,
    {
        if a[i] != b[i] {
            return false;
        }
        i += 1;
    }
    assert(a@ =~= b@);
    true
}

/// `w` is one of the words of `chain`.
pub open spec fn chain_has(chain: Seq<Vec<u8>>, w: Seq<u8>) -> bool {
    exists|j: int| 0 <= j < chain.len() && (#[trigger] chain[j])@ == w
}

fn chain_contains(chain: &Vec<Vec<u8>>, word: &[u8]) -> (r: bool)
    ensures
        r == chain_has(chain@, word@),
{
    let mut j: usize = 0;
    while j < chain.len()
        invariant
            j <= chain.len(),
            forall|i: int| 0 <= i < j ==> (#[trigger] chain[i])@ != word@,
        decreases chain.len() - j,
    {
        if same_bytes(chain[j].as_slice(), word) {
            return true;
        }
        j += 1;
    }
    false
}

/// A finite set of words. Words are filed under their hash, so that a lookup
/// reads one short chain.
pub struct WordSet {
    chains: HashMap<u64, Vec<Vec<u8>>>,
}

impl View for WordSet {
    type V = Set<Seq<u8>>;

    closed spec fn view(&self) -> Set<Seq<u8>> {
        Set::new(
            |w: Seq<u8>|
                self.chains@.contains_key(word_hash(w)) && chain_has(
                    self.chains@[word_hash(w)]@,
                    w,
                ),
        )
    }
}

impl WordSet {
    /// The empty set.
    pub fn new() -> (r: WordSet)
        ensures
            r@ == Set::<Seq<u8>>::empty(),
    {
        WordSet { chains: HashMap::new() }
    }

    /// Whether `word` is in the set.
    pub fn contains(&self, word: &[u8]) -> (r: bool)
        ensures
            r == self@.contains(word@),
    {
        let h: u64 = hash_word(word);
        match self.chains.get(&h) {
            Some(chain) => chain_contains(chain, word),
            None => false,
        }
    }

    /// Adds `word` to the set.
    pub fn insert(&mut self, word: &[u8])
        ensures
            final(self)@ == old(self)@.insert(word@),
    {
        let h: u64 = hash_word(word);
        let mut chain: Vec<Vec<u8>> = match self.chains.remove(&h) {
            Some(chain) => chain,
            None => Vec::new(),
        };
        let ghost before = chain@;
        if !chain_contains(&chain, word) {
            chain.push(slice_to_vec(word));
        }
        proof {
            assert forall|w: Seq<u8>| chain_has(chain@, w) == (chain_has(before, w) || w == word@) by {
                if chain_has(before, w) {
                    let j = choose|j: int| 0 <= j < before.len() && (#[trigger] before[j])@ == w;
                    assert(chain@[j]@ == w);
                }
                if w == word@ {
                    if chain@.len() > before.len() {
                        assert(chain@[before.len() as int]@ == w);
                    }
                }
                if chain_has(chain@, w) {
                    let j = choose|j: int| 0 <= j < chain@.len() && (#[trigger] chain@[j])@ == w;
                    if j < before.len() {
                        assert(before[j]@ == w);
                    }
                }
            }
        }
        self.chains.insert(h, chain);
    }
}

/// The members of `words` that have `length` bytes.
pub open spec fn of_length(words: Set<Seq<u8>>, length: int) -> Set<Seq<u8>> {
    Set::new(|w: Seq<u8>| w.len() == length && words.contains(w))
}

/// Whether `word` is in the bucket for its length. A word longer than every
/// bucket is in none.
pub open spec fn in_index(index: Seq<Set<Seq<u8>>>, word: Seq<u8>) -> bool {
    word.len() < index.len() && index[word.len() as int].contains(word)
}

/// A dictionary grouped by word length: bucket `n` holds words of exactly `n`
/// bytes.
pub struct WordIndex {
    buckets: Vec<WordSet>,
}

impl View for WordIndex {
    type V = Seq<Set<Seq<u8>>>;

    closed spec fn view(&self) -> Seq<Set<Seq<u8>>> {
        Seq::new(self.buckets@.len(), |n: int| of_length(self.buckets@[n]@, n))
    }
}

impl WordIndex {
    /// Every word is as long as the number of its bucket.
    pub proof fn lemma_lengths(&self)
        ensures
            forall|n: int, w: Seq<u8>|
                0 <= n < self@.len() && #[trigger] self@[n].contains(w) ==> w.len() == n,
    {
    }

    /// An index with empty buckets for the lengths `0..=max_length`.
    pub fn new(max_length: usize) -> (r: WordIndex)
        requires
            max_length < usize::MAX,
        ensures
            r@ == Seq::new((max_length + 1) as nat, |n: int| Set::<Seq<u8>>::empty()),
    {
        let mut buckets: Vec<WordSet> = Vec::new();
        let mut n: usize = 0;
        while n <= max_length
            invariant
                n <= max_length + 1,
                max_length < usize::MAX,
                buckets@.len() == n,
                forall|i: int| 0 <= i < n ==> (#[trigger] buckets@[i])@ == Set::<Seq<u8>>::empty(),
            decreases max_length + 1 - n,
        {
            buckets.push(WordSet::new());
            n += 1;
        }
        let r = WordIndex { buckets };
        assert(r@ =~~= Seq::new((max_length + 1) as nat, |n: int| Set::<Seq<u8>>::empty()));
        r
    }

    /// The number of buckets: one more than the longest length provided for.
    pub fn len(&self) -> (r: usize)
        ensures
            r == self@.len(),
    {
        self.buckets.len()
    }

    /// Whether `word` is in the bucket for its length.
    pub fn contains(&self, word: &[u8]) -> (r: bool)
        ensures
            r == in_index(self@, word@),
    {
        if word.len() < self.buckets.len() {
            self.buckets[word.len()].contains(word)
        } else {
            false
        }
    }

    /// Files `word` in the bucket for its length. A word that is longer than
    /// every bucket is left out, and `false` is returned.
    pub fn insert(&mut self, word: &[u8]) -> (r: bool)
        ensures
            r == (word@.len() < old(self)@.len()),
            final(self)@ == (if r {
                old(self)@.update(word@.len() as int, old(self)@[word@.len() as int].insert(word@))
            } else {
                old(self)@
            }),
    {
        let n: usize = word.len();
        if n < self.buckets.len() {
            self.buckets[n].insert(word);
            assert(self@ =~~= old(self)@.update(n as int, old(self)@[n as int].insert(word@)));
            true
        } else {
            false
        }
    }

    /// Replaces the bucket for `length` by the words of `words` that have that
    /// length. Nothing happens when there is no such bucket.
    pub fn replace_bucket(&mut self, length: usize, words: WordSet)
        ensures
            final(self)@ == (if length < old(self)@.len() {
                old(self)@.update(length as int, of_length(words@, length as int))
            } else {
                old(self)@
            }),
    {
        if length < self.buckets.len() {
            self.buckets[length] = words;
        }
    }
}

/// The bytes that end a line of the dictionary.
pub open spec fn is_line_break(b: u8) -> bool {
    b == 0x0a || b == 0x0d
}

/// `text[start..end]` is a whole line: it runs from the start of the text or
/// a line break to the next line break or the end of the text.
pub open spec fn is_line(text: Seq<u8>, start: int, end: int) -> bool {
    &&& 0 <= start <= end <= text.len()
    &&& start == 0 || is_line_break(text[start - 1])
    &&& end == text.len() || is_line_break(text[end])
    &&& forall|j: int| start <= j < end ==> !is_line_break(#[trigger] text[j])
}

/// `w` is a line of `text` that ends before position `limit`.
pub open spec fn has_line_before(text: Seq<u8>, w: Seq<u8>, limit: int) -> bool {
    exists|start: int, end: int|
        #![trigger is_line(text, start, end)]
        is_line(text, start, end) && end < limit && text.subrange(start, end) == w
}

/// `w` is a line of `text`.
pub open spec fn has_line(text: Seq<u8>, w: Seq<u8>) -> bool {
    has_line_before(text, w, text.len() as int + 1)
}

/// The non-empty lines of `text` of at most `max_length` bytes, by length.
pub open spec fn lines_by_length(text: Seq<u8>, max_length: nat) -> Seq<Set<Seq<u8>>> {
    lines_before(text, max_length, text.len() as int + 1)
}

/// The non-empty lines of `text` of at most `max_length` bytes that end
/// before position `limit`, by length.
pub open spec fn lines_before(text: Seq<u8>, max_length: nat, limit: int) -> Seq<Set<Seq<u8>>> {
    Seq::new(
        max_length + 1,
        |n: int| Set::new(|w: Seq<u8>| w.len() == n && n > 0 && has_line_before(text, w, limit)),
    )
}

/// The dictionary that [`words_by_length`] builds: the lines of `text` by
/// length, but for the lengths two and three, where the curated lists stand.
pub open spec fn dictionary_index(text: Seq<u8>, max_length: nat) -> Seq<Set<Seq<u8>>> {
    Seq::new(
        max_length + 1,
        |n: int|
            if n == 2 {
                listed(TWO_LETTER_WORDS)
            } else if n == 3 {
                listed(THREE_LETTER_WORDS)
            } else {
                lines_by_length(text, max_length)[n]
            },
    )
}

/// In words: a word is in the dictionary when it has at most `max_length`
/// bytes and is one of the curated words, if it has two or three bytes, or
/// else a non-empty line of `text`.
pub proof fn lemma_dictionary_index(text: Seq<u8>, max_length: nat, w: Seq<u8>)
    ensures
        in_index(dictionary_index(text, max_length), w) <==> w.len() <= max_length && (if w.len()
            == 2 {
            listed(TWO_LETTER_WORDS).contains(w)
        } else if w.len() == 3 {
            listed(THREE_LETTER_WORDS).contains(w)
        } else {
            w.len() > 0 && has_line(text, w)
        }),
{
}

/// The words of a fixed list as a set.
pub fn word_set_of<const LEN: usize, const COUNT: usize>(words: &[[u8; LEN]; COUNT]) -> (r: WordSet)
    ensures
        r@ == listed(*words),
{
    let mut set = WordSet::new();
    let mut i: usize = 0;
    while i < COUNT
        invariant
            i <= COUNT,
            forall|w: Seq<u8>|
                set@.contains(w) <==> exists|j: int| 0 <= j < i && (#[trigger] words@[j])@ == w,
        decreases COUNT - i,
    {
        let ghost before = set@;
        set.insert(words[i].as_slice());
        proof {
            assert forall|w: Seq<u8>| set@.contains(w) <==> exists|j: int|
                0 <= j < i + 1 && (#[trigger] words@[j])@ == w by {
                if before.contains(w) {
                    let j = choose|j: int| 0 <= j < i && (#[trigger] words@[j])@ == w;
                    assert(0 <= j < i + 1 && words@[j]@ == w);
                }
                if w == words@[i as int]@ {
                    assert(0 <= i < i + 1 && words@[i as int]@ == w);
                }
            }
        }
        i += 1;
    }
    set
}

/// Files the line `text[start..end]` in `index` when it is not empty.
fn file_line(index: &mut WordIndex, text: &[u8], start: usize, end: usize, Ghost(max_length): Ghost<nat>)
    requires
        is_line(text@, start as int, end as int),
        old(index)@ == lines_before(text@, max_length, end as int),
    ensures
        final(index)@ == lines_before(text@, max_length, end + 1),
{
    if start < end {
        index.insert(&text[start..end]);
    }
    proof {
        let t = text@;
        let line = t.subrange(start as int, end as int);
        let target = lines_before(t, max_length, end + 1);
        assert forall|n: int, w: Seq<u8>| 0 <= n < target.len() implies (index@[n].contains(w)
            <==> #[trigger] target[n].contains(w)) by {
            let prior = lines_before(t, max_length, end as int)[n].contains(w);
            if target[n].contains(w) && !prior {
                let (s, e) = choose|s: int, e: int|
                    #![trigger is_line(t, s, e)]
                    is_line(t, s, e) && e < end + 1 && t.subrange(s, e) == w;
                assert(e == end);
                if s < start {
                    assert(is_line_break(t[start - 1]));
                } else if s > start {
                    assert(is_line_break(t[s - 1]));
                }
                assert(s == start);
            }
            if prior {
                let (s, e) = choose|s: int, e: int|
                    #![trigger is_line(t, s, e)]
                    is_line(t, s, e) && e < end && t.subrange(s, e) == w;
                assert(is_line(t, s, e) && e < end + 1);
            }
            if w == line && n == line.len() && n > 0 {
                assert(is_line(t, start as int, end as int));
            }
        }
        assert(index@ =~~= target);
    }
}

/// Builds the dictionary from a newline-delimited word list: every non-empty
/// line of at most `max_length` bytes is filed under its length, and the
/// buckets for the lengths two and three, where there are such, are then
/// replaced by the curated lists.
pub fn words_by_length(dictionary: &[u8], max_length: usize) -> (r: WordIndex)
    requires
        max_length < usize::MAX,
    ensures
        r@ == dictionary_index(dictionary@, max_length as nat),
{
    let mut index = WordIndex::new(max_length);
    let mut start: usize = 0;
    let mut i: usize = 0;
    assert(index@ =~~= lines_before(dictionary@, max_length as nat, 0));
    while i < dictionary.len()
        invariant
            start <= i <= dictionary.len(),
            start == 0 || is_line_break(dictionary@[start - 1]),
            forall|j: int| start <= j < i ==> !is_line_break(#[trigger] dictionary@[j]),
            index@ == lines_before(dictionary@, max_length as nat, i as int),
        decreases dictionary.len() - i,
    {
        let b: u8 = dictionary[i];
        if b == 0x0a || b == 0x0d {
            file_line(&mut index, dictionary, start, i, Ghost(max_length as nat));
            start = i + 1;
        } else {
            proof {
                let t = dictionary@;
                let target = lines_before(t, max_length as nat, i + 1);
                assert forall|n: int, w: Seq<u8>| 0 <= n < target.len() implies (index@[n].contains(
                    w,
                ) <==> #[trigger] target[n].contains(w)) by {
                    if target[n].contains(w) {
                        let (s, e) = choose|s: int, e: int|
                            #![trigger is_line(t, s, e)]
                            is_line(t, s, e) && e < i + 1 && t.subrange(s, e) == w;
                        assert(e != i);
                        assert(is_line(t, s, e) && e < i);
                    }
                    if index@[n].contains(w) {
                        let (s, e) = choose|s: int, e: int|
                            #![trigger is_line(t, s, e)]
                            is_line(t, s, e) && e < i && t.subrange(s, e) == w;
                        assert(is_line(t, s, e) && e < i + 1);
                    }
                }
                assert(index@ =~~= target);
            }
        }
        i += 1;
    }
    file_line(&mut index, dictionary, start, i, Ghost(max_length as nat));
    index.replace_bucket(2, word_set_of(&TWO_LETTER_WORDS));
    index.replace_bucket(3, word_set_of(&THREE_LETTER_WORDS));
    proof {
        assert forall|w: Seq<u8>| listed(TWO_LETTER_WORDS).contains(w) implies w.len() == 2 by {
            let j = choose|j: int| 0 <= j < 24 && (#[trigger] TWO_LETTER_WORDS@[j])@ == w;
        }
        assert forall|w: Seq<u8>| listed(THREE_LETTER_WORDS).contains(w) implies w.len() == 3 by {
            let j = choose|j: int| 0 <= j < 39 && (#[trigger] THREE_LETTER_WORDS@[j])@ == w;
        }
        assert(of_length(listed(TWO_LETTER_WORDS), 2) =~= listed(TWO_LETTER_WORDS));
        assert(of_length(listed(THREE_LETTER_WORDS), 3) =~= listed(THREE_LETTER_WORDS));
    }
    index
}

} // verus!
