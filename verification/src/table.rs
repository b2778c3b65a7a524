//! A table from words to counts: two parallel vectors in which no word occurs
//! twice, and an index that finds a word by its hash.

use crate::text::words_of;
use vstd::prelude::*;

verus! {

/// The number of buckets of the index.
const BUCKETS: usize = 4096;

/// The bucket of a word: a hash of its characters below `BUCKETS`.
spec fn word_hash(word: Seq<char>) -> nat
    decreases word.len(),
{
    if word.len() == 0 {
        0
    } else {
        ((word_hash(word.drop_last()) * 31 + word.last() as nat) % (BUCKETS as nat)) as nat
    }
}

/// The number of a character.
fn code_point(c: char) -> (code: u32)
    ensures
        code == c as nat,
{
    c as u32
}

/// The bucket of a word.
fn bucket_of(word: &String) -> (bucket: usize)
    ensures
        bucket == word_hash(word@),
        bucket < BUCKETS,
{
    let mut bucket: usize = 0;
    for c in it: word.as_str().chars()
        invariant
            it.seq() == word@,
            bucket == word_hash(word@.take(it.index() as int)),
            bucket < BUCKETS,
    {
        let ghost i = it.index() as int;
        assert(word@.take(i + 1).drop_last() =~= word@.take(i));
        assert(word@.take(i + 1).last() == c);
        let code = code_point(c);
        bucket = ((bucket as u64 * 31 + code as u64) % (BUCKETS as u64)) as usize;
    }
    assert(word@.take(word@.len() as int) =~= word@);
    bucket
}

/// A finite map from words to counts.
pub struct WordTable {
    words: Vec<String>,
    counts: Vec<u128>,
    buckets: Vec<Vec<usize>>,
}

/// The place of `word` among `keys`, where it occurs.
spec fn slot(keys: Seq<Seq<char>>, word: Seq<char>) -> int {
    choose|i: int| 0 <= i < keys.len() && keys[i] == word
}

impl View for WordTable {
    type V = Map<Seq<char>, nat>;

    closed spec fn view(&self) -> Map<Seq<char>, nat> {
        Map::new(
            |word: Seq<char>| self.keys().contains(word),
            |word: Seq<char>| self.counts@[slot(self.keys(), word)] as nat,
        )
    }
}

impl WordTable {
    /// The words of the table, in the order in which they came in.
    pub closed spec fn keys(&self) -> Seq<Seq<char>> {
        words_of(self.words@)
    }

    /// Whether the bucket of the word at place `i` lists that place.
    spec fn listed(&self, i: int) -> bool {
        self.buckets@[word_hash(self.keys()[i]) as int]@.contains(i as usize)
    }

    /// Every word has its count, no word occurs twice, and the index lists
    /// the place of each word in the bucket of the word, and no place beyond
    /// the last.
    pub closed spec fn wf(&self) -> bool {
        &&& self.words.len() == self.counts.len()
        &&& self.keys().no_duplicates()
        &&& self.buckets.len() == BUCKETS
        &&& forall|b: int, k: int|
            0 <= b < self.buckets.len() && 0 <= k < self.buckets@[b].len()
                ==> #[trigger] self.buckets@[b]@[k] < self.words.len()
        &&& forall|i: int| 0 <= i < self.words.len() ==> #[trigger] self.listed(i)
    }

    /// The count of `word`, which is zero for a word that the table lacks.
    pub open spec fn count(&self, word: Seq<char>) -> nat {
        if self@.dom().contains(word) {
            self@[word]
        } else {
            0
        }
    }

    /// What the view holds at each place of the two vectors.
    proof fn lemma_view(&self)
        requires
            self.wf(),
        ensures
            forall|i: int|
                0 <= i < self.keys().len() ==> self@.dom().contains(#[trigger] self.keys()[i])
                    && self@[self.keys()[i]] == self.counts@[i],
            forall|word: Seq<char>| self@.dom().contains(word) <==> self.keys().contains(word),
    {
        let keys = self.keys();
        assert forall|i: int| 0 <= i < keys.len() implies self@.dom().contains(#[trigger] keys[i])
            && self@[keys[i]] == self.counts@[i] by {
            assert(keys.contains(keys[i]));
            let j = slot(keys, keys[i]);
            assert(0 <= j < keys.len() && keys[j] == keys[i]);
        }
    }

    /// The words of a table are finitely many, each listed once.
    pub proof fn lemma_domain(&self)
        requires
            self.wf(),
        ensures
            self@.dom().finite(),
            self@.dom() == self.keys().to_set(),
            self@.dom().len() == self.keys().len(),
    {
        self.lemma_view();
        assert(self@.dom() =~= self.keys().to_set());
        self.keys().unique_seq_to_set();
    }

    /// A table has no more words than a vector holds.
    pub proof fn lemma_keys_fit(&self)
        ensures
            self.keys().len() <= usize::MAX,
    {
        assert(self.words@.len() == self.words.len());
    }

    /// The empty table.
    pub fn new() -> (table: Self)
        ensures
            table.wf(),
            table@ == Map::<Seq<char>, nat>::empty(),
    {
        let mut buckets: Vec<Vec<usize>> = Vec::new();
        let mut b: usize = 0;
        while b < BUCKETS
            invariant
                b <= BUCKETS,
                buckets.len() == b,
                forall|j: int| 0 <= j < b ==> (#[trigger] buckets@[j]).len() == 0,
            decreases BUCKETS - b,
        {
            buckets.push(Vec::new());
            b = b + 1;
        }
        let table = WordTable { words: Vec::new(), counts: Vec::new(), buckets };
        assert(table@ =~= Map::<Seq<char>, nat>::empty());
        table
    }

    /// The number of words in the table.
    pub fn len(&self) -> (n: usize)
        requires
            self.wf(),
        ensures
            n == self@.dom().len(),
    {
        proof {
            self.lemma_domain();
        }
        self.words.len()
    }

    /// The bucket of `word`, and the place of `word` in the table or
    /// `usize::MAX` where the table lacks the word.
    fn locate(&self, word: &String) -> (found: (usize, usize))
        requires
            self.wf(),
        ensures
            found.0 == word_hash(word@),
            found.0 < BUCKETS,
            self.keys().contains(word@) ==> found.1 < self.words.len() && self.keys()[found.1 as int]
                == word@,
            !self.keys().contains(word@) ==> found.1 == usize::MAX,
    {
        let b = bucket_of(word);
        let bucket = &self.buckets[b];
        let mut k: usize = 0;
        while k < bucket.len()
            invariant
                k <= bucket.len(),
                self.wf(),
                b == word_hash(word@),
                b < BUCKETS,
                *bucket == self.buckets@[b as int],
                forall|j: int| 0 <= j < k ==> self.keys()[bucket@[j] as int] != word@,
            decreases bucket.len() - k,
        {
            let at = bucket[k];
            assert(at == self.buckets@[b as int]@[k as int]);
            if self.words[at] == *word {
                assert(self.keys()[at as int] == word@);
                return (b, at);
            }
            k = k + 1;
        }
        proof {
            if self.keys().contains(word@) {
                let i = choose|i: int| 0 <= i < self.keys().len() && self.keys()[i] == word@;
                assert(self.listed(i));
                let j = choose|j: int| 0 <= j < bucket@.len() && bucket@[j] == i as usize;
                assert(self.keys()[bucket@[j] as int] != word@);
            }
        }
        (b, usize::MAX)
    }

    /// The count of `word`, if the table has the word.
    pub fn get(&self, word: &String) -> (found: Option<u128>)
        requires
            self.wf(),
        ensures
            found is Some <==> self@.dom().contains(word@),
            found is Some ==> found->0 == self@[word@],
    {
        proof {
            self.lemma_view();
        }
        let (_, at) = self.locate(word);
        if at == usize::MAX {
            None
        } else {
            Some(self.counts[at])
        }
    }

    /// Gives `word` the count `value` at the place `at` where `locate` found
    /// it, or enters the word where `locate` found none.
    fn store(&mut self, b: usize, at: usize, word: &String, value: u128)
        requires
            old(self).wf(),
            b == word_hash(word@),
            b < BUCKETS,
            old(self).keys().contains(word@) ==> at < old(self).words.len() && old(self).keys()[at as int]
                == word@,
            !old(self).keys().contains(word@) ==> at == usize::MAX,
        ensures
            final(self).wf(),
            final(self)@ == old(self)@.insert(word@, value as nat),
    {
        proof {
            self.lemma_view();
        }
        let ghost before = *self;
        if at == usize::MAX {
            let place = self.words.len();
            self.words.push(word.clone());
            self.counts.push(value);
            self.buckets[b].push(place);
            proof {
                assert(self.keys() =~= before.keys().push(word@));
                assert forall|i: int, j: int|
                    0 <= i < self.keys().len() && 0 <= j < self.keys().len() && i != j implies
                    self.keys()[i] != self.keys()[j] by {
                    if i < before.keys().len() {
                        assert(before.keys()[i] == self.keys()[i]);
                    }
                    if j < before.keys().len() {
                        assert(before.keys()[j] == self.keys()[j]);
                    }
                }
                assert forall|c: int, k: int|
                    0 <= c < self.buckets.len() && 0 <= k < self.buckets@[c].len() implies
                    #[trigger] self.buckets@[c]@[k] < self.words.len() by {
                    if c != b || k < before.buckets@[c].len() {
                        assert(self.buckets@[c]@[k] == before.buckets@[c]@[k]);
                    }
                }
                assert forall|i: int| 0 <= i < self.words.len() implies #[trigger] self.listed(
                    i,
                ) by {
                    let c = word_hash(self.keys()[i]) as int;
                    if i < before.words.len() {
                        assert(before.keys()[i] == self.keys()[i]);
                        assert(before.listed(i));
                        let k = choose|k: int|
                            0 <= k < before.buckets@[c]@.len() && before.buckets@[c]@[k]
                                == i as usize;
                        assert(self.buckets@[c]@[k] == i as usize);
                    } else {
                        assert(self.buckets@[c]@[self.buckets@[c]@.len() - 1] == i as usize);
                    }
                }
            }
        } else {
            self.counts.set(at, value);
            proof {
                assert(self.keys() == before.keys());
                assert forall|i: int| 0 <= i < self.words.len() implies #[trigger] self.listed(
                    i,
                ) by {
                    assert(before.listed(i));
                }
            }
        }
        proof {
            self.lemma_view();
            let after = before@.insert(word@, value as nat);
            assert(self.keys().contains(word@)) by {
                if at == usize::MAX {
                    assert(self.keys()[self.keys().len() - 1] == word@);
                } else {
                    assert(self.keys()[at as int] == word@);
                }
            }
            assert forall|w: Seq<char>| self@.dom().contains(w) <==> after.dom().contains(
                w,
            ) by {
                if before.keys().contains(w) {
                    let i = choose|i: int| 0 <= i < before.keys().len() && before.keys()[i] == w;
                    assert(self.keys()[i] == w);
                }
                if self.keys().contains(w) && w != word@ {
                    let i = choose|i: int| 0 <= i < self.keys().len() && self.keys()[i] == w;
                    assert(before.keys()[i] == w);
                }
            }
            assert forall|w: Seq<char>| self@.dom().contains(w) implies #[trigger] self@[w]
                == after[w] by {
                let i = choose|i: int| 0 <= i < self.keys().len() && self.keys()[i] == w;
                assert(self@[self.keys()[i]] == self.counts@[i]);
                if w != word@ {
                    assert(before.keys()[i] == w);
                    assert(before@[before.keys()[i]] == before.counts@[i]);
                }
            }
            assert(self@ =~= after);
        }
    }

    /// Gives `word` the count `value`, whether or not the table had the word.
    pub fn set(&mut self, word: &String, value: u128)
        requires
            old(self).wf(),
        ensures
            final(self).wf(),
            final(self)@ == old(self)@.insert(word@, value as nat),
    {
        let (b, at) = self.locate(word);
        self.store(b, at, word, value);
    }

    /// Counts `word` once more; a word that the table lacks comes in with the
    /// count one.
    pub fn increment(&mut self, word: &String)
        requires
            old(self).wf(),
            old(self).count(word@) < u128::MAX,
        ensures
            final(self).wf(),
            final(self)@ == old(self)@.insert(word@, old(self).count(word@) + 1),
    {
        proof {
            self.lemma_view();
        }
        let (b, at) = self.locate(word);
        let count = if at == usize::MAX {
            0
        } else {
            self.counts[at]
        };
        self.store(b, at, word, count + 1);
    }

    /// Adds one to the count of every word.
    pub fn add_one_to_all(&mut self)
        requires
            old(self).wf(),
            forall|word: Seq<char>|
                old(self)@.dom().contains(word) ==> #[trigger] old(self)@[word] < u128::MAX,
        ensures
            final(self).wf(),
            final(self)@.dom() == old(self)@.dom(),
            forall|word: Seq<char>|
                old(self)@.dom().contains(word) ==> #[trigger] final(self)@[word] == old(
                    self,
                )@[word] + 1,
    {
        let ghost before = *self;
        proof {
            before.lemma_view();
            assert forall|k: int| 0 <= k < before.counts.len() implies before.counts@[k]
                < u128::MAX by {
                assert(before@[before.keys()[k]] == before.counts@[k]);
            }
        }
        let mut i: usize = 0;
        while i < self.counts.len()
            invariant
                i <= self.counts.len(),
                before.wf(),
                self.words == before.words,
                self.buckets == before.buckets,
                self.counts.len() == before.counts.len(),
                forall|k: int| 0 <= k < before.counts.len() ==> before.counts@[k] < u128::MAX,
                forall|k: int| 0 <= k < i ==> self.counts@[k] == before.counts@[k] + 1,
                forall|k: int|
                    i <= k < self.counts.len() ==> self.counts@[k] == before.counts@[k],
            decreases self.counts.len() - i,
        {
            let c = self.counts[i];
            assert(c == before.counts@[i as int]);
            self.counts.set(i, c + 1);
            i = i + 1;
        }
        proof {
            assert(self.keys() == before.keys());
            assert forall|i: int| 0 <= i < self.words.len() implies #[trigger] self.listed(i) by {
                assert(before.listed(i));
            }
            self.lemma_view();
            assert(self@.dom() =~= before@.dom());
            assert forall|word: Seq<char>| before@.dom().contains(word) implies #[trigger] self@[word]
                == before@[word] + 1 by {
                let i = choose|i: int| 0 <= i < self.keys().len() && self.keys()[i] == word;
                assert(self@[self.keys()[i]] == self.counts@[i]);
                assert(before@[before.keys()[i]] == before.counts@[i]);
            }
        }
    }

    /// A second table with the same words and counts.
    pub fn duplicate(&self) -> (copy: Self)
        requires
            self.wf(),
        ensures
            copy.wf(),
            copy@ == self@,
    {
        let mut words: Vec<String> = Vec::new();
        let mut counts: Vec<u128> = Vec::new();
        let mut i: usize = 0;
        while i < self.words.len()
            invariant
                i <= self.words.len(),
                self.words.len() == self.counts.len(),
                words_of(words@) == self.keys().take(i as int),
                counts@ == self.counts@.take(i as int),
            decreases self.words.len() - i,
        {
            let ghost listed = words_of(words@);
            words.push(self.words[i].clone());
            counts.push(self.counts[i]);
            assert(words_of(words@) =~= listed.push(self.keys()[i as int]));
            assert(words_of(words@) =~= self.keys().take(i + 1));
            assert(counts@ =~= self.counts@.take(i + 1));
            i = i + 1;
        }
        let mut buckets: Vec<Vec<usize>> = Vec::new();
        let mut b: usize = 0;
        while b < self.buckets.len()
            invariant
                b <= self.buckets.len(),
                buckets.len() == b,
                forall|c: int| 0 <= c < b ==> (#[trigger] buckets@[c])@ == self.buckets@[c]@,
            decreases self.buckets.len() - b,
        {
            let bucket = &self.buckets[b];
            let mut places: Vec<usize> = Vec::new();
            let mut k: usize = 0;
            while k < bucket.len()
                invariant
                    k <= bucket.len(),
                    places@ == bucket@.take(k as int),
                decreases bucket.len() - k,
            {
                places.push(bucket[k]);
                assert(places@ =~= bucket@.take(k + 1));
                k = k + 1;
            }
            assert(bucket@.take(bucket.len() as int) =~= bucket@);
            buckets.push(places);
            b = b + 1;
        }
        let copy = WordTable { words, counts, buckets };
        proof {
            assert(self.keys().take(self.words.len() as int) =~= self.keys());
            assert(self.counts@.take(self.words.len() as int) =~= self.counts@);
            assert(copy.keys() == self.keys());
            assert(copy.words.len() == self.words.len()) by {
                assert(copy.keys().len() == self.keys().len());
            }
            assert forall|c: int, k: int|
                0 <= c < copy.buckets.len() && 0 <= k < copy.buckets@[c].len() implies
                #[trigger] copy.buckets@[c]@[k] < copy.words.len() by {
                assert(copy.buckets@[c]@ == self.buckets@[c]@);
                assert(self.buckets@[c]@[k] < self.words.len());
            }
            assert forall|i: int| 0 <= i < copy.words.len() implies #[trigger] copy.listed(i) by {
                assert(self.listed(i));
                let c = word_hash(self.keys()[i]) as int;
                assert(copy.buckets@[c]@ == self.buckets@[c]@);
            }
            assert(copy@ =~= self@);
        }
        copy
    }
}

} // verus!
