//! The bag itself: how often each normalized word has been seen.

use vstd::prelude::*;
use vstd::multiset::*;
use vstd::seq_lib::*;
use vstd::slice::slice_to_vec;
use crate::order::{
    lemma_lex_irreflexive, lemma_lex_transitive, lex_less, rank, strictly_ascending, Rank,
};
use crate::text::{chars_of, string_of};
use crate::token::{
    fragments, holds_word, is_key, lemma_no_letters_no_words, lemma_tokens_are_words, punctuation,
    tokenize, tokens, views,
};
use crate::unicode::unicode_whitespace;

verus! {

/// The multiset that holds `keys[i]` exactly `counts[i]` times, for each `i`,
/// and nothing else. It is meant for keys without repetition.
spec fn bag_of(keys: Seq<Seq<char>>, counts: Seq<usize>) -> Multiset<Seq<char>> {
    Multiset::from_map(
        Map::new(|k: Seq<char>| keys.contains(k), |k: Seq<char>| counts[keys.index_of(k)] as nat),
    )
}

/// The bag that results when `text` is ingested into the bag `bag`.
pub open spec fn ingest(bag: Multiset<Seq<char>>, text: Seq<char>) -> Multiset<Seq<char>> {
    bag.add(tokens(text).to_multiset())
}

/// The character sequences that a vector of strings holds.
pub open spec fn texts(ws: Seq<String>) -> Seq<Seq<char>> {
    Seq::new(ws.len(), |i: int| ws[i]@)
}

/// Strictly ascending keys are pairwise different.
proof fn lemma_ascending_distinct(keys: Seq<Seq<char>>)
    requires
        strictly_ascending(keys),
    ensures
        keys.no_duplicates(),
{
    assert forall|i: int, j: int| 0 <= i < keys.len() && 0 <= j < keys.len() && i != j implies keys[i]
        != keys[j] by {
        lemma_lex_irreflexive(keys[i]);
        if i < j {
            assert(lex_less(keys[i], keys[j]));
        } else {
            assert(lex_less(keys[j], keys[i]));
        }
    }
}

/// Each key occurs as often as its count says.
proof fn lemma_count_at(keys: Seq<Seq<char>>, counts: Seq<usize>, i: int)
    requires
        keys.no_duplicates(),
        0 <= i < keys.len(),
    ensures
        bag_of(keys, counts).count(keys[i]) == counts[i],
{
    broadcast use {seq_to_set_is_finite, axiom_multiset_contained};

    let m = Map::new(
        |k: Seq<char>| keys.contains(k),
        |k: Seq<char>| counts[keys.index_of(k)] as nat,
    );
    assert(m.dom() =~= keys.to_set());
    assert(keys.contains(keys[i]));
    assert(keys.index_of(keys[i]) == i);
}

/// What is not among the keys does not occur.
proof fn lemma_count_absent(keys: Seq<Seq<char>>, counts: Seq<usize>, k: Seq<char>)
    requires
        !keys.contains(k),
    ensures
        bag_of(keys, counts).count(k) == 0,
{
    broadcast use {seq_to_set_is_finite, axiom_multiset_new_not_contained};

    let m = Map::new(
        |k: Seq<char>| keys.contains(k),
        |k: Seq<char>| counts[keys.index_of(k)] as nat,
    );
    assert(m.dom() =~= keys.to_set());
}

/// With counts of at least one the distinct words are the keys, and there
/// are as many of them.
proof fn lemma_distinct_words(keys: Seq<Seq<char>>, counts: Seq<usize>)
    requires
        keys.no_duplicates(),
        keys.len() == counts.len(),
        forall|i: int| 0 <= i < counts.len() ==> #[trigger] counts[i] >= 1,
    ensures
        bag_of(keys, counts).dom() == keys.to_set(),
        bag_of(keys, counts).dom().len() == keys.len(),
{
    let bag = bag_of(keys, counts);
    assert forall|k: Seq<char>| bag.dom().contains(k) <==> keys.to_set().contains(k) by {
        if keys.contains(k) {
            let i = keys.index_of(k);
            lemma_count_at(keys, counts, i);
            assert(counts[i] >= 1);
        } else {
            lemma_count_absent(keys, counts, k);
        }
    }
    assert(bag.dom() =~= keys.to_set());
    keys.unique_seq_to_set();
}

/// Ingesting a text adds as many occurrences as the text has normalized
/// words; into an empty bag, the total is the number of those words, which
/// is the number of fragments of the text that hold a word.
pub proof fn lemma_ingest_count(bag: Multiset<Seq<char>>, text: Seq<char>)
    ensures
        ingest(bag, text).len() == bag.len() + tokens(text).len(),
        ingest(Multiset::empty(), text).len() == tokens(text).len(),
        tokens(text).len() == fragments(text).filter(|f: Seq<char>| holds_word(f)).len(),
{
    broadcast use group_multiset_axioms;

    tokens(text).to_multiset_ensures();
}

/// After a text is ingested the bag holds the words it held and the
/// normalized words of the text; into an empty bag, the number of distinct
/// words is the number of distinct normalized words of the text.
pub proof fn lemma_ingest_distinct(bag: Multiset<Seq<char>>, text: Seq<char>)
    ensures
        ingest(bag, text).dom() == bag.dom().union(tokens(text).to_set()),
        ingest(Multiset::empty(), text).dom().len() == tokens(text).to_set().len(),
{
    broadcast use group_multiset_axioms;

    let ts = tokens(text);
    ts.to_multiset_ensures();
    assert(ingest(bag, text).dom() =~= bag.dom().union(ts.to_set()));
    assert(ingest(Multiset::empty(), text).dom() =~= ts.to_set());
}

/// Ingesting a text a second time brings no new word, and adds to each count
/// what the first time added: a bag filled from one text alone has every
/// count doubled.
pub proof fn lemma_ingest_twice(bag: Multiset<Seq<char>>, text: Seq<char>, k: Seq<char>)
    ensures
        ingest(ingest(bag, text), text).dom() == ingest(bag, text).dom(),
        ingest(ingest(bag, text), text).count(k) - ingest(bag, text).count(k) == ingest(
            bag,
            text,
        ).count(k) - bag.count(k),
        ingest(ingest(Multiset::empty(), text), text).count(k) == 2 * ingest(
            Multiset::empty(),
            text,
        ).count(k),
{
    broadcast use group_multiset_axioms;

    assert(ingest(ingest(bag, text), text).dom() =~= ingest(bag, text).dom());
}

/// Ingesting a text that holds nothing but whitespace and punctuation
/// leaves a bag as it is, so an empty bag stays empty.
pub proof fn lemma_ingest_nothing(bag: Multiset<Seq<char>>, text: Seq<char>)
    requires
        forall|i: int|
            0 <= i < text.len() ==> unicode_whitespace(#[trigger] text[i]) || punctuation(text[i]),
    ensures
        ingest(bag, text) == bag,
{
    broadcast use group_multiset_axioms;

    lemma_no_letters_no_words(text);
    tokens(text).to_multiset_ensures();
    lemma_multiset_empty_len(tokens(text).to_multiset());
    assert(ingest(bag, text) =~= bag);
}

/// Ingesting one text after another accumulates: the bag then holds the
/// words of both on top of what it held, whichever text came first.
pub proof fn lemma_ingest_chain(bag: Multiset<Seq<char>>, first: Seq<char>, second: Seq<char>)
    ensures
        ingest(ingest(bag, first), second) == bag.add(
            (tokens(first) + tokens(second)).to_multiset(),
        ),
        ingest(ingest(bag, first), second).len() == bag.len() + tokens(first).len() + tokens(
            second,
        ).len(),
        ingest(ingest(bag, first), second) == ingest(ingest(bag, second), first),
{
    broadcast use group_multiset_axioms;

    tokens(first).to_multiset_ensures();
    tokens(second).to_multiset_ensures();
    lemma_multiset_commutative(tokens(first), tokens(second));
    assert(ingest(ingest(bag, first), second) =~= ingest(ingest(bag, second), first));
    assert(ingest(ingest(bag, first), second) =~= bag.add(
        (tokens(first) + tokens(second)).to_multiset(),
    ));
}

/// A bag of words: each normalized word that was found in the texts
/// ingested so far, with the number of times it was found.
#[derive(Debug)]
pub struct Bbow {
    words: Vec<Vec<char>>,
    counts: Vec<usize>,
    total: usize,
}

impl View for Bbow {
    type V = Multiset<Seq<char>>;

    /// The multiset of all word occurrences recorded.
    closed spec fn view(&self) -> Multiset<Seq<char>> {
        bag_of(views(self.words@), self.counts@)
    }
}

/// Finds the place of `key` among ascending `words`: whether it is there,
/// and the index at which it stands or would have to be put.
fn locate(words: &Vec<Vec<char>>, key: &[char]) -> (r: (bool, usize))
    requires
        strictly_ascending(views(words@)),
    ensures
        r.1 <= words.len(),
        r.0 ==> r.1 < words.len() && views(words@)[r.1 as int] == key@,
        !r.0 ==> forall|j: int| 0 <= j < r.1 ==> lex_less(#[trigger] views(words@)[j], key@),
        !r.0 ==> forall|j: int|
            r.1 <= j < words.len() ==> lex_less(key@, #[trigger] views(words@)[j]),
{
    let ghost keys = views(words@);
    let mut lo: usize = 0;
    let mut hi: usize = words.len();
    while lo < hi
        invariant
            lo <= hi <= words.len(),
            keys == views(words@),
            strictly_ascending(keys),
            forall|j: int| 0 <= j < lo ==> lex_less(#[trigger] keys[j], key@),
            forall|j: int| hi <= j < words.len() ==> lex_less(key@, #[trigger] keys[j]),
        decreases hi - lo,
    {
        let mid: usize = lo + (hi - lo) / 2;
        match rank(words[mid].as_slice(), key) {
            Rank::Same => {
                return (true, mid);
            },
            Rank::Before => {
                proof {
                    assert forall|j: int| 0 <= j < mid + 1 implies lex_less(
                        #[trigger] keys[j],
                        key@,
                    ) by {
                        if j < mid {
                            lemma_lex_transitive(keys[j], keys[mid as int], key@);
                        }
                    }
                }
                lo = mid + 1;
            },
            Rank::After => {
                proof {
                    assert forall|j: int| mid <= j < words.len() implies lex_less(
                        key@,
                        #[trigger] keys[j],
                    ) by {
                        if j > mid {
                            lemma_lex_transitive(key@, keys[mid as int], keys[j]);
                        }
                    }
                }
                hi = mid;
            },
        }
    }
    (false, lo)
}

impl Bbow {
    /// The words stand in strictly ascending order, each is the recorded
    /// form of a word and has a count of at least one, and `total` is the
    /// sum of the counts.
    #[verifier::type_invariant]
    spec fn well_formed(&self) -> bool {
        &&& self.words@.len() == self.counts@.len()
        &&& strictly_ascending(views(self.words@))
        &&& forall|i: int| 0 <= i < self.counts@.len() ==> #[trigger] self.counts@[i] >= 1
        &&& forall|i: int| 0 <= i < self.words@.len() ==> is_key(#[trigger] views(self.words@)[i])
        &&& self.total == self@.len()
    }

    /// An empty bag.
    pub fn new() -> (bag: Self)
        ensures
            bag@ == Multiset::<Seq<char>>::empty(),
    {
        let words: Vec<Vec<char>> = Vec::new();
        let counts: Vec<usize> = Vec::new();
        proof {
            broadcast use group_multiset_axioms;

            let bag = bag_of(views(words@), counts@);
            assert forall|k: Seq<char>| bag.count(k) == 0 by {
                lemma_count_absent(views(words@), counts@, k);
            }
            assert(bag =~= Multiset::<Seq<char>>::empty());
        }
        Bbow { words, counts, total: 0 }
    }

    /// Records one more occurrence of the word `key`.
    fn record(self, key: Vec<char>) -> (bag: Self)
        requires
            self@.len() < usize::MAX,
            is_key(key@),
        ensures
            bag@ == self@.insert(key@),
    {
        proof {
            use_type_invariant(&self);
        }
        let ghost before = self@;
        let Bbow { mut words, mut counts, total } = self;
        let ghost keys = views(words@);
        let ghost old_counts = counts@;
        let ghost k = key@;
        proof {
            lemma_ascending_distinct(keys);
        }
        let (found, i) = locate(&words, key.as_slice());
        if found {
            let c: usize = counts[i];
            proof {
                broadcast use axiom_count_le_len;

                lemma_count_at(keys, old_counts, i as int);
                assert(before.count(k) <= before.len());
            }
            counts.set(i, c + 1);
            proof {
                let after = bag_of(keys, counts@);
                assert forall|v: Seq<char>| after.count(v) == #[trigger] before.insert(k).count(
                    v,
                ) by {
                    broadcast use group_multiset_axioms;

                    if keys.contains(v) {
                        let j = keys.index_of(v);
                        lemma_count_at(keys, old_counts, j);
                        lemma_count_at(keys, counts@, j);
                    } else {
                        lemma_count_absent(keys, old_counts, v);
                        lemma_count_absent(keys, counts@, v);
                    }
                }
                assert(after =~= before.insert(k));
            }
        } else {
            words.insert(i, key);
            counts.insert(i, 1);
            proof {
                let new_keys = views(words@);
                assert(new_keys =~= keys.insert(i as int, k));
                assert forall|a: int| 0 <= a < new_keys.len() implies is_key(
                    #[trigger] new_keys[a],
                ) by {
                    if a < i {
                        assert(new_keys[a] == keys[a]);
                    } else if a > i {
                        assert(new_keys[a] == keys[a - 1]);
                    }
                }
                assert forall|a: int, b: int| 0 <= a < b < new_keys.len() implies lex_less(
                    #[trigger] new_keys[a],
                    #[trigger] new_keys[b],
                ) by {
                    if a < i && b > i {
                        assert(new_keys[a] == keys[a]);
                        assert(new_keys[b] == keys[b - 1]);
                    } else if a < i && b < i {
                        assert(new_keys[a] == keys[a]);
                        assert(new_keys[b] == keys[b]);
                    } else if a > i {
                        assert(new_keys[a] == keys[a - 1]);
                        assert(new_keys[b] == keys[b - 1]);
                    } else if a == i {
                        assert(new_keys[b] == keys[b - 1]);
                    } else {
                        assert(new_keys[a] == keys[a]);
                    }
                }
                lemma_ascending_distinct(new_keys);
                lemma_lex_irreflexive(k);
                assert(!keys.contains(k));
                let after = bag_of(new_keys, counts@);
                assert forall|v: Seq<char>| after.count(v) == #[trigger] before.insert(k).count(
                    v,
                ) by {
                    broadcast use group_multiset_axioms;

                    if v == k {
                        lemma_count_at(new_keys, counts@, i as int);
                        lemma_count_absent(keys, old_counts, k);
                    } else if keys.contains(v) {
                        let j = keys.index_of(v);
                        let j2 = if j < i { j } else { j + 1 };
                        assert(new_keys[j2] == v);
                        lemma_count_at(keys, old_counts, j);
                        lemma_count_at(new_keys, counts@, j2);
                    } else {
                        if new_keys.contains(v) {
                            let j = new_keys.index_of(v);
                            if j < i {
                                assert(keys[j] == v);
                            } else {
                                assert(keys[j - 1] == v);
                            }
                        }
                        lemma_count_absent(keys, old_counts, v);
                        lemma_count_absent(new_keys, counts@, v);
                    }
                }
                assert(after =~= before.insert(k));
            }
        }
        proof {
            lemma_insert_len(before, k);
        }
        Bbow { words, counts, total: total + 1 }
    }

    /// Records one occurrence of each word of `ts`.
    fn absorb(self, ts: Vec<Vec<char>>) -> (bag: Self)
        requires
            self@.len() + ts@.len() <= usize::MAX,
            forall|i: int| 0 <= i < ts@.len() ==> is_key(#[trigger] views(ts@)[i]),
        ensures
            bag@ == self@.add(views(ts@).to_multiset()),
    {
        broadcast use group_multiset_axioms;

        let ghost start = self@;
        let ghost all = views(ts@).to_multiset();
        let mut bag = self;
        let mut ts = ts;
        proof {
            views(ts@).to_multiset_ensures();
        }
        // A multiset does not depend on the order in which it is filled, so
        // the words are taken from the back.
        while ts.len() > 0
            invariant
                bag@.add(views(ts@).to_multiset()) == start.add(all),
                bag@.len() + ts@.len() <= usize::MAX,
                forall|i: int| 0 <= i < ts@.len() ==> is_key(#[trigger] views(ts@)[i]),
            decreases ts.len(),
        {
            let ghost rest = views(ts@);
            let ghost held = bag@;
            let key = ts.pop().unwrap();
            proof {
                assert(rest =~= views(ts@).push(key@));
                assert(key@ == rest[ts@.len() as int]);
                assert forall|i: int| 0 <= i < ts@.len() implies is_key(
                    #[trigger] views(ts@)[i],
                ) by {
                    assert(views(ts@)[i] == rest[i]);
                }
                views(ts@).to_multiset_ensures();
                assert(held.insert(key@).add(views(ts@).to_multiset()) =~= held.add(
                    rest.to_multiset(),
                ));
                lemma_insert_len(held, key@);
            }
            bag = bag.record(key);
        }
        proof {
            views(ts@).to_multiset_ensures();
            assert(views(ts@).to_multiset() =~= Multiset::<Seq<char>>::empty()) by {
                lemma_multiset_empty_len(views(ts@).to_multiset());
            }
            assert(bag@.add(Multiset::<Seq<char>>::empty()) =~= bag@);
        }
        bag
    }

    /// Adds the words of `text` to the bag: each normalized word of the text
    /// is recorded once for each time it occurs, on top of what the bag held.
    ///
    /// The total number of occurrences has to stay within `usize`; see
    /// `try_extend_from_text` where that is not known beforehand.
    pub fn extend_from_text(self, text: &str) -> (bag: Self)
        requires
            self@.len() + tokens(text@).len() <= usize::MAX,
        ensures
            bag@ == ingest(self@, text@),
    {
        let ts = tokenize(text);
        proof {
            assert forall|i: int| 0 <= i < ts@.len() implies is_key(#[trigger] views(ts@)[i]) by {
                lemma_tokens_are_words(text@, i);
            }
        }
        self.absorb(ts)
    }

    /// Adds the words of `text` to the bag if the total number of occurrences
    /// stays within `usize`, and hands the bag back unchanged if it does not.
    pub fn try_extend_from_text(self, text: &str) -> (r: Result<Self, Self>)
        ensures
            self@.len() + tokens(text@).len() <= usize::MAX ==> r is Ok && r->Ok_0@ == ingest(
                self@,
                text@,
            ),
            self@.len() + tokens(text@).len() > usize::MAX ==> r is Err && r->Err_0@ == self@,
    {
        proof {
            use_type_invariant(&self);
        }
        let ts = tokenize(text);
        proof {
            assert forall|i: int| 0 <= i < ts@.len() implies is_key(#[trigger] views(ts@)[i]) by {
                lemma_tokens_are_words(text@, i);
            }
        }
        if ts.len() <= usize::MAX - self.total {
            Ok(self.absorb(ts))
        } else {
            Err(self)
        }
    }

    /// The number of occurrences recorded for `keyword`; 0 for a word that
    /// the bag does not hold.
    pub fn match_count(&self, keyword: &str) -> (n: usize)
        ensures
            n == self@.count(keyword@),
    {
        proof {
            use_type_invariant(self);
            lemma_ascending_distinct(views(self.words@));
        }
        let key = chars_of(keyword);
        let (found, i) = locate(&self.words, key.as_slice());
        if found {
            proof {
                lemma_count_at(views(self.words@), self.counts@, i as int);
            }
            self.counts[i]
        } else {
            proof {
                lemma_lex_irreflexive(key@);
                assert(!views(self.words@).contains(key@));
                lemma_count_absent(views(self.words@), self.counts@, key@);
            }
            0
        }
    }

    /// The distinct words of the bag, each once, in ascending lexicographic
    /// order.
    pub fn words(&self) -> (ws: Vec<String>)
        ensures
            strictly_ascending(texts(ws@)),
            texts(ws@).to_set() == self@.dom(),
            ws@.len() == self@.dom().len(),
            forall|i: int| 0 <= i < ws@.len() ==> is_key(#[trigger] texts(ws@)[i]),
    {
        proof {
            use_type_invariant(self);
            lemma_ascending_distinct(views(self.words@));
            lemma_distinct_words(views(self.words@), self.counts@);
        }
        let mut ws: Vec<String> = Vec::new();
        let mut i: usize = 0;
        while i < self.words.len()
            invariant
                i <= self.words.len(),
                ws@.len() == i,
                forall|j: int| 0 <= j < i ==> (#[trigger] ws@[j])@ == self.words@[j]@,
            decreases self.words.len() - i,
        {
            ws.push(string_of(self.words[i].as_slice()));
            i += 1;
        }
        proof {
            assert(texts(ws@) =~= views(self.words@));
        }
        ws
    }

    /// The number of word occurrences recorded, repeats included.
    pub fn count(&self) -> (n: usize)
        ensures
            n == self@.len(),
    {
        proof {
            use_type_invariant(self);
        }
        self.total
    }

    /// The number of distinct words in the bag.
    pub fn len(&self) -> (n: usize)
        ensures
            n == self@.dom().len(),
    {
        proof {
            use_type_invariant(self);
            lemma_ascending_distinct(views(self.words@));
            lemma_distinct_words(views(self.words@), self.counts@);
        }
        self.words.len()
    }

    /// Whether the bag holds no word.
    pub fn is_empty(&self) -> (b: bool)
        ensures
            b == (self@.dom().len() == 0),
            b == (self@.len() == 0),
    {
        proof {
            use_type_invariant(self);
            lemma_ascending_distinct(views(self.words@));
            lemma_distinct_words(views(self.words@), self.counts@);
            lemma_multiset_empty_len(self@);
            if self.words@.len() == 0 {
                assert forall|k: Seq<char>| self@.count(k) == 0 by {
                    lemma_count_absent(views(self.words@), self.counts@, k);
                }
                assert(self@ =~= Multiset::<Seq<char>>::empty());
            } else {
                lemma_count_at(views(self.words@), self.counts@, 0);
                assert(self.counts@[0] >= 1);
            }
        }
        self.words.len() == 0
    }
}

impl Clone for Bbow {
    /// A bag with the same words and counts.
    fn clone(&self) -> (bag: Self)
        ensures
            bag@ == self@,
    {
        proof {
            use_type_invariant(self);
        }
        let mut words: Vec<Vec<char>> = Vec::new();
        let mut i: usize = 0;
        while i < self.words.len()
            invariant
                i <= self.words.len(),
                words@.len() == i,
                forall|j: int| 0 <= j < i ==> (#[trigger] words@[j])@ == self.words@[j]@,
            decreases self.words.len() - i,
        {
            words.push(slice_to_vec(self.words[i].as_slice()));
            i += 1;
        }
        let counts = slice_to_vec(self.counts.as_slice());
        proof {
            assert(views(words@) =~= views(self.words@));
        }
        Bbow { words, counts, total: self.total }
    }
}

impl Default for Bbow {
    /// An empty bag.
    fn default() -> (bag: Self)
        ensures
            bag@ == Multiset::<Seq<char>>::empty(),
    {
        Bbow::new()
    }
}

} // verus!
