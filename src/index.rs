//! Inverted indices from tags to the identifiers of the entities that carry
//! them.
use vstd::prelude::*;

use crate::tags::TagGraph;
use crate::word::WordType;

verus! {

/// A map from tag names to identifiers, in the order they were added.
#[derive(Clone, Debug)]
pub struct TagIndex {
    entries: Vec<(String, Vec<u128>)>,
}

impl TagIndex {
    /// The position of the entry for tag `t`.
    closed spec fn slot(&self, t: Seq<char>) -> int {
        choose|i: int| 0 <= i < self.entries@.len() && self.entries@[i].0@ == t
    }

    /// Tag names are distinct and each tag has at least one identifier.
    pub closed spec fn wf(&self) -> bool {
        &&& forall|i: int, j: int|
            0 <= i < j < self.entries@.len() ==> self.entries@[i].0@ != self.entries@[j].0@
        &&& forall|i: int| 0 <= i < self.entries@.len() ==> self.entries@[i].1@.len() > 0
    }
}

impl View for TagIndex {
    type V = Map<Seq<char>, Seq<u128>>;

    closed spec fn view(&self) -> Map<Seq<char>, Seq<u128>> {
        Map::new(
            |t: Seq<char>| exists|i: int| 0 <= i < self.entries@.len() && self.entries@[i].0@ == t,
            |t: Seq<char>| self.entries@[self.slot(t)].1@,
        )
    }
}

/// The identifiers under `t`, none where `t` is absent.
pub open spec fn ids_under(m: Map<Seq<char>, Seq<u128>>, t: Seq<char>) -> Seq<u128> {
    if m.contains_key(t) {
        m[t]
    } else {
        Seq::empty()
    }
}

impl TagIndex {
    /// An index without tags.
    pub fn new() -> (r: TagIndex)
        ensures
            r.wf(),
            r@ == Map::<Seq<char>, Seq<u128>>::empty(),
    {
        let r = TagIndex { entries: Vec::new() };
        assert(r@ =~= Map::<Seq<char>, Seq<u128>>::empty());
        r
    }

    /// The position of the entry for `t`, if there is one.
    fn find(&self, t: &String) -> (r: Option<usize>)
        requires
            self.wf(),
        ensures
            match r {
                Some(i) => i < self.entries@.len() && self.entries@[i as int].0@ == t@ && self.slot(
                    t@,
                ) == i,
                None => !self@.contains_key(t@),
            },
    {
        let mut i: usize = 0;
        while i < self.entries.len()
            invariant
                self.wf(),
                i <= self.entries@.len(),
                forall|j: int| 0 <= j < i ==> self.entries@[j].0@ != t@,
            decreases self.entries@.len() - i,
        {
            if self.entries[i].0 == *t {
                let ghost k = self.slot(t@);
                assert(0 <= k < self.entries@.len() && self.entries@[k].0@ == t@);
                assert(k == i) by {
                    if k < i {
                    } else if k > i {
                        assert(self.entries@[i as int].0@ != self.entries@[k].0@);
                    }
                }
                return Some(i);
            }
            i = i + 1;
        }
        None
    }

    /// The number of tags.
    pub fn len(&self) -> (r: usize)
        requires
            self.wf(),
        ensures
            r == self@.dom().len(),
    {
        let ghost keys = self.entries@.map_values(|e: (String, Vec<u128>)| e.0@);
        assert(keys.to_set() =~= self@.dom()) by {
            assert forall|t: Seq<char>| #[trigger] self@.dom().contains(t) implies keys.to_set().contains(t) by {
                let i = choose|i: int| 0 <= i < self.entries@.len() && self.entries@[i].0@ == t;
                assert(keys[i] == t);
            }
        }
        assert(keys.no_duplicates());
        proof {
            keys.unique_seq_to_set();
        }
        self.entries.len()
    }

    /// The identifiers under `t`, in the order they were added.
    pub fn get(&self, t: &String) -> (r: Option<&Vec<u128>>)
        requires
            self.wf(),
        ensures
            r is Some <==> self@.contains_key(t@),
            r matches Some(v) ==> v@ == self@[t@] && v@.len() > 0,
    {
        match self.find(t) {
            Some(i) => Some(&self.entries[i].1),
            None => None,
        }
    }

    /// The entry for a present tag is the only one with its name.
    proof fn lemma_slot(&self, t: Seq<char>)
        requires
            self.wf(),
            exists|i: int| 0 <= i < self.entries@.len() && self.entries@[i].0@ == t,
        ensures
            0 <= self.slot(t) < self.entries@.len(),
            self.entries@[self.slot(t)].0@ == t,
            forall|j: int|
                0 <= j < self.entries@.len() && self.entries@[j].0@ == t ==> j == self.slot(t),
    {
        let k = self.slot(t);
        assert forall|j: int|
            0 <= j < self.entries@.len() && self.entries@[j].0@ == t implies j == k by {
            if j < k {
                assert(self.entries@[j].0@ != self.entries@[k].0@);
            } else if j > k {
                assert(self.entries@[k].0@ != self.entries@[j].0@);
            }
        }
    }

    /// Adds `id` under `t`, after the identifiers already there.
    pub fn add(&mut self, t: String, id: u128)
        requires
            old(self).wf(),
        ensures
            final(self).wf(),
            final(self)@ == old(self)@.insert(t@, ids_under(old(self)@, t@).push(id)),
    {
        let ghost before = *self;
        match self.find(&t) {
            Some(i) => {
                let mut ids = self.entries[i].1.clone();
                assert(ids@ == before.entries@[i as int].1@);
                ids.push(id);
                self.entries.set(i, (t, ids));
                assert(forall|k: int|
                    0 <= k < self.entries@.len() ==> #[trigger] self.entries@[k].0@
                        == before.entries@[k].0@);
                assert(forall|k: int|
                    0 <= k < self.entries@.len() && k != i ==> #[trigger] self.entries@[k]
                        == before.entries@[k]);
                assert(self.wf());
                assert forall|u: Seq<char>| #[trigger] self@.contains_key(u) implies self@[u] == old(
                    self,
                )@.insert(t@, ids_under(old(self)@, t@).push(id))[u] by {
                    self.lemma_slot(u);
                    before.lemma_slot(u);
                    if u == t@ {
                        assert(self.slot(u) == i);
                    } else {
                        assert(self.slot(u) == before.slot(u));
                    }
                }
                assert forall|u: Seq<char>| #[trigger] old(self)@.contains_key(u) implies self@.contains_key(u) by {
                    before.lemma_slot(u);
                    assert(self.entries@[before.slot(u)].0@ == u);
                }
                assert forall|u: Seq<char>| #[trigger] self@.contains_key(u) implies old(self)@.contains_key(u) by {
                    self.lemma_slot(u);
                    assert(before.entries@[self.slot(u)].0@ == u);
                }
                assert(self@ =~= old(self)@.insert(t@, ids_under(old(self)@, t@).push(id)));
            },
            None => {
                let mut ids: Vec<u128> = Vec::new();
                ids.push(id);
                self.entries.push((t, ids));
                let ghost n = (self.entries@.len() - 1) as int;
                assert(self.entries@[n].0@ == t@);
                assert(forall|k: int| 0 <= k < n ==> #[trigger] self.entries@[k] == before.entries@[k]);
                assert(self.wf());
                assert(ids_under(old(self)@, t@) =~= Seq::<u128>::empty());
                assert forall|u: Seq<char>| #[trigger] self@.contains_key(u) implies self@[u] == old(
                    self,
                )@.insert(t@, ids_under(old(self)@, t@).push(id))[u] by {
                    self.lemma_slot(u);
                    if u == t@ {
                        assert(self.slot(u) == n);
                    } else {
                        let k = self.slot(u);
                        assert(before.entries@[k].0@ == u);
                        before.lemma_slot(u);
                        assert(self.slot(u) == before.slot(u));
                    }
                }
                assert forall|u: Seq<char>| #[trigger] old(self)@.contains_key(u) implies self@.contains_key(u) by {
                    before.lemma_slot(u);
                    assert(self.entries@[before.slot(u)].0@ == u);
                }
                assert(self@ =~= old(self)@.insert(t@, ids_under(old(self)@, t@).push(id)));
            },
        }
    }
}

impl TagIndex {
    /// Each tag with the number of identifiers under it, in the order the
    /// tags were added.
    pub fn counts(&self) -> (r: Vec<(String, usize)>)
        requires
            self.wf(),
        ensures
            r@.len() == self@.dom().len(),
            forall|i: int|
                0 <= i < r@.len() ==> self@.contains_key(#[trigger] r@[i].0@) && r@[i].1
                    == self@[r@[i].0@].len(),
            forall|t: Seq<char>|
                #[trigger] self@.contains_key(t) ==> exists|i: int| 0 <= i < r@.len() && r@[i].0@ == t,
    {
        let mut r: Vec<(String, usize)> = Vec::new();
        let mut i: usize = 0;
        while i < self.entries.len()
            invariant
                self.wf(),
                i <= self.entries@.len(),
                r@.len() == i,
                forall|j: int|
                    0 <= j < i ==> r@[j].0@ == self.entries@[j].0@ && r@[j].1 == self.entries@[j].1@.len(),
            decreases self.entries@.len() - i,
        {
            r.push((self.entries[i].0.clone(), self.entries[i].1.len()));
            i = i + 1;
        }
        proof {
            assert forall|j: int| 0 <= j < r@.len() implies self@.contains_key(#[trigger] r@[j].0@) && r@[j].1
                == self@[r@[j].0@].len() by {
                self.lemma_slot(r@[j].0@);
            }
            assert forall|t: Seq<char>| #[trigger] self@.contains_key(t) implies exists|j: int|
                0 <= j < r@.len() && r@[j].0@ == t by {
                self.lemma_slot(t);
                assert(r@[self.slot(t)].0@ == t);
            }
        }
        proof {
            let keys = r@.map_values(|e: (String, usize)| e.0@);
            assert(keys.to_set() =~= self@.dom()) by {
                assert forall|t: Seq<char>| #[trigger] self@.dom().contains(t) implies keys.to_set().contains(t) by {
                    let j = choose|j: int| 0 <= j < r@.len() && r@[j].0@ == t;
                    assert(keys[j] == t);
                }
            }
            assert(keys.no_duplicates());
            keys.unique_seq_to_set();
        }
        r
    }
}

/// The word index: for each class, a map from tags to word identifiers.
#[derive(Clone, Debug)]
pub struct WordIndex {
    nouns: TagIndex,
    adjectives: TagIndex,
}

impl WordIndex {
    /// The tag map of the words of `class`.
    pub closed spec fn of_class(&self, class: WordType) -> Map<Seq<char>, Seq<u128>> {
        match class {
            WordType::Noun => self.nouns@,
            WordType::Adjective => self.adjectives@,
        }
    }

    /// Both tag maps are well formed.
    pub closed spec fn wf(&self) -> bool {
        self.nouns.wf() && self.adjectives.wf()
    }

    /// The number of (class, tag) keys.
    pub closed spec fn key_count(&self) -> nat {
        self.nouns@.dom().len() + self.adjectives@.dom().len()
    }

    /// An index without keys.
    pub fn new() -> (r: WordIndex)
        ensures
            r.wf(),
            r.of_class(WordType::Noun) == Map::<Seq<char>, Seq<u128>>::empty(),
            r.of_class(WordType::Adjective) == Map::<Seq<char>, Seq<u128>>::empty(),
    {
        WordIndex { nouns: TagIndex::new(), adjectives: TagIndex::new() }
    }

    /// The tag map of the words of `class`.
    pub fn for_class(&self, class: WordType) -> (r: &TagIndex)
        ensures
            r@ == self.of_class(class),
            self.wf() ==> r.wf(),
    {
        match class {
            WordType::Noun => &self.nouns,
            WordType::Adjective => &self.adjectives,
        }
    }

    /// Adds `id` under (`class`, `t`).
    pub fn add(&mut self, class: WordType, t: String, id: u128)
        requires
            old(self).wf(),
        ensures
            final(self).wf(),
            final(self).of_class(class) == old(self).of_class(class).insert(
                t@,
                ids_under(old(self).of_class(class), t@).push(id),
            ),
            forall|c: WordType| c != class ==> final(self).of_class(c) == old(self).of_class(c),
    {
        match class {
            WordType::Noun => self.nouns.add(t, id),
            WordType::Adjective => self.adjectives.add(t, id),
        }
    }

    /// Each (class, tag) key with the number of words under it: the nouns'
    /// keys, then the adjectives'.
    pub fn counts(&self) -> (r: Vec<(WordType, String, usize)>)
        requires
            self.wf(),
        ensures
            forall|i: int|
                0 <= i < r@.len() ==> self.of_class(r@[i].0).contains_key(#[trigger] r@[i].1@)
                    && r@[i].2 == self.of_class(r@[i].0)[r@[i].1@].len(),
            forall|c: WordType, t: Seq<char>|
                #[trigger] self.of_class(c).contains_key(t) ==> exists|i: int|
                    0 <= i < r@.len() && r@[i].0 == c && r@[i].1@ == t,
    {
        let mut r: Vec<(WordType, String, usize)> = Vec::new();
        let nouns = self.nouns.counts();
        let adjectives = self.adjectives.counts();
        let mut i: usize = 0;
        while i < nouns.len()
            invariant
                i <= nouns@.len(),
                r@.len() == i,
                forall|j: int| 0 <= j < i ==> #[trigger] r@[j] == (WordType::Noun, nouns@[j].0, nouns@[j].1),
            decreases nouns@.len() - i,
        {
            r.push((WordType::Noun, nouns[i].0.clone(), nouns[i].1));
            i = i + 1;
        }
        let mut k: usize = 0;
        while k < adjectives.len()
            invariant
                i == nouns@.len(),
                k <= adjectives@.len(),
                r@.len() == i + k,
                forall|j: int| 0 <= j < i ==> #[trigger] r@[j] == (WordType::Noun, nouns@[j].0, nouns@[j].1),
                forall|j: int|
                    0 <= j < k ==> #[trigger] r@[i + j] == (WordType::Adjective, adjectives@[j].0, adjectives@[j].1),
            decreases adjectives@.len() - k,
        {
            r.push((WordType::Adjective, adjectives[k].0.clone(), adjectives[k].1));
            k = k + 1;
        }
        proof {
            assert forall|j: int| 0 <= j < r@.len() implies self.of_class(r@[j].0).contains_key(
                #[trigger] r@[j].1@,
            ) && r@[j].2 == self.of_class(r@[j].0)[r@[j].1@].len() by {
                if j < i {
                    assert(r@[j] == (WordType::Noun, nouns@[j].0, nouns@[j].1));
                } else {
                    assert(r@[i + (j - i)] == (WordType::Adjective, adjectives@[j - i].0, adjectives@[j - i].1));
                }
            }
            assert forall|c: WordType, t: Seq<char>| #[trigger] self.of_class(c).contains_key(t) implies exists|j: int|
                0 <= j < r@.len() && r@[j].0 == c && r@[j].1@ == t by {
                match c {
                    WordType::Noun => {
                        let j = choose|j: int| 0 <= j < nouns@.len() && nouns@[j].0@ == t;
                        assert(r@[j] == (WordType::Noun, nouns@[j].0, nouns@[j].1));
                    },
                    WordType::Adjective => {
                        let j = choose|j: int| 0 <= j < adjectives@.len() && adjectives@[j].0@ == t;
                        assert(r@[i + j] == (WordType::Adjective, adjectives@[j].0, adjectives@[j].1));
                    },
                }
            }
        }
        r
    }

    /// The number of (class, tag) keys.
    pub fn len(&self) -> (r: usize)
        requires
            self.wf(),
            self.key_count() <= usize::MAX,
        ensures
            r == self.key_count(),
    {
        self.nouns.len() + self.adjectives.len()
    }
}

/// The derived state of a dictionary: the tag graph and the two indices.
#[derive(Clone, Debug)]
pub struct Index {
    pub tag_children: TagGraph,
    pub tag_words: WordIndex,
    pub tag_templates: TagIndex,
}

} // verus!
