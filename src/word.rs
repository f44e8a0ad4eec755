//! Words: the vocabulary entries that a definition line declares.
use vstd::prelude::*;

use crate::random::fresh_id;
use crate::scan::{chars_of, distinct_of, find_markers, first_marker, markers, text_set, distinct_texts, views};

verus! {

/// The class of a word.
#[derive(PartialEq, Eq, Structural, Clone, Copy, Debug, Hash)]
pub enum WordType {
    Noun,
    Adjective,
}

/// How a word relates to another word declared on the same line.
#[derive(PartialEq, Eq, Structural, Clone, Copy, Debug, Hash)]
pub enum WordRelationType {
    /// The noun that an adjective was declared with.
    BaseNoun,
    /// The adjective that a noun was declared with.
    Adjective,
}

/// A constraint: a word class and a conjunction of groups of alternative tags.
pub type SearchPattern = (WordType, Vec<Vec<String>>);

/// A vocabulary entry.
#[derive(PartialEq, Clone, Debug)]
pub struct Word {
    pub id: u128,
    /// The surface text.
    pub base: String,
    pub word_type: WordType,
    /// Reserved; no query reads it.
    pub recipie: Option<Vec<Vec<String>>>,
    /// The tags of the word, each once.
    pub tags: Vec<String>,
    /// Relations to other words, by identifier.
    pub related: Vec<(WordRelationType, u128)>,
}

/// The tags that a line attaches to what it declares.
pub open spec fn line_tags(line: Seq<char>) -> Set<Seq<char>> {
    markers(line, "TAG"@).to_set()
}

/// The noun that a line declares.
pub open spec fn line_noun(line: Seq<char>) -> Option<Seq<char>> {
    first_marker(line, "NOUN"@)
}

/// The adjective that a line declares.
pub open spec fn line_adjective(line: Seq<char>) -> Option<Seq<char>> {
    first_marker(line, "ADJECTIVE"@)
}

/// A word as a line declares it: with the line's tags, each once, and no recipe.
pub open spec fn fresh_word(w: Word, line: Seq<char>, text: Seq<char>, class: WordType) -> bool {
    &&& w.base@ == text
    &&& w.word_type == class
    &&& w.recipie is None
    &&& distinct_texts(w.tags@)
    &&& text_set(w.tags@) == line_tags(line)
}

/// `r` holds the words that `line` declares: its noun, then its adjective,
/// each related to the other when both are there. Only the identifiers are
/// left open.
pub open spec fn declares_words(line: Seq<char>, r: Seq<Word>) -> bool {
    let noun = line_noun(line);
    let adj = line_adjective(line);
    let n: int = if noun is Some {
        1
    } else {
        0
    };
    &&& r.len() == n + if adj is Some {
        1int
    } else {
        0int
    }
    &&& noun is Some ==> {
        &&& fresh_word(r[0], line, noun->0, WordType::Noun)
        &&& r[0].related@ == if adj is Some {
            seq![(WordRelationType::Adjective, r[1].id)]
        } else {
            Seq::empty()
        }
    }
    &&& adj is Some ==> {
        &&& fresh_word(r[n], line, adj->0, WordType::Adjective)
        &&& r[n].related@ == if noun is Some {
            seq![(WordRelationType::BaseNoun, r[0].id)]
        } else {
            Seq::empty()
        }
    }
}

/// The words that `line` declares with `NOUN(...)` and `ADJECTIVE(...)`,
/// each with a fresh identifier and the line's `TAG(...)` tags.
pub fn parse_word(line: &str) -> (r: Vec<Word>)
    ensures
        declares_words(line@, r@),
{
    let s = chars_of(line);
    let nouns = find_markers(line, &s, "NOUN");
    let adjectives = find_markers(line, &s, "ADJECTIVE");
    let found_tags = find_markers(line, &s, "TAG");
    let tags = distinct_of(&found_tags);
    assert(views(nouns@).len() == nouns@.len());
    assert(views(adjectives@).len() == adjectives@.len());
    let noun_id = fresh_id();
    let adjective_id = fresh_id();
    let mut r: Vec<Word> = Vec::new();
    if nouns.len() > 0 {
        let mut related: Vec<(WordRelationType, u128)> = Vec::new();
        if adjectives.len() > 0 {
            related.push((WordRelationType::Adjective, adjective_id));
        }
        assert(views(nouns@)[0] == nouns@[0]@);
        r.push(
            Word {
                id: noun_id,
                base: nouns[0].clone(),
                word_type: WordType::Noun,
                recipie: None,
                tags: tags.clone(),
                related,
            },
        );
    }
    if adjectives.len() > 0 {
        let mut related: Vec<(WordRelationType, u128)> = Vec::new();
        if nouns.len() > 0 {
            related.push((WordRelationType::BaseNoun, noun_id));
        }
        assert(views(adjectives@)[0] == adjectives@[0]@);
        r.push(
            Word {
                id: adjective_id,
                base: adjectives[0].clone(),
                word_type: WordType::Adjective,
                recipie: None,
                tags: tags.clone(),
                related,
            },
        );
    }
    proof {
        if nouns.len() > 0 {
            assert(r@[0].tags@ == tags@);
        }
        if adjectives.len() > 0 {
            assert(r@[r@.len() - 1].tags@ == tags@);
        }
    }
    r
}

/// Parsing the same line twice gives the same words (text, class, tags and
/// kinds of relation), in the same order; only identifiers may differ.
pub proof fn lemma_parse_word_repeatable(line: Seq<char>, a: Seq<Word>, b: Seq<Word>)
    requires
        declares_words(line, a),
        declares_words(line, b),
    ensures
        a.len() == b.len(),
        forall|i: int|
            0 <= i < a.len() ==> {
                &&& #[trigger] a[i].base@ == b[i].base@
                &&& a[i].word_type == b[i].word_type
                &&& text_set(a[i].tags@) == text_set(b[i].tags@)
                &&& a[i].related@.len() == b[i].related@.len()
                &&& forall|j: int|
                    0 <= j < a[i].related@.len() ==> a[i].related@[j].0 == b[i].related@[j].0
            },
{
}

/// Every word that a line declares has its tags once each and no recipe.
pub proof fn lemma_declared_words_fresh(line: Seq<char>, r: Seq<Word>)
    requires
        declares_words(line, r),
    ensures
        forall|k: int|
            0 <= k < r.len() ==> distinct_texts(#[trigger] r[k].tags@) && r[k].recipie is None,
{
}

} // verus!
