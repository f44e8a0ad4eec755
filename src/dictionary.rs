//! The dictionary: words and templates with their closed tags, and the
//! indices that queries and rendering read.
use vstd::prelude::*;

use crate::index::{ids_under, Index, TagIndex, WordIndex};
use crate::query::{in_every_group, lemma_pool, pool, resolve_in, under_group, TagMap};
use crate::random::random_below;
use crate::scan::{contains_text, distinct_texts, text_set, views};
use crate::tags::{closed_tags, line_links, parse_tag_children, Links, TagGraph};
use crate::template::{declares_template, group_views, parse_template, Template, TemplateElement};
use crate::word::{declares_words, lemma_declared_words_fresh, parse_word, SearchPattern, Word, WordType};

verus! {

/// The identifiers of the words of `class` that carry `t`, in table order.
pub open spec fn word_postings(ws: Seq<Word>, class: WordType, t: Seq<char>) -> Seq<u128>
    decreases ws.len(),
{
    if ws.len() == 0 {
        Seq::empty()
    } else {
        let rest = word_postings(ws.drop_last(), class, t);
        let w = ws.last();
        if w.word_type == class && text_set(w.tags@).contains(t) {
            rest.push(w.id)
        } else {
            rest
        }
    }
}

/// The tag map of the words of `class`: each tag that some such word carries,
/// with the identifiers of those words.
pub open spec fn word_map(ws: Seq<Word>, class: WordType) -> TagMap {
    Map::new(|t: Seq<char>| word_postings(ws, class, t).len() > 0, |t: Seq<char>| word_postings(ws, class, t))
}

/// The identifiers of the templates that carry `t`, in table order.
pub open spec fn template_postings(ts: Seq<Template>, t: Seq<char>) -> Seq<u128>
    decreases ts.len(),
{
    if ts.len() == 0 {
        Seq::empty()
    } else {
        let rest = template_postings(ts.drop_last(), t);
        if text_set(ts.last().tags@).contains(t) {
            rest.push(ts.last().id)
        } else {
            rest
        }
    }
}

/// The tag map of the templates.
pub open spec fn template_map(ts: Seq<Template>) -> TagMap {
    Map::new(|t: Seq<char>| template_postings(ts, t).len() > 0, |t: Seq<char>| template_postings(ts, t))
}

/// No two words share an identifier.
pub open spec fn word_ids_distinct(ws: Seq<Word>) -> bool {
    forall|i: int, j: int| 0 <= i < j < ws.len() ==> ws[i].id != ws[j].id
}

/// No two templates share an identifier.
pub open spec fn template_ids_distinct(ts: Seq<Template>) -> bool {
    forall|i: int, j: int| 0 <= i < j < ts.len() ==> ts[i].id != ts[j].id
}

/// Some word of `ws` has the identifier `id`.
pub open spec fn has_word_id(ws: Seq<Word>, id: u128) -> bool {
    exists|n: int| 0 <= n < ws.len() && #[trigger] ws[n].id == id
}

/// Some template of `ts` has the identifier `id`.
pub open spec fn has_template_id(ts: Seq<Template>, id: u128) -> bool {
    exists|n: int| 0 <= n < ts.len() && #[trigger] ts[n].id == id
}

/// The tag set `tags` holds some tag of the group `g`.
pub open spec fn carries_one_of(tags: Set<Seq<char>>, g: Seq<Seq<char>>) -> bool {
    exists|j: int| 0 <= j < g.len() && #[trigger] tags.contains(g[j])
}

/// The tag set `tags` meets the constraint `gs`: there is a group, and
/// `tags` holds a tag of each.
pub open spec fn meets(tags: Set<Seq<char>>, gs: Seq<Seq<Seq<char>>>) -> bool {
    &&& gs.len() > 0
    &&& forall|i: int| 0 <= i < gs.len() ==> #[trigger] carries_one_of(tags, gs[i])
}

/// The word `w` is of `class` and meets the constraint `gs`.
pub open spec fn word_fits(w: Word, class: WordType, gs: Seq<Seq<Seq<char>>>) -> bool {
    w.word_type == class && meets(text_set(w.tags@), gs)
}

/// An element holds either text or a pattern.
pub open spec fn element_wf(e: TemplateElement) -> bool {
    e.text is Some != e.template is Some
}

/// `w` is `raw` with its tags closed under the links `g`.
pub open spec fn closed_copy(raw: Word, w: Word, g: Links) -> bool {
    &&& w.id == raw.id
    &&& w.base == raw.base
    &&& w.word_type == raw.word_type
    &&& w.recipie == raw.recipie
    &&& w.related == raw.related
    &&& distinct_texts(w.tags@)
    &&& text_set(w.tags@) == closed_tags(g, text_set(raw.tags@))
}

/// `t` is `raw` with its tags closed under the links `g`.
pub open spec fn closed_template(raw: Template, t: Template, g: Links) -> bool {
    &&& t.id == raw.id
    &&& t.template == raw.template
    &&& distinct_texts(t.tags@)
    &&& text_set(t.tags@) == closed_tags(g, text_set(raw.tags@))
}

/// What one line declares.
pub struct ParseResult {
    pub words: Vec<Word>,
    pub tag_children: TagGraph,
    pub pattern: Option<Template>,
}

/// `p` is what `line` declares, up to identifiers.
pub open spec fn parsed_from(line: Seq<char>, p: ParseResult) -> bool {
    &&& declares_words(line, p.words@)
    &&& p.tag_children@ == line_links(line)
    &&& declares_template(line, p.pattern)
}

/// The links that the lines declare, all together.
pub open spec fn all_links(lines: Seq<String>) -> Links
    decreases lines.len(),
{
    if lines.len() == 0 {
        Set::empty()
    } else {
        all_links(lines.drop_last()).union(line_links(lines.last()@))
    }
}

/// Position (`a2`, `b2`) comes before (`a`, `b`): on an earlier line, or
/// earlier on the same line.
pub open spec fn comes_before(a2: int, b2: int, a: int, b: int) -> bool {
    a2 < a || (a2 == a && b2 < b)
}

/// `w` is word `b` of parse `a` with its tags closed under `g`, and no word
/// declared after it and before position (`i`, `k`) has its identifier.
pub open spec fn latest_word_at(
    ps: Seq<ParseResult>,
    g: Links,
    w: Word,
    a: int,
    b: int,
    i: int,
    k: int,
) -> bool {
    &&& 0 <= a < ps.len()
    &&& 0 <= b < ps[a].words@.len()
    &&& comes_before(a, b, i, k)
    &&& closed_copy(ps[a].words@[b], w, g)
    &&& forall|a2: int, b2: int|
        0 <= a2 < ps.len() && 0 <= b2 < ps[a2].words@.len() && comes_before(a, b, a2, b2)
            && comes_before(a2, b2, i, k) ==> #[trigger] ps[a2].words@[b2].id != w.id
}

/// `w` is, with its tags closed under `g`, the last word declared before
/// position (`i`, `k`) with its identifier.
pub open spec fn latest_word_before(ps: Seq<ParseResult>, g: Links, w: Word, i: int, k: int) -> bool {
    exists|a: int, b: int| #[trigger] latest_word_at(ps, g, w, a, b, i, k)
}

/// `w` is, with its tags closed under `g`, the last word that the parses
/// `ps` declare with its identifier.
pub open spec fn declared_word(ps: Seq<ParseResult>, g: Links, w: Word) -> bool {
    latest_word_before(ps, g, w, ps.len() as int, 0)
}

/// `t` is the template of parse `a` with its tags closed under `g`, and no
/// template declared after it and before parse `i` has its identifier.
pub open spec fn latest_template_at(ps: Seq<ParseResult>, g: Links, t: Template, a: int, i: int) -> bool {
    &&& 0 <= a < i <= ps.len()
    &&& ps[a].pattern is Some
    &&& closed_template(ps[a].pattern->0, t, g)
    &&& forall|a2: int| a < a2 < i && #[trigger] ps[a2].pattern is Some ==> ps[a2].pattern->0.id != t.id
}

/// `t` is, with its tags closed under `g`, the last template declared
/// before parse `i` with its identifier.
pub open spec fn latest_template_before(ps: Seq<ParseResult>, g: Links, t: Template, i: int) -> bool {
    exists|a: int| #[trigger] latest_template_at(ps, g, t, a, i)
}

/// `t` is, with its tags closed under `g`, the last template that the
/// parses `ps` declare with its identifier.
pub open spec fn declared_template(ps: Seq<ParseResult>, g: Links, t: Template) -> bool {
    latest_template_before(ps, g, t, ps.len() as int)
}

/// The words `ws` are those that the parses `ps` declare, each with its tags
/// closed under `g`: every word of the table is the last declaration of its
/// identifier, and every declared identifier is in the table.
pub open spec fn words_from(ps: Seq<ParseResult>, g: Links, ws: Seq<Word>) -> bool {
    &&& forall|n: int| 0 <= n < ws.len() ==> #[trigger] declared_word(ps, g, ws[n])
    &&& forall|i: int, k: int|
        0 <= i < ps.len() && 0 <= k < ps[i].words@.len() ==> #[trigger] has_word_id(
            ws,
            ps[i].words@[k].id,
        )
}

/// The templates `ts` are those that the parses `ps` declare, each with its
/// tags closed under `g`, in the same sense as for words.
pub open spec fn templates_from(ps: Seq<ParseResult>, g: Links, ts: Seq<Template>) -> bool {
    &&& forall|n: int| 0 <= n < ts.len() ==> #[trigger] declared_template(ps, g, ts[n])
    &&& forall|i: int|
        0 <= i < ps.len() && ps[i].pattern is Some ==> #[trigger] has_template_id(
            ts,
            ps[i].pattern->0.id,
        )
}

/// A dictionary as its contracts see it.
pub struct DictView {
    pub words: Seq<Word>,
    pub templates: Seq<Template>,
    pub links: Links,
}

/// Words, templates and the index over them, built once from definition lines.
pub struct Dictionary {
    pub(crate) words: Vec<Word>,
    pub(crate) templates: Vec<Template>,
    pub(crate) index: Index,
}

impl View for Dictionary {
    type V = DictView;

    closed spec fn view(&self) -> DictView {
        DictView {
            words: self.words@,
            templates: self.templates@,
            links: self.index.tag_children@,
        }
    }
}

impl Dictionary {
    /// Identifiers are distinct, tag lists hold each tag once, template
    /// elements are either text or a pattern, and the indices agree with the
    /// tables.
    pub closed spec fn wf(&self) -> bool {
        &&& word_ids_distinct(self.words@)
        &&& template_ids_distinct(self.templates@)
        &&& forall|n: int| 0 <= n < self.words@.len() ==> distinct_texts(#[trigger] self.words@[n].tags@)
        &&& forall|n: int|
            0 <= n < self.templates@.len() ==> distinct_texts(#[trigger] self.templates@[n].tags@)
        &&& forall|n: int, k: int|
            0 <= n < self.templates@.len() && 0 <= k < self.templates@[n].template@.len()
                ==> element_wf(#[trigger] self.templates@[n].template@[k])
        &&& self.index.tag_words.wf()
        &&& forall|c: WordType| #[trigger] self.index.tag_words.of_class(c) == word_map(self.words@, c)
        &&& self.index.tag_templates.wf()
        &&& self.index.tag_templates@ == template_map(self.templates@)
    }

    /// A well-formed dictionary has distinct identifiers and tag lists
    /// without repeats.
    pub proof fn lemma_wf(&self)
        requires
            self.wf(),
        ensures
            word_ids_distinct(self@.words),
            template_ids_distinct(self@.templates),
            forall|n: int| 0 <= n < self@.words.len() ==> distinct_texts(#[trigger] self@.words[n].tags@),
            forall|n: int| 0 <= n < self@.templates.len() ==> distinct_texts(#[trigger] self@.templates[n].tags@),
    {
    }

    /// The words, in table order.
    pub fn words(&self) -> (r: &Vec<Word>)
        ensures
            r@ == self@.words,
    {
        &self.words
    }

    /// The templates, in table order.
    pub fn templates(&self) -> (r: &Vec<Template>)
        ensures
            r@ == self@.templates,
    {
        &self.templates
    }

    /// The tag graph and the indices.
    pub fn index(&self) -> (r: &Index)
        ensures
            r.tag_children@ == self@.links,
    {
        &self.index
    }
}

/// What `line` declares: its words, its parent/child links and its template.
pub fn parse_line(line: &str) -> (r: ParseResult)
    ensures
        parsed_from(line@, r),
{
    ParseResult { words: parse_word(line), tag_children: parse_tag_children(line), pattern: parse_template(line) }
}

proof fn lemma_word_postings_push(ws: Seq<Word>, w: Word, class: WordType, t: Seq<char>)
    ensures
        word_postings(ws.push(w), class, t) == if w.word_type == class && text_set(w.tags@).contains(
            t,
        ) {
            word_postings(ws, class, t).push(w.id)
        } else {
            word_postings(ws, class, t)
        },
{
    assert(ws.push(w).drop_last() =~= ws);
}

proof fn lemma_template_postings_push(ts: Seq<Template>, t: Template, tag: Seq<char>)
    ensures
        template_postings(ts.push(t), tag) == if text_set(t.tags@).contains(tag) {
            template_postings(ts, tag).push(t.id)
        } else {
            template_postings(ts, tag)
        },
{
    assert(ts.push(t).drop_last() =~= ts);
}

/// The identifiers under `t` once the first `j` tags of `w` are indexed
/// after the words `ws`.
spec fn partial_word_postings(ws: Seq<Word>, w: Word, j: int, class: WordType, t: Seq<char>) -> Seq<u128> {
    if w.word_type == class && views(w.tags@).subrange(0, j).contains(t) {
        word_postings(ws, class, t).push(w.id)
    } else {
        word_postings(ws, class, t)
    }
}

/// The tag map once the first `j` tags of `w` are indexed after the words `ws`.
spec fn partial_word_map(ws: Seq<Word>, w: Word, j: int, class: WordType) -> TagMap {
    Map::new(
        |t: Seq<char>| partial_word_postings(ws, w, j, class, t).len() > 0,
        |t: Seq<char>| partial_word_postings(ws, w, j, class, t),
    )
}

/// The index of the words `ws`, by class and tag.
fn index_words(ws: &Vec<Word>) -> (r: WordIndex)
    requires
        forall|n: int| 0 <= n < ws@.len() ==> distinct_texts(#[trigger] ws@[n].tags@),
    ensures
        r.wf(),
        forall|c: WordType| #[trigger] r.of_class(c) == word_map(ws@, c),
{
    let mut idx = WordIndex::new();
    assert forall|c: WordType| #[trigger] idx.of_class(c) == word_map(ws@.subrange(0, 0), c) by {
        assert(idx.of_class(c) =~= word_map(ws@.subrange(0, 0), c));
    }
    let mut n: usize = 0;
    while n < ws.len()
        invariant
            n <= ws@.len(),
            idx.wf(),
            forall|m: int| 0 <= m < ws@.len() ==> distinct_texts(#[trigger] ws@[m].tags@),
            forall|c: WordType| #[trigger] idx.of_class(c) == word_map(ws@.subrange(0, n as int), c),
        decreases ws@.len() - n,
    {
        let w = &ws[n];
        let ghost prev = ws@.subrange(0, n as int);
        assert forall|c: WordType| #[trigger] idx.of_class(c) == partial_word_map(prev, *w, 0, c) by {
            assert(idx.of_class(c) =~= partial_word_map(prev, *w, 0, c));
        }
        let mut j: usize = 0;
        while j < w.tags.len()
            invariant
                w == ws@[n as int],
                prev == ws@.subrange(0, n as int),
                distinct_texts(w.tags@),
                j <= w.tags@.len(),
                idx.wf(),
                forall|c: WordType| #[trigger] idx.of_class(c) == partial_word_map(prev, *w, j as int, c),
            decreases w.tags@.len() - j,
        {
            let ghost before = idx;
            let ghost t = w.tags@[j as int]@;
            idx.add(w.word_type, w.tags[j].clone(), w.id);
            proof {
                assert(views(w.tags@)[j as int] == t);
                assert(!views(w.tags@).subrange(0, j as int).contains(t)) by {
                    if views(w.tags@).subrange(0, j as int).contains(t) {
                        let q = choose|q: int| 0 <= q < j && views(w.tags@).subrange(0, j as int)[q] == t;
                        assert(views(w.tags@)[q] == views(w.tags@)[j as int]);
                    }
                }
                assert forall|u: Seq<char>| #[trigger] views(w.tags@).subrange(0, j + 1).contains(u)
                    <==> views(w.tags@).subrange(0, j as int).contains(u) || u == t by {
                    assert(views(w.tags@).subrange(0, j + 1) =~= views(w.tags@).subrange(0, j as int).push(t));
                    vstd::seq_lib::lemma_seq_contains_after_push(views(w.tags@).subrange(0, j as int), t, u);
                }
                assert forall|c: WordType| #[trigger] idx.of_class(c) == partial_word_map(prev, *w, j + 1, c) by {
                    if c == w.word_type {
                        assert(ids_under(before.of_class(c), t) =~= partial_word_postings(prev, *w, j as int, c, t));
                    }
                    assert(idx.of_class(c) =~= partial_word_map(prev, *w, j + 1, c));
                }
            }
            j = j + 1;
        }
        proof {
            assert(ws@.subrange(0, n + 1) =~= prev.push(*w));
            assert(views(w.tags@).subrange(0, j as int) =~= views(w.tags@));
            assert forall|c: WordType| #[trigger] idx.of_class(c) == word_map(ws@.subrange(0, n + 1), c) by {
                assert forall|t: Seq<char>| #[trigger] partial_word_postings(prev, *w, j as int, c, t) == word_postings(prev.push(*w), c, t) by {
                    lemma_word_postings_push(prev, *w, c, t);
                }
                assert(idx.of_class(c) =~= word_map(ws@.subrange(0, n + 1), c));
            }
        }
        n = n + 1;
    }
    assert(ws@.subrange(0, n as int) =~= ws@);
    idx
}

/// The identifiers under `t` once the first `j` tags of `tm` are indexed
/// after the templates `ts`.
spec fn partial_template_postings(ts: Seq<Template>, tm: Template, j: int, t: Seq<char>) -> Seq<u128> {
    if views(tm.tags@).subrange(0, j).contains(t) {
        template_postings(ts, t).push(tm.id)
    } else {
        template_postings(ts, t)
    }
}

/// The tag map once the first `j` tags of `tm` are indexed after the templates `ts`.
spec fn partial_template_map(ts: Seq<Template>, tm: Template, j: int) -> TagMap {
    Map::new(
        |t: Seq<char>| partial_template_postings(ts, tm, j, t).len() > 0,
        |t: Seq<char>| partial_template_postings(ts, tm, j, t),
    )
}

/// The index of the templates `ts`, by tag.
fn index_templates(ts: &Vec<Template>) -> (r: TagIndex)
    requires
        forall|n: int| 0 <= n < ts@.len() ==> distinct_texts(#[trigger] ts@[n].tags@),
    ensures
        r.wf(),
        r@ == template_map(ts@),
{
    let mut idx = TagIndex::new();
    assert(idx@ =~= template_map(ts@.subrange(0, 0)));
    let mut n: usize = 0;
    while n < ts.len()
        invariant
            n <= ts@.len(),
            idx.wf(),
            forall|m: int| 0 <= m < ts@.len() ==> distinct_texts(#[trigger] ts@[m].tags@),
            idx@ == template_map(ts@.subrange(0, n as int)),
        decreases ts@.len() - n,
    {
        let tm = &ts[n];
        let ghost prev = ts@.subrange(0, n as int);
        assert(idx@ =~= partial_template_map(prev, *tm, 0));
        let mut j: usize = 0;
        while j < tm.tags.len()
            invariant
                tm == ts@[n as int],
                prev == ts@.subrange(0, n as int),
                distinct_texts(tm.tags@),
                j <= tm.tags@.len(),
                idx.wf(),
                idx@ == partial_template_map(prev, *tm, j as int),
            decreases tm.tags@.len() - j,
        {
            let ghost before = idx;
            let ghost t = tm.tags@[j as int]@;
            idx.add(tm.tags[j].clone(), tm.id);
            proof {
                assert(views(tm.tags@)[j as int] == t);
                assert(!views(tm.tags@).subrange(0, j as int).contains(t)) by {
                    if views(tm.tags@).subrange(0, j as int).contains(t) {
                        let q = choose|q: int| 0 <= q < j && views(tm.tags@).subrange(0, j as int)[q] == t;
                        assert(views(tm.tags@)[q] == views(tm.tags@)[j as int]);
                    }
                }
                assert forall|u: Seq<char>| #[trigger] views(tm.tags@).subrange(0, j + 1).contains(u)
                    <==> views(tm.tags@).subrange(0, j as int).contains(u) || u == t by {
                    assert(views(tm.tags@).subrange(0, j + 1) =~= views(tm.tags@).subrange(0, j as int).push(t));
                    vstd::seq_lib::lemma_seq_contains_after_push(views(tm.tags@).subrange(0, j as int), t, u);
                }
                assert(ids_under(before@, t) =~= partial_template_postings(prev, *tm, j as int, t));
                assert(idx@ =~= partial_template_map(prev, *tm, j + 1));
            }
            j = j + 1;
        }
        proof {
            assert(ts@.subrange(0, n + 1) =~= prev.push(*tm));
            assert(views(tm.tags@).subrange(0, j as int) =~= views(tm.tags@));
            assert forall|t: Seq<char>| #[trigger] partial_template_postings(prev, *tm, j as int, t) == template_postings(prev.push(*tm), t) by {
                lemma_template_postings_push(prev, *tm, t);
            }
            assert(idx@ =~= template_map(ts@.subrange(0, n + 1)));
        }
        n = n + 1;
    }
    assert(ts@.subrange(0, n as int) =~= ts@);
    idx
}

/// Puts `w` in the table, in place of the word with its identifier if there
/// is one.
fn put_word(table: &mut Vec<Word>, w: Word)
    requires
        word_ids_distinct(old(table)@),
    ensures
        word_ids_distinct(final(table)@),
        final(table)@.contains(w),
        forall|x: Word| #[trigger] final(table)@.contains(x) ==> x == w || old(table)@.contains(x),
        forall|id: u128| #[trigger] has_word_id(old(table)@, id) ==> has_word_id(final(table)@, id),
{
    let ghost id = w.id;
    let mut i: usize = 0;
    while i < table.len()
        invariant
            i <= table@.len(),
            table@ == old(table)@,
            word_ids_distinct(old(table)@),
            id == w.id,
            forall|j: int| 0 <= j < i ==> table@[j].id != id,
        decreases table@.len() - i,
    {
        if table[i].id == w.id {
            table.set(i, w);
            proof {
                assert(table@[i as int] == w);
                assert(forall|j: int| 0 <= j < table@.len() ==> #[trigger] table@[j].id == old(table)@[j].id);
                assert forall|x: Word| #[trigger] table@.contains(x) implies x == w || old(table)@.contains(x) by {
                    let j = choose|j: int| 0 <= j < table@.len() && table@[j] == x;
                    if j != i {
                        assert(old(table)@[j] == x);
                    }
                }
                assert forall|q: u128| #[trigger] has_word_id(old(table)@, q) implies has_word_id(table@, q) by {
                    let j = choose|j: int| 0 <= j < old(table)@.len() && #[trigger] old(table)@[j].id == q;
                    assert(table@[j].id == q);
                }
            }
            return;
        }
        i = i + 1;
    }
    table.push(w);
    proof {
        let n = table@.len() - 1;
        assert(table@[n] == w);
        assert forall|x: Word| #[trigger] table@.contains(x) implies x == w || old(table)@.contains(x) by {
            let j = choose|j: int| 0 <= j < table@.len() && table@[j] == x;
            if j != n {
                assert(old(table)@[j] == x);
            }
        }
        assert forall|q: u128| #[trigger] has_word_id(old(table)@, q) implies has_word_id(table@, q) by {
            let j = choose|j: int| 0 <= j < old(table)@.len() && #[trigger] old(table)@[j].id == q;
            assert(table@[j].id == q);
        }
    }
}

/// Puts `t` in the table, in place of the template with its identifier if
/// there is one.
fn put_template(table: &mut Vec<Template>, t: Template)
    requires
        template_ids_distinct(old(table)@),
    ensures
        template_ids_distinct(final(table)@),
        final(table)@.contains(t),
        forall|x: Template| #[trigger] final(table)@.contains(x) ==> x == t || old(table)@.contains(x),
        forall|id: u128| #[trigger] has_template_id(old(table)@, id) ==> has_template_id(final(table)@, id),
{
    let ghost id = t.id;
    let mut i: usize = 0;
    while i < table.len()
        invariant
            i <= table@.len(),
            table@ == old(table)@,
            template_ids_distinct(old(table)@),
            id == t.id,
            forall|j: int| 0 <= j < i ==> table@[j].id != id,
        decreases table@.len() - i,
    {
        if table[i].id == t.id {
            table.set(i, t);
            proof {
                assert(table@[i as int] == t);
                assert(forall|j: int| 0 <= j < table@.len() ==> #[trigger] table@[j].id == old(table)@[j].id);
                assert forall|x: Template| #[trigger] table@.contains(x) implies x == t || old(table)@.contains(x) by {
                    let j = choose|j: int| 0 <= j < table@.len() && table@[j] == x;
                    if j != i {
                        assert(old(table)@[j] == x);
                    }
                }
                assert forall|q: u128| #[trigger] has_template_id(old(table)@, q) implies has_template_id(table@, q) by {
                    let j = choose|j: int| 0 <= j < old(table)@.len() && #[trigger] old(table)@[j].id == q;
                    assert(table@[j].id == q);
                }
            }
            return;
        }
        i = i + 1;
    }
    table.push(t);
    proof {
        let n = table@.len() - 1;
        assert(table@[n] == t);
        assert forall|x: Template| #[trigger] table@.contains(x) implies x == t || old(table)@.contains(x) by {
            let j = choose|j: int| 0 <= j < table@.len() && table@[j] == x;
            if j != n {
                assert(old(table)@[j] == x);
            }
        }
        assert forall|q: u128| #[trigger] has_template_id(old(table)@, q) implies has_template_id(table@, q) by {
            let j = choose|j: int| 0 <= j < old(table)@.len() && #[trigger] old(table)@[j].id == q;
            assert(table@[j].id == q);
        }
    }
}

/// The elements of a parsed template each hold either text or a pattern.
proof fn lemma_elements_wf(v: Seq<TemplateElement>, ps: Seq<crate::template::Piece>)
    requires
        crate::template::elements_are(v, ps),
    ensures
        forall|k: int| 0 <= k < v.len() ==> element_wf(#[trigger] v[k]),
{
    assert forall|k: int| 0 <= k < v.len() implies element_wf(#[trigger] v[k]) by {
        assert(crate::template::element_is(v[k], ps[k]));
    }
}

/// What was the last declaration before parse `i` stays so when parse `i`
/// is appended.
proof fn lemma_latest_grow(ps: Seq<ParseResult>, p: ParseResult, g: Links, ws: Seq<Word>, ts: Seq<Template>)
    requires
        forall|n: int| 0 <= n < ws.len() ==> #[trigger] latest_word_before(ps, g, ws[n], ps.len() as int, 0),
        forall|n: int| 0 <= n < ts.len() ==> #[trigger] latest_template_before(ps, g, ts[n], ps.len() as int),
    ensures
        forall|n: int| 0 <= n < ws.len() ==> #[trigger] latest_word_before(ps.push(p), g, ws[n], ps.len() as int, 0),
        forall|n: int| 0 <= n < ts.len() ==> #[trigger] latest_template_before(ps.push(p), g, ts[n], ps.len() as int),
{
    let i = ps.len() as int;
    let qs = ps.push(p);
    assert forall|n: int| 0 <= n < ws.len() implies #[trigger] latest_word_before(qs, g, ws[n], i, 0) by {
        assert(latest_word_before(ps, g, ws[n], i, 0));
        let (a, b) = choose|a: int, b: int| #[trigger] latest_word_at(ps, g, ws[n], a, b, i, 0);
        assert(qs[a] == ps[a]);
        assert forall|a2: int, b2: int|
            0 <= a2 < qs.len() && 0 <= b2 < qs[a2].words@.len() && comes_before(a, b, a2, b2)
                && comes_before(a2, b2, i, 0) implies #[trigger] qs[a2].words@[b2].id != ws[n].id by {
            assert(qs[a2] == ps[a2]);
        }
        assert(latest_word_at(qs, g, ws[n], a, b, i, 0));
    }
    assert forall|n: int| 0 <= n < ts.len() implies #[trigger] latest_template_before(qs, g, ts[n], i) by {
        assert(latest_template_before(ps, g, ts[n], i));
        let a = choose|a: int| #[trigger] latest_template_at(ps, g, ts[n], a, i);
        assert(qs[a] == ps[a]);
        assert forall|a2: int| a < a2 < i && #[trigger] qs[a2].pattern is Some implies qs[a2].pattern->0.id != ts[n].id by {
            assert(qs[a2] == ps[a2]);
        }
        assert(latest_template_at(qs, g, ts[n], a, i));
    }
}

/// Past the last word of parse `i`, the next position is the start of parse
/// `i + 1`.
proof fn lemma_line_done(ps: Seq<ParseResult>, g: Links, w: Word, i: int)
    requires
        0 <= i < ps.len(),
        latest_word_before(ps, g, w, i, ps[i].words@.len() as int),
    ensures
        latest_word_before(ps, g, w, i + 1, 0),
{
    let n = ps[i].words@.len() as int;
    let (a, b) = choose|a: int, b: int| #[trigger] latest_word_at(ps, g, w, a, b, i, n);
    assert forall|a2: int, b2: int|
        0 <= a2 < ps.len() && 0 <= b2 < ps[a2].words@.len() && comes_before(a, b, a2, b2)
            && comes_before(a2, b2, i + 1, 0) implies #[trigger] ps[a2].words@[b2].id != w.id by {
        assert(comes_before(a2, b2, i, n));
    }
    assert(latest_word_at(ps, g, w, a, b, i + 1, 0));
}

/// A parse without a template changes no template's standing.
proof fn lemma_no_template(ps: Seq<ParseResult>, g: Links, t: Template, i: int)
    requires
        0 <= i < ps.len(),
        ps[i].pattern is None,
        latest_template_before(ps, g, t, i),
    ensures
        latest_template_before(ps, g, t, i + 1),
{
    let a = choose|a: int| #[trigger] latest_template_at(ps, g, t, a, i);
    assert(latest_template_at(ps, g, t, a, i + 1));
}

/// The dictionary that the definition lines declare: every word and
/// template of the lines, each tag closed over the links of all the lines
/// (`MAX_NESTED_TAG_DEPTH` levels up), and the indices over them.
pub fn build_dictionary(lines: Vec<String>) -> (r: Dictionary)
    ensures
        r.wf(),
        r@.links == all_links(lines@),
        exists|ps: Seq<ParseResult>|
            #![trigger ps.len()]
            {
                &&& ps.len() == lines@.len()
                &&& forall|i: int| 0 <= i < ps.len() ==> parsed_from(lines@[i]@, #[trigger] ps[i])
                &&& words_from(ps, r@.links, r@.words)
                &&& templates_from(ps, r@.links, r@.templates)
            },
{
    let mut graph = TagGraph::new();
    let mut i: usize = 0;
    assert(lines@.subrange(0, 0) =~= Seq::<String>::empty());
    while i < lines.len()
        invariant
            i <= lines@.len(),
            graph@ == all_links(lines@.subrange(0, i as int)),
        decreases lines@.len() - i,
    {
        let links = parse_tag_children(lines[i].as_str());
        graph.merge(&links);
        proof {
            assert(lines@.subrange(0, i + 1).drop_last() =~= lines@.subrange(0, i as int));
        }
        i = i + 1;
    }
    assert(lines@.subrange(0, i as int) =~= lines@);
    let ghost g = graph@;
    let mut words: Vec<Word> = Vec::new();
    let mut templates: Vec<Template> = Vec::new();
    let ghost mut ps: Seq<ParseResult> = Seq::empty();
    let mut i: usize = 0;
    while i < lines.len()
        invariant
            i <= lines@.len(),
            graph@ == g,
            ps.len() == i,
            forall|j: int| 0 <= j < i ==> parsed_from(lines@[j]@, #[trigger] ps[j]),
            word_ids_distinct(words@),
            template_ids_distinct(templates@),
            forall|n: int| 0 <= n < words@.len() ==> distinct_texts(#[trigger] words@[n].tags@),
            forall|n: int| 0 <= n < templates@.len() ==> distinct_texts(#[trigger] templates@[n].tags@),
            forall|n: int, k: int|
                0 <= n < templates@.len() && 0 <= k < templates@[n].template@.len()
                    ==> element_wf(#[trigger] templates@[n].template@[k]),
            forall|n: int| 0 <= n < words@.len() ==> #[trigger] latest_word_before(ps, g, words@[n], i as int, 0),
            forall|j: int, k: int|
                0 <= j < ps.len() && 0 <= k < ps[j].words@.len() ==> #[trigger] has_word_id(
                    words@,
                    ps[j].words@[k].id,
                ),
            forall|n: int| 0 <= n < templates@.len() ==> #[trigger] latest_template_before(ps, g, templates@[n], i as int),
            forall|j: int|
                0 <= j < ps.len() && ps[j].pattern is Some ==> #[trigger] has_template_id(
                    templates@,
                    ps[j].pattern->0.id,
                ),
        decreases lines@.len() - i,
    {
        let p = parse_line(lines[i].as_str());
        let ghost before = ps;
        proof {
            lemma_latest_grow(ps, p, g, words@, templates@);
            ps = ps.push(p);
            assert forall|j: int, k: int|
                0 <= j < ps.len() - 1 && 0 <= k < ps[j].words@.len() implies #[trigger] has_word_id(
                    words@,
                    ps[j].words@[k].id,
                ) by {
                assert(ps[j] == before[j]);
            }
            assert forall|j: int|
                0 <= j < ps.len() - 1 && ps[j].pattern is Some implies #[trigger] has_template_id(
                    templates@,
                    ps[j].pattern->0.id,
                ) by {
                assert(ps[j] == before[j]);
            }
            lemma_declared_words_fresh(lines@[i as int]@, p.words@);
        }
        let ParseResult { words: mut line_words, tag_children: _, pattern } = p;
        let ghost lw = line_words@;
        let ghost mut k: int = 0;
        while line_words.len() > 0
            invariant
                ps.len() == i + 1,
                lw == ps[i as int].words@,
                0 <= k <= lw.len(),
                line_words@ == lw.subrange(k, lw.len() as int),
                forall|q: int| 0 <= q < lw.len() ==> distinct_texts(#[trigger] lw[q].tags@),
                graph@ == g,
                word_ids_distinct(words@),
                forall|n: int| 0 <= n < words@.len() ==> distinct_texts(#[trigger] words@[n].tags@),
                forall|n: int| 0 <= n < words@.len() ==> #[trigger] latest_word_before(ps, g, words@[n], i as int, k),
                forall|j: int, q: int|
                    0 <= j < i && 0 <= q < ps[j].words@.len() ==> #[trigger] has_word_id(
                        words@,
                        ps[j].words@[q].id,
                    ),
                forall|q: int| 0 <= q < k ==> #[trigger] has_word_id(words@, lw[q].id),
            decreases line_words@.len(),
        {
            let mut w = line_words.remove(0);
            assert(w == lw[k]);
            let closed = graph.close_tags(&w.tags);
            w.tags = closed;
            let ghost placed = w;
            let ghost old_words = words@;
            put_word(&mut words, w);
            proof {
                assert(closed_copy(ps[i as int].words@[k], placed, g));
                let m = choose|m: int| 0 <= m < words@.len() && words@[m] == placed;
                assert(words@[m].id == lw[k].id);
                assert(has_word_id(words@, lw[k].id));
                assert forall|n: int| 0 <= n < words@.len() implies #[trigger] latest_word_before(
                    ps,
                    g,
                    words@[n],
                    i as int,
                    k + 1,
                ) by {
                    assert(words@.contains(words@[n]));
                    if words@[n] == placed {
                        assert(latest_word_at(ps, g, placed, i as int, k, i as int, k + 1));
                    } else {
                        let o = choose|o: int| 0 <= o < old_words.len() && old_words[o] == words@[n];
                        assert(latest_word_before(ps, g, old_words[o], i as int, k));
                        let (a, b) = choose|a: int, b: int| #[trigger] latest_word_at(ps, g, old_words[o], a, b, i as int, k);
                        assert(n != m);
                        assert(words@[n].id != placed.id);
                        assert forall|a2: int, b2: int|
                            0 <= a2 < ps.len() && 0 <= b2 < ps[a2].words@.len() && comes_before(a, b, a2, b2)
                                && comes_before(a2, b2, i as int, k + 1) implies #[trigger] ps[a2].words@[b2].id
                                != words@[n].id by {
                            if !comes_before(a2, b2, i as int, k) {
                                assert(a2 == i && b2 == k);
                            }
                        }
                        assert(latest_word_at(ps, g, words@[n], a, b, i as int, k + 1));
                    }
                }
                assert(distinct_texts(placed.tags@));
                assert forall|n: int| 0 <= n < words@.len() implies distinct_texts(#[trigger] words@[n].tags@) by {
                    assert(words@.contains(words@[n]));
                    if words@[n] != placed {
                        let o = choose|o: int| 0 <= o < old_words.len() && old_words[o] == words@[n];
                        assert(distinct_texts(old_words[o].tags@));
                    }
                }
                assert forall|j: int, q: int|
                    0 <= j < i && 0 <= q < ps[j].words@.len() implies #[trigger] has_word_id(
                        words@,
                        ps[j].words@[q].id,
                    ) by {
                    assert(has_word_id(old_words, ps[j].words@[q].id));
                }
                assert forall|q: int| 0 <= q < k + 1 implies #[trigger] has_word_id(words@, lw[q].id) by {
                    if q < k {
                        assert(has_word_id(old_words, lw[q].id));
                    }
                }
                assert(line_words@ =~= lw.subrange(k + 1, lw.len() as int));
                k = k + 1;
            }
        }
        proof {
            assert forall|j: int, q: int|
                0 <= j < ps.len() && 0 <= q < ps[j].words@.len() implies #[trigger] has_word_id(
                    words@,
                    ps[j].words@[q].id,
                ) by {
                if j == i {
                    assert(has_word_id(words@, lw[q].id));
                }
            }
            assert forall|n: int| 0 <= n < words@.len() implies #[trigger] latest_word_before(
                ps,
                g,
                words@[n],
                i + 1,
                0,
            ) by {
                lemma_line_done(ps, g, words@[n], i as int);
            }
        }
        match pattern {
            Some(mut t) => {
                let ghost raw = t;
                proof {
                    let pieces = crate::template::template_body(lines@[i as int]@)->0;
                    lemma_elements_wf(raw.template@, pieces);
                }
                let closed = graph.close_tags(&t.tags);
                t.tags = closed;
                let ghost placed = t;
                let ghost old_templates = templates@;
                put_template(&mut templates, t);
                proof {
                    assert(closed_template(raw, placed, g));
                    let m = choose|m: int| 0 <= m < templates@.len() && templates@[m] == placed;
                    assert(templates@[m].id == raw.id);
                    assert(has_template_id(templates@, raw.id));
                    assert forall|n: int| 0 <= n < templates@.len() implies #[trigger] latest_template_before(
                        ps,
                        g,
                        templates@[n],
                        i + 1,
                    ) by {
                        assert(templates@.contains(templates@[n]));
                        if templates@[n] == placed {
                            assert(latest_template_at(ps, g, placed, i as int, i + 1));
                        } else {
                            let o = choose|o: int| 0 <= o < old_templates.len() && old_templates[o] == templates@[n];
                            assert(latest_template_before(ps, g, old_templates[o], i as int));
                            let a = choose|a: int| #[trigger] latest_template_at(ps, g, old_templates[o], a, i as int);
                            assert(n != m);
                            assert(templates@[n].id != placed.id);
                            assert(latest_template_at(ps, g, templates@[n], a, i + 1));
                        }
                    }
                    assert forall|n: int| 0 <= n < templates@.len() implies distinct_texts(
                        #[trigger] templates@[n].tags@,
                    ) by {
                        assert(templates@.contains(templates@[n]));
                        if templates@[n] != placed {
                            let o = choose|o: int| 0 <= o < old_templates.len() && old_templates[o] == templates@[n];
                            assert(distinct_texts(old_templates[o].tags@));
                        }
                    }
                    assert forall|n: int, q: int|
                        0 <= n < templates@.len() && 0 <= q < templates@[n].template@.len() implies element_wf(
                            #[trigger] templates@[n].template@[q],
                        ) by {
                        assert(templates@.contains(templates@[n]));
                        if templates@[n] != placed {
                            let o = choose|o: int| 0 <= o < old_templates.len() && old_templates[o] == templates@[n];
                            assert(element_wf(old_templates[o].template@[q]));
                        } else {
                            assert(element_wf(raw.template@[q]));
                        }
                    }
                    assert forall|j: int|
                        0 <= j < ps.len() && ps[j].pattern is Some implies #[trigger] has_template_id(
                            templates@,
                            ps[j].pattern->0.id,
                        ) by {
                        if j < i {
                            assert(has_template_id(old_templates, ps[j].pattern->0.id));
                        }
                    }
                }
            },
            None => {
                proof {
                    assert forall|n: int| 0 <= n < templates@.len() implies #[trigger] latest_template_before(
                        ps,
                        g,
                        templates@[n],
                        i + 1,
                    ) by {
                        lemma_no_template(ps, g, templates@[n], i as int);
                    }
                }
            },
        }
        i = i + 1;
    }
    let tag_words = index_words(&words);
    let tag_templates = index_templates(&templates);
    let r = Dictionary {
        words,
        templates,
        index: Index { tag_children: graph, tag_words, tag_templates },
    };
    assert(r.wf());
    assert(words_from(ps, r@.links, r@.words));
    assert(templates_from(ps, r@.links, r@.templates));
    r
}

/// A word's identifier is under a tag exactly when the word is of the class
/// and carries the tag.
pub proof fn lemma_word_postings(ws: Seq<Word>, class: WordType, t: Seq<char>)
    ensures
        forall|id: u128| #[trigger] word_postings(ws, class, t).contains(id) <==> exists|k: int|
            0 <= k < ws.len() && ws[k].id == id && ws[k].word_type == class && #[trigger] text_set(
                ws[k].tags@,
            ).contains(t),
        ids_under(word_map(ws, class), t) == word_postings(ws, class, t),
    decreases ws.len(),
{
    broadcast use vstd::seq_lib::lemma_seq_contains_after_push;

    if ws.len() > 0 {
        lemma_word_postings(ws.drop_last(), class, t);
        assert forall|id: u128| #[trigger] word_postings(ws, class, t).contains(id) <==> exists|k: int|
            0 <= k < ws.len() && ws[k].id == id && ws[k].word_type == class && #[trigger] text_set(
                ws[k].tags@,
            ).contains(t) by {
            if exists|k: int|
                0 <= k < ws.len() && ws[k].id == id && ws[k].word_type == class && #[trigger] text_set(
                    ws[k].tags@,
                ).contains(t) {
                let k = choose|k: int|
                    0 <= k < ws.len() && ws[k].id == id && ws[k].word_type == class && #[trigger] text_set(
                        ws[k].tags@,
                    ).contains(t);
                if k < ws.len() - 1 {
                    assert(ws.drop_last()[k] == ws[k]);
                }
            }
            if word_postings(ws.drop_last(), class, t).contains(id) {
                let k = choose|k: int|
                    0 <= k < ws.drop_last().len() && ws.drop_last()[k].id == id && ws.drop_last()[k].word_type
                        == class && #[trigger] text_set(ws.drop_last()[k].tags@).contains(t);
                assert(ws[k] == ws.drop_last()[k]);
            }
        }
    }
    if word_postings(ws, class, t).len() == 0 {
        assert(word_postings(ws, class, t) =~= Seq::<u128>::empty());
    }
}

/// A template's identifier is under a tag exactly when it carries the tag.
pub proof fn lemma_template_postings(ts: Seq<Template>, t: Seq<char>)
    ensures
        forall|id: u128| #[trigger] template_postings(ts, t).contains(id) <==> exists|k: int|
            0 <= k < ts.len() && ts[k].id == id && #[trigger] text_set(ts[k].tags@).contains(t),
        ids_under(template_map(ts), t) == template_postings(ts, t),
    decreases ts.len(),
{
    broadcast use vstd::seq_lib::lemma_seq_contains_after_push;

    if ts.len() > 0 {
        lemma_template_postings(ts.drop_last(), t);
        assert forall|id: u128| #[trigger] template_postings(ts, t).contains(id) <==> exists|k: int|
            0 <= k < ts.len() && ts[k].id == id && #[trigger] text_set(ts[k].tags@).contains(t) by {
            if exists|k: int| 0 <= k < ts.len() && ts[k].id == id && #[trigger] text_set(ts[k].tags@).contains(t) {
                let k = choose|k: int|
                    0 <= k < ts.len() && ts[k].id == id && #[trigger] text_set(ts[k].tags@).contains(t);
                if k < ts.len() - 1 {
                    assert(ts.drop_last()[k] == ts[k]);
                }
            }
            if template_postings(ts.drop_last(), t).contains(id) {
                let k = choose|k: int|
                    0 <= k < ts.drop_last().len() && ts.drop_last()[k].id == id && #[trigger] text_set(
                        ts.drop_last()[k].tags@,
                    ).contains(t);
                assert(ts[k] == ts.drop_last()[k]);
            }
        }
    }
    if template_postings(ts, t).len() == 0 {
        assert(template_postings(ts, t) =~= Seq::<u128>::empty());
    }
}

/// The candidates of a word constraint are the identifiers of the words
/// that fit it, each once.
pub proof fn lemma_word_pool(ws: Seq<Word>, class: WordType, gs: Seq<Seq<Seq<char>>>)
    requires
        word_ids_distinct(ws),
    ensures
        forall|id: u128| #[trigger] pool(word_map(ws, class), gs).contains(id) <==> exists|k: int|
            0 <= k < ws.len() && ws[k].id == id && #[trigger] word_fits(ws[k], class, gs),
        pool(word_map(ws, class), gs).no_duplicates(),
{
    let m = word_map(ws, class);
    lemma_pool(m, gs);
    assert forall|id: u128| #[trigger] pool(m, gs).contains(id) <==> exists|k: int|
        0 <= k < ws.len() && ws[k].id == id && #[trigger] word_fits(ws[k], class, gs) by {
        if pool(m, gs).contains(id) {
            assert(in_every_group(m, gs, id));
            assert(under_group(m, gs[0], id));
            let j0 = choose|j: int| 0 <= j < gs[0].len() && #[trigger] ids_under(m, gs[0][j]).contains(id);
            lemma_word_postings(ws, class, gs[0][j0]);
            let k0 = choose|k: int|
                0 <= k < ws.len() && ws[k].id == id && ws[k].word_type == class && #[trigger] text_set(
                    ws[k].tags@,
                ).contains(gs[0][j0]);
            assert forall|i: int| 0 <= i < gs.len() implies #[trigger] carries_one_of(text_set(ws[k0].tags@), gs[i]) by {
                assert(under_group(m, gs[i], id));
                let j = choose|j: int| 0 <= j < gs[i].len() && #[trigger] ids_under(m, gs[i][j]).contains(id);
                lemma_word_postings(ws, class, gs[i][j]);
                let k = choose|k: int|
                    0 <= k < ws.len() && ws[k].id == id && ws[k].word_type == class && #[trigger] text_set(
                        ws[k].tags@,
                    ).contains(gs[i][j]);
                assert(k == k0);
            }
            assert(word_fits(ws[k0], class, gs));
        }
        if exists|k: int| 0 <= k < ws.len() && ws[k].id == id && #[trigger] word_fits(ws[k], class, gs) {
            let k = choose|k: int| 0 <= k < ws.len() && ws[k].id == id && #[trigger] word_fits(ws[k], class, gs);
            assert forall|i: int| 0 <= i < gs.len() implies #[trigger] under_group(m, gs[i], id) by {
                assert(carries_one_of(text_set(ws[k].tags@), gs[i]));
                let j = choose|j: int| 0 <= j < gs[i].len() && #[trigger] text_set(ws[k].tags@).contains(gs[i][j]);
                lemma_word_postings(ws, class, gs[i][j]);
                assert(ids_under(m, gs[i][j]).contains(id));
            }
            assert(in_every_group(m, gs, id));
        }
    }
}

/// The template `t` meets the constraint `gs`.
pub open spec fn template_fits(t: Template, gs: Seq<Seq<Seq<char>>>) -> bool {
    meets(text_set(t.tags@), gs)
}

/// The candidates of a template constraint are the identifiers of the
/// templates that fit it, each once.
pub proof fn lemma_template_pool(ts: Seq<Template>, gs: Seq<Seq<Seq<char>>>)
    requires
        template_ids_distinct(ts),
    ensures
        forall|id: u128| #[trigger] pool(template_map(ts), gs).contains(id) <==> exists|k: int|
            0 <= k < ts.len() && ts[k].id == id && #[trigger] template_fits(ts[k], gs),
        pool(template_map(ts), gs).no_duplicates(),
{
    let m = template_map(ts);
    lemma_pool(m, gs);
    assert forall|id: u128| #[trigger] pool(m, gs).contains(id) <==> exists|k: int|
        0 <= k < ts.len() && ts[k].id == id && #[trigger] template_fits(ts[k], gs) by {
        if pool(m, gs).contains(id) {
            assert(in_every_group(m, gs, id));
            assert(under_group(m, gs[0], id));
            let j0 = choose|j: int| 0 <= j < gs[0].len() && #[trigger] ids_under(m, gs[0][j]).contains(id);
            lemma_template_postings(ts, gs[0][j0]);
            let k0 = choose|k: int|
                0 <= k < ts.len() && ts[k].id == id && #[trigger] text_set(ts[k].tags@).contains(gs[0][j0]);
            assert forall|i: int| 0 <= i < gs.len() implies #[trigger] carries_one_of(text_set(ts[k0].tags@), gs[i]) by {
                assert(under_group(m, gs[i], id));
                let j = choose|j: int| 0 <= j < gs[i].len() && #[trigger] ids_under(m, gs[i][j]).contains(id);
                lemma_template_postings(ts, gs[i][j]);
                let k = choose|k: int|
                    0 <= k < ts.len() && ts[k].id == id && #[trigger] text_set(ts[k].tags@).contains(gs[i][j]);
                assert(k == k0);
            }
            assert(template_fits(ts[k0], gs));
        }
        if exists|k: int| 0 <= k < ts.len() && ts[k].id == id && #[trigger] template_fits(ts[k], gs) {
            let k = choose|k: int| 0 <= k < ts.len() && ts[k].id == id && #[trigger] template_fits(ts[k], gs);
            assert forall|i: int| 0 <= i < gs.len() implies #[trigger] under_group(m, gs[i], id) by {
                assert(carries_one_of(text_set(ts[k].tags@), gs[i]));
                let j = choose|j: int| 0 <= j < gs[i].len() && #[trigger] text_set(ts[k].tags@).contains(gs[i][j]);
                lemma_template_postings(ts, gs[i][j]);
                assert(ids_under(m, gs[i][j]).contains(id));
            }
            assert(in_every_group(m, gs, id));
        }
    }
}

/// No tag of `w` is among the texts `exclude`.
pub open spec fn avoids(w: Word, exclude: Seq<String>) -> bool {
    text_set(w.tags@).disjoint(text_set(exclude))
}

/// Whether `a` and `b` share a text.
fn shares_text(a: &Vec<String>, b: &Vec<String>) -> (r: bool)
    ensures
        r == !text_set(a@).disjoint(text_set(b@)),
{
    let mut i: usize = 0;
    while i < a.len()
        invariant
            i <= a@.len(),
            forall|j: int| 0 <= j < i ==> !text_set(b@).contains(#[trigger] a@[j]@),
        decreases a@.len() - i,
    {
        if contains_text(b, &a[i]) {
            assert(views(a@)[i as int] == a@[i as int]@);
            assert(text_set(a@).contains(a@[i as int]@));
            return true;
        }
        i = i + 1;
    }
    assert(text_set(a@).disjoint(text_set(b@))) by {
        assert forall|t: Seq<char>| text_set(a@).contains(t) implies !text_set(b@).contains(t) by {
            let j = choose|j: int| 0 <= j < views(a@).len() && views(a@)[j] == t;
            assert(a@[j]@ == t);
        }
    }
    false
}

impl Dictionary {
    /// The position of the word with identifier `id`.
    fn word_position(&self, id: u128) -> (r: Option<usize>)
        ensures
            match r {
                Some(p) => p < self.words@.len() && self.words@[p as int].id == id,
                None => !has_word_id(self.words@, id),
            },
    {
        let mut i: usize = 0;
        while i < self.words.len()
            invariant
                i <= self.words@.len(),
                forall|j: int| 0 <= j < i ==> self.words@[j].id != id,
            decreases self.words@.len() - i,
        {
            if self.words[i].id == id {
                return Some(i);
            }
            i = i + 1;
        }
        None
    }

    /// The position of the template with identifier `id`.
    fn template_position(&self, id: u128) -> (r: Option<usize>)
        ensures
            match r {
                Some(p) => p < self.templates@.len() && self.templates@[p as int].id == id,
                None => !has_template_id(self.templates@, id),
            },
    {
        let mut i: usize = 0;
        while i < self.templates.len()
            invariant
                i <= self.templates@.len(),
                forall|j: int| 0 <= j < i ==> self.templates@[j].id != id,
            decreases self.templates@.len() - i,
        {
            if self.templates[i].id == id {
                return Some(i);
            }
            i = i + 1;
        }
        None
    }

    /// The identifiers of the words of `class` that carry a tag of each of
    /// `groups`, each once, in a fixed order; none when there are no groups.
    pub fn resolve_words(&self, class: WordType, groups: &Vec<Vec<String>>) -> (r: Vec<u128>)
        requires
            self.wf(),
        ensures
            r@ == pool(word_map(self@.words, class), group_views(groups@)),
            r@.no_duplicates(),
            forall|id: u128| #[trigger] r@.contains(id) <==> exists|k: int|
                0 <= k < self@.words.len() && self@.words[k].id == id && #[trigger] word_fits(
                    self@.words[k],
                    class,
                    group_views(groups@),
                ),
    {
        proof {
            lemma_word_pool(self.words@, class, group_views(groups@));
        }
        resolve_in(self.index.tag_words.for_class(class), groups)
    }

    /// The identifiers of the templates that carry a tag of each of `groups`,
    /// each once, in a fixed order; none when there are no groups.
    pub fn resolve_templates(&self, groups: &Vec<Vec<String>>) -> (r: Vec<u128>)
        requires
            self.wf(),
        ensures
            r@ == pool(template_map(self@.templates), group_views(groups@)),
            r@.no_duplicates(),
            forall|id: u128| #[trigger] r@.contains(id) <==> exists|k: int|
                0 <= k < self@.templates.len() && self@.templates[k].id == id && #[trigger] template_fits(
                    self@.templates[k],
                    group_views(groups@),
                ),
    {
        proof {
            lemma_template_pool(self.templates@, group_views(groups@));
        }
        resolve_in(&self.index.tag_templates, groups)
    }

    /// A word chosen uniformly among those of the pattern's class that carry
    /// a tag of each of its groups; `None` when no word does.
    pub fn get_random_word(&self, pattern: SearchPattern) -> (r: Option<&Word>)
        requires
            self.wf(),
        ensures
            r is None <==> forall|n: int|
                0 <= n < self@.words.len() ==> !word_fits(
                    #[trigger] self@.words[n],
                    pattern.0,
                    group_views(pattern.1@),
                ),
            r matches Some(w) ==> self@.words.contains(*w) && word_fits(*w, pattern.0, group_views(pattern.1@)),
    {
        let (class, groups) = pattern;
        let candidates = self.resolve_words(class, &groups);
        if candidates.len() == 0 {
            assert forall|n: int| 0 <= n < self@.words.len() implies !word_fits(
                #[trigger] self@.words[n],
                class,
                group_views(groups@),
            ) by {
                if word_fits(self@.words[n], class, group_views(groups@)) {
                    assert(candidates@.contains(self@.words[n].id));
                }
            }
            return None;
        }
        let k = random_below(candidates.len());
        let id = candidates[k];
        assert(candidates@.contains(id));
        match self.word_position(id) {
            Some(p) => {
                proof {
                    let q = choose|q: int|
                        0 <= q < self@.words.len() && self@.words[q].id == id && #[trigger] word_fits(
                            self@.words[q],
                            class,
                            group_views(groups@),
                        );
                    assert(q == p);
                    assert(self@.words[p as int] == self.words@[p as int]);
                }
                Some(&self.words[p])
            },
            None => {
                proof {
                    let q = choose|q: int|
                        0 <= q < self@.words.len() && self@.words[q].id == id && #[trigger] word_fits(
                            self@.words[q],
                            class,
                            group_views(groups@),
                        );
                    assert(has_word_id(self.words@, id));
                }
                None
            },
        }
    }

    /// A word chosen uniformly among those of the pattern's class that carry
    /// a tag of each of its groups and none of `exclude`; `None` when no
    /// word does.
    pub fn get_random_word_without(&self, pattern: SearchPattern, exclude: Vec<String>) -> (r: Option<
        &Word,
    >)
        requires
            self.wf(),
        ensures
            r is None <==> forall|n: int|
                0 <= n < self@.words.len() ==> !(word_fits(
                    #[trigger] self@.words[n],
                    pattern.0,
                    group_views(pattern.1@),
                ) && avoids(self@.words[n], exclude@)),
            r matches Some(w) ==> self@.words.contains(*w) && word_fits(*w, pattern.0, group_views(pattern.1@))
                && avoids(*w, exclude@),
    {
        let (class, groups) = pattern;
        let ghost gv = group_views(groups@);
        let candidates = self.resolve_words(class, &groups);
        proof {
            self.lemma_wf();
        }
        let mut kept: Vec<usize> = Vec::new();
        let mut i: usize = 0;
        while i < candidates.len()
            invariant
                self.wf(),
                word_ids_distinct(self@.words),
                gv == group_views(groups@),
                i <= candidates@.len(),
                forall|id: u128| #[trigger] candidates@.contains(id) <==> exists|k: int|
                    0 <= k < self@.words.len() && self@.words[k].id == id && #[trigger] word_fits(
                        self@.words[k],
                        class,
                        gv,
                    ),
                forall|q: int|
                    0 <= q < kept@.len() ==> #[trigger] kept@[q] < self@.words.len() && word_fits(
                        self@.words[kept@[q] as int],
                        class,
                        gv,
                    ) && avoids(self@.words[kept@[q] as int], exclude@),
                forall|k: usize|
                    k < self@.words.len() && word_fits(self@.words[k as int], class, gv) && avoids(
                        self@.words[k as int],
                        exclude@,
                    ) && candidates@.subrange(0, i as int).contains(self@.words[k as int].id)
                        ==> #[trigger] kept@.contains(k),
            decreases candidates@.len() - i,
        {
            let id = candidates[i];
            assert(candidates@.contains(id));
            let ghost q = choose|q: int|
                0 <= q < self@.words.len() && self@.words[q].id == id && #[trigger] word_fits(
                    self@.words[q],
                    class,
                    gv,
                );
            let ghost old_kept = kept@;
            match self.word_position(id) {
                Some(p) => {
                    assert(p == q);
                    if !shares_text(&self.words[p].tags, &exclude) {
                        kept.push(p);
                        proof {
                            assert(kept@[kept@.len() - 1] == p);
                            assert forall|n: int| 0 <= n < kept@.len() implies #[trigger] kept@[n]
                                < self@.words.len() && word_fits(self@.words[kept@[n] as int], class, gv)
                                && avoids(self@.words[kept@[n] as int], exclude@) by {
                                if n < old_kept.len() {
                                    assert(kept@[n] == old_kept[n]);
                                }
                            }
                        }
                    }
                    proof {
                        assert(candidates@.subrange(0, i + 1) =~= candidates@.subrange(0, i as int).push(id));
                        assert forall|k: usize|
                            k < self@.words.len() && word_fits(self@.words[k as int], class, gv) && avoids(
                                self@.words[k as int],
                                exclude@,
                            ) && candidates@.subrange(0, i + 1).contains(self@.words[k as int].id) implies #[trigger] kept@.contains(
                            k,
                        ) by {
                            vstd::seq_lib::lemma_seq_contains_after_push(
                                candidates@.subrange(0, i as int),
                                id,
                                self@.words[k as int].id,
                            );
                            if self@.words[k as int].id == id {
                                assert(k == p);
                                assert(kept@[kept@.len() - 1] == p);
                            } else {
                                assert(old_kept.contains(k));
                                let n = choose|n: int| 0 <= n < old_kept.len() && old_kept[n] == k;
                                assert(kept@[n] == k);
                            }
                        }
                    }
                },
                None => {
                    assert(has_word_id(self.words@, id));
                },
            }
            i = i + 1;
        }
        let n_words = self.words.len();
        if kept.len() == 0 {
            assert(candidates@.subrange(0, i as int) =~= candidates@);
            assert forall|n: int| 0 <= n < self@.words.len() implies !(word_fits(
                #[trigger] self@.words[n],
                class,
                gv,
            ) && avoids(self@.words[n], exclude@)) by {
                if word_fits(self@.words[n], class, gv) && avoids(self@.words[n], exclude@) {
                    assert(candidates@.contains(self@.words[n].id));
                    assert(self.words@.len() == n_words);
                    let k = n as usize;
                    assert(kept@.contains(k));
                }
            }
            return None;
        }
        let k = random_below(kept.len());
        let p = kept[k];
        assert(kept@[k as int] < self@.words.len());
        assert(self@.words[p as int] == self.words@[p as int]);
        assert(self@.words.contains(self@.words[p as int]));
        Some(&self.words[p])
    }

    /// A template chosen uniformly among those that carry a tag of each of
    /// `tags`; `None` when none does.
    pub fn get_random_template(&self, tags: Vec<Vec<String>>) -> (r: Option<&Template>)
        requires
            self.wf(),
        ensures
            r is None <==> forall|n: int|
                0 <= n < self@.templates.len() ==> !template_fits(
                    #[trigger] self@.templates[n],
                    group_views(tags@),
                ),
            r matches Some(t) ==> self@.templates.contains(*t) && template_fits(*t, group_views(tags@)),
    {
        let candidates = self.resolve_templates(&tags);
        if candidates.len() == 0 {
            assert forall|n: int| 0 <= n < self@.templates.len() implies !template_fits(
                #[trigger] self@.templates[n],
                group_views(tags@),
            ) by {
                if template_fits(self@.templates[n], group_views(tags@)) {
                    assert(candidates@.contains(self@.templates[n].id));
                }
            }
            return None;
        }
        let k = random_below(candidates.len());
        let id = candidates[k];
        assert(candidates@.contains(id));
        match self.template_position(id) {
            Some(p) => {
                proof {
                    let q = choose|q: int|
                        0 <= q < self@.templates.len() && self@.templates[q].id == id && #[trigger] template_fits(
                            self@.templates[q],
                            group_views(tags@),
                        );
                    assert(q == p);
                    assert(self@.templates[p as int] == self.templates@[p as int]);
                }
                Some(&self.templates[p])
            },
            None => {
                assert(has_template_id(self.templates@, id));
                None
            },
        }
    }
}

proof fn lemma_meets_concat(tags: Set<Seq<char>>, a: Seq<Seq<Seq<char>>>, b: Seq<Seq<Seq<char>>>)
    requires
        a.len() > 0,
        b.len() > 0,
    ensures
        meets(tags, a + b) <==> meets(tags, a) && meets(tags, b),
{
    if meets(tags, a + b) {
        assert forall|i: int| 0 <= i < a.len() implies #[trigger] carries_one_of(tags, a[i]) by {
            assert((a + b)[i] == a[i]);
        }
        assert forall|i: int| 0 <= i < b.len() implies #[trigger] carries_one_of(tags, b[i]) by {
            assert((a + b)[a.len() + i] == b[i]);
        }
    }
    if meets(tags, a) && meets(tags, b) {
        assert forall|i: int| 0 <= i < (a + b).len() implies #[trigger] carries_one_of(tags, (a + b)[i]) by {
            if i < a.len() {
                assert((a + b)[i] == a[i]);
            } else {
                assert((a + b)[i] == b[i - a.len()]);
            }
        }
    }
}

/// Resolution is a set operation: the candidates of the groups `a` and `b`
/// together are the candidates common to `a` and to `b`, whichever of the
/// two comes first.
pub proof fn lemma_resolution_intersects(
    ws: Seq<Word>,
    class: WordType,
    a: Seq<Seq<Seq<char>>>,
    b: Seq<Seq<Seq<char>>>,
)
    requires
        word_ids_distinct(ws),
        a.len() > 0,
        b.len() > 0,
    ensures
        pool(word_map(ws, class), a + b).to_set() == pool(word_map(ws, class), a).to_set().intersect(
            pool(word_map(ws, class), b).to_set(),
        ),
        pool(word_map(ws, class), a + b).to_set() == pool(word_map(ws, class), b + a).to_set(),
{
    let m = word_map(ws, class);
    lemma_word_pool(ws, class, a + b);
    lemma_word_pool(ws, class, b + a);
    lemma_word_pool(ws, class, a);
    lemma_word_pool(ws, class, b);
    assert forall|k: int| 0 <= k < ws.len() implies (#[trigger] word_fits(ws[k], class, a + b) <==> word_fits(
        ws[k],
        class,
        a,
    ) && word_fits(ws[k], class, b)) && (word_fits(ws[k], class, a + b) <==> word_fits(
        ws[k],
        class,
        b + a,
    )) by {
        lemma_meets_concat(text_set(ws[k].tags@), a, b);
        lemma_meets_concat(text_set(ws[k].tags@), b, a);
    }
    assert forall|id: u128| #[trigger] pool(m, a + b).to_set().contains(id) <==> pool(m, a).to_set().intersect(
        pool(m, b).to_set(),
    ).contains(id) by {
        if pool(m, a).contains(id) && pool(m, b).contains(id) {
            let k1 = choose|k: int| 0 <= k < ws.len() && ws[k].id == id && #[trigger] word_fits(ws[k], class, a);
            let k2 = choose|k: int| 0 <= k < ws.len() && ws[k].id == id && #[trigger] word_fits(ws[k], class, b);
            assert(k1 == k2);
            assert(word_fits(ws[k1], class, a + b));
        }
        if pool(m, a + b).contains(id) {
            let k = choose|k: int| 0 <= k < ws.len() && ws[k].id == id && #[trigger] word_fits(ws[k], class, a + b);
            assert(word_fits(ws[k], class, a) && word_fits(ws[k], class, b));
        }
    }
    assert(pool(m, a + b).to_set() =~= pool(m, a).to_set().intersect(pool(m, b).to_set()));
    assert forall|id: u128| #[trigger] pool(m, a + b).to_set().contains(id) <==> pool(m, b + a).to_set().contains(id) by {
        if pool(m, a + b).contains(id) {
            let k = choose|k: int| 0 <= k < ws.len() && ws[k].id == id && #[trigger] word_fits(ws[k], class, a + b);
            assert(word_fits(ws[k], class, b + a));
        }
        if pool(m, b + a).contains(id) {
            let k = choose|k: int| 0 <= k < ws.len() && ws[k].id == id && #[trigger] word_fits(ws[k], class, b + a);
            assert(word_fits(ws[k], class, a + b));
        }
    }
    assert(pool(m, a + b).to_set() =~= pool(m, b + a).to_set());
}

} // verus!
