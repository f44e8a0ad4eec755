//! Rendering: a template's elements in order, each slot filled with a word
//! drawn from the words that fit it, joined with single spaces.
use vstd::prelude::*;

use crate::dictionary::{word_ids_distinct, word_map, DictView, Dictionary};
use crate::query::pool;
use crate::random::random_below;
use crate::template::{group_views, Template, TemplateElement};
use crate::word::Word;

verus! {

/// The text of the word with identifier `id`.
pub open spec fn word_text(ws: Seq<Word>, id: u128) -> Seq<char> {
    ws[choose|k: int| 0 <= k < ws.len() && ws[k].id == id].base@
}

/// The text that the element `e` renders to with the draw `pick`: its
/// literal text, or the word at position `pick` (modulo their number) among
/// the candidates of its pattern; `None` when there are none.
pub open spec fn element_text(ws: Seq<Word>, e: TemplateElement, pick: usize) -> Option<Seq<char>> {
    match e.template {
        Some(pat) => {
            let p = pool(word_map(ws, pat.0), group_views(pat.1@));
            if p.len() == 0 {
                None
            } else {
                Some(word_text(ws, p[(pick as int) % (p.len() as int)]))
            }
        },
        None => match e.text {
            Some(t) => Some(t@),
            None => None,
        },
    }
}

/// The draw for element `i`: `picks[i]`, or zero past its end.
pub open spec fn pick_at(picks: Seq<usize>, i: int) -> usize {
    if 0 <= i < picks.len() {
        picks[i]
    } else {
        0
    }
}

/// The texts of the elements `es`, element `i` with the draw `pick_at(picks, i)`;
/// `None` when some element renders to nothing.
pub open spec fn rendered_pieces(ws: Seq<Word>, es: Seq<TemplateElement>, picks: Seq<usize>) -> Option<
    Seq<Seq<char>>,
>
    decreases es.len(),
{
    if es.len() == 0 {
        Some(Seq::empty())
    } else {
        match rendered_pieces(ws, es.drop_last(), picks) {
            Some(ps) => match element_text(ws, es.last(), pick_at(picks, es.len() - 1)) {
                Some(t) => Some(ps.push(t)),
                None => None,
            },
            None => None,
        }
    }
}

/// The texts `ps` joined with one space between neighbours.
pub open spec fn join_words(ps: Seq<Seq<char>>) -> Seq<char>
    decreases ps.len(),
{
    if ps.len() == 0 {
        Seq::empty()
    } else if ps.len() == 1 {
        ps[0]
    } else {
        join_words(ps.drop_last()) + seq![' '] + ps.last()
    }
}

/// The template with identifier `id`, if there is one.
pub open spec fn template_with(ts: Seq<Template>, id: u128) -> Option<Template> {
    if exists|k: int| 0 <= k < ts.len() && ts[k].id == id {
        Some(ts[choose|k: int| 0 <= k < ts.len() && ts[k].id == id])
    } else {
        None
    }
}

/// What the template `id` renders to with the draws `picks`.
pub open spec fn rendered(v: DictView, id: u128, picks: Seq<usize>) -> Option<Seq<char>> {
    match template_with(v.templates, id) {
        Some(t) => match rendered_pieces(v.words, t.template@, picks) {
            Some(ps) => Some(join_words(ps)),
            None => None,
        },
        None => None,
    }
}

/// The text of an optional string.
pub open spec fn text_of(r: Option<String>) -> Option<Seq<char>> {
    match r {
        Some(s) => Some(s@),
        None => None,
    }
}

proof fn lemma_join_push(ps: Seq<Seq<char>>, x: Seq<char>)
    ensures
        join_words(ps.push(x)) == if ps.len() == 0 {
            x
        } else {
            join_words(ps) + seq![' '] + x
        },
{
    assert(ps.push(x).drop_last() =~= ps);
}

proof fn lemma_pieces_step(ws: Seq<Word>, es: Seq<TemplateElement>, picks: Seq<usize>, i: int)
    requires
        0 <= i < es.len(),
    ensures
        rendered_pieces(ws, es.subrange(0, i + 1), picks) == match rendered_pieces(
            ws,
            es.subrange(0, i),
            picks,
        ) {
            Some(ps) => match element_text(ws, es[i], pick_at(picks, i)) {
                Some(t) => Some(ps.push(t)),
                None => None,
            },
            None => None,
        },
{
    assert(es.subrange(0, i + 1).drop_last() =~= es.subrange(0, i));
}

proof fn lemma_none_extends(ws: Seq<Word>, es: Seq<TemplateElement>, picks: Seq<usize>, i: int)
    requires
        0 <= i <= es.len(),
        rendered_pieces(ws, es.subrange(0, i), picks) is None,
    ensures
        rendered_pieces(ws, es, picks) is None,
    decreases es.len() - i,
{
    if i < es.len() {
        lemma_pieces_step(ws, es, picks, i);
        lemma_none_extends(ws, es, picks, i + 1);
    } else {
        assert(es.subrange(0, i) =~= es);
    }
}

/// Whether a template renders does not depend on the draws.
pub proof fn lemma_renders_whatever_drawn(v: DictView, id: u128, p: Seq<usize>, q: Seq<usize>)
    ensures
        rendered(v, id, p) is Some <==> rendered(v, id, q) is Some,
{
    if let Some(t) = template_with(v.templates, id) {
        lemma_pieces_some(v.words, t.template@, p, q);
    }
}

proof fn lemma_pieces_some(ws: Seq<Word>, es: Seq<TemplateElement>, p: Seq<usize>, q: Seq<usize>)
    ensures
        rendered_pieces(ws, es, p) is Some <==> rendered_pieces(ws, es, q) is Some,
    decreases es.len(),
{
    if es.len() > 0 {
        lemma_pieces_some(ws, es.drop_last(), p, q);
    }
}

/// Rendering is a function of the dictionary, the template and the draws:
/// with the same draws, two renderings of a template agree.
pub proof fn lemma_render_repeatable(
    v: DictView,
    id: u128,
    picks: Seq<usize>,
    a: Option<Seq<char>>,
    b: Option<Seq<char>>,
)
    requires
        a == rendered(v, id, picks),
        b == rendered(v, id, picks),
    ensures
        a == b,
{
}

impl Dictionary {
    /// The template `template_id` rendered with the draws `picks`: element
    /// `i` that is a pattern becomes the word at position `picks[i]` (modulo
    /// their number, zero past the end of `picks`) among its candidates.
    /// `None` when there is no such template or some pattern has no candidate.
    pub fn render_template_with(&self, template_id: &u128, picks: &Vec<usize>) -> (r: Option<String>)
        requires
            self.wf(),
        ensures
            text_of(r) == rendered(self@, *template_id, picks@),
    {
        proof {
            self.lemma_wf();
        }
        let ghost v = self@;
        let templates = self.templates();
        let words = self.words();
        let mut p: usize = 0;
        while p < templates.len() && templates[p].id != *template_id
            invariant
                p <= templates@.len(),
                forall|k: int| 0 <= k < p ==> templates@[k].id != *template_id,
            decreases templates@.len() - p,
        {
            p = p + 1;
        }
        if p == templates.len() {
            return None;
        }
        let t = &templates[p];
        proof {
            let k = choose|k: int| 0 <= k < v.templates.len() && v.templates[k].id == *template_id;
            assert(k == p as int) by {
                if k != p as int {
                    if k < p {
                    } else {
                        assert(crate::dictionary::template_ids_distinct(v.templates));
                    }
                }
            }
            assert(template_with(v.templates, *template_id) == Some(*t));
        }
        let mut out = String::new();
        let ghost mut pieces: Seq<Seq<char>> = Seq::empty();
        assert(t.template@.subrange(0, 0) =~= Seq::<TemplateElement>::empty());
        let mut i: usize = 0;
        while i < t.template.len()
            invariant
                self.wf(),
                v == self@,
                words@ == v.words,
                word_ids_distinct(v.words),
                template_with(v.templates, *template_id) == Some(*t),
                i <= t.template@.len(),
                pieces.len() == i,
                rendered_pieces(v.words, t.template@.subrange(0, i as int), picks@) == Some(pieces),
                out@ == join_words(pieces),
            decreases t.template@.len() - i,
        {
            proof {
                lemma_pieces_step(v.words, t.template@, picks@, i as int);
            }
            let e = &t.template[i];
            let pick: usize = if i < picks.len() {
                picks[i]
            } else {
                0
            };
            let piece: String = match &e.template {
                Some(pat) => {
                    let candidates = self.resolve_words(pat.0, &pat.1);
                    if candidates.len() == 0 {
                        proof {
                            lemma_none_extends(v.words, t.template@, picks@, i + 1);
                        }
                        return None;
                    }
                    let id = candidates[pick % candidates.len()];
                    assert(candidates@.contains(id));
                    let mut wp: usize = 0;
                    while wp < words.len() && words[wp].id != id
                        invariant
                            wp <= words@.len(),
                            forall|k: int| 0 <= k < wp ==> words@[k].id != id,
                        decreases words@.len() - wp,
                    {
                        wp = wp + 1;
                    }
                    if wp == words.len() {
                        proof {
                            let k = choose|k: int|
                                0 <= k < v.words.len() && v.words[k].id == id && #[trigger] crate::dictionary::word_fits(
                                    v.words[k],
                                    pat.0,
                                    group_views(pat.1@),
                                );
                            assert(words@[k].id == id);
                        }
                        return None;
                    }
                    proof {
                        let k = choose|k: int| 0 <= k < v.words.len() && v.words[k].id == id;
                        assert(k == wp as int) by {
                            if k != wp as int {
                                if k < wp {
                                } else {
                                    assert(v.words[wp as int].id != v.words[k].id);
                                }
                            }
                        }
                    }
                    words[wp].base.clone()
                },
                None => match &e.text {
                    Some(text) => text.clone(),
                    None => {
                        proof {
                            lemma_none_extends(v.words, t.template@, picks@, i + 1);
                        }
                        return None;
                    },
                },
            };
            proof {
                assert(pick_at(picks@, i as int) == pick);
                assert(element_text(v.words, t.template@[i as int], pick) == Some(piece@));
                lemma_join_push(pieces, piece@);
                reveal_strlit(" ");
            }
            if i > 0 {
                out.append(" ");
            }
            out.append(piece.as_str());
            proof {
                pieces = pieces.push(piece@);
            }
            i = i + 1;
        }
        assert(t.template@.subrange(0, i as int) =~= t.template@);
        Some(out)
    }

    /// The template `template_id` rendered with fresh uniform draws, one per
    /// pattern among its candidates. `None` when there is no such template or
    /// some pattern has no candidate.
    pub fn render_template(&self, template_id: &u128) -> (r: Option<String>)
        requires
            self.wf(),
        ensures
            r is Some <==> rendered(self@, *template_id, Seq::empty()) is Some,
            exists|picks: Seq<usize>| text_of(r) == rendered(self@, *template_id, picks),
    {
        let templates = self.templates();
        let mut picks: Vec<usize> = Vec::new();
        let mut p: usize = 0;
        while p < templates.len()
            invariant
                self.wf(),
                p <= templates@.len(),
            decreases templates@.len() - p,
        {
            if templates[p].id == *template_id {
                let t = &templates[p];
                let mut i: usize = 0;
                while i < t.template.len()
                    invariant
                        self.wf(),
                        i <= t.template@.len(),
                    decreases t.template@.len() - i,
                {
                    let mut pick: usize = 0;
                    if let Some(pat) = &t.template[i].template {
                        let candidates = self.resolve_words(pat.0, &pat.1);
                        if candidates.len() > 0 {
                            pick = random_below(candidates.len());
                        }
                    }
                    picks.push(pick);
                    i = i + 1;
                }
                break;
            }
            p = p + 1;
        }
        let r = self.render_template_with(template_id, &picks);
        proof {
            lemma_renders_whatever_drawn(self@, *template_id, picks@, Seq::empty());
        }
        r
    }
}

} // verus!
