//! Templates: phrases made of literal words and typed slots, declared with
//! `TEMPLATE(...)` and filled in with words at render time.
use vstd::prelude::*;

use crate::random::fresh_id;
use crate::scan::{
    chars_of, distinct_of, find_markers, ident_end, scan_ident, distinct_texts, text_at,
    text_set, views,
};
use crate::word::{line_tags, SearchPattern, WordType};

verus! {

/// One element of a template: literal text, or a pattern that a word fills.
/// Exactly one of the two is present.
#[derive(PartialEq, Clone, Debug)]
pub struct TemplateElement {
    pub text: Option<String>,
    pub template: Option<SearchPattern>,
}

/// A named phrase pattern with tags of its own.
#[derive(PartialEq, Clone, Debug)]
pub struct Template {
    pub id: u128,
    /// The elements, in the order of the phrase.
    pub template: Vec<TemplateElement>,
    /// The tags of the template, each once.
    pub tags: Vec<String>,
}

/// An element of a template, in terms of text.
pub enum Piece {
    Literal(Seq<char>),
    /// A word of the class that has a tag of each group.
    Slot(WordType, Seq<Seq<Seq<char>>>),
}

/// The text of each group of alternatives.
pub open spec fn group_views(v: Seq<Vec<String>>) -> Seq<Seq<Seq<char>>> {
    v.map_values(|g: Vec<String>| views(g@))
}

/// `e` is the element `p`.
pub open spec fn element_is(e: TemplateElement, p: Piece) -> bool {
    match p {
        Piece::Literal(t) => {
            &&& e.template is None
            &&& e.text matches Some(x) && x@ == t
        },
        Piece::Slot(class, groups) => {
            &&& e.text is None
            &&& e.template matches Some(pat) && pat.0 == class && group_views(pat.1@) == groups
        },
    }
}

/// The elements `v` are the pieces `ps`, one for one.
pub open spec fn elements_are(v: Seq<TemplateElement>, ps: Seq<Piece>) -> bool {
    v.len() == ps.len() && forall|i: int| 0 <= i < v.len() ==> #[trigger] element_is(v[i], ps[i])
}

/// The characters that separate the tokens of a template.
pub open spec fn is_space(c: char) -> bool {
    c == ' ' || c == '\t'
}

/// The end of the run of separators that starts at `i`.
pub open spec fn spaces_end(s: Seq<char>, i: int) -> int
    decreases s.len() - i,
{
    if 0 <= i < s.len() && is_space(s[i]) {
        spaces_end(s, i + 1)
    } else {
        i
    }
}

/// The characters of `kw` stand in `s` from position `i` on.
pub open spec fn text_is_at(s: Seq<char>, i: int, kw: Seq<char>) -> bool {
    0 <= i && i + kw.len() <= s.len() && s.subrange(i, i + kw.len()) == kw
}

/// The first position at or after `i` where `kw` stands.
pub open spec fn first_text_from(s: Seq<char>, kw: Seq<char>, i: int) -> Option<int>
    decreases s.len() - i,
{
    if 0 <= i <= s.len() {
        if text_is_at(s, i, kw) {
            Some(i)
        } else if i < s.len() {
            first_text_from(s, kw, i + 1)
        } else {
            None
        }
    } else {
        None
    }
}

/// The alternatives of a group, `a, b, c]`, read from `q` on after the ones
/// in `acc`, with the position after the closing bracket.
pub open spec fn alts_from(s: Seq<char>, q: int, acc: Seq<Seq<char>>) -> Option<
    (Seq<Seq<char>>, int),
>
    decreases s.len() - q,
{
    let a = spaces_end(s, q);
    let b = ident_end(s, a);
    let c = spaces_end(s, b);
    if 0 <= q <= a && a < b && b <= c && c < s.len() {
        let more = acc.push(s.subrange(a, b));
        if s[c] == ']' {
            Some((more, c + 1))
        } else if s[c] == ',' {
            alts_from(s, c + 1, more)
        } else {
            None
        }
    } else {
        None
    }
}

/// The groups of a slot, `[..][..]]`, read from `q` on after the ones in
/// `acc`, with the position after the slot's closing bracket.
pub open spec fn groups_from(s: Seq<char>, q: int, acc: Seq<Seq<Seq<char>>>) -> Option<
    (Seq<Seq<Seq<char>>>, int),
>
    decreases s.len() - q,
{
    if 0 <= q < s.len() && s[q] == ']' {
        Some((acc, q + 1))
    } else if 0 <= q < s.len() && s[q] == '[' {
        match alts_from(s, q + 1, Seq::empty()) {
            Some((alts, r)) => if q < r <= s.len() {
                groups_from(s, r, acc.push(alts))
            } else {
                None
            },
            None => None,
        }
    } else {
        None
    }
}

/// The class of a slot that opens at `p`, with the position of its first group.
pub open spec fn slot_open(s: Seq<char>, p: int) -> Option<(WordType, int)> {
    if text_is_at(s, p, "NOUN["@) {
        Some((WordType::Noun, p + "NOUN["@.len()))
    } else if text_is_at(s, p, "ADJECTIVE["@) {
        Some((WordType::Adjective, p + "ADJECTIVE["@.len()))
    } else {
        None
    }
}

/// The pieces of a template body read from `p` up to its closing
/// parenthesis, after the pieces `acc`; `None` where the body is malformed.
pub open spec fn body_from(s: Seq<char>, p: int, acc: Seq<Piece>) -> Option<Seq<Piece>>
    decreases s.len() - p,
{
    if !(0 <= p < s.len()) {
        None
    } else if is_space(s[p]) {
        body_from(s, p + 1, acc)
    } else if s[p] == ')' {
        Some(acc)
    } else {
        match slot_open(s, p) {
            Some((class, q)) => match groups_from(s, q, Seq::empty()) {
                Some((groups, e)) => if groups.len() > 0 && p < e <= s.len() {
                    body_from(s, e, acc.push(Piece::Slot(class, groups)))
                } else {
                    None
                },
                None => None,
            },
            None => {
                let q = ident_end(s, p);
                if p < q <= s.len() {
                    body_from(s, q, acc.push(Piece::Literal(s.subrange(p, q))))
                } else {
                    None
                }
            },
        }
    }
}

/// The pieces of the template that a line declares: the body of its first
/// `TEMPLATE(`, if that body is well formed.
pub open spec fn template_body(s: Seq<char>) -> Option<Seq<Piece>> {
    match first_text_from(s, "TEMPLATE("@, 0) {
        Some(i) => body_from(s, i + "TEMPLATE("@.len(), Seq::empty()),
        None => None,
    }
}

/// `r` is the template that `line` declares, up to its identifier.
pub open spec fn declares_template(line: Seq<char>, r: Option<Template>) -> bool {
    match template_body(line) {
        None => r is None,
        Some(ps) => {
            &&& r matches Some(t)
            &&& elements_are(t.template@, ps)
            &&& distinct_texts(t.tags@)
            &&& text_set(t.tags@) == line_tags(line)
        },
    }
}

/// The end of the separators that start at `i`.
fn skip_spaces(s: &Vec<char>, i: usize) -> (r: usize)
    requires
        i <= s.len(),
    ensures
        r as int == spaces_end(s@, i as int),
        i <= r <= s.len(),
{
    let mut j: usize = i;
    while j < s.len() && (s[j] == ' ' || s[j] == '\t')
        invariant
            i <= j <= s.len(),
            spaces_end(s@, j as int) == spaces_end(s@, i as int),
        decreases s.len() - j,
    {
        j = j + 1;
    }
    j
}

/// The first position at or after `i` where `kw` stands.
fn find_text(s: &Vec<char>, kw: &str, i: usize) -> (r: Option<usize>)
    requires
        i <= s.len(),
    ensures
        match r {
            Some(k) => first_text_from(s@, kw@, i as int) == Some(k as int) && k + kw@.len()
                <= s.len(),
            None => first_text_from(s@, kw@, i as int) is None,
        },
{
    let mut j: usize = i;
    loop
        invariant
            i <= j <= s.len(),
            first_text_from(s@, kw@, j as int) == first_text_from(s@, kw@, i as int),
        decreases s.len() - j,
    {
        if text_at(s, j, kw) {
            return Some(j);
        }
        if j == s.len() {
            return None;
        }
        j = j + 1;
    }
}

/// The alternatives of the group that starts after its `[` at `q`.
fn parse_alts(line: &str, s: &Vec<char>, start: usize) -> (r: Option<(Vec<String>, usize)>)
    requires
        s@ == line@,
        start <= s.len(),
    ensures
        match r {
            Some((v, e)) => alts_from(s@, start as int, Seq::empty()) == Some(
                (views(v@), e as int),
            ) && start < e <= s.len(),
            None => alts_from(s@, start as int, Seq::empty()) is None,
        },
{
    let mut acc: Vec<String> = Vec::new();
    let mut q = start;
    assert(views(acc@) =~= Seq::<Seq<char>>::empty());
    loop
        invariant
            s@ == line@,
            q <= s.len(),
            start <= q,
            alts_from(s@, q as int, views(acc@)) == alts_from(s@, start as int, Seq::empty()),
        decreases s.len() - q,
    {
        let a = skip_spaces(s, q);
        let b = scan_ident(s, a);
        if a == b {
            return None;
        }
        let c = skip_spaces(s, b);
        if c >= s.len() {
            return None;
        }
        let ghost before = views(acc@);
        acc.push(String::from_str(line.substring_char(a, b)));
        assert(views(acc@) =~= before.push(s@.subrange(a as int, b as int)));
        if s[c] == ']' {
            return Some((acc, c + 1));
        } else if s[c] == ',' {
            q = c + 1;
        } else {
            return None;
        }
    }
}

/// The groups of the slot whose first group opens at `start`.
fn parse_groups(line: &str, s: &Vec<char>, start: usize) -> (r: Option<(Vec<Vec<String>>, usize)>)
    requires
        s@ == line@,
        start <= s.len(),
    ensures
        match r {
            Some((v, e)) => groups_from(s@, start as int, Seq::empty()) == Some(
                (group_views(v@), e as int),
            ) && start < e <= s.len(),
            None => groups_from(s@, start as int, Seq::empty()) is None,
        },
{
    let mut acc: Vec<Vec<String>> = Vec::new();
    let mut q = start;
    assert(group_views(acc@) =~= Seq::<Seq<Seq<char>>>::empty());
    loop
        invariant
            s@ == line@,
            start <= q <= s.len(),
            groups_from(s@, q as int, group_views(acc@)) == groups_from(
                s@,
                start as int,
                Seq::empty(),
            ),
        decreases s.len() - q,
    {
        if q >= s.len() {
            return None;
        }
        if s[q] == ']' {
            return Some((acc, q + 1));
        }
        if s[q] != '[' {
            return None;
        }
        match parse_alts(line, s, q + 1) {
            Some((alts, e)) => {
                let ghost before = group_views(acc@);
                acc.push(alts);
                assert(group_views(acc@) =~= before.push(views(alts@)));
                q = e;
            },
            None => {
                return None;
            },
        }
    }
}

/// The elements of the template body that starts at `start`.
fn parse_body(line: &str, s: &Vec<char>, start: usize) -> (r: Option<Vec<TemplateElement>>)
    requires
        s@ == line@,
        start <= s.len(),
    ensures
        match body_from(s@, start as int, Seq::empty()) {
            Some(ps) => r matches Some(v) && elements_are(v@, ps),
            None => r is None,
        },
{
    let mut acc: Vec<TemplateElement> = Vec::new();
    let ghost mut ps: Seq<Piece> = Seq::empty();
    let mut p = start;
    loop
        invariant
            s@ == line@,
            start <= p <= s.len(),
            elements_are(acc@, ps),
            body_from(s@, p as int, ps) == body_from(s@, start as int, Seq::empty()),
        decreases s.len() - p,
    {
        if p >= s.len() {
            return None;
        }
        let c = s[p];
        if c == ' ' || c == '\t' {
            p = p + 1;
        } else if c == ')' {
            return Some(acc);
        } else {
            let open: Option<(WordType, usize)> = if text_at(s, p, "NOUN[") {
                Some((WordType::Noun, p + "NOUN[".unicode_len()))
            } else if text_at(s, p, "ADJECTIVE[") {
                Some((WordType::Adjective, p + "ADJECTIVE[".unicode_len()))
            } else {
                None
            };
            match open {
                Some((class, q)) => {
                    match parse_groups(line, s, q) {
                        Some((groups, e)) => {
                            if groups.len() == 0 {
                                return None;
                            }
                            let ghost piece = Piece::Slot(class, group_views(groups@));
                            acc.push(TemplateElement { text: None, template: Some((class, groups)) });
                            proof {
                                assert(element_is(acc@[acc@.len() - 1], piece));
                                ps = ps.push(piece);
                            }
                            p = e;
                        },
                        None => {
                            return None;
                        },
                    }
                },
                None => {
                    let q = scan_ident(s, p);
                    if q == p {
                        return None;
                    }
                    let word = String::from_str(line.substring_char(p, q));
                    let ghost piece = Piece::Literal(s@.subrange(p as int, q as int));
                    acc.push(TemplateElement { text: Some(word), template: None });
                    proof {
                        assert(element_is(acc@[acc@.len() - 1], piece));
                        ps = ps.push(piece);
                    }
                    p = q;
                },
            }
        }
    }
}

/// The template that `line` declares with `TEMPLATE(...)`, with a fresh
/// identifier and the line's `TAG(...)` tags; `None` where the line declares
/// none or its body is malformed.
pub fn parse_template(line: &str) -> (r: Option<Template>)
    ensures
        declares_template(line@, r),
{
    let s = chars_of(line);
    match find_text(&s, "TEMPLATE(", 0) {
        None => None,
        Some(i) => {
            let start = i + "TEMPLATE(".unicode_len();
            match parse_body(line, &s, start) {
                None => None,
                Some(elements) => {
                    let tags = distinct_of(&find_markers(line, &s, "TAG"));
                    Some(Template { id: fresh_id(), template: elements, tags })
                },
            }
        },
    }
}

/// The elements `a` and `b` stand for the same piece.
pub open spec fn same_element(a: TemplateElement, b: TemplateElement) -> bool {
    forall|p: Piece| #[trigger] element_is(a, p) <==> element_is(b, p)
}

/// Parsing the same line twice gives the same template, element for
/// element and with the same tags; only the identifiers may differ.
pub proof fn lemma_parse_template_repeatable(line: Seq<char>, a: Option<Template>, b: Option<Template>)
    requires
        declares_template(line, a),
        declares_template(line, b),
    ensures
        a is Some <==> b is Some,
        a matches Some(x) ==> {
            &&& b matches Some(y)
            &&& x.template@.len() == y.template@.len()
            &&& forall|i: int| 0 <= i < x.template@.len() ==> #[trigger] same_element(x.template@[i], y.template@[i])
            &&& text_set(x.tags@) == text_set(y.tags@)
        },
{
    if let (Some(x), Some(y)) = (a, b) {
        let ps = template_body(line)->0;
        assert forall|i: int| 0 <= i < x.template@.len() implies #[trigger] same_element(x.template@[i], y.template@[i]) by {
            assert(element_is(x.template@[i], ps[i]));
            assert(element_is(y.template@[i], ps[i]));
        }
    }
}

} // verus!
