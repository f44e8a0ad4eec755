//! The tag hierarchy: parent/child links between tags, and the bounded
//! closure that gives an entity the ancestors of its tags.
use vstd::prelude::*;

use crate::scan::{chars_of, contains_text, distinct_of, distinct_texts, find_markers, markers, text_set, views};

verus! {

/// How many rounds of propagation tags get: ancestors up to this many links
/// above a declared tag are added, and no more. The rounds are a fixed number
/// rather than a search for a fixed point, so a cycle among links costs no
/// more than any other link.
pub const MAX_NESTED_TAG_DEPTH: usize = 5;

/// A set of (parent, child) links between tag names.
pub type Links = Set<(Seq<char>, Seq<char>)>;

/// The tags that have a child in `g`.
pub open spec fn parents_of(g: Links) -> Set<Seq<char>> {
    Set::new(|p: Seq<char>| exists|c: Seq<char>| g.contains((p, c)))
}

/// The children of `p` in `g`.
pub open spec fn children_of(g: Links, p: Seq<char>) -> Set<Seq<char>> {
    Set::new(|c: Seq<char>| g.contains((p, c)))
}

/// One round of propagation: every parent of a tag in `t` joins `t`.
pub open spec fn step(g: Links, t: Set<Seq<char>>) -> Set<Seq<char>> {
    t.union(Set::new(|p: Seq<char>| exists|c: Seq<char>| t.contains(c) && g.contains((p, c))))
}

/// `n` rounds of propagation from the tags `t`.
pub open spec fn closure(g: Links, t: Set<Seq<char>>, n: nat) -> Set<Seq<char>>
    decreases n,
{
    if n == 0 {
        t
    } else {
        step(g, closure(g, t, (n - 1) as nat))
    }
}

/// The tags an entity ends with, when it is declared with the tags `t`.
pub open spec fn closed_tags(g: Links, t: Set<Seq<char>>) -> Set<Seq<char>> {
    closure(g, t, MAX_NESTED_TAG_DEPTH as nat)
}

/// `chain[k + 1]` is a parent of `chain[k]` for each link of the chain.
pub open spec fn is_chain(g: Links, chain: Seq<Seq<char>>) -> bool {
    forall|k: int| 0 <= k < chain.len() - 1 ==> #[trigger] g.contains((chain[k + 1], chain[k]))
}

/// The links that a line declares: each `HAS_PARENT(...)` of the line is a
/// parent of each `TAG(...)` of the line.
pub open spec fn line_links(line: Seq<char>) -> Links {
    Set::new(
        |e: (Seq<char>, Seq<char>)|
            markers(line, "HAS_PARENT"@).contains(e.0) && markers(line, "TAG"@).contains(e.1),
    )
}

/// The text of each link of a sequence.
pub open spec fn link_views(v: Seq<(String, String)>) -> Seq<(Seq<char>, Seq<char>)> {
    v.map_values(|e: (String, String)| (e.0@, e.1@))
}

/// A tag graph: links from parent tags to child tags.
#[derive(Clone, Debug)]
pub struct TagGraph {
    links: Vec<(String, String)>,
}

impl View for TagGraph {
    type V = Links;

    closed spec fn view(&self) -> Links {
        link_views(self.links@).to_set()
    }
}

impl TagGraph {
    /// A graph without links.
    pub fn new() -> (r: TagGraph)
        ensures
            r@ == Set::<(Seq<char>, Seq<char>)>::empty(),
    {
        let r = TagGraph { links: Vec::new() };
        assert(r@ =~= Set::<(Seq<char>, Seq<char>)>::empty());
        r
    }

    /// Whether the graph links `parent` to `child`.
    fn has_link(&self, parent: &String, child: &String) -> (r: bool)
        ensures
            r == self@.contains((parent@, child@)),
    {
        let mut i: usize = 0;
        while i < self.links.len()
            invariant
                i <= self.links.len(),
                forall|j: int|
                    0 <= j < i ==> (self.links@[j].0@, self.links@[j].1@) != (parent@, child@),
            decreases self.links.len() - i,
        {
            if self.links[i].0 == *parent && self.links[i].1 == *child {
                assert(link_views(self.links@)[i as int] == (parent@, child@));
                return true;
            }
            i = i + 1;
        }
        assert(!self@.contains((parent@, child@))) by {
            if link_views(self.links@).contains((parent@, child@)) {
                let j = choose|j: int|
                    0 <= j < link_views(self.links@).len() && link_views(self.links@)[j] == (
                    parent@,
                    child@,
                );
                assert((self.links@[j].0@, self.links@[j].1@) == (parent@, child@));
            }
        }
        false
    }

    /// Links `parent` to `child`.
    pub fn add_link(&mut self, parent: String, child: String)
        ensures
            final(self)@ == old(self)@.insert((parent@, child@)),
    {
        if !self.has_link(&parent, &child) {
            let ghost before = link_views(self.links@);
            self.links.push((parent, child));
            assert(link_views(self.links@) =~= before.push((parent@, child@)));
            proof {
                before.lemma_push_to_set_commute((parent@, child@));
            }
        }
        assert(self@ =~= old(self)@.insert((parent@, child@)));
    }

    /// Adds every link of `other`.
    pub fn merge(&mut self, other: &TagGraph)
        ensures
            final(self)@ == old(self)@.union(other@),
    {
        let mut i: usize = 0;
        while i < other.links.len()
            invariant
                i <= other.links.len(),
                self@ == old(self)@.union(link_views(other.links@).subrange(0, i as int).to_set()),
            decreases other.links.len() - i,
        {
            self.add_link(other.links[i].0.clone(), other.links[i].1.clone());
            proof {
                let s = link_views(other.links@);
                assert(s.subrange(0, i + 1) =~= s.subrange(0, i as int).push(s[i as int]));
                s.subrange(0, i as int).lemma_push_to_set_commute(s[i as int]);
            }
            i = i + 1;
        }
        assert(link_views(other.links@).subrange(0, i as int) =~= link_views(other.links@));
        assert(self@ =~= old(self)@.union(other@));
    }

    /// The parent tags of the graph, each once.
    fn parent_list(&self) -> (r: Vec<String>)
        ensures
            distinct_texts(r@),
            text_set(r@) == parents_of(self@),
    {
        let mut r: Vec<String> = Vec::new();
        let mut i: usize = 0;
        while i < self.links.len()
            invariant
                i <= self.links.len(),
                distinct_texts(r@),
                text_set(r@) == Set::new(
                    |p: Seq<char>| exists|j: int| 0 <= j < i && self.links@[j].0@ == p,
                ),
            decreases self.links.len() - i,
        {
            crate::scan::push_distinct(&mut r, self.links[i].0.clone());
            i = i + 1;
            assert(text_set(r@) =~= Set::new(
                |p: Seq<char>| exists|j: int| 0 <= j < i && self.links@[j].0@ == p,
            ));
        }
        assert(text_set(r@) =~= parents_of(self@)) by {
            assert forall|p: Seq<char>| #[trigger] parents_of(self@).contains(p) implies text_set(
                r@,
            ).contains(p) by {
                let c = choose|c: Seq<char>| self@.contains((p, c));
                let j = choose|j: int|
                    0 <= j < link_views(self.links@).len() && link_views(self.links@)[j] == (p, c);
                assert(self.links@[j].0@ == p);
            }
            assert forall|p: Seq<char>| #[trigger] text_set(r@).contains(p) implies parents_of(
                self@,
            ).contains(p) by {
                let j = choose|j: int| 0 <= j < i && self.links@[j].0@ == p;
                assert(link_views(self.links@)[j] == (p, self.links@[j].1@));
                assert(self@.contains((p, self.links@[j].1@)));
            }
        }
        r
    }

    /// The number of tags that have a child.
    pub fn len(&self) -> (r: usize)
        ensures
            r == parents_of(self@).len(),
    {
        let ps = self.parent_list();
        proof {
            views(ps@).unique_seq_to_set();
        }
        ps.len()
    }

    /// The children of `parent`, each once; `None` where it has none.
    pub fn get(&self, parent: &str) -> (r: Option<Vec<String>>)
        ensures
            r is None <==> children_of(self@, parent@).is_empty(),
            r matches Some(v) ==> distinct_texts(v@) && text_set(v@) == children_of(
                self@,
                parent@,
            ),
    {
        let p = String::from_str(parent);
        let mut r: Vec<String> = Vec::new();
        let mut i: usize = 0;
        while i < self.links.len()
            invariant
                p@ == parent@,
                i <= self.links.len(),
                distinct_texts(r@),
                text_set(r@) == Set::new(
                    |c: Seq<char>|
                        exists|j: int|
                            0 <= j < i && self.links@[j].0@ == p@ && self.links@[j].1@ == c,
                ),
            decreases self.links.len() - i,
        {
            if self.links[i].0 == p {
                crate::scan::push_distinct(&mut r, self.links[i].1.clone());
            }
            i = i + 1;
            assert(text_set(r@) =~= Set::new(
                |c: Seq<char>|
                    exists|j: int| 0 <= j < i && self.links@[j].0@ == p@ && self.links@[j].1@ == c,
            ));
        }
        assert(text_set(r@) =~= children_of(self@, parent@)) by {
            assert forall|c: Seq<char>| #[trigger]
                children_of(self@, parent@).contains(c) implies text_set(r@).contains(c) by {
                let j = choose|j: int|
                    0 <= j < link_views(self.links@).len() && link_views(self.links@)[j] == (
                    parent@,
                    c,
                );
                assert(self.links@[j].0@ == p@ && self.links@[j].1@ == c);
            }
            assert forall|c: Seq<char>| #[trigger] text_set(r@).contains(c) implies children_of(
                self@,
                parent@,
            ).contains(c) by {
                let j = choose|j: int|
                    0 <= j < i && self.links@[j].0@ == p@ && self.links@[j].1@ == c;
                assert(link_views(self.links@)[j] == (parent@, c));
            }
        }
        if r.len() == 0 {
            assert(views(r@) =~= Seq::<Seq<char>>::empty());
            assert(children_of(self@, parent@) =~= Set::empty());
            None
        } else {
            assert(text_set(r@).contains(views(r@)[0]));
            Some(r)
        }
    }

    /// One round of propagation over the tags `t`.
    pub fn step_tags(&self, t: &Vec<String>) -> (r: Vec<String>)
        requires
            distinct_texts(t@),
        ensures
            distinct_texts(r@),
            text_set(r@) == step(self@, text_set(t@)),
    {
        let mut r: Vec<String> = t.clone();
        assert(r@ =~= t@);
        let mut i: usize = 0;
        while i < self.links.len()
            invariant
                i <= self.links.len(),
                distinct_texts(r@),
                text_set(r@) == text_set(t@).union(
                    Set::new(
                        |p: Seq<char>|
                            exists|j: int|
                                0 <= j < i && self.links@[j].0@ == p && text_set(t@).contains(
                                    self.links@[j].1@,
                                ),
                    ),
                ),
            decreases self.links.len() - i,
        {
            if contains_text(t, &self.links[i].1) {
                crate::scan::push_distinct(&mut r, self.links[i].0.clone());
            }
            i = i + 1;
            assert(text_set(r@) =~= text_set(t@).union(
                Set::new(
                    |p: Seq<char>|
                        exists|j: int|
                            0 <= j < i && self.links@[j].0@ == p && text_set(t@).contains(
                                self.links@[j].1@,
                            ),
                ),
            ));
        }
        assert(text_set(r@) =~= step(self@, text_set(t@))) by {
            let added = Set::new(
                |p: Seq<char>| exists|c: Seq<char>| text_set(t@).contains(c) && self@.contains((p, c)),
            );
            assert forall|p: Seq<char>| #[trigger] added.contains(p) implies text_set(r@).contains(
                p,
            ) by {
                let c = choose|c: Seq<char>| text_set(t@).contains(c) && self@.contains((p, c));
                let j = choose|j: int|
                    0 <= j < link_views(self.links@).len() && link_views(self.links@)[j] == (p, c);
                assert(self.links@[j].0@ == p && self.links@[j].1@ == c);
            }
            assert forall|p: Seq<char>| #[trigger] text_set(r@).contains(p) && !text_set(
                t@,
            ).contains(p) implies added.contains(p) by {
                let j = choose|j: int|
                    0 <= j < i && self.links@[j].0@ == p && text_set(t@).contains(
                        self.links@[j].1@,
                    );
                assert(link_views(self.links@)[j] == (p, self.links@[j].1@));
                assert(self@.contains((p, self.links@[j].1@)));
            }
        }
        r
    }

    /// The tags `t` with their ancestors, up to `MAX_NESTED_TAG_DEPTH` links up.
    pub fn close_tags(&self, t: &Vec<String>) -> (r: Vec<String>)
        requires
            distinct_texts(t@),
        ensures
            distinct_texts(r@),
            text_set(r@) == closed_tags(self@, text_set(t@)),
    {
        let mut r: Vec<String> = t.clone();
        assert(r@ =~= t@);
        let mut k: usize = 0;
        while k < MAX_NESTED_TAG_DEPTH
            invariant
                k <= MAX_NESTED_TAG_DEPTH,
                distinct_texts(r@),
                text_set(r@) == closure(self@, text_set(t@), k as nat),
            decreases MAX_NESTED_TAG_DEPTH - k,
        {
            r = self.step_tags(&r);
            k = k + 1;
        }
        r
    }
}

/// The links that `line` declares: every `TAG(...)` of the line is a child of
/// every `HAS_PARENT(...)` of the line.
pub fn parse_tag_children(line: &str) -> (r: TagGraph)
    ensures
        r@ == line_links(line@),
{
    let s = chars_of(line);
    let parents = distinct_of(&find_markers(line, &s, "HAS_PARENT"));
    let children = distinct_of(&find_markers(line, &s, "TAG"));
    let ghost ps = views(parents@);
    let ghost cs = views(children@);
    let mut r = TagGraph::new();
    let mut i: usize = 0;
    while i < parents.len()
        invariant
            ps == views(parents@),
            cs == views(children@),
            i <= parents.len(),
            r@ == Set::new(
                |e: (Seq<char>, Seq<char>)|
                    (exists|a: int| 0 <= a < i && ps[a] == e.0) && cs.contains(e.1),
            ),
        decreases parents.len() - i,
    {
        let mut j: usize = 0;
        while j < children.len()
            invariant
                ps == views(parents@),
                cs == views(children@),
                i < parents.len(),
                j <= children.len(),
                r@ == Set::new(
                    |e: (Seq<char>, Seq<char>)|
                        ((exists|a: int| 0 <= a < i && ps[a] == e.0) && cs.contains(e.1)) || (e.0
                            == ps[i as int] && exists|b: int| 0 <= b < j && cs[b] == e.1),
                ),
            decreases children.len() - j,
        {
            r.add_link(parents[i].clone(), children[j].clone());
            assert(ps[i as int] == parents@[i as int]@ && cs[j as int] == children@[j as int]@);
            j = j + 1;
            assert(r@ =~= Set::new(
                |e: (Seq<char>, Seq<char>)|
                    ((exists|a: int| 0 <= a < i && ps[a] == e.0) && cs.contains(e.1)) || (e.0
                        == ps[i as int] && exists|b: int| 0 <= b < j && cs[b] == e.1),
            ));
        }
        i = i + 1;
        assert(r@ =~= Set::new(
            |e: (Seq<char>, Seq<char>)|
                (exists|a: int| 0 <= a < i && ps[a] == e.0) && cs.contains(e.1),
        ));
    }
    assert(r@ =~= line_links(line@)) by {
        assert forall|e: (Seq<char>, Seq<char>)| #[trigger] r@.contains(e) implies line_links(
            line@,
        ).contains(e) by {
            let a = choose|a: int| 0 <= a < i && ps[a] == e.0;
            assert(text_set(parents@).contains(e.0));
            assert(text_set(children@).contains(e.1));
        }
        assert forall|e: (Seq<char>, Seq<char>)| #[trigger] line_links(line@).contains(e) implies r@.contains(e) by {
            assert(text_set(parents@).contains(e.0));
            assert(text_set(children@).contains(e.1));
        }
    }
    r
}

/// Propagation only adds tags: each round keeps the tags it starts from.
pub proof fn lemma_closure_grows(g: Links, t: Set<Seq<char>>, m: nat, n: nat)
    requires
        m <= n,
    ensures
        closure(g, t, m).subset_of(closure(g, t, n)),
    decreases n,
{
    if m < n {
        lemma_closure_grows(g, t, m, (n - 1) as nat);
    }
}

/// Along a chain of parent links that starts at a tag of `t`, `n` rounds of
/// propagation reach the first `n` ancestors: every tag of the chain at most
/// `n` links above its start. With `n` the bound that entities get, a chain
/// of depth up to that bound is reached whole; of a deeper one, only that
/// many levels are sure to be.
pub proof fn lemma_chain_reached(g: Links, t: Set<Seq<char>>, chain: Seq<Seq<char>>, n: nat)
    requires
        chain.len() > 0,
        t.contains(chain[0]),
        is_chain(g, chain),
    ensures
        forall|k: int| 0 <= k < chain.len() && k <= n ==> #[trigger] closure(g, t, n).contains(
            chain[k],
        ),
    decreases n,
{
    if n > 0 {
        lemma_chain_reached(g, t, chain, (n - 1) as nat);
        assert forall|k: int| 0 <= k < chain.len() && k <= n implies #[trigger] closure(
            g,
            t,
            n,
        ).contains(chain[k]) by {
            if k < n {
                lemma_closure_grows(g, t, (n - 1) as nat, n);
            } else {
                let j = k - 1;
                assert(closure(g, t, (n - 1) as nat).contains(chain[j]));
                assert(g.contains((chain[j + 1], chain[j])));
            }
        }
    }
}

/// Conversely, a tag that `n` rounds reach stands at the top of a chain of
/// at most `n` links that starts at a tag of `t`: propagation adds nothing
/// beyond `n` levels of ancestors.
pub proof fn lemma_closure_has_chain(g: Links, t: Set<Seq<char>>, n: nat, p: Seq<char>)
    requires
        closure(g, t, n).contains(p),
    ensures
        exists|chain: Seq<Seq<char>>|
            #![trigger chain.len()]
            {
                &&& 0 < chain.len() <= n + 1
                &&& t.contains(chain[0])
                &&& chain.last() == p
                &&& is_chain(g, chain)
            },
    decreases n,
{
    if n == 0 {
        let chain = seq![p];
        assert(chain.len() == 1);
    } else {
        let prev = closure(g, t, (n - 1) as nat);
        if prev.contains(p) {
            lemma_closure_has_chain(g, t, (n - 1) as nat, p);
        } else {
            let c = choose|c: Seq<char>| prev.contains(c) && g.contains((p, c));
            lemma_closure_has_chain(g, t, (n - 1) as nat, c);
            let chain = choose|chain: Seq<Seq<char>>|
                #![trigger chain.len()]
                {
                    &&& 0 < chain.len() <= n
                    &&& t.contains(chain[0])
                    &&& chain.last() == c
                    &&& is_chain(g, chain)
                };
            let longer = chain.push(p);
            assert(is_chain(g, longer)) by {
                assert forall|k: int| 0 <= k < longer.len() - 1 implies #[trigger] g.contains(
                    (longer[k + 1], longer[k]),
                ) by {
                    if k < chain.len() - 1 {
                        assert(longer[k + 1] == chain[k + 1] && longer[k] == chain[k]);
                    }
                }
            }
            assert(longer.len() == chain.len() + 1);
        }
    }
}

} // verus!
