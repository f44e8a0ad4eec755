//! Resolution of AND-of-OR tag constraints against a map from tags to
//! identifiers.
use vstd::prelude::*;

use crate::index::{ids_under, TagIndex};
use crate::scan::views;

verus! {

/// A map from tags to the identifiers that carry them.
pub type TagMap = Map<Seq<char>, Seq<u128>>;

/// `acc` followed by the elements of `s` that are not yet there, in order.
pub open spec fn gather(acc: Seq<u128>, s: Seq<u128>) -> Seq<u128>
    decreases s.len(),
{
    if s.len() == 0 {
        acc
    } else {
        let a = gather(acc, s.drop_last());
        if a.contains(s.last()) {
            a
        } else {
            a.push(s.last())
        }
    }
}

/// The identifiers under any tag of the group `g`, each once, in order of
/// first appearance.
pub open spec fn group_union(m: TagMap, g: Seq<Seq<char>>) -> Seq<u128>
    decreases g.len(),
{
    if g.len() == 0 {
        Seq::empty()
    } else {
        gather(group_union(m, g.drop_last()), ids_under(m, g.last()))
    }
}

/// `id` is under some tag of every group after the first.
pub open spec fn in_later_groups(m: TagMap, gs: Seq<Seq<Seq<char>>>, id: u128) -> bool {
    forall|i: int| 1 <= i < gs.len() ==> #[trigger] group_union(m, gs[i]).contains(id)
}

/// The elements of `s` that are under some tag of every group after the first.
pub open spec fn sift(m: TagMap, gs: Seq<Seq<Seq<char>>>, s: Seq<u128>) -> Seq<u128>
    decreases s.len(),
{
    if s.len() == 0 {
        s
    } else {
        let rest = sift(m, gs, s.drop_last());
        if in_later_groups(m, gs, s.last()) {
            rest.push(s.last())
        } else {
            rest
        }
    }
}

/// The candidates of a constraint: the union of its first group, less what
/// some later group lacks. No groups give no candidates.
pub open spec fn pool(m: TagMap, gs: Seq<Seq<Seq<char>>>) -> Seq<u128> {
    if gs.len() == 0 {
        Seq::empty()
    } else {
        sift(m, gs, group_union(m, gs[0]))
    }
}

/// `id` is under some tag of the group `g`.
pub open spec fn under_group(m: TagMap, g: Seq<Seq<char>>, id: u128) -> bool {
    exists|j: int| 0 <= j < g.len() && #[trigger] ids_under(m, g[j]).contains(id)
}

/// `id` is under some tag of every group, and there is a group.
pub open spec fn in_every_group(m: TagMap, gs: Seq<Seq<Seq<char>>>, id: u128) -> bool {
    &&& gs.len() > 0
    &&& forall|i: int| 0 <= i < gs.len() ==> #[trigger] under_group(m, gs[i], id)
}

/// `a` with `x` appended has no duplicates when `a` has none and lacks `x`.
proof fn lemma_push_distinct(a: Seq<u128>, x: u128)
    requires
        a.no_duplicates(),
        !a.contains(x),
    ensures
        a.push(x).no_duplicates(),
{
    assert forall|i: int, j: int| 0 <= i < j < a.push(x).len() implies a.push(x)[i] != a.push(x)[j] by {
        if j == a.len() {
            assert(a.push(x)[i] == a[i]);
        }
    }
}

proof fn lemma_gather(acc: Seq<u128>, s: Seq<u128>)
    ensures
        forall|x: u128| #[trigger]
            gather(acc, s).contains(x) <==> acc.contains(x) || s.contains(x),
        acc.no_duplicates() ==> gather(acc, s).no_duplicates(),
    decreases s.len(),
{
    broadcast use vstd::seq_lib::lemma_seq_contains_after_push;

    if s.len() > 0 {
        lemma_gather(acc, s.drop_last());
        let a = gather(acc, s.drop_last());
        assert(s =~= s.drop_last().push(s.last()));
        assert forall|x: u128| #[trigger] gather(acc, s).contains(x) <==> acc.contains(x) || s.contains(x) by {
            assert(s.contains(x) <==> s.drop_last().contains(x) || s.last() == x);
        }
        if acc.no_duplicates() && !a.contains(s.last()) {
            lemma_push_distinct(a, s.last());
        }
    }
}

proof fn lemma_group_union(m: TagMap, g: Seq<Seq<char>>)
    ensures
        forall|id: u128| #[trigger] group_union(m, g).contains(id) <==> under_group(m, g, id),
        group_union(m, g).no_duplicates(),
    decreases g.len(),
{
    if g.len() > 0 {
        lemma_group_union(m, g.drop_last());
        lemma_gather(group_union(m, g.drop_last()), ids_under(m, g.last()));
        assert forall|id: u128| #[trigger] group_union(m, g).contains(id) <==> under_group(m, g, id) by {
            if exists|j: int| 0 <= j < g.len() && #[trigger] ids_under(m, g[j]).contains(id) {
                let j = choose|j: int| 0 <= j < g.len() && #[trigger] ids_under(m, g[j]).contains(id);
                if j < g.len() - 1 {
                    assert(g.drop_last()[j] == g[j]);
                }
            }
            if group_union(m, g.drop_last()).contains(id) {
                let j = choose|j: int|
                    0 <= j < g.drop_last().len() && #[trigger] ids_under(m, g.drop_last()[j]).contains(id);
                assert(g[j] == g.drop_last()[j]);
            }
        }
    }
}

proof fn lemma_sift(m: TagMap, gs: Seq<Seq<Seq<char>>>, s: Seq<u128>)
    ensures
        forall|x: u128| #[trigger]
            sift(m, gs, s).contains(x) <==> s.contains(x) && in_later_groups(m, gs, x),
        s.no_duplicates() ==> sift(m, gs, s).no_duplicates(),
    decreases s.len(),
{
    broadcast use vstd::seq_lib::lemma_seq_contains_after_push;

    if s.len() > 0 {
        lemma_sift(m, gs, s.drop_last());
        let rest = sift(m, gs, s.drop_last());
        assert(s =~= s.drop_last().push(s.last()));
        assert forall|x: u128| #[trigger] sift(m, gs, s).contains(x) <==> s.contains(x)
            && in_later_groups(m, gs, x) by {
            assert(s.contains(x) <==> s.drop_last().contains(x) || s.last() == x);
        }
        if s.no_duplicates() {
            assert(s.drop_last().no_duplicates());
            assert(!s.drop_last().contains(s.last())) by {
                if s.drop_last().contains(s.last()) {
                    let k = choose|k: int| 0 <= k < s.drop_last().len() && s.drop_last()[k] == s.last();
                    assert(s[k] == s[s.len() - 1]);
                }
            }
            if in_later_groups(m, gs, s.last()) {
                lemma_push_distinct(rest, s.last());
            }
        }
    }
}

/// The candidates of a constraint are those under some tag of every group,
/// each once.
pub proof fn lemma_pool(m: TagMap, gs: Seq<Seq<Seq<char>>>)
    ensures
        forall|id: u128| #[trigger] pool(m, gs).contains(id) <==> in_every_group(m, gs, id),
        pool(m, gs).no_duplicates(),
{
    if gs.len() > 0 {
        lemma_group_union(m, gs[0]);
        lemma_sift(m, gs, group_union(m, gs[0]));
        assert forall|id: u128| #[trigger] pool(m, gs).contains(id) <==> in_every_group(m, gs, id) by {
            if pool(m, gs).contains(id) {
                assert forall|i: int| 0 <= i < gs.len() implies #[trigger] under_group(m, gs[i], id) by {
                    lemma_group_union(m, gs[i]);
                    if i > 0 {
                        assert(group_union(m, gs[i]).contains(id));
                    }
                }
            }
            if in_every_group(m, gs, id) {
                assert forall|i: int| 1 <= i < gs.len() implies #[trigger] group_union(m, gs[i]).contains(id) by {
                    lemma_group_union(m, gs[i]);
                    assert(under_group(m, gs[i], id));
                }
                assert(under_group(m, gs[0], id));
            }
        }
    }
}

/// Whether `id` is an element of `v`.
pub fn contains_id(v: &Vec<u128>, id: u128) -> (r: bool)
    ensures
        r == v@.contains(id),
{
    let mut i: usize = 0;
    while i < v.len()
        invariant
            i <= v.len(),
            forall|j: int| 0 <= j < i ==> v@[j] != id,
        decreases v.len() - i,
    {
        if v[i] == id {
            return true;
        }
        i = i + 1;
    }
    false
}

/// Appends the elements of `s` that are not yet in `acc`.
fn gather_into(acc: &mut Vec<u128>, s: &Vec<u128>)
    ensures
        final(acc)@ == gather(old(acc)@, s@),
{
    let mut k: usize = 0;
    while k < s.len()
        invariant
            k <= s.len(),
            acc@ == gather(old(acc)@, s@.subrange(0, k as int)),
        decreases s.len() - k,
    {
        assert(s@.subrange(0, k + 1).drop_last() =~= s@.subrange(0, k as int));
        if !contains_id(acc, s[k]) {
            acc.push(s[k]);
        }
        k = k + 1;
    }
    assert(s@.subrange(0, k as int) =~= s@);
}

/// The identifiers under any tag of `g`, each once, in order of first appearance.
pub fn union_in(index: &TagIndex, g: &Vec<String>) -> (r: Vec<u128>)
    requires
        index.wf(),
    ensures
        r@ == group_union(index@, views(g@)),
{
    let mut acc: Vec<u128> = Vec::new();
    let mut j: usize = 0;
    while j < g.len()
        invariant
            index.wf(),
            j <= g.len(),
            acc@ == group_union(index@, views(g@).subrange(0, j as int)),
        decreases g.len() - j,
    {
        let ghost tags = views(g@).subrange(0, j + 1);
        assert(tags.drop_last() =~= views(g@).subrange(0, j as int));
        assert(tags.last() == g@[j as int]@);
        match index.get(&g[j]) {
            Some(ids) => {
                gather_into(&mut acc, ids);
            },
            None => {
                assert(gather(acc@, Seq::<u128>::empty()) == acc@);
            },
        }
        j = j + 1;
    }
    assert(views(g@).subrange(0, j as int) =~= views(g@));
    acc
}

/// The candidates of the constraint `gs` in `index`, in a fixed order.
pub fn resolve_in(index: &TagIndex, gs: &Vec<Vec<String>>) -> (r: Vec<u128>)
    requires
        index.wf(),
    ensures
        r@ == pool(index@, crate::template::group_views(gs@)),
{
    let ghost groups = crate::template::group_views(gs@);
    if gs.len() == 0 {
        return Vec::new();
    }
    let first = union_in(index, &gs[0]);
    let mut others: Vec<Vec<u128>> = Vec::new();
    let mut i: usize = 1;
    while i < gs.len()
        invariant
            index.wf(),
            groups == crate::template::group_views(gs@),
            1 <= i <= gs.len(),
            others@.len() == i - 1,
            forall|k: int| 0 <= k < others@.len() ==> #[trigger] others@[k]@ == group_union(index@, groups[k + 1]),
        decreases gs.len() - i,
    {
        others.push(union_in(index, &gs[i]));
        i = i + 1;
    }
    let mut out: Vec<u128> = Vec::new();
    let mut k: usize = 0;
    while k < first.len()
        invariant
            groups == crate::template::group_views(gs@),
            gs@.len() > 0,
            first@ == group_union(index@, groups[0]),
            others@.len() == gs@.len() - 1,
            forall|n: int| 0 <= n < others@.len() ==> #[trigger] others@[n]@ == group_union(index@, groups[n + 1]),
            k <= first.len(),
            out@ == sift(index@, groups, first@.subrange(0, k as int)),
        decreases first.len() - k,
    {
        let id = first[k];
        let mut keep = true;
        let mut n: usize = 0;
        while n < others.len()
            invariant
                others@.len() == gs@.len() - 1,
                forall|q: int| 0 <= q < others@.len() ==> #[trigger] others@[q]@ == group_union(index@, groups[q + 1]),
                n <= others.len(),
                keep == forall|q: int| 1 <= q < n + 1 ==> #[trigger] group_union(index@, groups[q]).contains(id),
            decreases others.len() - n,
        {
            if !contains_id(&others[n], id) {
                keep = false;
            }
            assert(others@[n as int]@ == group_union(index@, groups[n + 1]));
            n = n + 1;
        }
        assert(first@.subrange(0, k + 1).drop_last() =~= first@.subrange(0, k as int));
        assert(keep == in_later_groups(index@, groups, id));
        if keep {
            out.push(id);
        }
        k = k + 1;
    }
    assert(first@.subrange(0, k as int) =~= first@);
    out
}

} // verus!
