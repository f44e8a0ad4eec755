//! Character-level scanning of definition lines: identifiers and markers of
//! the form `KEYWORD(identifier)`.
use vstd::prelude::*;

verus! {

/// The characters an identifier is made of: ASCII letters, digits and `'`.
pub open spec fn is_ident_char(c: char) -> bool {
    ('a' <= c && c <= 'z') || ('A' <= c && c <= 'Z') || ('0' <= c && c <= '9') || c == '\''
}

/// The end of the run of identifier characters that starts at `i`.
pub open spec fn ident_end(s: Seq<char>, i: int) -> int
    decreases s.len() - i,
{
    if 0 <= i < s.len() && is_ident_char(s[i]) {
        ident_end(s, i + 1)
    } else {
        i
    }
}

/// The identifier of a marker `kw(identifier)` that starts at `i`, if one does.
pub open spec fn marker_at(s: Seq<char>, kw: Seq<char>, i: int) -> Option<Seq<char>> {
    let a = i + kw.len() + 1;
    if 0 <= i && a <= s.len() && s.subrange(i, i + kw.len()) == kw && s[i + kw.len()] == '(' {
        let b = ident_end(s, a);
        if a < b && b < s.len() && s[b] == ')' {
            Some(s.subrange(a, b))
        } else {
            None
        }
    } else {
        None
    }
}

/// The identifiers of all `kw(...)` markers at or after position `i`, in order.
pub open spec fn markers_from(s: Seq<char>, kw: Seq<char>, i: int) -> Seq<Seq<char>>
    decreases s.len() - i,
{
    if 0 <= i < s.len() {
        let rest = markers_from(s, kw, i + 1);
        match marker_at(s, kw, i) {
            Some(v) => seq![v] + rest,
            None => rest,
        }
    } else {
        Seq::empty()
    }
}

/// The identifiers of all `kw(...)` markers of a line, in order.
pub open spec fn markers(s: Seq<char>, kw: Seq<char>) -> Seq<Seq<char>> {
    markers_from(s, kw, 0)
}

/// The identifier of the first `kw(...)` marker of a line.
pub open spec fn first_marker(s: Seq<char>, kw: Seq<char>) -> Option<Seq<char>> {
    let m = markers(s, kw);
    if m.len() > 0 {
        Some(m[0])
    } else {
        None
    }
}

/// The text of each string of a sequence.
pub open spec fn views(v: Seq<String>) -> Seq<Seq<char>> {
    v.map_values(|x: String| x@)
}

/// The text of each string of a sequence, as a set.
pub open spec fn text_set(v: Seq<String>) -> Set<Seq<char>> {
    views(v).to_set()
}

/// A sequence of strings in which no text occurs twice.
pub open spec fn distinct_texts(v: Seq<String>) -> bool {
    views(v).no_duplicates()
}

/// The characters of `line`, one per element.
pub fn chars_of(line: &str) -> (r: Vec<char>)
    ensures
        r@ == line@,
{
    let n = line.unicode_len();
    let mut r: Vec<char> = Vec::new();
    let mut i: usize = 0;
    while i < n
        invariant
            n == line@.len(),
            i <= n,
            r@ == line@.subrange(0, i as int),
        decreases n - i,
    {
        let c = line.get_char(i);
        r.push(c);
        i = i + 1;
        assert(r@ =~= line@.subrange(0, i as int));
    }
    assert(r@ =~= line@);
    r
}

/// Whether `c` may stand in an identifier.
pub fn ident_char(c: char) -> (r: bool)
    ensures
        r == is_ident_char(c),
{
    ('a' <= c && c <= 'z') || ('A' <= c && c <= 'Z') || ('0' <= c && c <= '9') || c == '\''
}

/// The end of the identifier that starts at `i`.
pub fn scan_ident(s: &Vec<char>, i: usize) -> (r: usize)
    requires
        i <= s.len(),
    ensures
        r as int == ident_end(s@, i as int),
        i <= r <= s.len(),
{
    let mut j: usize = i;
    while j < s.len() && ident_char(s[j])
        invariant
            i <= j <= s.len(),
            ident_end(s@, j as int) == ident_end(s@, i as int),
        decreases s.len() - j,
    {
        j = j + 1;
    }
    j
}

/// Whether the characters of `kw` stand in `s` from position `i` on.
pub fn text_at(s: &Vec<char>, i: usize, kw: &str) -> (r: bool)
    ensures
        r == (i + kw@.len() <= s.len() && s@.subrange(i as int, i + kw@.len()) == kw@),
{
    let k = kw.unicode_len();
    if k > s.len() || i > s.len() - k {
        return false;
    }
    let mut j: usize = 0;
    while j < k
        invariant
            k == kw@.len(),
            i + k <= s.len(),
            j <= k,
            s@.subrange(i as int, i + j) == kw@.subrange(0, j as int),
        decreases k - j,
    {
        if s[i + j] != kw.get_char(j) {
            assert(s@.subrange(i as int, i + k)[j as int] != kw@[j as int]);
            return false;
        }
        j = j + 1;
        assert(s@.subrange(i as int, i + j) =~= kw@.subrange(0, j as int));
    }
    assert(kw@.subrange(0, k as int) =~= kw@);
    true
}

/// The identifier of a `kw(...)` marker at `i`, as positions of `s`.
pub fn marker_span(s: &Vec<char>, kw: &str, i: usize) -> (r: Option<(usize, usize)>)
    requires
        i <= s.len(),
    ensures
        match r {
            Some((a, b)) => a < b < s.len() && marker_at(s@, kw@, i as int) == Some(
                s@.subrange(a as int, b as int),
            ),
            None => marker_at(s@, kw@, i as int) is None,
        },
{
    if !text_at(s, i, kw) {
        return None;
    }
    let k = kw.unicode_len();
    if i + k >= s.len() || s[i + k] != '(' {
        return None;
    }
    let a = i + k + 1;
    let b = scan_ident(s, a);
    if a < b && b < s.len() && s[b] == ')' {
        Some((a, b))
    } else {
        None
    }
}

/// The identifiers of all `kw(...)` markers of `line`, in order.
pub fn find_markers(line: &str, s: &Vec<char>, kw: &str) -> (r: Vec<String>)
    requires
        s@ == line@,
    ensures
        views(r@) == markers(line@, kw@),
{
    let mut r: Vec<String> = Vec::new();
    let mut i: usize = 0;
    while i < s.len()
        invariant
            s@ == line@,
            i <= s.len(),
            views(r@) + markers_from(s@, kw@, i as int) == markers(s@, kw@),
        decreases s.len() - i,
    {
        let ghost before = views(r@);
        match marker_span(s, kw, i) {
            Some((a, b)) => {
                let v = String::from_str(line.substring_char(a, b));
                r.push(v);
                assert(views(r@) =~= before + seq![v@]);
                assert(before + seq![v@] + markers_from(s@, kw@, i + 1) =~= before + (seq![v@]
                    + markers_from(s@, kw@, i + 1)));
            },
            None => {
                assert(views(r@) =~= before);
            },
        }
        i = i + 1;
    }
    assert(views(r@) + markers_from(s@, kw@, i as int) =~= views(r@));
    r
}

/// Whether some string of `v` holds the text of `t`.
pub fn contains_text(v: &Vec<String>, t: &String) -> (r: bool)
    ensures
        r == views(v@).contains(t@),
{
    let mut i: usize = 0;
    while i < v.len()
        invariant
            i <= v.len(),
            forall|j: int| 0 <= j < i ==> v@[j]@ != t@,
        decreases v.len() - i,
    {
        if v[i] == *t {
            assert(views(v@)[i as int] == t@);
            return true;
        }
        i = i + 1;
    }
    assert(!views(v@).contains(t@)) by {
        if views(v@).contains(t@) {
            let j = choose|j: int| 0 <= j < views(v@).len() && views(v@)[j] == t@;
            assert(v@[j]@ == t@);
        }
    }
    false
}

/// Appends `t` unless its text is already there.
pub fn push_distinct(v: &mut Vec<String>, t: String)
    requires
        distinct_texts(old(v)@),
    ensures
        distinct_texts(final(v)@),
        text_set(final(v)@) == text_set(old(v)@).insert(t@),
        views(old(v)@).contains(t@) ==> final(v)@ == old(v)@,
{
    if !contains_text(v, &t) {
        let ghost before = views(v@);
        v.push(t);
        assert(views(v@) =~= before.push(t@));
        assert(text_set(v@) =~= text_set(old(v)@).insert(t@)) by {
            before.lemma_push_to_set_commute(t@);
        }
    } else {
        assert(text_set(v@) =~= text_set(old(v)@).insert(t@));
    }
}

/// The distinct texts of `v`, in order of first appearance.
pub fn distinct_of(v: &Vec<String>) -> (r: Vec<String>)
    ensures
        distinct_texts(r@),
        text_set(r@) == text_set(v@),
{
    let mut r: Vec<String> = Vec::new();
    let mut i: usize = 0;
    while i < v.len()
        invariant
            i <= v.len(),
            distinct_texts(r@),
            text_set(r@) == views(v@).subrange(0, i as int).to_set(),
        decreases v.len() - i,
    {
        push_distinct(&mut r, v[i].clone());
        i = i + 1;
        assert(views(v@).subrange(0, i as int) =~= views(v@).subrange(0, i - 1).push(v@[i - 1]@));
        proof {
            views(v@).subrange(0, i - 1).lemma_push_to_set_commute(v@[i - 1]@);
        }
    }
    assert(views(v@).subrange(0, i as int) =~= views(v@));
    r
}

} // verus!
