//! Names and descriptions of people, drawn from a dictionary with a fixed
//! set of queries.
use vstd::prelude::*;

use crate::dictionary::{word_fits, Dictionary};
use crate::template::group_views;
use crate::word::{Word, WordType};

verus! {

/// A gender to draw a first name for.
#[derive(PartialEq, Eq, Structural, Clone, Copy, Debug, Hash)]
pub enum Gender {
    Male,
    Female,
    Ambigious,
}

/// The tag that first names of a gender carry; without one, the tag of
/// names for any gender.
pub open spec fn gender_tag(gender: Option<Gender>) -> Seq<char> {
    match gender {
        Some(Gender::Male) => "Male"@,
        Some(Gender::Female) => "Female"@,
        _ => "AmbiguousGender"@,
    }
}

/// The text of each string of a sequence.
pub open spec fn texts_of(tags: Seq<&str>) -> Seq<Seq<char>> {
    tags.map_values(|t: &str| t@)
}

/// One group per tag, each with that tag alone.
pub open spec fn each_alone(tags: Seq<Seq<char>>) -> Seq<Seq<Seq<char>>> {
    tags.map_values(|t: Seq<char>| seq![t])
}

/// Some word of the dictionary is of `class` and fits `gs`.
pub open spec fn some_word_fits(d: &Dictionary, class: WordType, gs: Seq<Seq<Seq<char>>>) -> bool {
    exists|w: Word| d@.words.contains(w) && #[trigger] word_fits(w, class, gs)
}

/// A constraint of one group per tag.
fn groups_of(tags: &[&str]) -> (r: Vec<Vec<String>>)
    ensures
        group_views(r@) == each_alone(texts_of(tags@)),
{
    let mut r: Vec<Vec<String>> = Vec::new();
    let mut i: usize = 0;
    while i < tags.len()
        invariant
            i <= tags@.len(),
            group_views(r@) == each_alone(texts_of(tags@.subrange(0, i as int))),
        decreases tags@.len() - i,
    {
        let mut g: Vec<String> = Vec::new();
        g.push(String::from_str(tags[i]));
        let ghost before = group_views(r@);
        assert(crate::scan::views(g@) =~= seq![tags@[i as int]@]);
        r.push(g);
        assert(group_views(r@) =~= before.push(seq![tags@[i as int]@]));
        assert(texts_of(tags@.subrange(0, i + 1)) =~= texts_of(tags@.subrange(0, i as int)).push(tags@[i as int]@));
        i = i + 1;
        assert(group_views(r@) =~= each_alone(texts_of(tags@.subrange(0, i as int))));
    }
    assert(tags@.subrange(0, i as int) =~= tags@);
    r
}

/// A word of `class` that carries every tag of `tags`, chosen uniformly.
fn draw_word<'a>(dict: &'a Dictionary, class: WordType, tags: &[&str]) -> (r: Option<&'a Word>)
    requires
        dict.wf(),
    ensures
        r is Some <==> some_word_fits(dict, class, each_alone(texts_of(tags@))),
        r matches Some(w) ==> dict@.words.contains(*w) && word_fits(
            *w,
            class,
            each_alone(texts_of(tags@)),
        ),
{
    let groups = groups_of(tags);
    let r = dict.get_random_word((class, groups));
    proof {
        let gs = each_alone(texts_of(tags@));
        if r is None && some_word_fits(dict, class, gs) {
            let w = choose|w: Word| dict@.words.contains(w) && #[trigger] word_fits(w, class, gs);
            let n = choose|n: int| 0 <= n < dict@.words.len() && dict@.words[n] == w;
            assert(!word_fits(dict@.words[n], class, gs));
        }
    }
    r
}

/// The tags of a first name of `gender`, in the order queried.
pub open spec fn first_name_tags(gender: Option<Gender>) -> Seq<Seq<char>> {
    seq!["FirstName"@, gender_tag(gender)]
}

/// The tags of a last name.
pub open spec fn last_name_tags() -> Seq<Seq<char>> {
    seq!["LastName"@]
}

/// A first name of `gender` and a last name, drawn uniformly and joined by
/// a space; `None` when the dictionary lacks either.
pub fn build_name(dict: &Dictionary, gender: Option<Gender>) -> (r: Option<String>)
    requires
        dict.wf(),
    ensures
        r is Some <==> some_word_fits(dict, WordType::Noun, each_alone(first_name_tags(gender)))
            && some_word_fits(dict, WordType::Noun, each_alone(last_name_tags())),
        r matches Some(s) ==> exists|first: Word, last: Word|
            {
                &&& dict@.words.contains(first)
                &&& #[trigger] word_fits(first, WordType::Noun, each_alone(first_name_tags(gender)))
                &&& dict@.words.contains(last)
                &&& #[trigger] word_fits(last, WordType::Noun, each_alone(last_name_tags()))
                &&& s@ == first.base@ + " "@ + last.base@
            },
{
    let gender_term = match gender {
        Some(Gender::Male) => "Male",
        Some(Gender::Female) => "Female",
        _ => "AmbiguousGender",
    };
    let first_tags = ["FirstName", gender_term];
    let last_tags = ["LastName"];
    assert(texts_of(first_tags@) =~= first_name_tags(gender));
    assert(texts_of(last_tags@) =~= last_name_tags());
    let first = draw_word(dict, WordType::Noun, &first_tags);
    let last = draw_word(dict, WordType::Noun, &last_tags);
    match (first, last) {
        (Some(f), Some(l)) => {
            let mut s = f.base.clone();
            s.append(" ");
            s.append(l.base.as_str());
            Some(s)
        },
        _ => None,
    }
}

/// What a description says, from its five words.
pub open spec fn description_text(
    build: Seq<char>,
    state: Seq<char>,
    style: Seq<char>,
    colour: Seq<char>,
    eyes: Seq<char>,
) -> Seq<char> {
    "They are "@ + build + " with "@ + state + " "@ + style + " "@ + colour + " hair and "@ + eyes
        + " eyes"@
}

/// The tags of the adjective for a person's build.
pub open spec fn build_tags() -> Seq<Seq<char>> {
    seq!["Build"@, "Personal"@]
}

/// The tags of the adjective for the state of a person's hair.
pub open spec fn hair_state_tags() -> Seq<Seq<char>> {
    seq!["HairState"@, "Personal"@]
}

/// The tags of the adjective for the style of a person's hair.
pub open spec fn hair_style_tags() -> Seq<Seq<char>> {
    seq!["HairStyle"@, "Personal"@]
}

/// The tags of the adjective for the colour of a person's hair.
pub open spec fn hair_colour_tags() -> Seq<Seq<char>> {
    seq!["HairColour"@]
}

/// The tags of the adjective for the colour of a person's eyes.
pub open spec fn eye_colour_tags() -> Seq<Seq<char>> {
    seq!["EyeColour"@]
}

/// A description of a person: a build, the state, style and colour of
/// their hair, and the colour of their eyes, each an adjective drawn
/// uniformly; `None` when the dictionary lacks one of them.
pub fn build_description(dict: &Dictionary) -> (r: Option<String>)
    requires
        dict.wf(),
    ensures
        r is Some <==> {
            &&& some_word_fits(dict, WordType::Adjective, each_alone(build_tags()))
            &&& some_word_fits(dict, WordType::Adjective, each_alone(hair_state_tags()))
            &&& some_word_fits(dict, WordType::Adjective, each_alone(hair_style_tags()))
            &&& some_word_fits(dict, WordType::Adjective, each_alone(hair_colour_tags()))
            &&& some_word_fits(dict, WordType::Adjective, each_alone(eye_colour_tags()))
        },
        r matches Some(s) ==> exists|b: Word, st: Word, sy: Word, hc: Word, ec: Word|
            {
                &&& dict@.words.contains(b)
                &&& #[trigger] word_fits(b, WordType::Adjective, each_alone(build_tags()))
                &&& dict@.words.contains(st)
                &&& #[trigger] word_fits(st, WordType::Adjective, each_alone(hair_state_tags()))
                &&& dict@.words.contains(sy)
                &&& #[trigger] word_fits(sy, WordType::Adjective, each_alone(hair_style_tags()))
                &&& dict@.words.contains(hc)
                &&& #[trigger] word_fits(hc, WordType::Adjective, each_alone(hair_colour_tags()))
                &&& dict@.words.contains(ec)
                &&& #[trigger] word_fits(ec, WordType::Adjective, each_alone(eye_colour_tags()))
                &&& s@ == description_text(b.base@, st.base@, sy.base@, hc.base@, ec.base@)
            },
{
    let colour_tags = ["HairColour"];
    let style_tags = ["HairStyle", "Personal"];
    let state_tags = ["HairState", "Personal"];
    let eye_tags = ["EyeColour"];
    let build_tags_exec = ["Build", "Personal"];
    assert(texts_of(colour_tags@) =~= hair_colour_tags());
    assert(texts_of(style_tags@) =~= hair_style_tags());
    assert(texts_of(state_tags@) =~= hair_state_tags());
    assert(texts_of(eye_tags@) =~= eye_colour_tags());
    assert(texts_of(build_tags_exec@) =~= build_tags());
    let hair_colour = draw_word(dict, WordType::Adjective, &colour_tags);
    let hair_style = draw_word(dict, WordType::Adjective, &style_tags);
    let hair_state = draw_word(dict, WordType::Adjective, &state_tags);
    let eye_colour = draw_word(dict, WordType::Adjective, &eye_tags);
    let build = draw_word(dict, WordType::Adjective, &build_tags_exec);
    match (build, hair_state, hair_style, hair_colour, eye_colour) {
        (Some(b), Some(st), Some(sy), Some(hc), Some(ec)) => {
            let mut s = String::from_str("They are ");
            s.append(b.base.as_str());
            s.append(" with ");
            s.append(st.base.as_str());
            s.append(" ");
            s.append(sy.base.as_str());
            s.append(" ");
            s.append(hc.base.as_str());
            s.append(" hair and ");
            s.append(ec.base.as_str());
            s.append(" eyes");
            assert(s@ == description_text(b.base@, st.base@, sy.base@, hc.base@, ec.base@));
            Some(s)
        },
        _ => None,
    }
}

} // verus!
