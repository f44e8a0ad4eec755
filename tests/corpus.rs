use wordgen::dictionary::build_dictionary;
use wordgen::tags::parse_tag_children;
use wordgen::template::parse_template;
use wordgen::word::{parse_word, WordType};

fn lines(v: &[&str]) -> Vec<String> {
    v.iter().map(|s| s.to_string()).collect()
}

#[test]
fn test_tag_parser() {
    assert!(parse_tag_children("NOUN(Steel), TAG(Metal), TAG(Ferrous)")
        .len()
        .eq(&0));
    let subject_with_parent =
        parse_tag_children("TAG(Wood), HAS_PARENT(Plant), HAS_PARENT(Material)");
    assert!(subject_with_parent.len().eq(&2));
    assert!(subject_with_parent.get("Material").unwrap().len().eq(&1));
}

#[test]
fn test_build_dictionary() {
    let dict = build_dictionary(lines(&[
        "TEMPLATE(NOUN[[Metal]] Bull Pub), TAG(Restaurant)",
        "NOUN(Steel), TAG(Metal), TAG(Ferrous), TAG(Alloy)",
        "NOUN(Oak), TAG(Tree)",
        "NOUN(Pear), TAG(Tree), TAG(Fruit)",
        "TAG(Metal), HAS_PARENT(Material)",
        "TAG(Tree), HAS_PARENT(Wood), HAS_PARENT(Plant)",
        "TAG(Wood), HAS_PARENT(Material)",
        "TAG(Fruit), HAS_PARENT(Food)",
        "TAG(Restaurant), HAS_PARENT(Institution)",
    ]));
    assert!(dict.words().len().eq(&3));
    assert!(dict.index().tag_words.len().eq(&9));
    assert!(dict.templates().len().eq(&1));
}

#[test]
fn test_random_word() {
    let dict = build_dictionary(lines(&[
        "NOUN(Steel), TAG(Metal), TAG(Ferrous), TAG(Alloy)",
        "NOUN(Oak), TAG(Tree)",
        "NOUN(Pear), TAG(Tree), TAG(Fruit)",
        "TAG(Metal), HAS_PARENT(Material)",
        "TAG(Tree), HAS_PARENT(Wood), HAS_PARENT(Plant)",
        "TAG(Wood), HAS_PARENT(Material)",
        "TAG(Fruit), HAS_PARENT(Food)",
    ]));
    assert!(dict
        .get_random_word((
            WordType::Noun,
            vec![vec!["Wood".to_string()], vec!["Fruit".to_string()]]
        ))
        .unwrap()
        .base
        .eq(&"Pear"));
}

#[test]
fn test_random_template() {
    let dict = build_dictionary(lines(&[
        "TEMPLATE(NOUN[[Metal]] Bull Pub), TAG(Restaurant)",
        "NOUN(Steel), TAG(Metal), TAG(Ferrous), TAG(Alloy)",
        "NOUN(Oak), TAG(Tree)",
        "NOUN(Pear), TAG(Tree), TAG(Fruit)",
        "TAG(Metal), HAS_PARENT(Material)",
        "TAG(Tree), HAS_PARENT(Wood), HAS_PARENT(Plant)",
        "TAG(Wood), HAS_PARENT(Material)",
        "TAG(Fruit), HAS_PARENT(Food)",
        "TAG(Restaurant), HAS_PARENT(Institution)",
    ]));
    let t = dict
        .get_random_template(vec![vec!["Restaurant".to_string()]])
        .unwrap();
    // One slot and one element per literal word: `NOUN[[Metal]]`, `Bull`, `Pub`.
    assert!(t.template.len().eq(&3));
    assert!(dict.render_template(&t.id).unwrap().eq("Steel Bull Pub"));
}

#[test]
fn test_parse_template() {
    let test_string = "TEMPLATE(ADJECTIVE[[Metal, Wood]] NOUN[[Mammal]] Tavern), TAG(Institution), TAG(Restaurant)";

    let template = parse_template(test_string).unwrap();

    assert!(template.template.len().eq(&3));
    assert!(template.tags.len().eq(&2));
}

#[test]
fn test_template_render() {
    let dict = build_dictionary(lines(&[
        "TEMPLATE(ADJECTIVE[[Colour, Metal]] NOUN[[Metal, Colour]] Bull's Pub), TAG(Restaurant)",
        "ADJECTIVE(Blue), TAG(Colour)",
        "NOUN(Steel), TAG(Metal), TAG(Ferrous), TAG(Alloy)",
        "NOUN(Oak), TAG(Tree)",
        "NOUN(Pear), TAG(Tree), TAG(Fruit)",
        "TAG(Metal), HAS_PARENT(Material)",
        "TAG(Tree), HAS_PARENT(Wood), HAS_PARENT(Plant)",
        "TAG(Wood), HAS_PARENT(Material)",
        "TAG(Fruit), HAS_PARENT(Food)",
        "TAG(Restaurant), HAS_PARENT(Institution)",
    ]));
    let template = &dict.templates().first().unwrap().id;
    assert!(dict
        .render_template(template)
        .unwrap()
        .eq("Blue Steel Bull's Pub"));
}

#[test]
fn test_template_correctness() {
    let dict = build_dictionary(lines(&["TEMPLATE(ADJECTIVE[[Large, Medium][Mammal, Bird]])"]));
    let template = dict.templates().first().unwrap();
    let element = template.template.first().unwrap().clone();
    let element_template = element.template.unwrap();
    assert!(element_template.0.eq(&WordType::Adjective));
    assert!(element_template.1.eq(&vec![
        vec!["Large".to_string(), "Medium".to_string()],
        vec!["Mammal".to_string(), "Bird".to_string()]
    ]));
}

#[test]
fn parse_word_test() {
    let steel_words = parse_word("NOUN(steel), ADJECTIVE(steely), TAG(metal), TAG(ferrous)");
    let steel_noun = steel_words.get(0).unwrap();
    let steel_adj = steel_words.get(1).unwrap();
    assert!(steel_noun.word_type.eq(&WordType::Noun));
    assert!(steel_noun.related.len().eq(&1));
    assert!(steel_noun.tags.len().eq(&2));
    assert!(steel_adj.word_type.eq(&WordType::Adjective));
    assert!(steel_adj.related.len().eq(&1));
    assert!(steel_adj.tags.len().eq(&2));
}
