use std::collections::HashSet;

use wordgen::dictionary::{build_dictionary, parse_line, Dictionary};
use wordgen::people::{build_description, build_name, Gender};
use wordgen::tags::parse_tag_children;
use wordgen::template::parse_template;
use wordgen::word::{parse_word, WordRelationType, WordType};

fn lines(v: &[&str]) -> Vec<String> {
    v.iter().map(|s| s.to_string()).collect()
}

fn groups(v: &[&[&str]]) -> Vec<Vec<String>> {
    v.iter()
        .map(|g| g.iter().map(|s| s.to_string()).collect())
        .collect()
}

fn tag_set(tags: &[String]) -> HashSet<String> {
    tags.iter().cloned().collect()
}

fn orchard() -> Dictionary {
    build_dictionary(lines(&[
        "NOUN(Oak) TAG(Tree)",
        "NOUN(Pear) TAG(Tree) TAG(Fruit)",
        "TAG(Tree) HAS_PARENT(Wood) HAS_PARENT(Plant)",
        "TAG(Wood) HAS_PARENT(Material)",
        "TAG(Fruit) HAS_PARENT(Food)",
    ]))
}

fn base_of(dict: &Dictionary, id: u128) -> String {
    dict.words().iter().find(|w| w.id == id).unwrap().base.clone()
}

#[test]
fn parsing_a_line_twice_gives_equal_words() {
    let line = "NOUN(Steel), ADJECTIVE(Ferrous), TAG(Metal), TAG(Alloy), TAG(Metal)";
    let a = parse_word(line);
    let b = parse_word(line);
    assert_eq!(a.len(), 2);
    assert_eq!(b.len(), 2);
    for (x, y) in a.iter().zip(b.iter()) {
        assert_eq!(x.base, y.base);
        assert_eq!(x.word_type, y.word_type);
        assert_eq!(tag_set(&x.tags), tag_set(&y.tags));
        assert_eq!(x.tags.len(), 2);
        assert_ne!(x.id, y.id);
    }
    assert_eq!(a[0].base, "Steel");
    assert_eq!(a[1].base, "Ferrous");
    assert_eq!(a[0].related, vec![(WordRelationType::Adjective, a[1].id)]);
    assert_eq!(a[1].related, vec![(WordRelationType::BaseNoun, a[0].id)]);
}

#[test]
fn parsing_a_template_twice_gives_equal_templates() {
    let line = "TEMPLATE(ADJECTIVE[[Colour]] NOUN[[Metal]] Bull's Pub), TAG(Restaurant)";
    let a = parse_template(line).unwrap();
    let b = parse_template(line).unwrap();
    assert_eq!(a.template.len(), 4);
    assert_eq!(a.template, b.template);
    assert_eq!(a.tags, b.tags);
    assert_ne!(a.id, b.id);
    assert_eq!(a.template[2].text, Some("Bull's".to_string()));
    assert_eq!(a.template[3].text, Some("Pub".to_string()));
}

#[test]
fn a_line_without_markers_declares_nothing() {
    let p = parse_line("just some words, nothing declared");
    assert!(p.words.is_empty());
    assert_eq!(p.tag_children.len(), 0);
    assert!(p.pattern.is_none());
    let empty = parse_line("");
    assert!(empty.words.is_empty());
    assert!(empty.pattern.is_none());
}

#[test]
fn a_malformed_template_declares_nothing() {
    assert!(parse_template("TEMPLATE(NOUN[[Metal] Pub)").is_none());
    assert!(parse_template("TEMPLATE(NOUN[] Pub)").is_none());
    assert!(parse_template("TEMPLATE(Bull Pub").is_none());
    assert!(parse_template("NOUN(Steel)").is_none());
}

#[test]
fn every_tag_is_a_child_of_every_parent_on_its_line() {
    let g = parse_tag_children("TAG(Oak), TAG(Ash), HAS_PARENT(Tree), HAS_PARENT(Wood)");
    assert_eq!(g.len(), 2);
    assert_eq!(tag_set(&g.get("Tree").unwrap()), tag_set(&["Oak".to_string(), "Ash".to_string()]));
    assert_eq!(tag_set(&g.get("Wood").unwrap()), tag_set(&["Oak".to_string(), "Ash".to_string()]));
    assert!(g.get("Oak").is_none());
    assert_eq!(parse_tag_children("HAS_PARENT(Tree)").len(), 0);
}

#[test]
fn chains_up_to_five_links_close_fully() {
    let dict = build_dictionary(lines(&[
        "NOUN(Leaf), TAG(L0)",
        "TAG(L0), HAS_PARENT(L1)",
        "TAG(L1), HAS_PARENT(L2)",
        "TAG(L2), HAS_PARENT(L3)",
        "TAG(L3), HAS_PARENT(L4)",
        "TAG(L4), HAS_PARENT(L5)",
        "TAG(L5), HAS_PARENT(L6)",
    ]));
    let leaf = &dict.words()[0];
    let tags = tag_set(&leaf.tags);
    for level in 0..=5 {
        assert!(tags.contains(&format!("L{}", level)), "level {}", level);
    }
    assert!(!tags.contains("L6"));
    assert_eq!(tags.len(), 6);
    let found = dict.get_random_word((WordType::Noun, groups(&[&["L5"]])));
    assert_eq!(found.unwrap().base, "Leaf");
    assert!(dict.get_random_word((WordType::Noun, groups(&[&["L6"]]))).is_none());
}

#[test]
fn closure_reaches_shorter_paths_to_deep_tags() {
    let dict = build_dictionary(lines(&[
        "NOUN(Leaf), TAG(L0), TAG(L5)",
        "TAG(L0), HAS_PARENT(L1)",
        "TAG(L1), HAS_PARENT(L2)",
        "TAG(L2), HAS_PARENT(L3)",
        "TAG(L3), HAS_PARENT(L4)",
        "TAG(L4), HAS_PARENT(L5)",
        "TAG(L5), HAS_PARENT(L6)",
    ]));
    assert!(tag_set(&dict.words()[0].tags).contains("L6"));
}

#[test]
fn resolution_is_an_intersection() {
    let dict = build_dictionary(lines(&[
        "NOUN(Oak) TAG(Tree)",
        "NOUN(Pear) TAG(Tree) TAG(Fruit)",
        "NOUN(Apple) TAG(Fruit) TAG(Red)",
        "NOUN(Brick) TAG(Red)",
        "ADJECTIVE(Ruby) TAG(Red) TAG(Fruit)",
    ]));
    let g1: &[&str] = &["Tree", "Red"];
    let g2: &[&str] = &["Fruit"];
    let both: HashSet<u128> = dict
        .resolve_words(WordType::Noun, &groups(&[g1, g2]))
        .into_iter()
        .collect();
    let swapped: HashSet<u128> = dict
        .resolve_words(WordType::Noun, &groups(&[g2, g1]))
        .into_iter()
        .collect();
    let first: HashSet<u128> = dict
        .resolve_words(WordType::Noun, &groups(&[g1]))
        .into_iter()
        .collect();
    let second: HashSet<u128> = dict
        .resolve_words(WordType::Noun, &groups(&[g2]))
        .into_iter()
        .collect();
    let common: HashSet<u128> = first.intersection(&second).cloned().collect();
    assert_eq!(both, common);
    assert_eq!(both, swapped);
    let names: HashSet<String> = both.iter().map(|id| base_of(&dict, *id)).collect();
    assert_eq!(
        names,
        ["Pear".to_string(), "Apple".to_string()].into_iter().collect()
    );
    assert_eq!(first.len(), 4);
}

#[test]
fn duplicate_tags_in_a_group_are_harmless() {
    let dict = orchard();
    let once = dict.resolve_words(WordType::Noun, &groups(&[&["Tree"]]));
    let twice = dict.resolve_words(WordType::Noun, &groups(&[&["Tree", "Tree"]]));
    assert_eq!(once, twice);
    assert_eq!(once.len(), 2);
}

#[test]
fn no_groups_give_no_candidates() {
    let dict = orchard();
    assert!(dict.resolve_words(WordType::Noun, &Vec::new()).is_empty());
    assert!(dict.get_random_word((WordType::Noun, Vec::new())).is_none());
    assert!(dict.get_random_template(Vec::new()).is_none());
}

#[test]
fn exclusion_drops_words_with_excluded_tags() {
    let dict = orchard();
    for _ in 0..50 {
        let w = dict
            .get_random_word_without((WordType::Noun, groups(&[&["Tree"]])), vec!["Food".to_string()])
            .unwrap();
        assert_eq!(w.base, "Oak");
        assert!(!w.tags.contains(&"Food".to_string()));
    }
    assert!(dict
        .get_random_word_without((WordType::Noun, groups(&[&["Tree"]])), vec!["Plant".to_string()])
        .is_none());
    let any = dict
        .get_random_word_without((WordType::Noun, groups(&[&["Tree"]])), Vec::new())
        .unwrap();
    assert!(any.base == "Oak" || any.base == "Pear");
}

#[test]
fn same_draws_render_the_same_text() {
    let dict = build_dictionary(lines(&[
        "TEMPLATE(The NOUN[[Tree]] Inn), TAG(Pub)",
        "NOUN(Oak) TAG(Tree)",
        "NOUN(Ash) TAG(Tree)",
        "NOUN(Elm) TAG(Tree)",
    ]));
    let id = dict.templates()[0].id;
    for pick in 0..6usize {
        let picks = vec![0, pick, 0];
        let a = dict.render_template_with(&id, &picks).unwrap();
        let b = dict.render_template_with(&id, &picks).unwrap();
        assert_eq!(a, b);
    }
    let names: HashSet<String> = (0..3usize)
        .map(|pick| dict.render_template_with(&id, &vec![0, pick, 0]).unwrap())
        .collect();
    assert_eq!(
        names,
        ["The Oak Inn", "The Ash Inn", "The Elm Inn"]
            .iter()
            .map(|s| s.to_string())
            .collect()
    );
    assert_eq!(
        dict.render_template_with(&id, &vec![0, 4, 0]),
        dict.render_template_with(&id, &vec![0, 1, 0])
    );
    assert_eq!(
        dict.render_template_with(&id, &Vec::new()),
        dict.render_template_with(&id, &vec![0, 0, 0])
    );
}

#[test]
fn wood_and_fruit_give_pear() {
    let dict = orchard();
    for _ in 0..50 {
        let w = dict
            .get_random_word((WordType::Noun, groups(&[&["Wood"], &["Fruit"]])))
            .unwrap();
        assert_eq!(w.base, "Pear");
    }
}

#[test]
fn single_candidates_render_the_same_every_time() {
    let dict = build_dictionary(lines(&[
        "TEMPLATE(ADJECTIVE[[Colour]] NOUN[[Metal]] Bull's Pub)",
        "ADJECTIVE(Blue) TAG(Colour)",
        "NOUN(Steel) TAG(Metal)",
    ]));
    let id = dict.templates()[0].id;
    for _ in 0..50 {
        assert_eq!(dict.render_template(&id).unwrap(), "Blue Steel Bull's Pub");
    }
}

#[test]
fn an_absent_tag_gives_no_result() {
    let dict = orchard();
    assert!(dict.get_random_word((WordType::Noun, groups(&[&["Metal"]]))).is_none());
    assert!(dict
        .get_random_word((WordType::Noun, groups(&[&["Tree"], &["Metal"]])))
        .is_none());
    assert!(dict.get_random_word((WordType::Adjective, groups(&[&["Tree"]]))).is_none());
    assert!(dict.get_random_template(groups(&[&["Metal"]])).is_none());
}

#[test]
fn an_empty_slot_pool_renders_nothing() {
    let dict = build_dictionary(lines(&["TEMPLATE(NOUN[[Metal]] Pub)", "NOUN(Oak) TAG(Tree)"]));
    let id = dict.templates()[0].id;
    assert!(dict.render_template(&id).is_none());
    assert!(dict.render_template(&(id ^ 1)).is_none());
}

#[test]
fn draws_cover_every_candidate() {
    let dict = orchard();
    let mut seen = HashSet::new();
    for _ in 0..200 {
        let w = dict
            .get_random_word((WordType::Noun, groups(&[&["Plant"]])))
            .unwrap();
        seen.insert(w.base.clone());
    }
    assert_eq!(seen.len(), 2);
}

#[test]
fn templates_are_chosen_by_closed_tags() {
    let dict = build_dictionary(lines(&[
        "TEMPLATE(Bull Pub), TAG(Restaurant)",
        "TEMPLATE(Town Hall), TAG(Council)",
        "TAG(Restaurant), HAS_PARENT(Institution)",
    ]));
    for _ in 0..20 {
        let t = dict
            .get_random_template(groups(&[&["Institution"]]))
            .unwrap();
        assert_eq!(dict.render_template(&t.id).unwrap(), "Bull Pub");
    }
    let words = dict.get_random_template(groups(&[&["Council", "Restaurant"]]));
    assert!(words.is_some());
}

#[test]
fn whitespace_between_literals_is_one_space() {
    let dict = build_dictionary(lines(&["TEMPLATE(Bull    Pub\tand   Grill)"]));
    let id = dict.templates()[0].id;
    assert_eq!(dict.render_template(&id).unwrap(), "Bull Pub and Grill");
}

#[test]
fn nouns_and_adjectives_index_apart() {
    let dict = build_dictionary(lines(&["NOUN(Steel), ADJECTIVE(Steely), TAG(Metal)"]));
    assert_eq!(dict.words().len(), 2);
    assert_eq!(dict.index().tag_words.len(), 2);
    let n = dict.get_random_word((WordType::Noun, groups(&[&["Metal"]]))).unwrap();
    let a = dict.get_random_word((WordType::Adjective, groups(&[&["Metal"]]))).unwrap();
    assert_eq!(n.base, "Steel");
    assert_eq!(a.base, "Steely");
    assert_eq!(a.related, vec![(WordRelationType::BaseNoun, n.id)]);
}

#[test]
fn names_join_a_first_and_a_last_name() {
    let dict = build_dictionary(lines(&[
        "NOUN(Ann) TAG(FirstName) TAG(Female)",
        "NOUN(Bob) TAG(FirstName) TAG(Male)",
        "NOUN(Sam) TAG(FirstName) TAG(AmbiguousGender)",
        "NOUN(Smith) TAG(LastName)",
    ]));
    assert_eq!(build_name(&dict, Some(Gender::Female)).unwrap(), "Ann Smith");
    assert_eq!(build_name(&dict, Some(Gender::Male)).unwrap(), "Bob Smith");
    assert_eq!(build_name(&dict, None).unwrap(), "Sam Smith");
    assert_eq!(build_name(&dict, Some(Gender::Ambigious)).unwrap(), "Sam Smith");
    let no_last = build_dictionary(lines(&["NOUN(Ann) TAG(FirstName) TAG(Female)"]));
    assert!(build_name(&no_last, Some(Gender::Female)).is_none());
}

#[test]
fn descriptions_name_five_adjectives() {
    let dict = build_dictionary(lines(&[
        "ADJECTIVE(tall) TAG(Build) TAG(Personal)",
        "ADJECTIVE(messy) TAG(HairState) TAG(Personal)",
        "ADJECTIVE(curly) TAG(HairStyle) TAG(Personal)",
        "ADJECTIVE(red) TAG(HairColour)",
        "ADJECTIVE(green) TAG(EyeColour)",
    ]));
    assert_eq!(
        build_description(&dict).unwrap(),
        "They are tall with messy curly red hair and green eyes"
    );
    let partial = build_dictionary(lines(&["ADJECTIVE(red) TAG(HairColour)"]));
    assert!(build_description(&partial).is_none());
}

#[test]
fn counts_list_each_class_and_tag() {
    let dict = orchard();
    let mut counts: Vec<(WordType, String, usize)> = dict.index().tag_words.counts();
    counts.sort_by(|a, b| a.1.cmp(&b.1));
    let expected: Vec<(WordType, String, usize)> = vec![
        (WordType::Noun, "Food".to_string(), 1),
        (WordType::Noun, "Fruit".to_string(), 1),
        (WordType::Noun, "Material".to_string(), 2),
        (WordType::Noun, "Plant".to_string(), 2),
        (WordType::Noun, "Tree".to_string(), 2),
        (WordType::Noun, "Wood".to_string(), 2),
    ];
    assert_eq!(counts, expected);
    assert_eq!(dict.index().tag_templates.len(), 0);
}
