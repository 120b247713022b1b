use ctx::pos::{pos_info, pos_matches, Pos, PosLookupResult, WordTags};

fn tags() -> WordTags {
    WordTags {
        determiner: false,
        noun: false,
        proper_noun: false,
        pronoun: false,
        verb: false,
        adjective: false,
        adverb: false,
        preposition: false,
        conjunction: false,
    }
}

#[test]
fn pos_info_noun() {
    let info = pos_info(&Pos::Noun);
    assert_eq!(info.letter, "N");
    assert_eq!(info.ord, 2);
    assert_eq!(info._ptb, "NN");
    assert_eq!(info.emoji, "📦");
    assert_eq!(info._name, "noun");
    assert_eq!(info._gng, "_NOUN_");
}

#[test]
fn pos_info_every_part_of_speech() {
    let expected = [
        (Pos::Determiner, "D", 1, "DT", "_DET_"),
        (Pos::Noun, "N", 2, "NN", "_NOUN_"),
        (Pos::ProperNoun, "O", 2, "NNP", "_PROPN_"),
        (Pos::Pronoun, "I", 3, "PRP", "_PRON_"),
        (Pos::Verb, "V", 4, "VB", "_VERB_"),
        (Pos::Adjective, "J", 5, "JJ", "_ADJ_"),
        (Pos::Adverb, "R", 6, "RB", "_ADV_"),
        (Pos::Preposition, "P", 7, "IN", "_ADP_"),
        (Pos::Conjunction, "C", 8, "CC", "_CONJ_"),
    ];
    for (pos, letter, ord, ptb, gng) in expected {
        let info = pos_info(&pos);
        assert_eq!(info.letter, letter);
        assert_eq!(info.ord, ord);
        assert_eq!(info._ptb, ptb);
        assert_eq!(info._gng, gng);
    }
}

#[test]
fn pos_info_proper_noun_and_adverb() {
    let p = pos_info(&Pos::ProperNoun);
    assert_eq!(p.emoji, "📛");
    assert_eq!(p._name, "proper noun");
    let a = pos_info(&Pos::Adverb);
    assert_eq!(a.emoji, "🤷");
    assert_eq!(a._name, "adverb");
}

#[test]
fn proper_noun_is_not_a_common_noun() {
    let mut t = tags();
    t.noun = true;
    t.proper_noun = true;
    assert_eq!(pos_matches(&t), vec![Pos::ProperNoun]);
}

#[test]
fn common_noun() {
    let mut t = tags();
    t.noun = true;
    assert_eq!(pos_matches(&t), vec![Pos::Noun]);
}

#[test]
fn matches_follow_definition_order() {
    let mut t = tags();
    t.conjunction = true;
    t.determiner = true;
    t.verb = true;
    t.preposition = true;
    t.pronoun = true;
    t.adjective = true;
    t.adverb = true;
    assert_eq!(
        pos_matches(&t),
        vec![
            Pos::Determiner,
            Pos::Pronoun,
            Pos::Verb,
            Pos::Adjective,
            Pos::Adverb,
            Pos::Preposition,
            Pos::Conjunction
        ]
    );
}

#[test]
fn no_tags_no_matches() {
    assert!(pos_matches(&tags()).is_empty());
}

#[test]
fn lookup_result_accessors() {
    let found = PosLookupResult::FoundWithMatches(vec![Pos::Verb, Pos::Noun]);
    assert!(found._is_found());
    assert!(!found._is_not_found());
    assert_eq!(found._into_poses(), vec![Pos::Verb, Pos::Noun]);

    let none = PosLookupResult::FoundWithNoMatches;
    assert!(none._is_found());
    assert!(none.clone()._into_poses().is_empty());

    let missing = PosLookupResult::NotFound;
    assert!(!missing._is_found());
    assert!(missing._is_not_found());
    assert!(missing._into_poses().is_empty());
}
