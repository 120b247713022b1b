use ctx::lexicon::{
    canon_case_from, get_canon_case, get_correct_capitalization_of_string, get_poses, is_oov,
    poses_from_tags, spelling_or_quoted, Lexicon,
};
use ctx::pos::{Pos, PosLookupResult, WordTags};

#[test]
fn spelling_found_is_used() {
    assert_eq!(spelling_or_quoted("monday", Some(vec!['M', 'o', 'n', 'd', 'a', 'y'])), "Monday");
}

#[test]
fn spelling_missing_is_quoted() {
    assert_eq!(spelling_or_quoted("zzxqj", None), "«zzxqj»");
    assert_eq!(spelling_or_quoted("", None), "«»");
}

#[test]
fn canon_case_from_answers() {
    assert_eq!(canon_case_from("paris", Some(vec!['P', 'a', 'r', 'i', 's'])), (true, "Paris".to_string()));
    assert_eq!(canon_case_from("zzxqj", None), (false, "zzxqj".to_string()));
}

#[test]
fn classify_dictionary_answers() {
    assert_eq!(poses_from_tags(None), PosLookupResult::NotFound);
    let empty = WordTags {
        determiner: false,
        noun: false,
        proper_noun: false,
        pronoun: false,
        verb: false,
        adjective: false,
        adverb: false,
        preposition: false,
        conjunction: false,
    };
    assert_eq!(poses_from_tags(Some(empty)), PosLookupResult::FoundWithNoMatches);
    let verb = WordTags { verb: true, ..empty };
    assert_eq!(poses_from_tags(Some(verb)), PosLookupResult::FoundWithMatches(vec![Pos::Verb]));
}

#[test]
fn curated_capitalization() {
    let lex = Lexicon::curated();
    assert_eq!(get_correct_capitalization_of_string(&lex, "monday"), "Monday");
    assert_eq!(get_correct_capitalization_of_string(&lex, "zzxqjvw"), "«zzxqjvw»");
}

#[test]
fn curated_canon_case() {
    let lex = Lexicon::curated();
    assert_eq!(get_canon_case(&lex, "paris"), (true, "Paris".to_string()));
    assert_eq!(get_canon_case(&lex, "zzxqjvw"), (false, "zzxqjvw".to_string()));
}

#[test]
fn curated_vocabulary() {
    let lex = Lexicon::curated();
    assert!(!is_oov(&lex, "the"));
    assert!(is_oov(&lex, "zzxqjvw"));
}

#[test]
fn curated_parts_of_speech() {
    let lex = Lexicon::curated();
    assert_eq!(get_poses(&lex, "zzxqjvw"), PosLookupResult::NotFound);
    assert_eq!(get_poses(&lex, "Paris"), PosLookupResult::FoundWithMatches(vec![Pos::ProperNoun]));
    match get_poses(&lex, "the") {
        PosLookupResult::FoundWithMatches(p) => assert!(p.contains(&Pos::Determiner)),
        other => panic!("unexpected {:?}", other),
    }
}
