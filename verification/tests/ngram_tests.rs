use ctx::cli::{Alternative, Cfg};
use ctx::ngram::{
    build_url, items_cut_would_fail, parse_items, query_content_of, NgramItem, NgramParseError, NgramType, Side,
};

fn alt(raw: &str) -> Alternative {
    Alternative { raw: raw.to_string(), jfmt: raw.to_string(), fam: Some(raw.to_string()) }
}

fn cfg(alts: &[&str], since: Option<[char; 4]>) -> Cfg {
    Cfg {
        debug: false,
        raw: false,
        alternatives: alts.iter().map(|a| alt(a)).collect(),
        has_families: false,
        since_year: since,
    }
}

fn item(ngram: &str, parent: &str, kind: NgramType) -> NgramItem {
    NgramItem { ngram: ngram.to_string(), parent: parent.to_string(), kind }
}

#[test]
fn query_content_wraps_apostrophes_in_brackets() {
    let c = cfg(&["there", "their", "they ' re"], None);
    assert_eq!(query_content_of(&c), "* there,there *,* their,their *,[* they ' re],[they ' re *]");
}

#[test]
fn query_uses_the_json_form_of_hyphenated_phrases() {
    let (_, c) = ctx::cli::cli(&vec!["wide-ranging".to_string()]);
    let c = c.unwrap();
    assert_eq!(query_content_of(&c), "* wide - ranging,wide - ranging *");
    assert_eq!(
        build_url(&c),
        "https://books.google.com/ngrams/json?content=*+wide+-+ranging%2Cwide+-+ranging+*"
    );
}

#[test]
fn query_uses_the_json_form_of_edge_apostrophes() {
    let (_, c) = ctx::cli::cli(&vec!["'tis".to_string()]);
    let c = c.unwrap();
    assert_eq!(query_content_of(&c), "[* ' tis],[' tis *]");
}

#[test]
fn query_content_curly_apostrophe() {
    let c = cfg(&["don’t"], None);
    assert_eq!(query_content_of(&c), "[* don’t],[don’t *]");
}

#[test]
fn query_content_empty() {
    let c = cfg(&[], None);
    assert_eq!(query_content_of(&c), "");
}

#[test]
fn url_for_three_alternatives() {
    let c = cfg(&["there", "their", "they ' re"], None);
    assert_eq!(
        build_url(&c),
        "https://books.google.com/ngrams/json?content=*+there%2Cthere+*%2C*+their%2Ctheir+*%2C%5B*+they+%27+re%5D%2C%5Bthey+%27+re+*%5D"
    );
}

#[test]
fn url_with_start_year() {
    let c = cfg(&["foo", "bar"], Some(['1', '9', '6', '8']));
    assert_eq!(
        build_url(&c),
        "https://books.google.com/ngrams/json?content=*+foo%2Cfoo+*%2C*+bar%2Cbar+*&year_start=1968"
    );
}

#[test]
fn url_encodes_non_ascii_as_utf8() {
    let c = cfg(&["café"], None);
    assert_eq!(build_url(&c), "https://books.google.com/ngrams/json?content=*+caf%C3%A9%2Ccaf%C3%A9+*");
}

#[test]
fn parse_leading_and_trailing_wildcards() {
    let items = vec![
        item("the stake", "* stake", NgramType::Expansion),
        item("stake in", "stake *", NgramType::Expansion),
    ];
    let rows = parse_items(&items).unwrap();
    assert_eq!(rows.len(), 2);
    assert_eq!(rows[0].side, Side::Before);
    assert_eq!(rows[0].alt, "stake");
    assert_eq!(rows[0].ctx, "the");
    assert_eq!(rows[1].side, Side::After);
    assert_eq!(rows[1].alt, "stake");
    assert_eq!(rows[1].ctx, "in");
}

#[test]
fn parse_skips_collections_and_wildcard_ngrams() {
    let items = vec![
        item("* stake", "* stake", NgramType::Expansion),
        item("stake *", "stake *", NgramType::Expansion),
        item("* stake", "", NgramType::NgramCollection),
        item("stake", "", NgramType::Ngram),
        item("a stake", "* stake", NgramType::Expansion),
    ];
    let rows = parse_items(&items).unwrap();
    assert_eq!(rows.len(), 1);
    assert_eq!(rows[0].ctx, "a");
}

#[test]
fn parse_multi_word_alternative_with_non_ascii_context() {
    let items = vec![item("déjà they ' re", "* they ' re", NgramType::Expansion)];
    let rows = parse_items(&items).unwrap();
    assert_eq!(rows[0].alt, "they ' re");
    assert_eq!(rows[0].ctx, "déjà");
}

#[test]
fn parse_refuses_parent_without_wildcard() {
    let items = vec![
        item("the stake", "* stake", NgramType::Expansion),
        item("the stake", "stake", NgramType::Expansion),
    ];
    match parse_items(&items) {
        Err(e) => {
            assert_eq!(e, NgramParseError::NoWildcardInParent);
            assert_eq!(e.message(), "No wildcard found in parent");
        }
        Ok(_) => panic!("expected an error"),
    }
}

#[test]
fn parse_empty() {
    let items: Vec<NgramItem> = Vec::new();
    assert!(parse_items(&items).unwrap().is_empty());
}

#[test]
fn cut_failures_are_detected_before_the_first_refusal() {
    let fine = vec![item("the stake", "* stake", NgramType::Expansion)];
    assert!(!items_cut_would_fail(&fine));
    let short = vec![item("x", "* stake", NgramType::Expansion)];
    assert!(items_cut_would_fail(&short));
    let inside_char = vec![item("é stake", "*  stake", NgramType::Expansion)];
    assert!(items_cut_would_fail(&inside_char));
    let after_refusal = vec![
        item("the stake", "stake", NgramType::Expansion),
        item("x", "* stake", NgramType::Expansion),
    ];
    assert!(!items_cut_would_fail(&after_refusal));
    let collection = vec![item("x", "* stake", NgramType::NgramCollection)];
    assert!(!items_cut_would_fail(&collection));
}
