use ctx::compare::{compare_three, compare_two, pos_marks, raw_input_word};
use ctx::lexicon::Lexicon;
use ctx::ngram::Side;
use ctx::pos::Pos;
use ctx::table::{build_tree, TableRow};
use ctx::tree::{AlternativeMap, ContextSet, FamilyTree};

fn sorted(mut v: Vec<String>) -> Vec<String> {
    v.sort();
    v
}

fn sorted_pos(mut v: Vec<Pos>) -> Vec<Pos> {
    v.sort();
    v
}

fn row(fam: Option<&str>, alt: &str, side: Side, ctx: &str) -> TableRow {
    TableRow { fam: fam.map(|f| f.to_string()), alt: alt.to_string(), side, ctx: ctx.to_string() }
}

#[test]
fn context_set_merges_parts_of_speech() {
    let mut c = ContextSet::new();
    c.add("the", &vec![Pos::Determiner]);
    c.add("run", &vec![Pos::Verb, Pos::Noun]);
    c.add("the", &vec![Pos::Preposition, Pos::Determiner]);
    assert_eq!(sorted(c.contexts()), vec!["run".to_string(), "the".to_string()]);
    assert_eq!(
        sorted_pos(c.all_poses()),
        vec![Pos::Determiner, Pos::Noun, Pos::Preposition, Pos::Verb]
    );
}

#[test]
fn alternative_map_unions_sides() {
    let mut m = AlternativeMap::new();
    m.add("there", Side::Before, "over", &vec![Pos::Adverb]);
    m.add("their", Side::Before, "over", &vec![Pos::Preposition]);
    m.add("their", Side::Before, "of", &vec![]);
    m.add("their", Side::After, "own", &vec![Pos::Adjective]);
    assert_eq!(sorted(m.contexts_for_side(Side::Before)), vec!["of".to_string(), "over".to_string()]);
    assert_eq!(sorted(m.contexts_for_side(Side::After)), vec!["own".to_string()]);
    assert_eq!(sorted_pos(m.poses_for_side(Side::Before)), vec![Pos::Adverb, Pos::Preposition]);
    assert_eq!(m.poses_for_side(Side::After), vec![Pos::Adjective]);
}

#[test]
fn family_keys_sort_none_first() {
    let mut t = FamilyTree::new();
    t.add(&Some("b".to_string()), "x", Side::Before, "w", &vec![]);
    t.add(&None, "y", Side::Before, "w", &vec![]);
    t.add(&Some("a".to_string()), "z", Side::After, "v", &vec![]);
    t.add(&Some("a".to_string()), "z", Side::After, "u", &vec![]);
    assert_eq!(t.len(), 3);
    assert_eq!(t.sorted_keys(), vec![None, Some("a".to_string()), Some("b".to_string())]);
}

#[test]
fn two_families_sorted() {
    let mut t = FamilyTree::new();
    t.add(&Some("zeta".to_string()), "z", Side::Before, "w", &vec![]);
    t.add(&Some("alpha".to_string()), "a", Side::After, "v", &vec![Pos::Noun]);
    let (keys, fam_a, fam_b) = t.into_two_families_sorted();
    assert_eq!(keys, vec![Some("alpha".to_string()), Some("zeta".to_string())]);
    assert_eq!(fam_a.contexts_for_side(Side::After), vec!["v".to_string()]);
    assert_eq!(fam_b.contexts_for_side(Side::Before), vec!["w".to_string()]);
}

#[test]
fn three_families_sorted() {
    let mut t = FamilyTree::new();
    for name in ["c", "a", "b"] {
        t.add(&Some(name.to_string()), name, Side::Before, name, &vec![]);
    }
    let (keys, a, b, c) = t.into_three_families_sorted();
    assert_eq!(keys, vec![Some("a".to_string()), Some("b".to_string()), Some("c".to_string())]);
    assert_eq!(a.contexts_for_side(Side::Before), vec!["a".to_string()]);
    assert_eq!(b.contexts_for_side(Side::Before), vec!["b".to_string()]);
    assert_eq!(c.contexts_for_side(Side::Before), vec!["c".to_string()]);
}

#[test]
fn every_row_is_recorded_with_its_parts_of_speech() {
    let lex = Lexicon::curated();
    let rows = vec![
        row(Some("fam"), "there", Side::Before, "Paris"),
        row(None, "their", Side::After, "zzxqjvw"),
    ];
    let t = build_tree(&lex, &rows);
    assert_eq!(t.sorted_keys(), vec![Some("fam".to_string()), Some("their".to_string())]);
    let (_, fam, their) = t.into_two_families_sorted();
    assert_eq!(fam.contexts_for_side(Side::Before), vec!["Paris".to_string()]);
    assert_eq!(fam.poses_for_side(Side::Before), vec![Pos::ProperNoun]);
    assert_eq!(their.contexts_for_side(Side::After), vec!["zzxqjvw".to_string()]);
    assert!(their.poses_for_side(Side::After).is_empty());
}

#[test]
fn raw_input_word_is_the_word() {
    let a = vec!["The".to_string(), "the".to_string()];
    let b = vec!["of".to_string()];
    assert_eq!(raw_input_word(&a, &b, None, "the"), "the");
    assert_eq!(raw_input_word(&a, &b, None, "zz"), "zz");
}

#[test]
fn pos_marks_flag_membership() {
    let marks = pos_marks(&vec![Pos::Noun, Pos::Verb], &vec![Pos::Verb, Pos::Adverb], &vec![]);
    let mut got: Vec<(Pos, bool, bool, bool)> = marks.iter().map(|m| (m.pos, m.in_a, m.in_b, m.in_c)).collect();
    got.sort();
    assert_eq!(
        got,
        vec![
            (Pos::Adverb, false, true, false),
            (Pos::Noun, true, false, false),
            (Pos::Verb, true, true, false),
        ]
    );
}

fn words(items: &[ctx::compare::WordItem]) -> Vec<(String, bool)> {
    items.iter().map(|i| (i.word.clone(), i.oov)).collect()
}

#[test]
fn compare_two_families() {
    let lex = Lexicon::curated();
    let rows = vec![
        row(Some("b"), "their", Side::Before, "the"),
        row(Some("b"), "their", Side::Before, "of"),
        row(Some("a"), "there", Side::Before, "over"),
        row(Some("a"), "there", Side::Before, "The"),
        row(Some("a"), "there", Side::After, "zzxqjvw"),
        row(Some("b"), "their", Side::After, "monday"),
    ];
    let t = build_tree(&lex, &rows);
    let r = compare_two(&lex, t);
    assert_eq!(r.name_a, "a");
    assert_eq!(r.name_b, "b");
    assert_eq!(words(&r.before.only_a), vec![("over".to_string(), false)]);
    assert_eq!(words(&r.before.both), vec![("the".to_string(), false)]);
    assert_eq!(words(&r.before.only_b), vec![("of".to_string(), false)]);
    assert_eq!(words(&r.after.only_a), vec![("«zzxqjvw»".to_string(), true)]);
    assert!(r.after.both.is_empty());
    assert_eq!(words(&r.after.only_b), vec![("Monday".to_string(), false)]);
    assert!(r.after.poses.iter().all(|m| !m.in_a && m.in_b && !m.in_c));
}

#[test]
fn compare_two_lists_are_sorted() {
    let lex = Lexicon::curated();
    let rows = vec![
        row(Some("a"), "x", Side::Before, "zebra"),
        row(Some("a"), "x", Side::Before, "apple"),
        row(Some("a"), "x", Side::Before, "mango"),
        row(Some("b"), "y", Side::Before, "kiwi"),
    ];
    let r = compare_two(&lex, build_tree(&lex, &rows));
    let got: Vec<String> = r.before.only_a.iter().map(|w| w.word.clone()).collect();
    assert_eq!(got, vec!["apple", "mango", "zebra"]);
}

#[test]
fn compare_three_families() {
    let lex = Lexicon::curated();
    let rows = vec![
        row(Some("a"), "x", Side::Before, "the"),
        row(Some("b"), "y", Side::Before, "the"),
        row(Some("c"), "z", Side::Before, "The"),
        row(Some("a"), "x", Side::Before, "over"),
        row(Some("b"), "y", Side::Before, "of"),
        row(Some("c"), "z", Side::Before, "in"),
        row(Some("a"), "x", Side::Before, "and"),
        row(Some("b"), "y", Side::Before, "and"),
    ];
    let r = compare_three(&lex, build_tree(&lex, &rows));
    assert_eq!((r.name_a.as_str(), r.name_b.as_str(), r.name_c.as_str()), ("a", "b", "c"));
    assert_eq!(words(&r.before.only_a), vec![("over".to_string(), false)]);
    assert_eq!(words(&r.before.only_b), vec![("of".to_string(), false)]);
    assert_eq!(words(&r.before.only_c), vec![("in".to_string(), false)]);
    assert_eq!(words(&r.before.all), vec![("the".to_string(), false)]);
    assert!(r.after.all.is_empty());
}

#[test]
fn unnamed_family_is_shown_as_none() {
    let mut t = FamilyTree::new();
    t.add(&None, "x", Side::Before, "w", &vec![]);
    t.add(&Some("b".to_string()), "y", Side::Before, "w", &vec![]);
    let lex = Lexicon::curated();
    let r = compare_two(&lex, t);
    assert_eq!(r.name_a, "None");
    assert_eq!(r.name_b, "b");
}

fn count(cs: &[(Pos, Vec<(String, usize)>)], p: Pos, w: &str) -> usize {
    cs.iter()
        .filter(|(q, _)| *q == p)
        .flat_map(|(_, ws)| ws.iter())
        .filter(|(c, _)| c == w)
        .map(|(_, n)| *n)
        .sum()
}

#[test]
fn word_counts_merge_spellings_per_part_of_speech() {
    let lex = Lexicon::curated();
    let mut m = AlternativeMap::new();
    m.add("to", Side::Before, "paris", &vec![Pos::ProperNoun]);
    m.add("too", Side::Before, "Paris", &vec![Pos::ProperNoun]);
    m.add("two", Side::Before, "zzxqjvw", &vec![Pos::Noun, Pos::Verb]);
    m.add("to", Side::After, "go", &vec![Pos::Verb]);
    let cs = m.pos_to_word_counts_for_side(Side::Before, &lex);
    assert_eq!(count(&cs, Pos::ProperNoun, "Paris"), 2);
    assert_eq!(count(&cs, Pos::ProperNoun, "paris"), 0);
    assert_eq!(count(&cs, Pos::Noun, "zzxqjvw"), 1);
    assert_eq!(count(&cs, Pos::Verb, "zzxqjvw"), 1);
    assert_eq!(count(&cs, Pos::Verb, "go"), 0);
    let after = m.pos_to_word_counts_for_side(Side::After, &lex);
    assert_eq!(count(&after, Pos::Verb, "go"), 1);
    assert_eq!(count(&after, Pos::ProperNoun, "Paris"), 0);
}

#[test]
fn word_counts_of_empty_map() {
    let lex = Lexicon::curated();
    let m = AlternativeMap::new();
    assert!(m.pos_to_word_counts_for_side(Side::Before, &lex).is_empty());
}

#[test]
fn compare_three_reports_prohibited_contexts() {
    let lex = Lexicon::curated();
    let rows = vec![
        row(Some("a"), "x", Side::Before, "the"),
        row(Some("b"), "y", Side::Before, "The"),
        row(Some("a"), "x", Side::Before, "over"),
        row(Some("c"), "z", Side::Before, "over"),
        row(Some("b"), "y", Side::Before, "of"),
        row(Some("c"), "z", Side::Before, "of"),
        row(Some("c"), "z", Side::Before, "in"),
    ];
    let r = compare_three(&lex, build_tree(&lex, &rows));
    assert_eq!(words(&r.before.prohibited_a), vec![("of".to_string(), false)]);
    assert_eq!(words(&r.before.prohibited_b), vec![("over".to_string(), false)]);
    assert_eq!(words(&r.before.prohibited_c), vec![("the".to_string(), false)]);
    assert_eq!(words(&r.before.only_c), vec![("in".to_string(), false)]);
    assert!(r.before.all.is_empty());
    assert!(r.after.prohibited_a.is_empty());
}

#[test]
fn word_counts_keys_are_the_parts_of_speech_seen() {
    let lex = Lexicon::curated();
    let mut m = AlternativeMap::new();
    m.add("to", Side::Before, "paris", &vec![Pos::ProperNoun]);
    m.add("two", Side::Before, "zzxqjvw", &vec![Pos::Noun, Pos::Verb]);
    m.add("two", Side::Before, "qqqq", &vec![]);
    m.add("to", Side::After, "go", &vec![Pos::Adverb]);
    let cs = m.pos_to_word_counts_for_side(Side::Before, &lex);
    let keys: Vec<Pos> = sorted_pos(cs.iter().map(|(p, _)| *p).collect());
    assert_eq!(keys, sorted_pos(m.poses_for_side(Side::Before)));
    assert_eq!(keys, sorted_pos(vec![Pos::ProperNoun, Pos::Noun, Pos::Verb]));
    assert!(cs.iter().all(|(_, ws)| !ws.is_empty() && ws.iter().all(|(_, n)| *n >= 1)));
}

#[test]
fn renaming_to_case_variants_keeps_the_comparison() {
    let lex = Lexicon::curated();
    let rows = |the: &str, of: &str| {
        vec![
            row(Some("a"), "x", Side::Before, the),
            row(Some("a"), "x", Side::Before, "over"),
            row(Some("b"), "y", Side::Before, "the"),
            row(Some("b"), "y", Side::After, of),
        ]
    };
    let r1 = compare_two(&lex, build_tree(&lex, &rows("the", "of")));
    let r2 = compare_two(&lex, build_tree(&lex, &rows("The", "OF")));
    for (s1, s2) in [(&r1.before, &r2.before), (&r1.after, &r2.after)] {
        assert_eq!(words(&s1.only_a), words(&s2.only_a));
        assert_eq!(words(&s1.both), words(&s2.both));
        assert_eq!(words(&s1.only_b), words(&s2.only_b));
    }
    assert_eq!(words(&r1.before.both), vec![("the".to_string(), false)]);
    assert_eq!(words(&r2.after.only_b), vec![("of".to_string(), false)]);
}

#[test]
fn word_counts_add_up_per_part_of_speech() {
    let lex = Lexicon::curated();
    let mut m = AlternativeMap::new();
    m.add("to", Side::Before, "paris", &vec![Pos::ProperNoun, Pos::Noun]);
    m.add("too", Side::Before, "Paris", &vec![Pos::ProperNoun]);
    m.add("two", Side::Before, "rome", &vec![Pos::ProperNoun]);
    m.add("two", Side::Before, "zzxqjvw", &vec![Pos::Noun]);
    let cs = m.pos_to_word_counts_for_side(Side::Before, &lex);
    let total = |p: Pos| -> usize {
        cs.iter().filter(|(q, _)| *q == p).flat_map(|(_, ws)| ws.iter()).map(|(_, n)| *n).sum()
    };
    assert_eq!(total(Pos::ProperNoun), 3);
    assert_eq!(total(Pos::Noun), 2);
    assert_eq!(total(Pos::Verb), 0);
}
