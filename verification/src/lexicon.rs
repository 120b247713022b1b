//! Harper's curated English dictionary: spelling and word-class lookups.
use vstd::prelude::*;
use std::sync::Arc;
use harper_core::spell::{Dictionary, FstDictionary};
use crate::pos::{Pos, PosLookupResult, WordTags, poses_of_tags, pos_matches};
use crate::text::{chars_of, string_from_chars};

verus! {

#[verifier::external_type_specification]
#[verifier::external_body]
pub struct ExFstDictionary(FstDictionary);

/// The spelling that Harper's curated dictionary records for `word`, looked
/// up without regard to case; `None` when the dictionary has no such word.
pub uninterp spec fn curated_spelling(word: Seq<char>) -> Option<Seq<char>>;

/// The word-class facts that Harper's curated dictionary records for
/// `word`, looked up without regard to case; `None` when the dictionary has
/// no such word.
pub uninterp spec fn curated_tags(word: Seq<char>) -> Option<WordTags>;

/// Harper's curated dictionary. Every value of this type holds that one
/// dictionary, the one compiled into harper-core.
pub struct Lexicon {
    dict: Arc<FstDictionary>,
}

/// Calls `FstDictionary::curated`, which hands out the dictionary compiled
/// into harper-core. Nothing is claimed of it.
#[verifier::external_body]
fn curated_dictionary() -> Arc<FstDictionary> {
    FstDictionary::curated()
}

/// Calls `Dictionary::get_correct_capitalization_of` on the curated
/// dictionary with the characters of `word`. The result is the recorded
/// spelling, named `curated_spelling`. harper-core answers this query and
/// the metadata query below from the same word map entry, so one finds the
/// word exactly when the other does.
#[verifier::external_body]
fn lookup_spelling(lex: &Lexicon, word: &str) -> (res: Option<Vec<char>>)
    ensures
        match res {
            Some(v) => curated_spelling(word@) == Some(v@),
            None => curated_spelling(word@) is None,
        },
        res is Some <==> curated_tags(word@) is Some,
{
    let chars: Vec<char> = word.chars().collect();
    lex.dict.get_correct_capitalization_of(&chars).map(|v| v.to_vec())
}

/// Calls `Dictionary::get_word_metadata_str` on the curated dictionary and
/// reads the word-class queries of the metadata (`determiner`, `is_noun`,
/// `is_proper_noun`, `is_pronoun`, `is_verb`, `is_adjective`, `is_adverb`,
/// `preposition`, `is_conjunction`). The result is named `curated_tags`.
#[verifier::external_body]
fn lookup_tags(lex: &Lexicon, word: &str) -> (res: Option<WordTags>)
    ensures
        res == curated_tags(word@),
{
    lex.dict.get_word_metadata_str(word).map(|md| WordTags {
        determiner: md.determiner,
        noun: md.is_noun(),
        proper_noun: md.is_proper_noun(),
        pronoun: md.is_pronoun(),
        verb: md.is_verb(),
        adjective: md.is_adjective(),
        adverb: md.is_adverb(),
        preposition: md.preposition,
        conjunction: md.is_conjunction(),
    })
}

impl Lexicon {
    /// The curated dictionary. A `Lexicon` can only be made here, so every
    /// lookup through one answers from the dictionary compiled into
    /// harper-core, as `curated_spelling` and `curated_tags` name it; the
    /// dictionary itself is opaque, so nothing more is stated of the result.
    pub fn curated() -> Lexicon {
        Lexicon { dict: curated_dictionary() }
    }
}

/// `s` between guillemets.
pub open spec fn quoted(s: Seq<char>) -> Seq<char> {
    seq!['«'] + s + seq!['»']
}

/// The spelling shown for a word: the dictionary's spelling, or the word
/// itself between guillemets when the dictionary lacks it.
pub open spec fn display_spelling(s: Seq<char>, found: Option<Seq<char>>) -> Seq<char> {
    match found {
        Some(c) => c,
        None => quoted(s),
    }
}

/// The shown spelling of `s` given what the dictionary found for it.
pub fn spelling_or_quoted(s: &str, found: Option<Vec<char>>) -> (res: String)
    ensures
        res@ == display_spelling(s@, match found { Some(v) => Some(v@), None => None }),
{
    match found {
        Some(v) => string_from_chars(v.as_slice()),
        None => {
            let mut cs: Vec<char> = Vec::new();
            cs.push('«');
            let inner = chars_of(s);
            let mut i: usize = 0;
            while i < inner.len()
                invariant
                    i <= inner@.len(),
                    inner@ == s@,
                    cs@ == seq!['«'] + inner@.take(i as int),
                decreases inner@.len() - i,
            {
                cs.push(inner[i]);
                i = i + 1;
                assert(inner@.take(i as int) == inner@.take(i - 1).push(inner@[i - 1]));
            }
            cs.push('»');
            assert(inner@.take(inner@.len() as int) == inner@);
            string_from_chars(cs.as_slice())
        },
    }
}

/// The dictionary's spelling of `s`, or `s` between guillemets when the
/// dictionary lacks it.
pub fn get_correct_capitalization_of_string(lex: &Lexicon, s: &str) -> (res: String)
    ensures
        res@ == display_spelling(s@, curated_spelling(s@)),
{
    let found = lookup_spelling(lex, s);
    spelling_or_quoted(s, found)
}

/// The canonical spelling given what the dictionary found: whether it found
/// the word, and its spelling or else the word unchanged.
pub fn canon_case_from(s: &str, found: Option<Vec<char>>) -> (res: (bool, String))
    ensures
        res.0 == (found is Some),
        res.1@ == match found { Some(v) => v@, None => s@ },
{
    match found {
        Some(v) => (true, string_from_chars(v.as_slice())),
        None => (false, s.to_owned()),
    }
}

/// Whether the dictionary knows `s`, and its canonical spelling (the word
/// unchanged when unknown).
pub fn get_canon_case(lex: &Lexicon, s: &str) -> (res: (bool, String))
    ensures
        res.0 == (curated_spelling(s@) is Some),
        res.1@ == match curated_spelling(s@) { Some(c) => c, None => s@ },
{
    let found = lookup_spelling(lex, s);
    canon_case_from(s, found)
}

/// Whether `s` is out of the dictionary's vocabulary.
pub fn is_oov(lex: &Lexicon, s: &str) -> (b: bool)
    ensures
        b == (curated_tags(s@) is None),
{
    lookup_tags(lex, s).is_none()
}

/// Classifies a dictionary answer: not found, found with no matching part
/// of speech, or found with the matching parts of speech in definition order.
pub fn poses_from_tags(tags: Option<WordTags>) -> (res: PosLookupResult)
    ensures
        match tags {
            None => res is NotFound,
            Some(t) => if poses_of_tags(t).len() == 0 {
                res is FoundWithNoMatches
            } else {
                res matches PosLookupResult::FoundWithMatches(v) && v@ == poses_of_tags(t)
            },
        },
{
    match tags {
        None => PosLookupResult::NotFound,
        Some(t) => {
            let matches = pos_matches(&t);
            if matches.len() == 0 {
                PosLookupResult::FoundWithNoMatches
            } else {
                PosLookupResult::FoundWithMatches(matches)
            }
        },
    }
}

/// The parts of speech of `word` according to the curated dictionary.
pub fn get_poses(lex: &Lexicon, word: &str) -> (res: PosLookupResult)
    ensures
        match curated_tags(word@) {
            None => res is NotFound,
            Some(t) => if poses_of_tags(t).len() == 0 {
                res is FoundWithNoMatches
            } else {
                res matches PosLookupResult::FoundWithMatches(v) && v@ == poses_of_tags(t)
            },
        },
{
    poses_from_tags(lookup_tags(lex, word))
}

} // verus!
