//! Parts of speech and the dictionary predicates that assign them.
use vstd::prelude::*;

verus! {

/// The parts of speech that context words are classified into.
#[derive(Clone, Copy, Debug, PartialEq, Eq, Hash, PartialOrd, Ord, Structural)]
pub enum Pos {
    Adjective,
    Adverb,
    Conjunction,
    Determiner,
    Noun,
    Preposition,
    Pronoun,
    ProperNoun,
    Verb,
}

/// Display data for one part of speech.
pub struct POSInfo {
    pub _name: &'static str,
    pub ord: usize,
    /// Penn Treebank tag.
    pub _ptb: &'static str,
    pub letter: &'static str,
    pub emoji: &'static str,
    /// Google Ngram Viewer tag.
    pub _gng: &'static str,
}

/// The position of a part of speech in the classification order.
pub open spec fn spec_pos_ord(pos: Pos) -> usize {
    match pos {
        Pos::Determiner => 1,
        Pos::Noun => 2,
        Pos::ProperNoun => 2,
        Pos::Pronoun => 3,
        Pos::Verb => 4,
        Pos::Adjective => 5,
        Pos::Adverb => 6,
        Pos::Preposition => 7,
        Pos::Conjunction => 8,
    }
}

/// The one-letter abbreviation of a part of speech.
pub open spec fn spec_pos_letter(pos: Pos) -> Seq<char> {
    match pos {
        Pos::Noun => "N"@,
        Pos::ProperNoun => "O"@,
        Pos::Verb => "V"@,
        Pos::Adjective => "J"@,
        Pos::Adverb => "R"@,
        Pos::Conjunction => "C"@,
        Pos::Determiner => "D"@,
        Pos::Preposition => "P"@,
        Pos::Pronoun => "I"@,
    }
}

/// The emoji shown for a part of speech.
pub open spec fn spec_pos_emoji(pos: Pos) -> Seq<char> {
    match pos {
        Pos::Noun => "📦"@,
        Pos::ProperNoun => "📛"@,
        Pos::Verb => "🏃"@,
        Pos::Adjective => "🌈"@,
        Pos::Adverb => "🤷"@,
        Pos::Conjunction => "🔗"@,
        Pos::Determiner => "👉"@,
        Pos::Preposition => "📥"@,
        Pos::Pronoun => "👤"@,
    }
}

/// The English name of a part of speech.
pub open spec fn spec_pos_name(pos: Pos) -> Seq<char> {
    match pos {
        Pos::Noun => "noun"@,
        Pos::ProperNoun => "proper noun"@,
        Pos::Verb => "verb"@,
        Pos::Adjective => "adjective"@,
        Pos::Adverb => "adverb"@,
        Pos::Conjunction => "conjunction"@,
        Pos::Determiner => "determiner"@,
        Pos::Preposition => "preposition"@,
        Pos::Pronoun => "pronoun"@,
    }
}

/// The Penn Treebank tag of a part of speech.
pub open spec fn spec_pos_ptb(pos: Pos) -> Seq<char> {
    match pos {
        Pos::Noun => "NN"@,
        Pos::ProperNoun => "NNP"@,
        Pos::Verb => "VB"@,
        Pos::Adjective => "JJ"@,
        Pos::Adverb => "RB"@,
        Pos::Conjunction => "CC"@,
        Pos::Determiner => "DT"@,
        Pos::Preposition => "IN"@,
        Pos::Pronoun => "PRP"@,
    }
}

/// The Google Ngram Viewer tag of a part of speech.
pub open spec fn spec_pos_gng(pos: Pos) -> Seq<char> {
    match pos {
        Pos::Noun => "_NOUN_"@,
        Pos::ProperNoun => "_PROPN_"@,
        Pos::Verb => "_VERB_"@,
        Pos::Adjective => "_ADJ_"@,
        Pos::Adverb => "_ADV_"@,
        Pos::Conjunction => "_CONJ_"@,
        Pos::Determiner => "_DET_"@,
        Pos::Preposition => "_ADP_"@,
        Pos::Pronoun => "_PRON_"@,
    }
}

/// The display data of a part of speech.
pub fn pos_info(pos: &Pos) -> (info: POSInfo)
    ensures
        info.ord == spec_pos_ord(*pos),
        info.letter@ == spec_pos_letter(*pos),
        info.emoji@ == spec_pos_emoji(*pos),
        info._name@ == spec_pos_name(*pos),
        info._ptb@ == spec_pos_ptb(*pos),
        info._gng@ == spec_pos_gng(*pos),
{
    match pos {
        Pos::Noun => POSInfo {
            letter: "N",
            ord: 2,
            _ptb: "NN",
            emoji: "📦",
            _name: "noun",
            _gng: "_NOUN_",
        },
        Pos::ProperNoun => POSInfo {
            letter: "O",
            ord: 2,
            _ptb: "NNP",
            emoji: "📛",
            _name: "proper noun",
            _gng: "_PROPN_",
        },
        Pos::Verb => POSInfo {
            letter: "V",
            ord: 4,
            _ptb: "VB",
            emoji: "🏃",
            _name: "verb",
            _gng: "_VERB_",
        },
        Pos::Adjective => POSInfo {
            letter: "J",
            ord: 5,
            _ptb: "JJ",
            emoji: "🌈",
            _name: "adjective",
            _gng: "_ADJ_",
        },
        Pos::Adverb => POSInfo {
            letter: "R",
            ord: 6,
            _ptb: "RB",
            emoji: "🤷",
            _name: "adverb",
            _gng: "_ADV_",
        },
        Pos::Conjunction => POSInfo {
            letter: "C",
            ord: 8,
            _ptb: "CC",
            emoji: "🔗",
            _name: "conjunction",
            _gng: "_CONJ_",
        },
        Pos::Determiner => POSInfo {
            letter: "D",
            ord: 1,
            _ptb: "DT",
            emoji: "👉",
            _name: "determiner",
            _gng: "_DET_",
        },
        Pos::Preposition => POSInfo {
            letter: "P",
            ord: 7,
            _ptb: "IN",
            emoji: "📥",
            _name: "preposition",
            _gng: "_ADP_",
        },
        Pos::Pronoun => POSInfo {
            letter: "I",
            ord: 3,
            _ptb: "PRP",
            emoji: "👤",
            _name: "pronoun",
            _gng: "_PRON_",
        },
    }
}

/// The word-class facts of one dictionary entry that the part-of-speech
/// predicates read.
#[derive(Clone, Copy, Debug, PartialEq, Eq, Structural)]
pub struct WordTags {
    pub determiner: bool,
    pub noun: bool,
    pub proper_noun: bool,
    pub pronoun: bool,
    pub verb: bool,
    pub adjective: bool,
    pub adverb: bool,
    pub preposition: bool,
    pub conjunction: bool,
}

/// The parts of speech in the order in which they are tested.
pub open spec fn pos_definitions() -> Seq<Pos> {
    seq![
        Pos::Determiner,
        Pos::Noun,
        Pos::ProperNoun,
        Pos::Pronoun,
        Pos::Verb,
        Pos::Adjective,
        Pos::Adverb,
        Pos::Preposition,
        Pos::Conjunction,
    ]
}

/// Whether a dictionary entry with the given tags belongs to a part of speech.
/// A proper noun is not counted as a (common) noun.
pub open spec fn pos_predicate(pos: Pos, tags: WordTags) -> bool {
    match pos {
        Pos::Determiner => tags.determiner,
        Pos::Noun => tags.noun && !tags.proper_noun,
        Pos::ProperNoun => tags.proper_noun,
        Pos::Pronoun => tags.pronoun,
        Pos::Verb => tags.verb,
        Pos::Adjective => tags.adjective,
        Pos::Adverb => tags.adverb,
        Pos::Preposition => tags.preposition,
        Pos::Conjunction => tags.conjunction,
    }
}

/// The parts of speech among the first `n` definitions whose predicate holds, in order.
pub open spec fn matching_poses(tags: WordTags, n: nat) -> Seq<Pos>
    decreases n,
{
    if n == 0 {
        seq![]
    } else {
        let prev = matching_poses(tags, (n - 1) as nat);
        let p = pos_definitions()[n - 1];
        if pos_predicate(p, tags) {
            prev.push(p)
        } else {
            prev
        }
    }
}

/// The parts of speech of a dictionary entry, in definition order.
pub open spec fn poses_of_tags(tags: WordTags) -> Seq<Pos> {
    matching_poses(tags, 9)
}

fn pos_definition(i: usize) -> (p: Pos)
    requires
        i < 9,
    ensures
        p == pos_definitions()[i as int],
{
    match i {
        0 => Pos::Determiner,
        1 => Pos::Noun,
        2 => Pos::ProperNoun,
        3 => Pos::Pronoun,
        4 => Pos::Verb,
        5 => Pos::Adjective,
        6 => Pos::Adverb,
        7 => Pos::Preposition,
        _ => Pos::Conjunction,
    }
}

fn pos_predicate_holds(pos: Pos, tags: &WordTags) -> (b: bool)
    ensures
        b == pos_predicate(pos, *tags),
{
    match pos {
        Pos::Determiner => tags.determiner,
        Pos::Noun => tags.noun && !tags.proper_noun,
        Pos::ProperNoun => tags.proper_noun,
        Pos::Pronoun => tags.pronoun,
        Pos::Verb => tags.verb,
        Pos::Adjective => tags.adjective,
        Pos::Adverb => tags.adverb,
        Pos::Preposition => tags.preposition,
        Pos::Conjunction => tags.conjunction,
    }
}

/// The parts of speech whose predicate holds for a dictionary entry, in
/// definition order.
pub fn pos_matches(tags: &WordTags) -> (res: Vec<Pos>)
    ensures
        res@ == poses_of_tags(*tags),
{
    let mut res: Vec<Pos> = Vec::new();
    let mut i: usize = 0;
    while i < 9
        invariant
            i <= 9,
            res@ == matching_poses(*tags, i as nat),
        decreases 9 - i,
    {
        let p = pos_definition(i);
        if pos_predicate_holds(p, tags) {
            res.push(p);
        }
        i = i + 1;
    }
    res
}

/// A dictionary entry is never both a noun and a proper noun.
pub proof fn law_noun_excludes_proper_noun(tags: WordTags)
    ensures
        !(poses_of_tags(tags).contains(Pos::Noun) && poses_of_tags(tags).contains(
            Pos::ProperNoun,
        )),
{
    reveal_with_fuel(matching_poses, 10);
    let q = poses_of_tags(tags);
    if q.contains(Pos::Noun) && q.contains(Pos::ProperNoun) {
        lemma_matching_poses_sound(tags, 9);
        let i = choose|i: int| 0 <= i < q.len() && q[i] == Pos::Noun;
        let j = choose|j: int| 0 <= j < q.len() && q[j] == Pos::ProperNoun;
        assert(pos_predicate(Pos::Noun, tags));
        assert(pos_predicate(Pos::ProperNoun, tags));
    }
}

proof fn lemma_matching_poses_sound(tags: WordTags, n: nat)
    requires
        n <= 9,
    ensures
        forall|i: int|
            0 <= i < matching_poses(tags, n).len() ==> pos_predicate(
                #[trigger] matching_poses(tags, n)[i],
                tags,
            ),
        forall|i: int, j: int|
            0 <= i < j < matching_poses(tags, n).len() ==> spec_pos_ord(
                #[trigger] matching_poses(tags, n)[i],
            ) <= spec_pos_ord(#[trigger] matching_poses(tags, n)[j]),
        forall|i: int|
            0 <= i < matching_poses(tags, n).len() ==> spec_pos_ord(
                #[trigger] matching_poses(tags, n)[i],
            ) <= if n == 0 { 0 } else { spec_pos_ord(pos_definitions()[n - 1]) },
    decreases n,
{
    if n > 0 {
        lemma_matching_poses_sound(tags, (n - 1) as nat);
        let prev = matching_poses(tags, (n - 1) as nat);
        let p = pos_definitions()[n - 1];
        assert(n >= 2 ==> spec_pos_ord(pos_definitions()[n - 2]) <= spec_pos_ord(p));
        if pos_predicate(p, tags) {
            assert forall|i: int| 0 <= i < prev.push(p).len() implies pos_predicate(
                #[trigger] prev.push(p)[i],
                tags,
            ) by {
                if i < prev.len() {
                    assert(prev.push(p)[i] == prev[i]);
                }
            }
        }
    }
}

/// The parts of speech of a dictionary entry come in the order of their
/// display position.
pub proof fn law_poses_follow_display_order(tags: WordTags)
    ensures
        forall|i: int, j: int|
            0 <= i < j < poses_of_tags(tags).len() ==> spec_pos_ord(
                #[trigger] poses_of_tags(tags)[i],
            ) <= spec_pos_ord(#[trigger] poses_of_tags(tags)[j]),
{
    lemma_matching_poses_sound(tags, 9);
}

proof fn lemma_matching_poses_complete(tags: WordTags, n: nat, p: Pos)
    requires
        n <= 9,
    ensures
        matching_poses(tags, n).contains(p) <==> exists|k: int|
            0 <= k < n && pos_definitions()[k] == p && pos_predicate(p, tags),
    decreases n,
{
    if n > 0 {
        lemma_matching_poses_complete(tags, (n - 1) as nat, p);
        let prev = matching_poses(tags, (n - 1) as nat);
        let q = pos_definitions()[n - 1];
        if pos_predicate(q, tags) {
            assert(prev.push(q)[prev.len() as int] == q);
            assert forall|x: Pos| prev.push(q).contains(x) <==> (prev.contains(x) || x == q) by {
                if prev.push(q).contains(x) {
                    let i = choose|i: int| 0 <= i < prev.push(q).len() && prev.push(q)[i] == x;
                    if i < prev.len() {
                        assert(prev[i] == x);
                    }
                }
                if prev.contains(x) {
                    let i = choose|i: int| 0 <= i < prev.len() && prev[i] == x;
                    assert(prev.push(q)[i] == x);
                }
            }
        }
        if exists|k: int| 0 <= k < n && pos_definitions()[k] == p && pos_predicate(p, tags) {
            let k = choose|k: int| 0 <= k < n && pos_definitions()[k] == p && pos_predicate(p, tags);
            if k < n - 1 {
                assert(exists|k2: int| 0 <= k2 < n - 1 && pos_definitions()[k2] == p && pos_predicate(p, tags));
            }
        }
    }
}

/// Each part of speech of a dictionary entry is decided by its own
/// dictionary flag alone; a noun is a common noun only when the entry is not
/// also a proper noun.
pub proof fn law_each_pos_by_its_flag(tags: WordTags)
    ensures
        poses_of_tags(tags).contains(Pos::Determiner) <==> tags.determiner,
        poses_of_tags(tags).contains(Pos::Noun) <==> (tags.noun && !tags.proper_noun),
        poses_of_tags(tags).contains(Pos::ProperNoun) <==> tags.proper_noun,
        poses_of_tags(tags).contains(Pos::Pronoun) <==> tags.pronoun,
        poses_of_tags(tags).contains(Pos::Verb) <==> tags.verb,
        poses_of_tags(tags).contains(Pos::Adjective) <==> tags.adjective,
        poses_of_tags(tags).contains(Pos::Adverb) <==> tags.adverb,
        poses_of_tags(tags).contains(Pos::Preposition) <==> tags.preposition,
        poses_of_tags(tags).contains(Pos::Conjunction) <==> tags.conjunction,
{
    let defs = pos_definitions();
    assert(defs[0] == Pos::Determiner);
    assert(defs[1] == Pos::Noun);
    assert(defs[2] == Pos::ProperNoun);
    assert(defs[3] == Pos::Pronoun);
    assert(defs[4] == Pos::Verb);
    assert(defs[5] == Pos::Adjective);
    assert(defs[6] == Pos::Adverb);
    assert(defs[7] == Pos::Preposition);
    assert(defs[8] == Pos::Conjunction);
    lemma_matching_poses_complete(tags, 9, Pos::Determiner);
    lemma_matching_poses_complete(tags, 9, Pos::Noun);
    lemma_matching_poses_complete(tags, 9, Pos::ProperNoun);
    lemma_matching_poses_complete(tags, 9, Pos::Pronoun);
    lemma_matching_poses_complete(tags, 9, Pos::Verb);
    lemma_matching_poses_complete(tags, 9, Pos::Adjective);
    lemma_matching_poses_complete(tags, 9, Pos::Adverb);
    lemma_matching_poses_complete(tags, 9, Pos::Preposition);
    lemma_matching_poses_complete(tags, 9, Pos::Conjunction);
}

/// The outcome of looking a word up in the dictionary.
#[derive(Debug, Clone, PartialEq, Eq)]
pub enum PosLookupResult {
    /// The word is not in the dictionary.
    NotFound,
    /// The word is in the dictionary but no part-of-speech predicate holds.
    FoundWithNoMatches,
    /// The word is in the dictionary with these parts of speech.
    FoundWithMatches(Vec<Pos>),
}

impl PosLookupResult {
    /// The matched parts of speech, empty unless some matched.
    pub fn _into_poses(self) -> (res: Vec<Pos>)
        ensures
            res@ == match self {
                PosLookupResult::FoundWithMatches(poses) => poses@,
                _ => Seq::<Pos>::empty(),
            },
    {
        match self {
            PosLookupResult::NotFound => Vec::new(),
            PosLookupResult::FoundWithNoMatches => Vec::new(),
            PosLookupResult::FoundWithMatches(poses) => poses,
        }
    }

    /// Whether the word was found in the dictionary.
    pub fn _is_found(&self) -> (b: bool)
        ensures
            b == !(self is NotFound),
    {
        !matches!(self, PosLookupResult::NotFound)
    }

    /// Whether the word was not found in the dictionary.
    pub fn _is_not_found(&self) -> (b: bool)
        ensures
            b == (self is NotFound),
    {
        matches!(self, PosLookupResult::NotFound)
    }
}

} // verus!
