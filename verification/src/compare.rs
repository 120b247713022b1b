//! Comparison of the context words and parts of speech of two or three
//! families, side by side.
use vstd::prelude::*;
use crate::pos::Pos;
use crate::ngram::Side;
use crate::lexicon::{Lexicon, curated_spelling, curated_tags, display_spelling, get_correct_capitalization_of_string, is_oov};
use crate::tree::{AlternativeMap, AlternativesView, FamilyTree, family_contexts, family_poses, family_lt, ascending, keys_view, FamiliesView, lemma_family_lt_asymmetric};
use crate::text::{str_set, distinct_strs, texts, lowercase, sorted_texts, sort_texts, find_str, lowercased, filter_by_membership, string_from_chars};
use crate::cli::opt_view;

verus! {

/// A context word as shown: its dictionary spelling (or the word between
/// guillemets) and whether the dictionary lacks it.
pub struct WordItem {
    pub word: String,
    pub oov: bool,
}

/// A part of speech and the families it was seen in.
pub struct PosMark {
    pub pos: Pos,
    pub in_a: bool,
    pub in_b: bool,
    pub in_c: bool,
}

/// One side of a two-family comparison: the words only the first family
/// has, the words both have, the words only the second has, and the parts
/// of speech of either. With two families, the words the other family has
/// and one family lacks (its prohibited contexts) are the other family's
/// own words: `only_b` for the first family, `only_a` for the second.
pub struct SideReport {
    pub only_a: Vec<WordItem>,
    pub both: Vec<WordItem>,
    pub only_b: Vec<WordItem>,
    pub poses: Vec<PosMark>,
}

/// One side of a three-family comparison: the words only one family has,
/// the words all three have, for each family its prohibited contexts (the
/// words both other families have and it lacks), and the parts of speech
/// of any.
pub struct ThreeSideReport {
    pub only_a: Vec<WordItem>,
    pub only_b: Vec<WordItem>,
    pub only_c: Vec<WordItem>,
    pub all: Vec<WordItem>,
    pub prohibited_a: Vec<WordItem>,
    pub prohibited_b: Vec<WordItem>,
    pub prohibited_c: Vec<WordItem>,
    pub poses: Vec<PosMark>,
}

/// A comparison of the first two families in sorted order.
pub struct TwoFamilyReport {
    pub name_a: String,
    pub name_b: String,
    pub before: SideReport,
    pub after: SideReport,
}

/// A comparison of the first three families in sorted order.
pub struct ThreeFamilyReport {
    pub name_a: String,
    pub name_b: String,
    pub name_c: String,
    pub before: ThreeSideReport,
    pub after: ThreeSideReport,
}

/// How a context word is shown.
pub open spec fn word_item(w: Seq<char>) -> (Seq<char>, bool) {
    (display_spelling(w, curated_spelling(w)), curated_tags(w) is None)
}

/// The shown items.
pub open spec fn items_view(v: Seq<WordItem>) -> Seq<(Seq<char>, bool)> {
    v.map_values(|i: WordItem| (i.word@, i.oov))
}

/// The words of a set in ascending order, as shown.
pub open spec fn word_report(s: Set<Seq<char>>) -> Seq<(Seq<char>, bool)> {
    sorted_texts(s).map_values(|w: Seq<char>| word_item(w))
}

/// The lower-cased context words of one side of a family.
pub open spec fn lowered(m: AlternativesView, side: Side) -> Set<Seq<char>> {
    family_contexts(m, side).map(|w: Seq<char>| lowercase(w))
}

/// The marks list every part of speech of the three sets once, each with
/// the sets it belongs to.
pub open spec fn marks_exact(m: Seq<PosMark>, pa: Set<Pos>, pb: Set<Pos>, pc: Set<Pos>) -> bool {
    &&& m.map_values(|x: PosMark| x.pos).no_duplicates()
    &&& m.map_values(|x: PosMark| x.pos).to_set() == pa.union(pb).union(pc)
    &&& forall|i: int|
        0 <= i < m.len() ==> {
            &&& (#[trigger] m[i]).in_a == pa.contains(m[i].pos)
            &&& m[i].in_b == pb.contains(m[i].pos)
            &&& m[i].in_c == pc.contains(m[i].pos)
        }
}

/// What one side of a two-family comparison reports.
pub open spec fn two_side_report(r: SideReport, a: AlternativesView, b: AlternativesView, side: Side) -> bool {
    let la = lowered(a, side);
    let lb = lowered(b, side);
    &&& items_view(r.only_a@) == word_report(la.difference(lb))
    &&& items_view(r.both@) == word_report(la.intersect(lb))
    &&& items_view(r.only_b@) == word_report(lb.difference(la))
    &&& marks_exact(r.poses@, family_poses(a, side), family_poses(b, side), Set::empty())
}

/// What one side of a three-family comparison reports.
pub open spec fn three_side_report(
    r: ThreeSideReport,
    a: AlternativesView,
    b: AlternativesView,
    c: AlternativesView,
    side: Side,
) -> bool {
    let la = lowered(a, side);
    let lb = lowered(b, side);
    let lc = lowered(c, side);
    &&& items_view(r.only_a@) == word_report(la.difference(lb.union(lc)))
    &&& items_view(r.only_b@) == word_report(lb.difference(la.union(lc)))
    &&& items_view(r.only_c@) == word_report(lc.difference(la.union(lb)))
    &&& items_view(r.all@) == word_report(la.intersect(lb).intersect(lc))
    &&& items_view(r.prohibited_a@) == word_report(lb.intersect(lc).difference(la))
    &&& items_view(r.prohibited_b@) == word_report(la.intersect(lc).difference(lb))
    &&& items_view(r.prohibited_c@) == word_report(la.intersect(lb).difference(lc))
    &&& marks_exact(r.poses@, family_poses(a, side), family_poses(b, side), family_poses(c, side))
}

/// The name shown for a family: its name, or `None`.
pub open spec fn family_name(k: Option<Seq<char>>) -> Seq<char> {
    match k {
        Some(n) => n,
        None => "None"@,
    }
}

/// The spelling recorded in one of the families for a lower-cased
/// word, or the word itself. A string set holds the word exactly when it
/// holds a string equal to it, so the result is always the word.
pub fn raw_input_word(a: &Vec<String>, b: &Vec<String>, c: Option<&Vec<String>>, low: &str) -> (res: String)
    ensures
        res@ == low@,
{
    if let Some(orig) = find_str(a, low) {
        return orig;
    }
    if let Some(orig) = find_str(b, low) {
        return orig;
    }
    if let Some(cs) = c {
        if let Some(orig) = find_str(cs, low) {
            return orig;
        }
    }
    low.to_owned()
}

fn describe_words(lex: &Lexicon, words: &Vec<String>, a: &Vec<String>, b: &Vec<String>, c: Option<&Vec<String>>) -> (res: Vec<WordItem>)
    ensures
        items_view(res@) == texts(words@).map_values(|w: Seq<char>| word_item(w)),
{
    let mut res: Vec<WordItem> = Vec::new();
    let mut k: usize = 0;
    while k < words.len()
        invariant
            k <= words@.len(),
            items_view(res@) == texts(words@.take(k as int)).map_values(|w: Seq<char>| word_item(w)),
        decreases words@.len() - k,
    {
        let display = raw_input_word(a, b, c, words[k].as_str());
        let oov = is_oov(lex, display.as_str());
        let word = get_correct_capitalization_of_string(lex, display.as_str());
        let ghost r0 = res@;
        res.push(WordItem { word, oov });
        proof {
            assert(words@.take(k + 1) == words@.take(k as int).push(words@[k as int]));
            assert(texts(words@.take(k + 1)) =~= texts(words@.take(k as int)).push(words@[k as int]@));
            assert(res@ == r0.push(res@.last()));
            assert(items_view(res@) =~= items_view(r0).push((word@, oov)));
        }
        k = k + 1;
        assert(items_view(res@) =~= texts(words@.take(k as int)).map_values(|w: Seq<char>| word_item(w)));
    }
    assert(words@.take(words@.len() as int) == words@);
    res
}

fn sorted_report(lex: &Lexicon, set: Vec<String>, a: &Vec<String>, b: &Vec<String>, c: Option<&Vec<String>>) -> (res: Vec<WordItem>)
    requires
        distinct_strs(set@),
    ensures
        items_view(res@) == word_report(str_set(set@)),
{
    let sorted = sort_texts(set);
    describe_words(lex, &sorted, a, b, c)
}

fn contains_pos(v: &Vec<Pos>, p: Pos) -> (res: bool)
    ensures
        res == v@.contains(p),
{
    let mut i: usize = 0;
    while i < v.len()
        invariant
            i <= v@.len(),
            forall|k: int| 0 <= k < i ==> v@[k] != p,
        decreases v@.len() - i,
    {
        if v[i] == p {
            return true;
        }
        i = i + 1;
    }
    false
}

/// The marks carry the memberships of their part of speech.
pub open spec fn marks_flagged(m: Seq<PosMark>, pa: Seq<Pos>, pb: Seq<Pos>, pc: Seq<Pos>) -> bool {
    forall|i: int|
        0 <= i < m.len() ==> {
            &&& (#[trigger] m[i]).in_a == pa.contains(m[i].pos)
            &&& m[i].in_b == pb.contains(m[i].pos)
            &&& m[i].in_c == pc.contains(m[i].pos)
        }
}

fn add_marks(
    res: &mut Vec<PosMark>,
    seen: &mut Vec<Pos>,
    src: &Vec<Pos>,
    pa: &Vec<Pos>,
    pb: &Vec<Pos>,
    pc: &Vec<Pos>,
)
    requires
        old(seen)@ == old(res)@.map_values(|x: PosMark| x.pos),
        old(seen)@.no_duplicates(),
        marks_flagged(old(res)@, pa@, pb@, pc@),
    ensures
        final(seen)@ == final(res)@.map_values(|x: PosMark| x.pos),
        final(seen)@.no_duplicates(),
        final(seen)@.to_set() == old(seen)@.to_set().union(src@.to_set()),
        marks_flagged(final(res)@, pa@, pb@, pc@),
{
    let ghost before = seen@.to_set();
    let mut k: usize = 0;
    while k < src.len()
        invariant
            k <= src@.len(),
            seen@ == res@.map_values(|x: PosMark| x.pos),
            seen@.no_duplicates(),
            seen@.to_set() == before.union(src@.take(k as int).to_set()),
            marks_flagged(res@, pa@, pb@, pc@),
        decreases src@.len() - k,
    {
        let p = src[k];
        assert(src@.take(k + 1) == src@.take(k as int).push(p));
        proof {
            src@.take(k as int).lemma_push_to_set_commute(p);
        }
        if !contains_pos(seen, p) {
            let mark = PosMark {
                pos: p,
                in_a: contains_pos(pa, p),
                in_b: contains_pos(pb, p),
                in_c: contains_pos(pc, p),
            };
            let ghost s0 = seen@;
            let ghost r0 = res@;
            res.push(mark);
            seen.push(p);
            proof {
                s0.lemma_push_to_set_commute(p);
                assert(seen@ =~= res@.map_values(|x: PosMark| x.pos));
                assert(seen@.to_set() =~= before.union(src@.take(k + 1).to_set()));
                assert forall|i: int| 0 <= i < res@.len() implies {
                    &&& (#[trigger] res@[i]).in_a == pa@.contains(res@[i].pos)
                    &&& res@[i].in_b == pb@.contains(res@[i].pos)
                    &&& res@[i].in_c == pc@.contains(res@[i].pos)
                } by {
                    if i < r0.len() {
                        assert(res@[i] == r0[i]);
                    }
                }
            }
        } else {
            assert(seen@.to_set() =~= before.union(src@.take(k + 1).to_set()));
        }
        k = k + 1;
    }
    assert(src@.take(src@.len() as int) == src@);
}

/// Marks every part of speech of `pa`, `pb` and `pc` with the sets it is in.
pub fn pos_marks(pa: &Vec<Pos>, pb: &Vec<Pos>, pc: &Vec<Pos>) -> (res: Vec<PosMark>)
    ensures
        marks_exact(res@, pa@.to_set(), pb@.to_set(), pc@.to_set()),
{
    let mut res: Vec<PosMark> = Vec::new();
    let mut seen: Vec<Pos> = Vec::new();
    assert(seen@ =~= res@.map_values(|x: PosMark| x.pos));
    add_marks(&mut res, &mut seen, pa, pa, pb, pc);
    add_marks(&mut res, &mut seen, pb, pa, pb, pc);
    add_marks(&mut res, &mut seen, pc, pa, pb, pc);
    assert(seen@.to_set() =~= pa@.to_set().union(pb@.to_set()).union(pc@.to_set()));
    res
}

/// `ks` are the first families of the tree in sorted order.
pub open spec fn first_families(t: FamiliesView, ks: Seq<Option<Seq<char>>>) -> bool {
    &&& ascending(ks)
    &&& forall|i: int| 0 <= i < ks.len() ==> t.dom().contains(#[trigger] ks[i])
    &&& forall|x: Option<Seq<char>>, i: int|
        t.dom().contains(x) && !ks.contains(x) && 0 <= i < ks.len() ==> #[trigger] family_lt(
            ks[i],
            x,
        )
}

proof fn lemma_first_families_of_sorted(t: FamiliesView, keys: Seq<Option<Seq<char>>>, n: int)
    requires
        ascending(keys),
        keys.to_set() == t.dom(),
        0 <= n <= keys.len(),
    ensures
        first_families(t, keys.take(n)),
{
    let ks = keys.take(n);
    assert forall|i: int| 0 <= i < ks.len() implies t.dom().contains(#[trigger] ks[i]) by {
        assert(keys.to_set().contains(keys[i]));
    }
    assert forall|x: Option<Seq<char>>, i: int|
        t.dom().contains(x) && !ks.contains(x) && 0 <= i < ks.len() implies #[trigger] family_lt(
        ks[i],
        x,
    ) by {
        let j = choose|j: int| 0 <= j < keys.len() && keys[j] == x;
        if j < n {
            assert(ks[j] == x);
        }
        assert(keys[i] == ks[i]);
    }
}

fn two_side(lex: &Lexicon, fa: &AlternativeMap, fb: &AlternativeMap, side: Side) -> (res: SideReport)
    requires
        fa.wf(),
        fb.wf(),
    ensures
        two_side_report(res, fa@, fb@, side),
{
    let seen_a = fa.contexts_for_side(side);
    let seen_b = fb.contexts_for_side(side);
    let words_a = lowercased(&seen_a);
    let words_b = lowercased(&seen_b);
    let diff_a = filter_by_membership(&words_a, &words_b, false);
    let inter = filter_by_membership(&words_a, &words_b, true);
    let diff_b = filter_by_membership(&words_b, &words_a, false);
    let only_a = sorted_report(lex, diff_a, &seen_a, &seen_b, None);
    let both = sorted_report(lex, inter, &seen_a, &seen_b, None);
    let only_b = sorted_report(lex, diff_b, &seen_a, &seen_b, None);
    let poses_a = fa.poses_for_side(side);
    let poses_b = fb.poses_for_side(side);
    let none: Vec<Pos> = Vec::new();
    let poses = pos_marks(&poses_a, &poses_b, &none);
    assert(none@.to_set() =~= Set::<Pos>::empty());
    SideReport { only_a, both, only_b, poses }
}

fn three_side(
    lex: &Lexicon,
    fa: &AlternativeMap,
    fb: &AlternativeMap,
    fc: &AlternativeMap,
    side: Side,
) -> (res: ThreeSideReport)
    requires
        fa.wf(),
        fb.wf(),
        fc.wf(),
    ensures
        three_side_report(res, fa@, fb@, fc@, side),
{
    let seen_a = fa.contexts_for_side(side);
    let seen_b = fb.contexts_for_side(side);
    let seen_c = fc.contexts_for_side(side);
    let words_a = lowercased(&seen_a);
    let words_b = lowercased(&seen_b);
    let words_c = lowercased(&seen_c);
    let ghost la = str_set(words_a@);
    let ghost lb = str_set(words_b@);
    let ghost lc = str_set(words_c@);
    let a_not_b = filter_by_membership(&words_a, &words_b, false);
    let unique_a = filter_by_membership(&a_not_b, &words_c, false);
    assert(str_set(unique_a@) =~= la.difference(lb.union(lc)));
    let b_not_a = filter_by_membership(&words_b, &words_a, false);
    let unique_b = filter_by_membership(&b_not_a, &words_c, false);
    assert(str_set(unique_b@) =~= lb.difference(la.union(lc)));
    let c_not_a = filter_by_membership(&words_c, &words_a, false);
    let unique_c = filter_by_membership(&c_not_a, &words_b, false);
    assert(str_set(unique_c@) =~= lc.difference(la.union(lb)));
    let a_and_b = filter_by_membership(&words_a, &words_b, true);
    let all_three = filter_by_membership(&a_and_b, &words_c, true);
    let only_a = sorted_report(lex, unique_a, &seen_a, &seen_b, Some(&seen_c));
    let only_b = sorted_report(lex, unique_b, &seen_a, &seen_b, Some(&seen_c));
    let only_c = sorted_report(lex, unique_c, &seen_a, &seen_b, Some(&seen_c));
    let all = sorted_report(lex, all_three, &seen_a, &seen_b, Some(&seen_c));
    let b_and_c = filter_by_membership(&words_b, &words_c, true);
    let missing_a = filter_by_membership(&b_and_c, &words_a, false);
    let a_and_c = filter_by_membership(&words_a, &words_c, true);
    let missing_b = filter_by_membership(&a_and_c, &words_b, false);
    let missing_c = filter_by_membership(&a_and_b, &words_c, false);
    let prohibited_a = sorted_report(lex, missing_a, &seen_a, &seen_b, Some(&seen_c));
    let prohibited_b = sorted_report(lex, missing_b, &seen_a, &seen_b, Some(&seen_c));
    let prohibited_c = sorted_report(lex, missing_c, &seen_a, &seen_b, Some(&seen_c));
    let poses_a = fa.poses_for_side(side);
    let poses_b = fb.poses_for_side(side);
    let poses_c = fc.poses_for_side(side);
    let poses = pos_marks(&poses_a, &poses_b, &poses_c);
    ThreeSideReport { only_a, only_b, only_c, all, prohibited_a, prohibited_b, prohibited_c, poses }
}

fn family_name_of(k: &Option<String>) -> (res: String)
    ensures
        res@ == family_name(opt_view(*k)),
{
    match k {
        Some(n) => n.clone(),
        None => "None".to_owned(),
    }
}

/// Compares the first two families of the tree in sorted order, on both
/// sides: lower-cased context words only the first has, both have, only
/// the second has (each list in ascending order, each word shown with its
/// dictionary spelling and whether the dictionary lacks it), and the
/// parts of speech of either.
pub fn compare_two(lex: &Lexicon, tree: FamilyTree) -> (res: TwoFamilyReport)
    requires
        tree.wf(),
        tree@.dom().len() >= 2,
    ensures
        exists|ka: Option<Seq<char>>, kb: Option<Seq<char>>|
            {
                &&& first_families(tree@, seq![ka, kb])
                &&& res.name_a@ == family_name(ka)
                &&& res.name_b@ == family_name(kb)
                &&& two_side_report(res.before, tree@[ka], tree@[kb], Side::Before)
                &&& two_side_report(res.after, tree@[ka], tree@[kb], Side::After)
            },
{
    let ghost t = tree@;
    let (family_keys, fam_a, fam_b) = tree.into_two_families_sorted();
    let ghost kv = keys_view(family_keys@);
    proof {
        lemma_first_families_of_sorted(t, kv, 2);
        assert(kv.take(2) =~= seq![kv[0], kv[1]]);
    }
    let name_a = family_name_of(&family_keys[0]);
    let name_b = family_name_of(&family_keys[1]);
    let before = two_side(lex, &fam_a, &fam_b, Side::Before);
    let after = two_side(lex, &fam_a, &fam_b, Side::After);
    let res = TwoFamilyReport { name_a, name_b, before, after };
    assert(kv[0] == opt_view(family_keys@[0]) && kv[1] == opt_view(family_keys@[1]));
    let ghost ka = kv[0];
    let ghost kb = kv[1];
    assert({
        &&& first_families(t, seq![ka, kb])
        &&& res.name_a@ == family_name(ka)
        &&& res.name_b@ == family_name(kb)
        &&& two_side_report(res.before, t[ka], t[kb], Side::Before)
        &&& two_side_report(res.after, t[ka], t[kb], Side::After)
    });
    res
}

/// Compares the first three families of the tree in sorted order, on both
/// sides: lower-cased context words only one family has, words all three
/// have, words the other two have and each family lacks (each list in
/// ascending order, shown with dictionary spelling and whether the
/// dictionary lacks them), and the parts of speech of any.
pub fn compare_three(lex: &Lexicon, tree: FamilyTree) -> (res: ThreeFamilyReport)
    requires
        tree.wf(),
        tree@.dom().len() >= 3,
    ensures
        exists|ka: Option<Seq<char>>, kb: Option<Seq<char>>, kc: Option<Seq<char>>|
            {
                &&& first_families(tree@, seq![ka, kb, kc])
                &&& res.name_a@ == family_name(ka)
                &&& res.name_b@ == family_name(kb)
                &&& res.name_c@ == family_name(kc)
                &&& three_side_report(res.before, tree@[ka], tree@[kb], tree@[kc], Side::Before)
                &&& three_side_report(res.after, tree@[ka], tree@[kb], tree@[kc], Side::After)
            },
{
    let ghost t = tree@;
    let (family_keys, fam_a, fam_b, fam_c) = tree.into_three_families_sorted();
    let ghost kv = keys_view(family_keys@);
    proof {
        lemma_first_families_of_sorted(t, kv, 3);
        assert(kv.take(3) =~= seq![kv[0], kv[1], kv[2]]);
    }
    let name_a = family_name_of(&family_keys[0]);
    let name_b = family_name_of(&family_keys[1]);
    let name_c = family_name_of(&family_keys[2]);
    let before = three_side(lex, &fam_a, &fam_b, &fam_c, Side::Before);
    let after = three_side(lex, &fam_a, &fam_b, &fam_c, Side::After);
    assert(kv[0] == opt_view(family_keys@[0]) && kv[1] == opt_view(family_keys@[1]) && kv[2]
        == opt_view(family_keys@[2]));
    let res = ThreeFamilyReport { name_a, name_b, name_c, before, after };
    let ghost ka = kv[0];
    let ghost kb = kv[1];
    let ghost kc = kv[2];
    assert({
        &&& first_families(t, seq![ka, kb, kc])
        &&& res.name_a@ == family_name(ka)
        &&& res.name_b@ == family_name(kb)
        &&& res.name_c@ == family_name(kc)
        &&& three_side_report(res.before, t[ka], t[kb], t[kc], Side::Before)
        &&& three_side_report(res.after, t[ka], t[kb], t[kc], Side::After)
    });
    res
}

/// On each side, the words only the first family has, the words both
/// have and the words only the second has are disjoint, and together they
/// are every word either family has (after lower-casing).
pub proof fn law_two_way_partition(a: AlternativesView, b: AlternativesView, side: Side)
    ensures
        ({
            let la = lowered(a, side);
            let lb = lowered(b, side);
            &&& la.difference(lb).disjoint(la.intersect(lb))
            &&& la.difference(lb).disjoint(lb.difference(la))
            &&& la.intersect(lb).disjoint(lb.difference(la))
            &&& la.difference(lb).union(la.intersect(lb)).union(lb.difference(la)) == la.union(lb)
        }),
{
    let la = lowered(a, side);
    let lb = lowered(b, side);
    assert(la.difference(lb).union(la.intersect(lb)).union(lb.difference(la)) =~= la.union(lb));
}

/// Every context word of `m` on `side` has a word with the same lower-case
/// form among those of `m2`.
pub open spec fn case_covered(m: AlternativesView, m2: AlternativesView, side: Side) -> bool {
    forall|w: Seq<char>|
        #[trigger] family_contexts(m, side).contains(w) ==> exists|w2: Seq<char>|
            #[trigger] family_contexts(m2, side).contains(w2) && lowercase(w2) == lowercase(w)
}

/// A family `m2` is `m` with its context words on `side` renamed to words
/// of the same lower-case form, the parts of speech kept.
pub open spec fn case_renamed(m: AlternativesView, m2: AlternativesView, side: Side) -> bool {
    &&& case_covered(m, m2, side)
    &&& case_covered(m2, m, side)
    &&& family_poses(m2, side) == family_poses(m, side)
}

proof fn lemma_case_renamed_lowered(m: AlternativesView, m2: AlternativesView, side: Side)
    requires
        case_renamed(m, m2, side),
    ensures
        lowered(m2, side) == lowered(m, side),
{
    assert forall|x: Seq<char>| lowered(m, side).contains(x) implies lowered(m2, side).contains(x) by {
        let w = choose|w: Seq<char>| family_contexts(m, side).contains(w) && lowercase(w) == x;
        let w2 = choose|w2: Seq<char>|
            #[trigger] family_contexts(m2, side).contains(w2) && lowercase(w2) == lowercase(w);
        assert(family_contexts(m2, side).contains(w2));
    }
    assert forall|x: Seq<char>| lowered(m2, side).contains(x) implies lowered(m, side).contains(x) by {
        let w = choose|w: Seq<char>| family_contexts(m2, side).contains(w) && lowercase(w) == x;
        let w2 = choose|w2: Seq<char>|
            #[trigger] family_contexts(m, side).contains(w2) && lowercase(w2) == lowercase(w);
        assert(family_contexts(m, side).contains(w2));
    }
    assert(lowered(m2, side) =~= lowered(m, side));
}

/// Renaming context words to words of the same lower-case form, keeping
/// their parts of speech, does not change what a two-family comparison
/// reports on that side.
pub proof fn law_two_way_case_renaming(
    a: AlternativesView,
    b: AlternativesView,
    a2: AlternativesView,
    b2: AlternativesView,
    side: Side,
    r: SideReport,
)
    requires
        case_renamed(a, a2, side),
        case_renamed(b, b2, side),
    ensures
        two_side_report(r, a2, b2, side) <==> two_side_report(r, a, b, side),
{
    lemma_case_renamed_lowered(a, a2, side);
    lemma_case_renamed_lowered(b, b2, side);
}

/// Renaming context words to words of the same lower-case form, keeping
/// their parts of speech, does not change what a three-family comparison
/// reports on that side.
pub proof fn law_three_way_case_renaming(
    a: AlternativesView,
    b: AlternativesView,
    c: AlternativesView,
    a2: AlternativesView,
    b2: AlternativesView,
    c2: AlternativesView,
    side: Side,
    r: ThreeSideReport,
)
    requires
        case_renamed(a, a2, side),
        case_renamed(b, b2, side),
        case_renamed(c, c2, side),
    ensures
        three_side_report(r, a2, b2, c2, side) <==> three_side_report(r, a, b, c, side),
{
    lemma_case_renamed_lowered(a, a2, side);
    lemma_case_renamed_lowered(b, b2, side);
    lemma_case_renamed_lowered(c, c2, side);
}

/// Case variants merge: when one family has a context word and the other
/// family has a word with the same lower-case form on the same side, that
/// form counts as shared and as unique to neither.
pub proof fn law_case_variants_shared(
    a: AlternativesView,
    b: AlternativesView,
    side: Side,
    wa: Seq<char>,
    wb: Seq<char>,
)
    requires
        family_contexts(a, side).contains(wa),
        family_contexts(b, side).contains(wb),
        lowercase(wa) == lowercase(wb),
    ensures
        lowered(a, side).intersect(lowered(b, side)).contains(lowercase(wa)),
        !lowered(a, side).difference(lowered(b, side)).contains(lowercase(wa)),
        !lowered(b, side).difference(lowered(a, side)).contains(lowercase(wa)),
{
    assert(lowered(a, side).contains(lowercase(wa)));
    assert(lowered(b, side).contains(lowercase(wb)));
}

/// On each side, the words only one family has and the words all three
/// have are pairwise disjoint groups.
pub proof fn law_three_way_disjoint(a: AlternativesView, b: AlternativesView, c: AlternativesView, side: Side)
    ensures
        ({
            let la = lowered(a, side);
            let lb = lowered(b, side);
            let lc = lowered(c, side);
            let ua = la.difference(lb.union(lc));
            let ub = lb.difference(la.union(lc));
            let uc = lc.difference(la.union(lb));
            let all = la.intersect(lb).intersect(lc);
            &&& ua.disjoint(ub)
            &&& ua.disjoint(uc)
            &&& ub.disjoint(uc)
            &&& ua.disjoint(all)
            &&& ub.disjoint(all)
            &&& uc.disjoint(all)
        }),
{
}

proof fn lemma_first_families_agree(t: FamiliesView, ks1: Seq<Option<Seq<char>>>, ks2: Seq<Option<Seq<char>>>, n: int)
    requires
        first_families(t, ks1),
        first_families(t, ks2),
        ks1.len() == ks2.len(),
        0 <= n <= ks1.len(),
    ensures
        forall|i: int| 0 <= i < n ==> ks1[i] == ks2[i],
    decreases n,
{
    if n > 0 {
        lemma_first_families_agree(t, ks1, ks2, n - 1);
        let i = n - 1;
        let x = ks1[i];
        let y = ks2[i];
        if x != y {
            assert(t.dom().contains(x) && t.dom().contains(y));
            assert(family_lt(x, y)) by {
                if ks1.contains(y) {
                    let j = choose|j: int| 0 <= j < ks1.len() && ks1[j] == y;
                    if j < i {
                        assert(ks2[j] == y);
                        assert(family_lt(ks2[j], ks2[i]));
                        lemma_family_lt_asymmetric(y, y);
                    } else if j > i {
                        assert(family_lt(ks1[i], ks1[j]));
                    }
                }
            }
            assert(family_lt(y, x)) by {
                if ks2.contains(x) {
                    let j = choose|j: int| 0 <= j < ks2.len() && ks2[j] == x;
                    if j < i {
                        assert(ks1[j] == x);
                        assert(family_lt(ks1[j], ks1[i]));
                        lemma_family_lt_asymmetric(x, x);
                    } else if j > i {
                        assert(family_lt(ks2[i], ks2[j]));
                    }
                }
            }
            lemma_family_lt_asymmetric(x, y);
        }
    }
}

/// The first families of a tree in sorted order are determined by the
/// tree alone: the comparisons do not depend on the order in which the
/// tree was filled.
pub proof fn law_first_families_unique(t: FamiliesView, ks1: Seq<Option<Seq<char>>>, ks2: Seq<Option<Seq<char>>>)
    requires
        first_families(t, ks1),
        first_families(t, ks2),
        ks1.len() == ks2.len(),
    ensures
        ks1 == ks2,
{
    lemma_first_families_agree(t, ks1, ks2, ks1.len() as int);
    assert(ks1 =~= ks2);
}

/// The sorted family keys of a tree are determined by its families alone,
/// so sorting gives the same order on every run.
pub proof fn law_sorted_keys_unique(t: FamiliesView, k1: Seq<Option<Seq<char>>>, k2: Seq<Option<Seq<char>>>)
    requires
        ascending(k1),
        ascending(k2),
        k1.to_set() == t.dom(),
        k2.to_set() == t.dom(),
    ensures
        k1 == k2,
{
    lemma_first_families_of_sorted(t, k1, k1.len() as int);
    lemma_first_families_of_sorted(t, k2, k2.len() as int);
    assert(k1.take(k1.len() as int) == k1);
    assert(k2.take(k2.len() as int) == k2);
    assert(k1.len() == k2.len()) by {
        assert forall|i: int, j: int| 0 <= i < k1.len() && 0 <= j < k1.len() && i != j implies k1[i] != k1[j] by {
            if i < j {
                lemma_family_lt_asymmetric(k1[i], k1[j]);
            } else {
                lemma_family_lt_asymmetric(k1[j], k1[i]);
            }
        }
        assert forall|i: int, j: int| 0 <= i < k2.len() && 0 <= j < k2.len() && i != j implies k2[i] != k2[j] by {
            if i < j {
                lemma_family_lt_asymmetric(k2[i], k2[j]);
            } else {
                lemma_family_lt_asymmetric(k2[j], k2[i]);
            }
        }
        k1.unique_seq_to_set();
        k2.unique_seq_to_set();
    }
    law_first_families_unique(t, k1, k2);
}

} // verus!
