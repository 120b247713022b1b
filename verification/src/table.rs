//! From context rows to the family tree.
use vstd::prelude::*;
use crate::pos::{Pos, PosLookupResult, poses_of_tags, law_each_pos_by_its_flag};
use crate::ngram::{Row, Side};
use crate::cli::{Alternative, Cfg, opt_view};
use crate::lexicon::{Lexicon, curated_tags, get_poses};
use crate::tree::{FamilyTree, FamiliesView, alternatives_added};
use crate::text::str_eq;

verus! {

/// A context row with the family of its alternative.
pub struct TableRow {
    /// The family, if the alternative was given one.
    pub fam: Option<String>,
    /// The alternative the context belongs to.
    pub alt: String,
    /// The side of the alternative the context stands on.
    pub side: Side,
    /// The context word.
    pub ctx: String,
}

/// The family of the first alternative written `a` (in the JSON form or as
/// entered); none when no alternative is.
pub open spec fn family_of_alt(alts: Seq<Alternative>, a: Seq<char>) -> Option<Seq<char>>
    decreases alts.len(),
{
    if alts.len() == 0 {
        None
    } else if alts[0].jfmt@ == a || alts[0].raw@ == a {
        opt_view(alts[0].fam)
    } else {
        family_of_alt(alts.drop_first(), a)
    }
}

proof fn lemma_family_of_alt_skip(alts: Seq<Alternative>, a: Seq<char>, i: int)
    requires
        0 <= i <= alts.len(),
        forall|j: int| 0 <= j < i ==> !((#[trigger] alts[j]).jfmt@ == a || alts[j].raw@ == a),
    ensures
        family_of_alt(alts, a) == family_of_alt(alts.skip(i), a),
    decreases i,
{
    if i > 0 {
        lemma_family_of_alt_skip(alts.drop_first(), a, i - 1);
        assert(alts.drop_first().skip(i - 1) =~= alts.skip(i));
        assert(!(alts[0].jfmt@ == a || alts[0].raw@ == a));
    } else {
        assert(alts.skip(0) =~= alts);
    }
}

fn family_for(alts: &Vec<Alternative>, a: &str) -> (res: Option<String>)
    ensures
        opt_view(res) == family_of_alt(alts@, a@),
{
    let mut i: usize = 0;
    while i < alts.len()
        invariant
            i <= alts@.len(),
            forall|j: int| 0 <= j < i ==> !((#[trigger] alts@[j]).jfmt@ == a@ || alts@[j].raw@ == a@),
        decreases alts@.len() - i,
    {
        if str_eq(alts[i].jfmt.as_str(), a) || str_eq(alts[i].raw.as_str(), a) {
            proof {
                lemma_family_of_alt_skip(alts@, a@, i as int);
                assert(alts@.skip(i as int)[0] == alts@[i as int]);
            }
            return match &alts[i].fam {
                Some(f) => Some(f.clone()),
                None => None,
            };
        }
        i = i + 1;
    }
    proof {
        lemma_family_of_alt_skip(alts@, a@, i as int);
        assert(alts@.skip(i as int).len() == 0);
    }
    None
}

/// A row is filed under the family of the first alternative that the
/// Ngram JSON writes as the row's alternative, or that was entered so; a
/// row that no alternative matches has no family of its own.
pub proof fn law_family_of_first_matching_alternative(alts: Seq<Alternative>, a: Seq<char>, i: int)
    ensures
        0 <= i < alts.len() && (alts[i].jfmt@ == a || alts[i].raw@ == a) && (forall|j: int|
            0 <= j < i ==> (#[trigger] alts[j]).jfmt@ != a && alts[j].raw@ != a) ==> family_of_alt(
            alts,
            a,
        ) == opt_view(alts[i].fam),
        (forall|j: int| 0 <= j < alts.len() ==> (#[trigger] alts[j]).jfmt@ != a && alts[j].raw@ != a)
            ==> family_of_alt(alts, a) is None,
{
    if 0 <= i < alts.len() && (alts[i].jfmt@ == a || alts[i].raw@ == a) && (forall|j: int|
        0 <= j < i ==> (#[trigger] alts[j]).jfmt@ != a && alts[j].raw@ != a) {
        lemma_family_of_alt_skip(alts, a, i);
        assert(alts.skip(i)[0] == alts[i]);
    }
    if forall|j: int| 0 <= j < alts.len() ==> (#[trigger] alts[j]).jfmt@ != a && alts[j].raw@ != a {
        lemma_family_of_alt_skip(alts, a, alts.len() as int);
        assert(alts.skip(alts.len() as int).len() == 0);
    }
}

/// The rows with the family of their alternative.
pub fn attach_families(cfg: &Cfg, rows: &Vec<Row>) -> (res: Vec<TableRow>)
    ensures
        res@.len() == rows@.len(),
        forall|i: int|
            0 <= i < rows@.len() ==> {
                &&& opt_view((#[trigger] res@[i]).fam) == family_of_alt(
                    cfg.alternatives@,
                    rows@[i].alt@,
                )
                &&& res@[i].alt@ == rows@[i].alt@
                &&& res@[i].side == rows@[i].side
                &&& res@[i].ctx@ == rows@[i].ctx@
            },
{
    let mut res: Vec<TableRow> = Vec::new();
    let mut i: usize = 0;
    while i < rows.len()
        invariant
            i <= rows@.len(),
            res@.len() == i,
            forall|k: int|
                0 <= k < i ==> {
                    &&& opt_view((#[trigger] res@[k]).fam) == family_of_alt(
                        cfg.alternatives@,
                        rows@[k].alt@,
                    )
                    &&& res@[k].alt@ == rows@[k].alt@
                    &&& res@[k].side == rows@[k].side
                    &&& res@[k].ctx@ == rows@[k].ctx@
                },
        decreases rows@.len() - i,
    {
        let row = &rows[i];
        let fam = family_for(&cfg.alternatives, row.alt);
        res.push(TableRow { fam, alt: row.alt.to_owned(), side: row.side, ctx: row.ctx.to_owned() });
        i = i + 1;
    }
    res
}

/// The family a row is filed under: its family, or else its alternative.
pub open spec fn row_family(r: TableRow) -> Option<Seq<char>> {
    match r.fam {
        Some(f) => Some(f@),
        None => Some(r.alt@),
    }
}

/// The parts of speech recorded for a context word: those the dictionary
/// gives it, none when it is unknown.
pub open spec fn context_poses(ctx: Seq<char>) -> Set<Pos> {
    match curated_tags(ctx) {
        Some(t) => poses_of_tags(t).to_set(),
        None => Set::empty(),
    }
}

/// The parts of speech recorded for a context word are exactly those whose
/// dictionary flag the word has, each decided by its own flag (a noun only
/// when the word is not also a proper noun); a word the dictionary lacks
/// gets none.
pub proof fn law_recorded_poses_follow_the_dictionary(w: Seq<char>)
    ensures
        curated_tags(w) is None ==> context_poses(w) == Set::<Pos>::empty(),
        curated_tags(w) is Some ==> {
            let t = curated_tags(w)->0;
            &&& context_poses(w).contains(Pos::Determiner) == t.determiner
            &&& context_poses(w).contains(Pos::Noun) == (t.noun && !t.proper_noun)
            &&& context_poses(w).contains(Pos::ProperNoun) == t.proper_noun
            &&& context_poses(w).contains(Pos::Pronoun) == t.pronoun
            &&& context_poses(w).contains(Pos::Verb) == t.verb
            &&& context_poses(w).contains(Pos::Adjective) == t.adjective
            &&& context_poses(w).contains(Pos::Adverb) == t.adverb
            &&& context_poses(w).contains(Pos::Preposition) == t.preposition
            &&& context_poses(w).contains(Pos::Conjunction) == t.conjunction
        },
{
    if curated_tags(w) is Some {
        let t = curated_tags(w)->0;
        law_each_pos_by_its_flag(t);
        let q = poses_of_tags(t);
        assert forall|p: Pos| q.to_set().contains(p) == q.contains(p) by {}
    }
}

/// The tree built from the rows in order.
pub open spec fn tree_of_rows(rows: Seq<TableRow>) -> FamiliesView
    decreases rows.len(),
{
    if rows.len() == 0 {
        Map::empty()
    } else {
        let m = tree_of_rows(rows.drop_last());
        let r = rows.last();
        let f = row_family(r);
        m.insert(
            f,
            alternatives_added(
                if m.dom().contains(f) { m[f] } else { Map::empty() },
                r.alt@,
                r.side,
                r.ctx@,
                context_poses(r.ctx@),
            ),
        )
    }
}

/// Files every row in the tree: family, alternative, side, context word,
/// with the parts of speech the dictionary gives the context word.
pub fn build_tree(lex: &Lexicon, rows: &Vec<TableRow>) -> (res: FamilyTree)
    ensures
        res.wf(),
        res@ == tree_of_rows(rows@),
{
    let mut tree = FamilyTree::new();
    let mut i: usize = 0;
    while i < rows.len()
        invariant
            i <= rows@.len(),
            tree.wf(),
            tree@ == tree_of_rows(rows@.take(i as int)),
        decreases rows@.len() - i,
    {
        let row = &rows[i];
        let poses: Vec<Pos> = match get_poses(lex, row.ctx.as_str()) {
            PosLookupResult::NotFound => Vec::new(),
            PosLookupResult::FoundWithNoMatches => Vec::new(),
            PosLookupResult::FoundWithMatches(matches) => matches,
        };
        assert(poses@.to_set() =~= context_poses(row.ctx@));
        let family_key = match &row.fam {
            Some(fam_name) => Some(fam_name.clone()),
            None => Some(row.alt.clone()),
        };
        tree.add(&family_key, row.alt.as_str(), row.side, row.ctx.as_str(), &poses);
        assert(rows@.take(i + 1).drop_last() == rows@.take(i as int));
        assert(rows@.take(i + 1).last() == rows@[i as int]);
        i = i + 1;
    }
    assert(rows@.take(rows@.len() as int) == rows@);
    tree
}

/// The tree records context word `w` on `side` of alternative `a` in
/// family `f`, with at least the parts of speech `ps`.
pub open spec fn records(
    t: FamiliesView,
    f: Option<Seq<char>>,
    a: Seq<char>,
    side: Side,
    w: Seq<char>,
    ps: Set<Pos>,
) -> bool {
    &&& t.dom().contains(f)
    &&& t[f].dom().contains(a)
    &&& t[f][a].dom().contains(side)
    &&& t[f][a][side].dom().contains(w)
    &&& ps.subset_of(t[f][a][side][w])
}

proof fn lemma_row_step_keeps(rows: Seq<TableRow>, f: Option<Seq<char>>, a: Seq<char>, side: Side, w: Seq<char>, ps: Set<Pos>)
    requires
        rows.len() > 0,
        records(tree_of_rows(rows.drop_last()), f, a, side, w, ps),
    ensures
        records(tree_of_rows(rows), f, a, side, w, ps),
{
    let m = tree_of_rows(rows.drop_last());
    let r = rows.last();
    let t = tree_of_rows(rows);
    if row_family(r) == f {
        if r.alt@ == a {
            if r.side == side {
                if r.ctx@ == w {
                    assert(ps.subset_of(m[f][a][side][w].union(context_poses(r.ctx@))));
                }
            }
        }
    }
}

proof fn lemma_row_step_adds(rows: Seq<TableRow>)
    requires
        rows.len() > 0,
    ensures
        ({
            let r = rows.last();
            records(tree_of_rows(rows), row_family(r), r.alt@, r.side, r.ctx@, context_poses(r.ctx@))
        }),
{
    let m = tree_of_rows(rows.drop_last());
    let r = rows.last();
    let f = row_family(r);
    let t = tree_of_rows(rows);
    let base = if m.dom().contains(f) { m[f] } else { Map::empty() };
    let sides = if base.dom().contains(r.alt@) { base[r.alt@] } else { crate::tree::empty_sides() };
    let ctxs = sides[r.side];
    if ctxs.dom().contains(r.ctx@) {
        assert(context_poses(r.ctx@).subset_of(ctxs[r.ctx@].union(context_poses(r.ctx@))));
    }
}

proof fn lemma_row_recorded_from(rows: Seq<TableRow>, i: int, n: int)
    requires
        0 <= i < n <= rows.len(),
    ensures
        ({
            let r = rows[i];
            records(tree_of_rows(rows.take(n)), row_family(r), r.alt@, r.side, r.ctx@, context_poses(r.ctx@))
        }),
    decreases n,
{
    let r = rows[i];
    if n == i + 1 {
        assert(rows.take(n).last() == r);
        lemma_row_step_adds(rows.take(n));
    } else {
        lemma_row_recorded_from(rows, i, n - 1);
        assert(rows.take(n).drop_last() == rows.take(n - 1));
        lemma_row_step_keeps(rows.take(n), row_family(r), r.alt@, r.side, r.ctx@, context_poses(r.ctx@));
    }
}

/// Every row is recorded in the tree: its family holds its alternative,
/// whose side holds its context word, with at least the parts of speech
/// that the dictionary gives the word.
pub proof fn law_every_row_recorded(rows: Seq<TableRow>, i: int)
    requires
        0 <= i < rows.len(),
    ensures
        ({
            let r = rows[i];
            records(tree_of_rows(rows), row_family(r), r.alt@, r.side, r.ctx@, context_poses(r.ctx@))
        }),
{
    lemma_row_recorded_from(rows, i, rows.len() as int);
    assert(rows.take(rows.len() as int) == rows);
}

} // verus!
