//! The family tree: families of alternatives, their context words on each
//! side and the parts of speech of those words.
use vstd::prelude::*;
use crate::pos::Pos;
use crate::ngram::Side;
use crate::text::{str_eq, str_set, distinct_strs, insert_pos, insert_str, str_lt, text_lt, lemma_text_lt_total, lemma_text_lt_first_difference, lemma_text_lt_proper_prefix, lemma_bytes_lt_transitive, lemma_bytes_lt_irreflexive, lemma_bytes_lt_asymmetric};
use crate::cli::opt_view;
use crate::lexicon::{Lexicon, curated_spelling, get_canon_case};

verus! {

/// The parts of speech found with some context word of a map.
pub open spec fn poses_union(m: Map<Seq<char>, Set<Pos>>) -> Set<Pos> {
    Set::new(|p: Pos| exists|w: Seq<char>| m.dom().contains(w) && #[trigger] m[w].contains(p))
}

/// The context words seen on one side of an alternative, each with the
/// parts of speech it can take. No word occurs twice, and no part of
/// speech occurs twice for one word.
pub struct ContextSet {
    pub entries: Vec<(String, Vec<Pos>)>,
}

impl ContextSet {
    /// No word occurs twice, and no part of speech twice for one word.
    pub open spec fn wf(&self) -> bool {
        &&& forall|i: int, j: int|
            0 <= i < j < self.entries@.len() ==> (#[trigger] self.entries@[i]).0@ != (
            #[trigger] self.entries@[j]).0@
        &&& forall|i: int|
            0 <= i < self.entries@.len() ==> (#[trigger] self.entries@[i]).1@.no_duplicates()
    }

    /// Some entry holds the word `w`.
    pub open spec fn has_word(&self, w: Seq<char>) -> bool {
        exists|i: int| 0 <= i < self.entries@.len() && (#[trigger] self.entries@[i]).0@ == w
    }

    /// The index of the entry of `w`.
    pub open spec fn index_of(&self, w: Seq<char>) -> int {
        choose|i: int| 0 <= i < self.entries@.len() && (#[trigger] self.entries@[i]).0@ == w
    }

    proof fn lemma_entry(&self, i: int)
        requires
            self.wf(),
            0 <= i < self.entries@.len(),
        ensures
            self@.dom().contains(self.entries@[i].0@),
            self@[self.entries@[i].0@] == self.entries@[i].1@.to_set(),
    {
        let w = self.entries@[i].0@;
        assert(self.has_word(w));
        let j = self.index_of(w);
        assert(j == i);
    }

    /// An empty set of contexts.
    pub fn new() -> (res: ContextSet)
        ensures
            res.wf(),
            res@ == Map::<Seq<char>, Set<Pos>>::empty(),
    {
        let res = ContextSet { entries: Vec::new() };
        assert(res@ =~= Map::<Seq<char>, Set<Pos>>::empty());
        res
    }

    /// The context words.
    pub fn contexts(&self) -> (res: Vec<String>)
        requires
            self.wf(),
        ensures
            distinct_strs(res@),
            str_set(res@) == self@.dom(),
    {
        let mut res: Vec<String> = Vec::new();
        let mut k: usize = 0;
        while k < self.entries.len()
            invariant
                self.wf(),
                k <= self.entries@.len(),
                res@.len() == k,
                forall|i: int| 0 <= i < k ==> (#[trigger] res@[i])@ == self.entries@[i].0@,
            decreases self.entries@.len() - k,
        {
            res.push(self.entries[k].0.clone());
            k = k + 1;
        }
        assert forall|w: Seq<char>| str_set(res@).contains(w) <==> self@.dom().contains(w) by {
            if str_set(res@).contains(w) {
                let i = choose|i: int| 0 <= i < res@.len() && #[trigger] res@[i]@ == w;
                assert(self.entries@[i].0@ == w);
            }
            if self@.dom().contains(w) {
                let i = self.index_of(w);
                assert(res@[i]@ == w);
            }
        }
        assert(str_set(res@) =~= self@.dom());
        res
    }

    /// Every part of speech found with some context word.
    pub fn all_poses(&self) -> (res: Vec<Pos>)
        requires
            self.wf(),
        ensures
            res@.no_duplicates(),
            res@.to_set() == poses_union(self@),
    {
        let mut res: Vec<Pos> = Vec::new();
        let mut k: usize = 0;
        while k < self.entries.len()
            invariant
                self.wf(),
                k <= self.entries@.len(),
                res@.no_duplicates(),
                res@.to_set() == Set::new(
                    |p: Pos|
                        exists|i: int| 0 <= i < k && (#[trigger] self.entries@[i]).1@.contains(p),
                ),
            decreases self.entries@.len() - k,
        {
            let poses = &self.entries[k].1;
            let ghost before = res@.to_set();
            let mut j: usize = 0;
            while j < poses.len()
                invariant
                    j <= poses@.len(),
                    res@.no_duplicates(),
                    res@.to_set() == before.union(poses@.take(j as int).to_set()),
                decreases poses@.len() - j,
            {
                let ghost r0 = res@.to_set();
                insert_pos(&mut res, poses[j]);
                proof {
                    assert(poses@.take(j + 1) == poses@.take(j as int).push(poses@[j as int]));
                    poses@.take(j as int).lemma_push_to_set_commute(poses@[j as int]);
                    assert(res@.to_set() =~= before.union(poses@.take(j + 1).to_set()));
                }
                j = j + 1;
            }
            assert(poses@.take(poses@.len() as int) == poses@);
            k = k + 1;
            assert forall|p: Pos|
                res@.to_set().contains(p) <==> (exists|i: int|
                    0 <= i < k && (#[trigger] self.entries@[i]).1@.contains(p)) by {
                if res@.to_set().contains(p) && !poses@.contains(p) {
                    assert(before.contains(p));
                }
                if poses@.contains(p) {
                    assert(self.entries@[k - 1].1@.contains(p));
                }
            }
            assert(res@.to_set() =~= Set::new(
                |p: Pos| exists|i: int| 0 <= i < k && (#[trigger] self.entries@[i]).1@.contains(p),
            ));
        }
        assert forall|p: Pos| res@.to_set().contains(p) <==> poses_union(self@).contains(p) by {
            if res@.to_set().contains(p) {
                let i = choose|i: int|
                    0 <= i < self.entries@.len() && (#[trigger] self.entries@[i]).1@.contains(p);
                self.lemma_entry(i);
                assert(self@[self.entries@[i].0@].contains(p));
            }
            if poses_union(self@).contains(p) {
                let w = choose|w: Seq<char>| self@.dom().contains(w) && #[trigger] self@[w].contains(p);
                let i = self.index_of(w);
                self.lemma_entry(i);
            }
        }
        assert(res@.to_set() =~= poses_union(self@));
        res
    }
}

/// The contexts after adding `w` with `poses`: the word's parts of speech
/// grow by `poses`.
pub open spec fn context_added(m: Map<Seq<char>, Set<Pos>>, w: Seq<char>, poses: Set<Pos>) -> Map<
    Seq<char>,
    Set<Pos>,
> {
    m.insert(w, if m.dom().contains(w) { m[w].union(poses) } else { poses })
}

fn copy_poses(v: &Vec<Pos>) -> (res: Vec<Pos>)
    ensures
        res@ == v@,
{
    let mut res: Vec<Pos> = Vec::new();
    let mut k: usize = 0;
    while k < v.len()
        invariant
            k <= v@.len(),
            res@ == v@.take(k as int),
        decreases v@.len() - k,
    {
        res.push(v[k]);
        k = k + 1;
        assert(v@.take(k as int) == v@.take(k - 1).push(v@[k - 1]));
    }
    assert(v@.take(v@.len() as int) == v@);
    res
}

/// Adds every part of speech of `more` to `acc`.
fn extend_poses(acc: &mut Vec<Pos>, more: &Vec<Pos>)
    requires
        old(acc)@.no_duplicates(),
    ensures
        final(acc)@.no_duplicates(),
        final(acc)@.to_set() == old(acc)@.to_set().union(more@.to_set()),
{
    let ghost before = acc@.to_set();
    let mut j: usize = 0;
    while j < more.len()
        invariant
            j <= more@.len(),
            acc@.no_duplicates(),
            acc@.to_set() == before.union(more@.take(j as int).to_set()),
        decreases more@.len() - j,
    {
        insert_pos(acc, more[j]);
        proof {
            assert(more@.take(j + 1) == more@.take(j as int).push(more@[j as int]));
            more@.take(j as int).lemma_push_to_set_commute(more@[j as int]);
            assert(acc@.to_set() =~= before.union(more@.take(j + 1).to_set()));
        }
        j = j + 1;
    }
    assert(more@.take(more@.len() as int) == more@);
}

impl ContextSet {
    fn find(&self, ctx: &str) -> (res: Option<usize>)
        requires
            self.wf(),
        ensures
            match res {
                Some(i) => i < self.entries@.len() && self.entries@[i as int].0@ == ctx@,
                None => !self.has_word(ctx@),
            },
    {
        let mut k: usize = 0;
        while k < self.entries.len()
            invariant
                k <= self.entries@.len(),
                forall|i: int| 0 <= i < k ==> (#[trigger] self.entries@[i]).0@ != ctx@,
            decreases self.entries@.len() - k,
        {
            if str_eq(self.entries[k].0.as_str(), ctx) {
                return Some(k);
            }
            k = k + 1;
        }
        None
    }

    /// Records `ctx` as a context word, with the parts of speech `poses`
    /// added to those it already has.
    pub fn add(&mut self, ctx: &str, poses: &Vec<Pos>)
        requires
            old(self).wf(),
        ensures
            final(self).wf(),
            final(self)@ == context_added(old(self)@, ctx@, poses@.to_set()),
    {
        let ghost old_self = *self;
        match self.find(ctx) {
            Some(i) => {
                let mut cur = copy_poses(&self.entries[i].1);
                extend_poses(&mut cur, poses);
                let key = self.entries[i].0.clone();
                self.entries.set(i, (key, cur));
                proof {
                    assert forall|a: int, b: int|
                        0 <= a < b < self.entries@.len() implies (#[trigger] self.entries@[a]).0@
                        != (#[trigger] self.entries@[b]).0@ by {
                        assert(old_self.entries@[a].0@ == self.entries@[a].0@);
                        assert(old_self.entries@[b].0@ == self.entries@[b].0@);
                    }
                    let target = context_added(old_self@, ctx@, poses@.to_set());
                    old_self.lemma_entry(i as int);
                    assert forall|w: Seq<char>| #[trigger] self@.dom().contains(w) <==> target.dom().contains(w) by {
                        if self.has_word(w) {
                            let j = self.index_of(w);
                            assert(old_self.entries@[j].0@ == w);
                        }
                        if old_self.has_word(w) {
                            let j = old_self.index_of(w);
                            assert(self.entries@[j].0@ == w);
                        }
                    }
                    assert forall|w: Seq<char>| #[trigger] self@.dom().contains(w) implies self@[w] == target[w] by {
                        let j = self.index_of(w);
                        self.lemma_entry(j);
                        if j != i {
                            assert(old_self.entries@[j] == self.entries@[j]);
                            old_self.lemma_entry(j);
                        }
                    }
                    assert(self@ =~= target);
                }
            },
            None => {
                let mut cur: Vec<Pos> = Vec::new();
                extend_poses(&mut cur, poses);
                self.entries.push((ctx.to_owned(), cur));
                proof {
                    let n = old_self.entries@.len() as int;
                    assert(cur@.to_set() =~= poses@.to_set());
                    assert forall|a: int, b: int|
                        0 <= a < b < self.entries@.len() implies (#[trigger] self.entries@[a]).0@
                        != (#[trigger] self.entries@[b]).0@ by {
                        if b < n {
                            assert(old_self.entries@[a] == self.entries@[a]);
                            assert(old_self.entries@[b] == self.entries@[b]);
                        } else {
                            assert(old_self.entries@[a] == self.entries@[a]);
                        }
                    }
                    assert forall|a: int| 0 <= a < self.entries@.len() implies (
                    #[trigger] self.entries@[a]).1@.no_duplicates() by {
                        if a < n {
                            assert(old_self.entries@[a] == self.entries@[a]);
                        }
                    }
                    let target = context_added(old_self@, ctx@, poses@.to_set());
                    self.lemma_entry(n);
                    assert forall|w: Seq<char>| #[trigger] self@.dom().contains(w) <==> target.dom().contains(w) by {
                        if self.has_word(w) {
                            let j = self.index_of(w);
                            if j < n {
                                assert(old_self.entries@[j].0@ == w);
                            }
                        }
                        if old_self.has_word(w) {
                            let j = old_self.index_of(w);
                            assert(self.entries@[j].0@ == w);
                        }
                    }
                    assert forall|w: Seq<char>| #[trigger] self@.dom().contains(w) implies self@[w] == target[w] by {
                        let j = self.index_of(w);
                        self.lemma_entry(j);
                        if j != n {
                            assert(old_self.entries@[j] == self.entries@[j]);
                            old_self.lemma_entry(j);
                        }
                    }
                    assert(self@ =~= target);
                }
            },
        }
    }
}

impl View for ContextSet {
    type V = Map<Seq<char>, Set<Pos>>;

    /// Each context word with the set of its parts of speech.
    open spec fn view(&self) -> Map<Seq<char>, Set<Pos>> {
        Map::new(
            |w: Seq<char>| self.has_word(w),
            |w: Seq<char>| self.entries@[self.index_of(w)].1@.to_set(),
        )
    }
}


/// The context words of one side of an alternative, with their parts of speech.
pub type ContextsView = Map<Seq<char>, Set<Pos>>;

/// Both sides of an alternative.
pub type SidesView = Map<Side, ContextsView>;

/// The alternatives of a family.
pub type AlternativesView = Map<Seq<char>, SidesView>;

/// The families of a tree.
pub type FamiliesView = Map<Option<Seq<char>>, AlternativesView>;

/// The context sets of both sides of one alternative.
pub struct SideMap {
    pub before: ContextSet,
    pub after: ContextSet,
}

impl SideMap {
    /// Both context sets are well formed.
    pub open spec fn wf(&self) -> bool {
        self.before.wf() && self.after.wf()
    }

    /// The context set of one side.
    pub open spec fn side_set(&self, side: Side) -> ContextSet {
        match side {
            Side::Before => self.before,
            Side::After => self.after,
        }
    }

    /// No contexts on either side.
    pub fn new() -> (res: SideMap)
        ensures
            res.wf(),
            res@[Side::Before] == Map::<Seq<char>, Set<Pos>>::empty(),
            res@[Side::After] == Map::<Seq<char>, Set<Pos>>::empty(),
    {
        SideMap { before: ContextSet::new(), after: ContextSet::new() }
    }

    /// The context set of one side.
    pub fn get(&self, side: Side) -> (res: &ContextSet)
        ensures
            *res == self.side_set(side),
    {
        match side {
            Side::Before => &self.before,
            Side::After => &self.after,
        }
    }

    /// The context words of one side.
    pub fn contexts_for_side(&self, side: Side) -> (res: Vec<String>)
        requires
            self.wf(),
        ensures
            distinct_strs(res@),
            str_set(res@) == self@[side].dom(),
    {
        self.get(side).contexts()
    }

    /// The parts of speech of the context words of one side.
    pub fn poses_for_side(&self, side: Side) -> (res: Vec<Pos>)
        requires
            self.wf(),
        ensures
            res@.no_duplicates(),
            res@.to_set() == poses_union(self@[side]),
    {
        self.get(side).all_poses()
    }

    /// Records a context word on one side.
    pub fn add(&mut self, side: Side, ctx: &str, poses: &Vec<Pos>)
        requires
            old(self).wf(),
        ensures
            final(self).wf(),
            final(self)@ == old(self)@.insert(
                side,
                context_added(old(self)@[side], ctx@, poses@.to_set()),
            ),
    {
        let ghost old_self = *self;
        match side {
            Side::Before => self.before.add(ctx, poses),
            Side::After => self.after.add(ctx, poses),
        }
        assert(self@ =~= old_self@.insert(
            side,
            context_added(old_self@[side], ctx@, poses@.to_set()),
        ));
    }
}

impl View for SideMap {
    type V = SidesView;

    /// The context set of each side.
    open spec fn view(&self) -> SidesView {
        Map::new(|s: Side| true, |s: Side| self.side_set(s)@)
    }
}

/// The context words seen on one side of any alternative of a family.
pub open spec fn family_contexts(m: AlternativesView, side: Side) -> Set<Seq<char>> {
    Set::new(
        |w: Seq<char>| exists|a: Seq<char>| m.dom().contains(a) && #[trigger] m[a][side].dom().contains(w),
    )
}

/// The parts of speech seen on one side of any alternative of a family.
pub open spec fn family_poses(m: AlternativesView, side: Side) -> Set<Pos> {
    Set::new(
        |p: Pos| exists|a: Seq<char>| m.dom().contains(a) && #[trigger] poses_union(m[a][side]).contains(p),
    )
}

/// The alternatives of one family with their contexts. No alternative
/// occurs twice.
pub struct AlternativeMap {
    pub entries: Vec<(String, SideMap)>,
}

impl AlternativeMap {
    /// No alternative occurs twice, and every side map is well formed.
    pub open spec fn wf(&self) -> bool {
        &&& forall|i: int, j: int|
            0 <= i < j < self.entries@.len() ==> (#[trigger] self.entries@[i]).0@ != (
            #[trigger] self.entries@[j]).0@
        &&& forall|i: int| 0 <= i < self.entries@.len() ==> (#[trigger] self.entries@[i]).1.wf()
    }

    /// Some entry holds the alternative `a`.
    pub open spec fn has_alt(&self, a: Seq<char>) -> bool {
        exists|i: int| 0 <= i < self.entries@.len() && (#[trigger] self.entries@[i]).0@ == a
    }

    /// The index of the entry of `a`.
    pub open spec fn index_of(&self, a: Seq<char>) -> int {
        choose|i: int| 0 <= i < self.entries@.len() && (#[trigger] self.entries@[i]).0@ == a
    }

    proof fn lemma_entry(&self, i: int)
        requires
            self.wf(),
            0 <= i < self.entries@.len(),
        ensures
            self@.dom().contains(self.entries@[i].0@),
            self@[self.entries@[i].0@] == self.entries@[i].1@,
    {
        let a = self.entries@[i].0@;
        assert(self.has_alt(a));
        let j = self.index_of(a);
        assert(j == i);
    }

    /// No alternatives.
    pub fn new() -> (res: AlternativeMap)
        ensures
            res.wf(),
            res@ == Map::<Seq<char>, SidesView>::empty(),
    {
        let res = AlternativeMap { entries: Vec::new() };
        assert(res@ =~= Map::<Seq<char>, SidesView>::empty());
        res
    }

    /// The context words seen on one side of any alternative.
    pub fn contexts_for_side(&self, side: Side) -> (res: Vec<String>)
        requires
            self.wf(),
        ensures
            distinct_strs(res@),
            str_set(res@) == family_contexts(self@, side),
    {
        let mut res: Vec<String> = Vec::new();
        let mut k: usize = 0;
        while k < self.entries.len()
            invariant
                self.wf(),
                k <= self.entries@.len(),
                distinct_strs(res@),
                str_set(res@) == Set::new(
                    |w: Seq<char>|
                        exists|i: int|
                            0 <= i < k && (#[trigger] self.entries@[i]).1@[side].dom().contains(w),
                ),
            decreases self.entries@.len() - k,
        {
            let words = self.entries[k].1.contexts_for_side(side);
            let ghost before = str_set(res@);
            let mut j: usize = 0;
            while j < words.len()
                invariant
                    j <= words@.len(),
                    distinct_strs(res@),
                    str_set(res@) == before.union(str_set(words@.take(j as int))),
                decreases words@.len() - j,
            {
                insert_str(&mut res, words[j].as_str());
                proof {
                    let t = words@.take(j + 1);
                    assert(str_set(t) =~= str_set(words@.take(j as int)).insert(words@[j as int]@)) by {
                        assert forall|w: Seq<char>| str_set(t).contains(w) <==> str_set(words@.take(j as int)).insert(words@[j as int]@).contains(w) by {
                            if str_set(t).contains(w) {
                                let i = choose|i: int| 0 <= i < t.len() && #[trigger] t[i]@ == w;
                                if i < j {
                                    assert(words@.take(j as int)[i] == t[i]);
                                }
                            }
                            if str_set(words@.take(j as int)).contains(w) {
                                let i = choose|i: int| 0 <= i < j && #[trigger] words@.take(j as int)[i]@ == w;
                                assert(t[i] == words@.take(j as int)[i]);
                            }
                            if w == words@[j as int]@ {
                                assert(t[j as int]@ == w);
                            }
                        }
                    }
                    assert(str_set(res@) =~= before.union(str_set(words@.take(j + 1))));
                }
                j = j + 1;
            }
            assert(words@.take(words@.len() as int) == words@);
            k = k + 1;
            assert forall|w: Seq<char>|
                str_set(res@).contains(w) <==> (exists|i: int|
                    0 <= i < k && (#[trigger] self.entries@[i]).1@[side].dom().contains(w)) by {
                if str_set(words@).contains(w) {
                    assert(self.entries@[k - 1].1@[side].dom().contains(w));
                }
            }
            assert(str_set(res@) =~= Set::new(
                |w: Seq<char>|
                    exists|i: int| 0 <= i < k && (#[trigger] self.entries@[i]).1@[side].dom().contains(w),
            ));
        }
        assert forall|w: Seq<char>| str_set(res@).contains(w) <==> family_contexts(self@, side).contains(w) by {
            if str_set(res@).contains(w) {
                let i = choose|i: int|
                    0 <= i < self.entries@.len() && (#[trigger] self.entries@[i]).1@[side].dom().contains(w);
                self.lemma_entry(i);
                assert(self@[self.entries@[i].0@][side].dom().contains(w));
            }
            if family_contexts(self@, side).contains(w) {
                let a = choose|a: Seq<char>| self@.dom().contains(a) && #[trigger] self@[a][side].dom().contains(w);
                let i = self.index_of(a);
                self.lemma_entry(i);
            }
        }
        assert(str_set(res@) =~= family_contexts(self@, side));
        res
    }

    /// The parts of speech seen on one side of any alternative.
    pub fn poses_for_side(&self, side: Side) -> (res: Vec<Pos>)
        requires
            self.wf(),
        ensures
            res@.no_duplicates(),
            res@.to_set() == family_poses(self@, side),
    {
        let mut res: Vec<Pos> = Vec::new();
        let mut k: usize = 0;
        while k < self.entries.len()
            invariant
                self.wf(),
                k <= self.entries@.len(),
                res@.no_duplicates(),
                res@.to_set() == Set::new(
                    |p: Pos|
                        exists|i: int|
                            0 <= i < k && poses_union((#[trigger] self.entries@[i]).1@[side]).contains(p),
                ),
            decreases self.entries@.len() - k,
        {
            let poses = self.entries[k].1.poses_for_side(side);
            let ghost before = res@.to_set();
            extend_poses(&mut res, &poses);
            k = k + 1;
            assert forall|p: Pos|
                res@.to_set().contains(p) <==> (exists|i: int|
                    0 <= i < k && poses_union((#[trigger] self.entries@[i]).1@[side]).contains(p)) by {
                if poses@.to_set().contains(p) {
                    assert(poses_union(self.entries@[k - 1].1@[side]).contains(p));
                }
            }
            assert(res@.to_set() =~= Set::new(
                |p: Pos|
                    exists|i: int|
                        0 <= i < k && poses_union((#[trigger] self.entries@[i]).1@[side]).contains(p),
            ));
        }
        assert forall|p: Pos| res@.to_set().contains(p) <==> family_poses(self@, side).contains(p) by {
            if res@.to_set().contains(p) {
                let i = choose|i: int|
                    0 <= i < self.entries@.len() && poses_union((#[trigger] self.entries@[i]).1@[side]).contains(p);
                self.lemma_entry(i);
                assert(poses_union(self@[self.entries@[i].0@][side]).contains(p));
            }
            if family_poses(self@, side).contains(p) {
                let a = choose|a: Seq<char>| self@.dom().contains(a) && #[trigger] poses_union(self@[a][side]).contains(p);
                let i = self.index_of(a);
                self.lemma_entry(i);
            }
        }
        assert(res@.to_set() =~= family_poses(self@, side));
        res
    }
}

impl View for AlternativeMap {
    type V = AlternativesView;

    /// Each alternative with the contexts of both its sides.
    open spec fn view(&self) -> AlternativesView {
        Map::new(
            |a: Seq<char>| self.has_alt(a),
            |a: Seq<char>| self.entries@[self.index_of(a)].1@,
        )
    }
}


/// Both sides without contexts.
pub open spec fn empty_sides() -> SidesView {
    Map::new(|s: Side| true, |s: Side| Map::<Seq<char>, Set<Pos>>::empty())
}

/// The sides after recording `ctx` with `poses` on `side`.
pub open spec fn sides_added(m: SidesView, side: Side, ctx: Seq<char>, poses: Set<Pos>) -> SidesView {
    m.insert(side, context_added(m[side], ctx, poses))
}

/// The alternatives after recording `ctx` with `poses` on `side` of `alt`.
pub open spec fn alternatives_added(
    m: AlternativesView,
    alt: Seq<char>,
    side: Side,
    ctx: Seq<char>,
    poses: Set<Pos>,
) -> AlternativesView {
    m.insert(
        alt,
        sides_added(if m.dom().contains(alt) { m[alt] } else { empty_sides() }, side, ctx, poses),
    )
}

impl AlternativeMap {
    fn find(&self, alt: &str) -> (res: Option<usize>)
        ensures
            match res {
                Some(i) => i < self.entries@.len() && self.entries@[i as int].0@ == alt@,
                None => !self.has_alt(alt@),
            },
    {
        let mut k: usize = 0;
        while k < self.entries.len()
            invariant
                k <= self.entries@.len(),
                forall|i: int| 0 <= i < k ==> (#[trigger] self.entries@[i]).0@ != alt@,
            decreases self.entries@.len() - k,
        {
            if str_eq(self.entries[k].0.as_str(), alt) {
                return Some(k);
            }
            k = k + 1;
        }
        None
    }

    /// Records `ctx` with `poses` on `side` of the alternative `alt`.
    pub fn add(&mut self, alt: &str, side: Side, ctx: &str, poses: &Vec<Pos>)
        requires
            old(self).wf(),
        ensures
            final(self).wf(),
            final(self)@ == alternatives_added(old(self)@, alt@, side, ctx@, poses@.to_set()),
    {
        let ghost old_self = *self;
        let ghost target = alternatives_added(old_self@, alt@, side, ctx@, poses@.to_set());
        match self.find(alt) {
            Some(i) => {
                let (key, mut sides) = self.entries.remove(i);
                sides.add(side, ctx, poses);
                self.entries.insert(i, (key, sides));
                proof {
                    assert(self.entries@ == old_self.entries@.update(i as int, (key, sides)));
                    assert forall|a: int, b: int|
                        0 <= a < b < self.entries@.len() implies (#[trigger] self.entries@[a]).0@
                        != (#[trigger] self.entries@[b]).0@ by {
                        assert(old_self.entries@[a].0@ == self.entries@[a].0@);
                        assert(old_self.entries@[b].0@ == self.entries@[b].0@);
                    }
                    assert forall|a: int| 0 <= a < self.entries@.len() implies (
                    #[trigger] self.entries@[a]).1.wf() by {
                        if a != i {
                            assert(old_self.entries@[a] == self.entries@[a]);
                        }
                    }
                    old_self.lemma_entry(i as int);
                    assert forall|w: Seq<char>| #[trigger] self@.dom().contains(w) <==> target.dom().contains(w) by {
                        if self.has_alt(w) {
                            let j = self.index_of(w);
                            assert(old_self.entries@[j].0@ == w);
                        }
                        if old_self.has_alt(w) {
                            let j = old_self.index_of(w);
                            assert(self.entries@[j].0@ == w);
                        }
                    }
                    assert forall|w: Seq<char>| #[trigger] self@.dom().contains(w) implies self@[w] == target[w] by {
                        let j = self.index_of(w);
                        self.lemma_entry(j);
                        if j != i {
                            assert(old_self.entries@[j] == self.entries@[j]);
                            old_self.lemma_entry(j);
                        }
                    }
                    assert(self@ =~= target);
                }
            },
            None => {
                let mut sides = SideMap::new();
                assert(sides@ =~= empty_sides());
                sides.add(side, ctx, poses);
                self.entries.push((alt.to_owned(), sides));
                proof {
                    let n = old_self.entries@.len() as int;
                    assert forall|a: int, b: int|
                        0 <= a < b < self.entries@.len() implies (#[trigger] self.entries@[a]).0@
                        != (#[trigger] self.entries@[b]).0@ by {
                        if b < n {
                            assert(old_self.entries@[a] == self.entries@[a]);
                            assert(old_self.entries@[b] == self.entries@[b]);
                        } else {
                            assert(old_self.entries@[a] == self.entries@[a]);
                        }
                    }
                    assert forall|a: int| 0 <= a < self.entries@.len() implies (
                    #[trigger] self.entries@[a]).1.wf() by {
                        if a < n {
                            assert(old_self.entries@[a] == self.entries@[a]);
                        }
                    }
                    self.lemma_entry(n);
                    assert forall|w: Seq<char>| #[trigger] self@.dom().contains(w) <==> target.dom().contains(w) by {
                        if self.has_alt(w) {
                            let j = self.index_of(w);
                            if j < n {
                                assert(old_self.entries@[j].0@ == w);
                            }
                        }
                        if old_self.has_alt(w) {
                            let j = old_self.index_of(w);
                            assert(self.entries@[j].0@ == w);
                        }
                    }
                    assert forall|w: Seq<char>| #[trigger] self@.dom().contains(w) implies self@[w] == target[w] by {
                        let j = self.index_of(w);
                        self.lemma_entry(j);
                        if j != n {
                            assert(old_self.entries@[j] == self.entries@[j]);
                            old_self.lemma_entry(j);
                        }
                    }
                    assert(self@ =~= target);
                }
            },
        }
    }
}

/// Families in the order of `Option<String>`: no family first, then by name.
pub open spec fn family_lt(a: Option<Seq<char>>, b: Option<Seq<char>>) -> bool {
    match (a, b) {
        (None, Some(_)) => true,
        (Some(x), Some(y)) => text_lt(x, y),
        _ => false,
    }
}

proof fn lemma_family_lt_transitive(a: Option<Seq<char>>, b: Option<Seq<char>>, c: Option<Seq<char>>)
    requires
        family_lt(a, b),
        family_lt(b, c),
    ensures
        family_lt(a, c),
{
    if a is Some {
        lemma_bytes_lt_transitive(
            vstd::utf8::encode_utf8(a->0),
            vstd::utf8::encode_utf8(b->0),
            vstd::utf8::encode_utf8(c->0),
        );
    }
}

proof fn lemma_family_lt_total(a: Option<Seq<char>>, b: Option<Seq<char>>)
    requires
        a != b,
    ensures
        family_lt(a, b) || family_lt(b, a),
{
    if a is Some && b is Some {
        assert(a->0 != b->0);
        lemma_text_lt_total(a->0, b->0);
    }
}

pub proof fn lemma_family_lt_asymmetric(a: Option<Seq<char>>, b: Option<Seq<char>>)
    requires
        family_lt(a, b),
    ensures
        !family_lt(b, a),
        a != b,
{
    if a is Some && b is Some {
        lemma_bytes_lt_asymmetric(vstd::utf8::encode_utf8(a->0), vstd::utf8::encode_utf8(b->0));
        lemma_bytes_lt_irreflexive(vstd::utf8::encode_utf8(a->0));
    }
}

/// Families come in the order of `Option<String>`: no family before every
/// named one; a name before every longer name that begins with it; and two
/// names that agree up to some character and differ there in the order of
/// those two characters (so `their` comes before `there`).
pub proof fn law_family_order(
    x: Seq<char>,
    c: char,
    p: Seq<char>,
    a: char,
    b: char,
    xs: Seq<char>,
    ys: Seq<char>,
)
    ensures
        family_lt(None, Some(x)),
        !family_lt(Some(x), None),
        !family_lt(None, None),
        family_lt(Some(x), Some(x + seq![c] + ys)),
        (a as u32) < (b as u32) ==> family_lt(Some(p + seq![a] + xs), Some(p + seq![b] + ys)),
{
    lemma_text_lt_proper_prefix(x, c, ys);
    if (a as u32) < (b as u32) {
        lemma_text_lt_first_difference(p, a, b, xs, ys);
    }
}

fn family_key_lt(a: &Option<String>, b: &Option<String>) -> (res: bool)
    ensures
        res == family_lt(opt_view(*a), opt_view(*b)),
{
    match (a, b) {
        (None, Some(_)) => true,
        (Some(x), Some(y)) => str_lt(x.as_str(), y.as_str()),
        _ => false,
    }
}

fn family_key_eq(a: &Option<String>, b: &Option<String>) -> (res: bool)
    ensures
        res == (opt_view(*a) == opt_view(*b)),
{
    match (a, b) {
        (None, None) => true,
        (Some(x), Some(y)) => str_eq(x.as_str(), y.as_str()),
        _ => false,
    }
}

fn clone_key(a: &Option<String>) -> (res: Option<String>)
    ensures
        opt_view(res) == opt_view(*a),
{
    match a {
        Some(x) => Some(x.clone()),
        None => None,
    }
}

/// The families of the tree; within each, the alternatives with their
/// contexts. No family occurs twice.
pub struct FamilyTree {
    pub entries: Vec<(Option<String>, AlternativeMap)>,
}

/// The family keys of a sequence of entries, in order.
pub open spec fn family_keys(e: Seq<(Option<String>, AlternativeMap)>) -> Seq<Option<Seq<char>>> {
    e.map_values(|x: (Option<String>, AlternativeMap)| opt_view(x.0))
}

/// A sequence of family keys in strictly ascending order.
pub open spec fn ascending(keys: Seq<Option<Seq<char>>>) -> bool {
    forall|i: int, j: int| 0 <= i < j < keys.len() ==> family_lt(#[trigger] keys[i], #[trigger] keys[j])
}

/// The family keys held by a sequence of optional strings.
pub open spec fn keys_view(keys: Seq<Option<String>>) -> Seq<Option<Seq<char>>> {
    keys.map_values(|k: Option<String>| opt_view(k))
}

impl FamilyTree {
    /// No family occurs twice, and every alternative map is well formed.
    pub open spec fn wf(&self) -> bool {
        &&& forall|i: int, j: int|
            0 <= i < j < self.entries@.len() ==> opt_view((#[trigger] self.entries@[i]).0)
                != opt_view((#[trigger] self.entries@[j]).0)
        &&& forall|i: int| 0 <= i < self.entries@.len() ==> (#[trigger] self.entries@[i]).1.wf()
    }

    /// Some entry holds the family `f`.
    pub open spec fn has_family(&self, f: Option<Seq<char>>) -> bool {
        exists|i: int| 0 <= i < self.entries@.len() && opt_view((#[trigger] self.entries@[i]).0) == f
    }

    /// The index of the entry of `f`.
    pub open spec fn index_of(&self, f: Option<Seq<char>>) -> int {
        choose|i: int| 0 <= i < self.entries@.len() && opt_view((#[trigger] self.entries@[i]).0) == f
    }

    proof fn lemma_entry(&self, i: int)
        requires
            self.wf(),
            0 <= i < self.entries@.len(),
        ensures
            self@.dom().contains(opt_view(self.entries@[i].0)),
            self@[opt_view(self.entries@[i].0)] == self.entries@[i].1@,
    {
        let f = opt_view(self.entries@[i].0);
        assert(self.has_family(f));
        let j = self.index_of(f);
        assert(j == i);
    }

    proof fn lemma_dom(&self)
        requires
            self.wf(),
        ensures
            self@.dom() == family_keys(self.entries@).to_set(),
            family_keys(self.entries@).no_duplicates(),
            self@.dom().len() == self.entries@.len(),
    {
        let ks = family_keys(self.entries@);
        assert forall|f: Option<Seq<char>>| self@.dom().contains(f) <==> ks.to_set().contains(f) by {
            if self.has_family(f) {
                let i = self.index_of(f);
                assert(ks[i] == f);
            }
            if ks.contains(f) {
                let i = choose|i: int| 0 <= i < ks.len() && ks[i] == f;
                assert(opt_view(self.entries@[i].0) == f);
            }
        }
        assert(self@.dom() =~= ks.to_set());
        assert forall|i: int, j: int| 0 <= i < ks.len() && 0 <= j < ks.len() && i != j implies ks[i] != ks[j] by {
            assert(ks[i] == opt_view(self.entries@[i].0));
            assert(ks[j] == opt_view(self.entries@[j].0));
            if i < j {
                assert(opt_view(self.entries@[i].0) != opt_view(self.entries@[j].0));
            } else {
                assert(opt_view(self.entries@[j].0) != opt_view(self.entries@[i].0));
            }
        }
        ks.unique_seq_to_set();
    }

    /// An empty tree.
    pub fn new() -> (res: FamilyTree)
        ensures
            res.wf(),
            res@ == Map::<Option<Seq<char>>, AlternativesView>::empty(),
    {
        let res = FamilyTree { entries: Vec::new() };
        assert(res@ =~= Map::<Option<Seq<char>>, AlternativesView>::empty());
        res
    }

    /// The number of families.
    pub fn len(&self) -> (res: usize)
        requires
            self.wf(),
        ensures
            res == self@.dom().len(),
    {
        proof {
            self.lemma_dom();
        }
        self.entries.len()
    }

    fn find(&self, fam: &Option<String>) -> (res: Option<usize>)
        ensures
            match res {
                Some(i) => i < self.entries@.len() && opt_view(self.entries@[i as int].0)
                    == opt_view(*fam),
                None => !self.has_family(opt_view(*fam)),
            },
    {
        let mut k: usize = 0;
        while k < self.entries.len()
            invariant
                k <= self.entries@.len(),
                forall|i: int| 0 <= i < k ==> opt_view((#[trigger] self.entries@[i]).0) != opt_view(*fam),
            decreases self.entries@.len() - k,
        {
            if family_key_eq(&self.entries[k].0, fam) {
                return Some(k);
            }
            k = k + 1;
        }
        None
    }

    /// Records `ctx` with `poses` on `side` of the alternative `alt` of the
    /// family `fam`.
    pub fn add(&mut self, fam: &Option<String>, alt: &str, side: Side, ctx: &str, poses: &Vec<Pos>)
        requires
            old(self).wf(),
        ensures
            final(self).wf(),
            final(self)@ == old(self)@.insert(
                opt_view(*fam),
                alternatives_added(
                    if old(self)@.dom().contains(opt_view(*fam)) {
                        old(self)@[opt_view(*fam)]
                    } else {
                        Map::empty()
                    },
                    alt@,
                    side,
                    ctx@,
                    poses@.to_set(),
                ),
            ),
    {
        let ghost old_self = *self;
        let ghost f = opt_view(*fam);
        let ghost target = old_self@.insert(
            f,
            alternatives_added(
                if old_self@.dom().contains(f) { old_self@[f] } else { Map::empty() },
                alt@,
                side,
                ctx@,
                poses@.to_set(),
            ),
        );
        match self.find(fam) {
            Some(i) => {
                let (key, mut alts) = self.entries.remove(i);
                alts.add(alt, side, ctx, poses);
                self.entries.insert(i, (key, alts));
                proof {
                    assert(self.entries@ == old_self.entries@.update(i as int, (key, alts)));
                    assert forall|a: int, b: int|
                        0 <= a < b < self.entries@.len() implies opt_view((#[trigger] self.entries@[a]).0)
                        != opt_view((#[trigger] self.entries@[b]).0) by {
                        assert(old_self.entries@[a].0 == self.entries@[a].0);
                        assert(old_self.entries@[b].0 == self.entries@[b].0);
                    }
                    assert forall|a: int| 0 <= a < self.entries@.len() implies (
                    #[trigger] self.entries@[a]).1.wf() by {
                        if a != i {
                            assert(old_self.entries@[a] == self.entries@[a]);
                        }
                    }
                    old_self.lemma_entry(i as int);
                    assert forall|w: Option<Seq<char>>| #[trigger] self@.dom().contains(w) <==> target.dom().contains(w) by {
                        if self.has_family(w) {
                            let j = self.index_of(w);
                            assert(opt_view(old_self.entries@[j].0) == w);
                        }
                        if old_self.has_family(w) {
                            let j = old_self.index_of(w);
                            assert(opt_view(self.entries@[j].0) == w);
                        }
                    }
                    assert forall|w: Option<Seq<char>>| #[trigger] self@.dom().contains(w) implies self@[w] == target[w] by {
                        let j = self.index_of(w);
                        self.lemma_entry(j);
                        if j != i {
                            assert(old_self.entries@[j] == self.entries@[j]);
                            old_self.lemma_entry(j);
                        }
                    }
                    assert(self@ =~= target);
                }
            },
            None => {
                let mut alts = AlternativeMap::new();
                alts.add(alt, side, ctx, poses);
                self.entries.push((clone_key(fam), alts));
                proof {
                    let n = old_self.entries@.len() as int;
                    assert forall|a: int, b: int|
                        0 <= a < b < self.entries@.len() implies opt_view((#[trigger] self.entries@[a]).0)
                        != opt_view((#[trigger] self.entries@[b]).0) by {
                        if b < n {
                            assert(old_self.entries@[a] == self.entries@[a]);
                            assert(old_self.entries@[b] == self.entries@[b]);
                        } else {
                            assert(old_self.entries@[a] == self.entries@[a]);
                        }
                    }
                    assert forall|a: int| 0 <= a < self.entries@.len() implies (
                    #[trigger] self.entries@[a]).1.wf() by {
                        if a < n {
                            assert(old_self.entries@[a] == self.entries@[a]);
                        }
                    }
                    self.lemma_entry(n);
                    assert forall|w: Option<Seq<char>>| #[trigger] self@.dom().contains(w) <==> target.dom().contains(w) by {
                        if self.has_family(w) {
                            let j = self.index_of(w);
                            if j < n {
                                assert(opt_view(old_self.entries@[j].0) == w);
                            }
                        }
                        if old_self.has_family(w) {
                            let j = old_self.index_of(w);
                            assert(opt_view(self.entries@[j].0) == w);
                        }
                    }
                    assert forall|w: Option<Seq<char>>| #[trigger] self@.dom().contains(w) implies self@[w] == target[w] by {
                        let j = self.index_of(w);
                        self.lemma_entry(j);
                        if j != n {
                            assert(old_self.entries@[j] == self.entries@[j]);
                            old_self.lemma_entry(j);
                        }
                    }
                    assert(self@ =~= target);
                }
            },
        }
    }
}

impl FamilyTree {
    /// The family keys in ascending order.
    pub fn sorted_keys(&self) -> (res: Vec<Option<String>>)
        requires
            self.wf(),
        ensures
            ascending(keys_view(res@)),
            keys_view(res@).to_set() == self@.dom(),
            res@.len() == self@.dom().len(),
    {
        let mut res: Vec<Option<String>> = Vec::new();
        let mut k: usize = 0;
        while k < self.entries.len()
            invariant
                self.wf(),
                k <= self.entries@.len(),
                res@.len() == k,
                ascending(keys_view(res@)),
                keys_view(res@).to_set() == family_keys(self.entries@.take(k as int)).to_set(),
            decreases self.entries@.len() - k,
        {
            let key = clone_key(&self.entries[k].0);
            let ghost kv = opt_view(key);
            let ghost rv = keys_view(res@);
            assert(!rv.to_set().contains(kv)) by {
                if family_keys(self.entries@.take(k as int)).contains(kv) {
                    let i = choose|i: int|
                        0 <= i < k && family_keys(self.entries@.take(k as int))[i] == kv;
                    assert(family_keys(self.entries@.take(k as int))[i] == opt_view(self.entries@[i].0));
                }
            }
            let mut j: usize = 0;
            while j < res.len() && !family_key_lt(&key, &res[j])
                invariant
                    j <= res@.len(),
                    rv == keys_view(res@),
                    !rv.contains(kv),
                    kv == opt_view(key),
                    forall|t: int| 0 <= t < j ==> family_lt(#[trigger] rv[t], kv),
                decreases res@.len() - j,
            {
                proof {
                    assert(rv[j as int] == opt_view(res@[j as int]));
                    assert(rv[j as int] != kv);
                    lemma_family_lt_total(rv[j as int], kv);
                }
                j = j + 1;
            }
            proof {
                if j < res@.len() {
                    assert(rv[j as int] == opt_view(res@[j as int]));
                }
            }
            res.insert(j, key);
            proof {
                let nv = keys_view(res@);
                assert(nv =~= rv.insert(j as int, kv));
                assert forall|a: int, b: int| 0 <= a < b < nv.len() implies family_lt(
                    #[trigger] nv[a],
                    #[trigger] nv[b],
                ) by {
                    if b < j {
                        assert(nv[a] == rv[a] && nv[b] == rv[b]);
                    } else if b == j {
                        assert(nv[a] == rv[a]);
                    } else if a == j {
                        assert(nv[b] == rv[b - 1]);
                        if b - 1 > j {
                            lemma_family_lt_transitive(kv, rv[j as int], rv[b - 1]);
                        }
                    } else if a < j {
                        assert(nv[a] == rv[a]);
                        assert(nv[b] == rv[b - 1]);
                        if b - 1 > j {
                            lemma_family_lt_transitive(kv, rv[j as int], rv[b - 1]);
                        }
                        lemma_family_lt_transitive(rv[a], kv, rv[b - 1]);
                    } else {
                        assert(nv[a] == rv[a - 1] && nv[b] == rv[b - 1]);
                    }
                }
                let fk = family_keys(self.entries@.take(k + 1));
                assert(fk =~= family_keys(self.entries@.take(k as int)).push(kv));
                assert forall|x: Option<Seq<char>>| nv.contains(x) <==> fk.contains(x) by {
                    if nv.contains(x) {
                        let i = choose|i: int| 0 <= i < nv.len() && nv[i] == x;
                        if i < j {
                            assert(rv[i] == x);
                            assert(rv.to_set().contains(x));
                        } else if i > j {
                            assert(rv[i - 1] == x);
                            assert(rv.to_set().contains(x));
                        }
                        if x != kv {
                            let ftk = family_keys(self.entries@.take(k as int));
                            assert(ftk.to_set().contains(x));
                            let i2 = choose|i2: int| 0 <= i2 < ftk.len() && ftk[i2] == x;
                            assert(fk[i2] == x);
                        } else {
                            assert(fk[k as int] == kv);
                        }
                    }
                    if fk.contains(x) {
                        let i = choose|i: int| 0 <= i < fk.len() && fk[i] == x;
                        if i < k {
                            assert(family_keys(self.entries@.take(k as int))[i] == x);
                            assert(rv.to_set().contains(x));
                            let t = choose|t: int| 0 <= t < rv.len() && rv[t] == x;
                            if t < j {
                                assert(nv[t] == x);
                            } else {
                                assert(nv[t + 1] == x);
                            }
                        } else {
                            assert(nv[j as int] == x);
                        }
                    }
                }
                assert(nv.to_set() =~= fk.to_set());
            }
            k = k + 1;
        }
        proof {
            assert(self.entries@.take(self.entries@.len() as int) == self.entries@);
            self.lemma_dom();
        }
        res
    }

    /// Takes the alternatives of family `fam` out of the tree.
    pub fn take_family(&mut self, fam: &Option<String>) -> (res: AlternativeMap)
        requires
            old(self).wf(),
            old(self)@.dom().contains(opt_view(*fam)),
        ensures
            final(self).wf(),
            res.wf(),
            res@ == old(self)@[opt_view(*fam)],
            final(self)@ == old(self)@.remove(opt_view(*fam)),
    {
        let ghost old_self = *self;
        let ghost f = opt_view(*fam);
        let i = match self.find(fam) {
            Some(i) => i,
            None => {
                assert(false);
                0
            },
        };
        proof {
            old_self.lemma_entry(i as int);
        }
        let (_, alts) = self.entries.remove(i);
        proof {
            let n = old_self.entries@.len() as int;
            assert forall|a: int| 0 <= a < self.entries@.len() implies #[trigger] self.entries@[a]
                == old_self.entries@[if a < i { a } else { a + 1 }] by {}
            assert forall|a: int, b: int|
                0 <= a < b < self.entries@.len() implies opt_view((#[trigger] self.entries@[a]).0)
                != opt_view((#[trigger] self.entries@[b]).0) by {
                assert(self.entries@[a] == old_self.entries@[if a < i { a } else { a + 1 }]);
                assert(self.entries@[b] == old_self.entries@[if b < i { b } else { b + 1 }]);
            }
            assert forall|a: int| 0 <= a < self.entries@.len() implies (
            #[trigger] self.entries@[a]).1.wf() by {
                assert(self.entries@[a] == old_self.entries@[if a < i { a } else { a + 1 }]);
            }
            let target = old_self@.remove(f);
            assert forall|w: Option<Seq<char>>| #[trigger] self@.dom().contains(w) <==> target.dom().contains(w) by {
                if self.has_family(w) {
                    let j = self.index_of(w);
                    let oj = if j < i { j } else { j + 1 };
                    assert(self.entries@[j] == old_self.entries@[oj]);
                    assert(old_self.has_family(w));
                    assert(oj != i);
                }
                if target.dom().contains(w) {
                    let j = old_self.index_of(w);
                    assert(j != i);
                    let nj = if j < i { j } else { j - 1 };
                    assert(self.entries@[nj] == old_self.entries@[j]);
                    assert(opt_view(self.entries@[nj].0) == w);
                }
            }
            assert forall|w: Option<Seq<char>>| #[trigger] self@.dom().contains(w) implies self@[w] == target[w] by {
                let j = self.index_of(w);
                self.lemma_entry(j);
                let oj = if j < i { j } else { j + 1 };
                assert(self.entries@[j] == old_self.entries@[oj]);
                old_self.lemma_entry(oj);
            }
            assert(self@ =~= target);
        }
        alts
    }

    /// The sorted family keys and the alternatives of the first two
    /// families in that order.
    pub fn into_two_families_sorted(self) -> (res: (Vec<Option<String>>, AlternativeMap, AlternativeMap))
        requires
            self.wf(),
            self@.dom().len() >= 2,
        ensures
            ascending(keys_view(res.0@)),
            keys_view(res.0@).to_set() == self@.dom(),
            res.0@.len() == self@.dom().len(),
            res.1.wf(),
            res.2.wf(),
            res.1@ == self@[keys_view(res.0@)[0]],
            res.2@ == self@[keys_view(res.0@)[1]],
    {
        let mut tree = self;
        let keys = tree.sorted_keys();
        let ghost kv = keys_view(keys@);
        assert(kv[0] == opt_view(keys@[0]) && kv[1] == opt_view(keys@[1]));
        assert(kv.to_set().contains(kv[0]) && kv.to_set().contains(kv[1]));
        assert(family_lt(kv[0], kv[1]));
        proof {
            lemma_family_lt_asymmetric(kv[0], kv[1]);
        }
        let fam_a = tree.take_family(&keys[0]);
        let fam_b = tree.take_family(&keys[1]);
        (keys, fam_a, fam_b)
    }

    /// The sorted family keys and the alternatives of the first three
    /// families in that order.
    pub fn into_three_families_sorted(self) -> (res: (
        Vec<Option<String>>,
        AlternativeMap,
        AlternativeMap,
        AlternativeMap,
    ))
        requires
            self.wf(),
            self@.dom().len() >= 3,
        ensures
            ascending(keys_view(res.0@)),
            keys_view(res.0@).to_set() == self@.dom(),
            res.0@.len() == self@.dom().len(),
            res.1.wf(),
            res.2.wf(),
            res.3.wf(),
            res.1@ == self@[keys_view(res.0@)[0]],
            res.2@ == self@[keys_view(res.0@)[1]],
            res.3@ == self@[keys_view(res.0@)[2]],
    {
        let mut tree = self;
        let keys = tree.sorted_keys();
        let ghost kv = keys_view(keys@);
        assert(kv[0] == opt_view(keys@[0]) && kv[1] == opt_view(keys@[1]) && kv[2] == opt_view(
            keys@[2],
        ));
        assert(kv.to_set().contains(kv[0]) && kv.to_set().contains(kv[1]) && kv.to_set().contains(
            kv[2],
        ));
        assert(family_lt(kv[0], kv[1]) && family_lt(kv[0], kv[2]) && family_lt(kv[1], kv[2]));
        proof {
            lemma_family_lt_asymmetric(kv[0], kv[1]);
            lemma_family_lt_asymmetric(kv[0], kv[2]);
            lemma_family_lt_asymmetric(kv[1], kv[2]);
        }
        let fam_a = tree.take_family(&keys[0]);
        let fam_b = tree.take_family(&keys[1]);
        let fam_c = tree.take_family(&keys[2]);
        (keys, fam_a, fam_b, fam_c)
    }
}

impl View for FamilyTree {
    type V = FamiliesView;

    /// Each family with its alternatives.
    open spec fn view(&self) -> FamiliesView {
        Map::new(
            |f: Option<Seq<char>>| self.has_family(f),
            |f: Option<Seq<char>>| self.entries@[self.index_of(f)].1@,
        )
    }
}


/// Per part of speech, each canonical spelling with its number of
/// occurrences.
pub type PosWordCounts = Vec<(Pos, Vec<(String, usize)>)>;

/// No part of speech occurs twice, no spelling twice under one part of speech.
pub open spec fn counts_wf(cs: Seq<(Pos, Vec<(String, usize)>)>) -> bool {
    &&& forall|i: int, j: int| 0 <= i < j < cs.len() ==> (#[trigger] cs[i]).0 != (#[trigger] cs[j]).0
    &&& forall|i: int, a: int, b: int|
        0 <= i < cs.len() && 0 <= a < b < cs[i].1@.len() ==> (#[trigger] cs[i].1@[a]).0@ != (
        #[trigger] cs[i].1@[b]).0@
}

/// Every part of speech has at least one spelling, and every count is at
/// least one.
pub open spec fn counts_positive(cs: Seq<(Pos, Vec<(String, usize)>)>) -> bool {
    &&& forall|i: int| 0 <= i < cs.len() ==> (#[trigger] cs[i]).1@.len() > 0
    &&& forall|i: int, j: int| 0 <= i < cs.len() && 0 <= j < cs[i].1@.len() ==> (#[trigger] cs[i].1@[j]).1 >= 1
}

/// The parts of speech that have an entry.
pub open spec fn count_keys(cs: Seq<(Pos, Vec<(String, usize)>)>) -> Set<Pos> {
    Set::new(|p: Pos| exists|i: int| 0 <= i < cs.len() && (#[trigger] cs[i]).0 == p)
}

/// Some entry counts spelling `c` under part of speech `p`.
pub open spec fn has_count(cs: Seq<(Pos, Vec<(String, usize)>)>, p: Pos, c: Seq<char>) -> bool {
    exists|i: int, j: int|
        0 <= i < cs.len() && cs[i].0 == p && 0 <= j < cs[i].1@.len() && (#[trigger] cs[i].1@[j]).0@
            == c
}

/// The count of spelling `c` under part of speech `p`; 0 when there is none.
pub open spec fn count_of(cs: Seq<(Pos, Vec<(String, usize)>)>, p: Pos, c: Seq<char>) -> nat {
    if has_count(cs, p, c) {
        let (i, j) = choose|i: int, j: int|
            0 <= i < cs.len() && cs[i].0 == p && 0 <= j < cs[i].1@.len() && (#[trigger] cs[i].1@[j]).0@
                == c;
        cs[i].1@[j].1 as nat
    } else {
        0
    }
}

proof fn lemma_count_at(cs: Seq<(Pos, Vec<(String, usize)>)>, i: int, j: int)
    requires
        counts_wf(cs),
        0 <= i < cs.len(),
        0 <= j < cs[i].1@.len(),
    ensures
        has_count(cs, cs[i].0, cs[i].1@[j].0@),
        count_of(cs, cs[i].0, cs[i].1@[j].0@) == cs[i].1@[j].1 as nat,
{
    let p = cs[i].0;
    let c = cs[i].1@[j].0@;
    assert(has_count(cs, p, c));
    let (i2, j2) = choose|i2: int, j2: int|
        0 <= i2 < cs.len() && cs[i2].0 == p && 0 <= j2 < cs[i2].1@.len() && (#[trigger] cs[i2].1@[j2]).0@
            == c;
    assert(i2 == i) by {
        if i2 < i {
            assert(cs[i2].0 != cs[i].0);
        } else if i2 > i {
            assert(cs[i].0 != cs[i2].0);
        }
    }
    assert(j2 == j) by {
        if j2 < j {
            assert(cs[i].1@[j2].0@ != cs[i].1@[j].0@);
        } else if j2 > j {
            assert(cs[i].1@[j].0@ != cs[i].1@[j2].0@);
        }
    }
}

fn find_pos_entry(cs: &PosWordCounts, p: Pos) -> (res: Option<usize>)
    ensures
        match res {
            Some(i) => i < cs@.len() && cs@[i as int].0 == p,
            None => forall|i: int| 0 <= i < cs@.len() ==> (#[trigger] cs@[i]).0 != p,
        },
{
    let mut i: usize = 0;
    while i < cs.len()
        invariant
            i <= cs@.len(),
            forall|k: int| 0 <= k < i ==> (#[trigger] cs@[k]).0 != p,
        decreases cs@.len() - i,
    {
        if cs[i].0 == p {
            return Some(i);
        }
        i = i + 1;
    }
    None
}

fn find_word_entry(ws: &Vec<(String, usize)>, c: &str) -> (res: Option<usize>)
    ensures
        match res {
            Some(j) => j < ws@.len() && ws@[j as int].0@ == c@,
            None => forall|j: int| 0 <= j < ws@.len() ==> (#[trigger] ws@[j]).0@ != c@,
        },
{
    let mut j: usize = 0;
    while j < ws.len()
        invariant
            j <= ws@.len(),
            forall|k: int| 0 <= k < j ==> (#[trigger] ws@[k]).0@ != c@,
        decreases ws@.len() - j,
    {
        if str_eq(ws[j].0.as_str(), c) {
            return Some(j);
        }
        j = j + 1;
    }
    None
}

/// Adds one occurrence of spelling `c` under part of speech `p`.
#[verifier::rlimit(40)]
fn count_one(cs: &mut PosWordCounts, p: Pos, c: &str)
    requires
        counts_wf(old(cs)@),
        counts_positive(old(cs)@),
        count_of(old(cs)@, p, c@) < usize::MAX,
    ensures
        counts_wf(final(cs)@),
        counts_positive(final(cs)@),
        forall|q: Pos, d: Seq<char>|
            #[trigger] count_of(final(cs)@, q, d) == count_of(old(cs)@, q, d) + if q == p && d == c@ {
                1nat
            } else {
                0nat
            },
{
    let ghost old_cs = cs@;
    match find_pos_entry(cs, p) {
        Some(i) => {
            let (pp, mut inner) = cs.remove(i);
            let ghost old_inner = inner@;
            proof {
                assert(old_inner == old_cs[i as int].1@);
            }
            match find_word_entry(&inner, c) {
                Some(j) => {
                    proof {
                        lemma_count_at(old_cs, i as int, j as int);
                    }
                    let (w, n) = inner.remove(j);
                    inner.insert(j, (w, n + 1));
                    proof {
                        assert(inner@ =~= old_inner.update(j as int, (w, (n + 1) as usize)));
                    }
                },
                None => {
                    inner.push((c.to_owned(), 1));
                },
            }
            proof {
                assert(inner@.len() > 0);
                assert forall|m: int| 0 <= m < inner@.len() implies (#[trigger] inner@[m]).1 >= 1 by {
                    if m < old_inner.len() && inner@[m] == old_inner[m] {
                        assert(old_cs[i as int].1@[m].1 >= 1);
                    }
                }
            }
            cs.insert(i, (pp, inner));
            proof {
                assert forall|k: int| 0 <= k < cs@.len() implies (#[trigger] cs@[k]).1@.len() > 0 by {
                    if k != i {
                        assert(cs@[k] == old_cs[k]);
                    }
                }
                assert forall|k: int, m: int| 0 <= k < cs@.len() && 0 <= m < cs@[k].1@.len() implies (
                #[trigger] cs@[k].1@[m]).1 >= 1 by {
                    if k != i {
                        assert(cs@[k] == old_cs[k]);
                    } else {
                        assert(cs@[k].1@[m] == inner@[m]);
                    }
                }
                assert(cs@ == old_cs.update(i as int, (pp, inner)));
                assert forall|a: int, b: int| 0 <= a < b < cs@.len() implies (#[trigger] cs@[a]).0 != (
                #[trigger] cs@[b]).0 by {
                    assert(cs@[a].0 == old_cs[a].0);
                    assert(cs@[b].0 == old_cs[b].0);
                }
                assert forall|k: int, a: int, b: int|
                    0 <= k < cs@.len() && 0 <= a < b < cs@[k].1@.len() implies (
                    #[trigger] cs@[k].1@[a]).0@ != (#[trigger] cs@[k].1@[b]).0@ by {
                    if k != i {
                        assert(cs@[k] == old_cs[k]);
                    } else {
                        if b < old_inner.len() {
                            assert(cs@[k].1@[a].0@ == old_inner[a].0@);
                            assert(cs@[k].1@[b].0@ == old_inner[b].0@);
                        } else {
                            assert(cs@[k].1@[a].0@ == old_inner[a].0@);
                        }
                    }
                }
                assert forall|q: Pos, d: Seq<char>|
                    #[trigger] count_of(cs@, q, d) == count_of(old_cs, q, d) + if q == p && d == c@ {
                        1nat
                    } else {
                        0nat
                    } by {
                    if has_count(cs@, q, d) {
                        let (k, m) = choose|k: int, m: int|
                            0 <= k < cs@.len() && cs@[k].0 == q && 0 <= m < cs@[k].1@.len() && (
                            #[trigger] cs@[k].1@[m]).0@ == d;
                        lemma_count_at(cs@, k, m);
                        if k != i {
                            assert(cs@[k] == old_cs[k]);
                            lemma_count_at(old_cs, k, m);
                        } else if m < old_inner.len() {
                            assert(cs@[k].1@[m].0@ == old_inner[m].0@);
                            lemma_count_at(old_cs, k, m);
                        }
                    }
                    if has_count(old_cs, q, d) {
                        let (k, m) = choose|k: int, m: int|
                            0 <= k < old_cs.len() && old_cs[k].0 == q && 0 <= m < old_cs[k].1@.len() && (
                            #[trigger] old_cs[k].1@[m]).0@ == d;
                        lemma_count_at(old_cs, k, m);
                        if k != i {
                            assert(cs@[k] == old_cs[k]);
                        } else {
                            assert(cs@[k].1@[m].0@ == old_inner[m].0@);
                        }
                        lemma_count_at(cs@, k, m);
                    }
                    if q == p && d == c@ {
                        let m = if has_count(old_cs, q, d) {
                            choose|m: int| 0 <= m < old_inner.len() && (#[trigger] old_inner[m]).0@ == d
                        } else {
                            old_inner.len() as int
                        };
                        if has_count(old_cs, q, d) {
                            let (k2, m2) = choose|k2: int, m2: int|
                                0 <= k2 < old_cs.len() && old_cs[k2].0 == q && 0 <= m2 < old_cs[k2].1@.len() && (
                                #[trigger] old_cs[k2].1@[m2]).0@ == d;
                            assert(k2 == i) by {
                                if k2 < i {
                                    assert(old_cs[k2].0 != old_cs[i as int].0);
                                } else if k2 > i {
                                    assert(old_cs[i as int].0 != old_cs[k2].0);
                                }
                            }
                        }
                        assert(cs@[i as int].1@[m].0@ == d);
                        lemma_count_at(cs@, i as int, m);
                    }
                }
            }
        },
        None => {
            let mut inner: Vec<(String, usize)> = Vec::new();
            inner.push((c.to_owned(), 1));
            cs.push((p, inner));
            proof {
                let n = old_cs.len() as int;
                assert(cs@ == old_cs.push((p, inner)));
                assert forall|k: int| 0 <= k < cs@.len() implies (#[trigger] cs@[k]).1@.len() > 0 by {
                    if k < n {
                        assert(cs@[k] == old_cs[k]);
                    }
                }
                assert forall|k: int, m: int| 0 <= k < cs@.len() && 0 <= m < cs@[k].1@.len() implies (
                #[trigger] cs@[k].1@[m]).1 >= 1 by {
                    if k < n {
                        assert(cs@[k] == old_cs[k]);
                    }
                }
                assert forall|a: int, b: int| 0 <= a < b < cs@.len() implies (#[trigger] cs@[a]).0 != (
                #[trigger] cs@[b]).0 by {
                    assert(cs@[a] == old_cs[a]);
                    if b < n {
                        assert(cs@[b] == old_cs[b]);
                    }
                }
                assert forall|k: int, a: int, b: int|
                    0 <= k < cs@.len() && 0 <= a < b < cs@[k].1@.len() implies (
                    #[trigger] cs@[k].1@[a]).0@ != (#[trigger] cs@[k].1@[b]).0@ by {
                    if k < n {
                        assert(cs@[k] == old_cs[k]);
                    }
                }
                assert forall|q: Pos, d: Seq<char>|
                    #[trigger] count_of(cs@, q, d) == count_of(old_cs, q, d) + if q == p && d == c@ {
                        1nat
                    } else {
                        0nat
                    } by {
                    if has_count(cs@, q, d) {
                        let (k, m) = choose|k: int, m: int|
                            0 <= k < cs@.len() && cs@[k].0 == q && 0 <= m < cs@[k].1@.len() && (
                            #[trigger] cs@[k].1@[m]).0@ == d;
                        lemma_count_at(cs@, k, m);
                        if k < n {
                            assert(cs@[k] == old_cs[k]);
                            lemma_count_at(old_cs, k, m);
                        }
                    }
                    if has_count(old_cs, q, d) {
                        let (k, m) = choose|k: int, m: int|
                            0 <= k < old_cs.len() && old_cs[k].0 == q && 0 <= m < old_cs[k].1@.len() && (
                            #[trigger] old_cs[k].1@[m]).0@ == d;
                        lemma_count_at(old_cs, k, m);
                        assert(cs@[k] == old_cs[k]);
                        lemma_count_at(cs@, k, m);
                    }
                    if q == p && d == c@ {
                        assert(cs@[n].1@[0].0@ == d);
                        lemma_count_at(cs@, n, 0);
                    }
                }
            }
        },
    }
}


/// Adds one occurrence of spelling `canon` under each part of speech of `poses`.
fn count_word(cs: &mut PosWordCounts, poses: &Vec<Pos>, canon: &str)
    requires
        counts_wf(old(cs)@),
        counts_positive(old(cs)@),
        poses@.no_duplicates(),
        forall|p: Pos| poses@.contains(p) ==> count_of(old(cs)@, p, canon@) < usize::MAX,
    ensures
        counts_wf(final(cs)@),
        counts_positive(final(cs)@),
        forall|q: Pos, d: Seq<char>|
            #[trigger] count_of(final(cs)@, q, d) == count_of(old(cs)@, q, d) + if d == canon@
                && poses@.contains(q) {
                1nat
            } else {
                0nat
            },
{
    let ghost old_cs = cs@;
    let mut t: usize = 0;
    while t < poses.len()
        invariant
            t <= poses@.len(),
            counts_wf(cs@),
            counts_positive(cs@),
            poses@.no_duplicates(),
            forall|p: Pos| poses@.contains(p) ==> count_of(old_cs, p, canon@) < usize::MAX,
            forall|q: Pos, d: Seq<char>|
                #[trigger] count_of(cs@, q, d) == count_of(old_cs, q, d) + if d == canon@
                    && poses@.take(t as int).contains(q) {
                    1nat
                } else {
                    0nat
                },
        decreases poses@.len() - t,
    {
        let p = poses[t];
        assert(poses@.contains(p));
        assert(!poses@.take(t as int).contains(p)) by {
            let t0 = poses@.take(t as int);
            if t0.contains(p) {
                let k = choose|k: int| 0 <= k < t0.len() && t0[k] == p;
                assert(poses@[k] == poses@[t as int]);
            }
        }
        assert(count_of(cs@, p, canon@) == count_of(old_cs, p, canon@));
        count_one(cs, p, canon);
        proof {
            assert(poses@.take(t + 1) == poses@.take(t as int).push(p));
            let t1 = poses@.take(t + 1);
            let t0 = poses@.take(t as int);
            assert forall|q: Pos| t1.contains(q) <==> (t0.contains(q) || q == p) by {
                if t1.contains(q) {
                    let k = choose|k: int| 0 <= k < t1.len() && t1[k] == q;
                    if k < t {
                        assert(t0[k] == q);
                    }
                }
                if t0.contains(q) {
                    let k = choose|k: int| 0 <= k < t0.len() && t0[k] == q;
                    assert(t1[k] == q);
                }
                if q == p {
                    assert(t1[t as int] == q);
                }
            }
        }
        t = t + 1;
    }
    assert(poses@.take(poses@.len() as int) == poses@);
}

/// The spelling a context word is counted under: the dictionary's, or the
/// word itself when the dictionary lacks it.
pub open spec fn canonical(w: Seq<char>) -> Seq<char> {
    match curated_spelling(w) {
        Some(c) => c,
        None => w,
    }
}

/// The (alternative, context word) pairs on `side` whose word takes part of
/// speech `p` and is counted under spelling `c`.
pub open spec fn counted_pairs(m: AlternativesView, side: Side, p: Pos, c: Seq<char>) -> Set<(Seq<char>, Seq<char>)> {
    Set::new(
        |aw: (Seq<char>, Seq<char>)|
            m.dom().contains(aw.0) && m[aw.0][side].dom().contains(aw.1) && m[aw.0][side][aw.1].contains(p)
                && canonical(aw.1) == c,
    )
}

/// The number of context words on `side`, summed over the alternatives.
pub open spec fn side_total(e: Seq<(String, SideMap)>, side: Side) -> nat
    decreases e.len(),
{
    if e.len() == 0 {
        0
    } else {
        side_total(e.drop_last(), side) + e.last().1.side_set(side).entries@.len()
    }
}

proof fn lemma_side_total_mono(e: Seq<(String, SideMap)>, side: Side, i: int)
    requires
        0 <= i < e.len(),
    ensures
        side_total(e.take(i), side) + e[i].1.side_set(side).entries@.len() <= side_total(e, side),
    decreases e.len(),
{
    assert(e.take(e.len() as int) == e);
    if i == e.len() - 1 {
        assert(e.drop_last() == e.take(i));
    } else {
        lemma_side_total_mono(e.drop_last(), side, i);
        assert(e.drop_last().take(i) == e.take(i));
        assert(e.drop_last()[i] == e[i]);
    }
}

impl AlternativeMap {
    /// The pair of alternative and context word at entry `a`, word `b`.
    spec fn pair_at(&self, side: Side, a: int, b: int) -> (Seq<char>, Seq<char>) {
        (self.entries@[a].0@, self.entries@[a].1.side_set(side).entries@[b].0@)
    }

    /// Per part of speech, each canonical spelling of the context words on
    /// `side` with the number of (alternative, word) pairs that give it.
    pub fn pos_to_word_counts_for_side(&self, side: Side, dict: &Lexicon) -> (res: PosWordCounts)
        requires
            self.wf(),
            side_total(self.entries@, side) <= usize::MAX,
        ensures
            counts_wf(res@),
            counts_positive(res@),
            forall|p: Pos, c: Seq<char>|
                (#[trigger] counted_pairs(self@, side, p, c)).finite() && count_of(res@, p, c)
                    == counted_pairs(self@, side, p, c).len(),
            forall|p: Pos, c: Seq<char>|
                #[trigger] has_count(res@, p, c) <==> counted_pairs(self@, side, p, c).len() > 0,
            count_keys(res@) == family_poses(self@, side),
    {
        let mut cs: PosWordCounts = Vec::new();
        let ghost mut done: Set<(Seq<char>, Seq<char>)> = Set::empty();
        assert forall|p: Pos, c: Seq<char>|
            #[trigger] count_of(cs@, p, c) == done.filter(
                |aw: (Seq<char>, Seq<char>)| self@[aw.0][side][aw.1].contains(p) && canonical(aw.1) == c,
            ).len() by {
            assert(done.filter(
                |aw: (Seq<char>, Seq<char>)| self@[aw.0][side][aw.1].contains(p) && canonical(aw.1) == c,
            ) =~= Set::empty());
        }
        assert(self.entries@.take(0) == Seq::<(String, SideMap)>::empty());
        let mut i: usize = 0;
        while i < self.entries.len()
            invariant
                self.wf(),
                side_total(self.entries@, side) <= usize::MAX,
                i <= self.entries@.len(),
                counts_wf(cs@),
                counts_positive(cs@),
                done.finite(),
                done.len() == side_total(self.entries@.take(i as int), side),
                forall|aw: (Seq<char>, Seq<char>)|
                    done.contains(aw) <==> exists|a: int, b: int|
                        0 <= a < i && 0 <= b < self.entries@[a].1.side_set(side).entries@.len() && aw
                            == #[trigger] self.pair_at(side, a, b),
                forall|p: Pos, c: Seq<char>|
                    #[trigger] count_of(cs@, p, c) == done.filter(
                        |aw: (Seq<char>, Seq<char>)|
                            self@[aw.0][side][aw.1].contains(p) && canonical(aw.1) == c,
                    ).len(),
            decreases self.entries@.len() - i,
        {
            let ctxs = self.entries[i].1.get(side);
            proof {
                self.lemma_entry(i as int);
                lemma_side_total_mono(self.entries@, side, i as int);
            }
            let mut j: usize = 0;
            while j < ctxs.entries.len()
                invariant
                    self.wf(),
                    i < self.entries@.len(),
                    *ctxs == self.entries@[i as int].1.side_set(side),
                    ctxs.wf(),
                    self@[self.entries@[i as int].0@] == self.entries@[i as int].1@,
                    side_total(self.entries@.take(i as int), side) + ctxs.entries@.len() <= usize::MAX,
                    j <= ctxs.entries@.len(),
                    counts_wf(cs@),
                    counts_positive(cs@),
                    done.finite(),
                    done.len() == side_total(self.entries@.take(i as int), side) + j,
                    forall|aw: (Seq<char>, Seq<char>)|
                        done.contains(aw) <==> exists|a: int, b: int|
                            ((0 <= a < i && 0 <= b < self.entries@[a].1.side_set(side).entries@.len()) || (a
                                == i && 0 <= b < j)) && aw == #[trigger] self.pair_at(side, a, b),
                    forall|p: Pos, c: Seq<char>|
                        #[trigger] count_of(cs@, p, c) == done.filter(
                            |aw: (Seq<char>, Seq<char>)|
                                self@[aw.0][side][aw.1].contains(p) && canonical(aw.1) == c,
                        ).len(),
                decreases ctxs.entries@.len() - j,
            {
                let word = &ctxs.entries[j].0;
                let poses = &ctxs.entries[j].1;
                let (_, canon) = get_canon_case(dict, word.as_str());
                let ghost pr = self.pair_at(side, i as int, j as int);
                let ghost pfun = |p: Pos, c: Seq<char>| (|aw: (Seq<char>, Seq<char>)| self@[aw.0][side][aw.1].contains(p) && canonical(aw.1) == c);
                proof {
                    ctxs.lemma_entry(j as int);
                    assert(self@[pr.0][side][pr.1] == poses@.to_set());
                    assert(!done.contains(pr)) by {
                        if done.contains(pr) {
                            let (a, b) = choose|a: int, b: int|
                                ((0 <= a < i && 0 <= b < self.entries@[a].1.side_set(side).entries@.len()) || (a
                                    == i && 0 <= b < j)) && pr == #[trigger] self.pair_at(side, a, b);
                            if a != i {
                                if a < i {
                                    assert(self.entries@[a].0@ != self.entries@[i as int].0@);
                                }
                            } else {
                                assert(ctxs.entries@[b].0@ != ctxs.entries@[j as int].0@);
                            }
                        }
                    }
                    assert forall|p: Pos| poses@.contains(p) implies count_of(cs@, p, canon@) < usize::MAX by {
                        done.lemma_len_filter(pfun(p, canon@));
                    }
                }
                count_word(&mut cs, poses, canon.as_str());
                proof {
                    let nd = done.insert(pr);
                    assert forall|p: Pos, c: Seq<char>|
                        #[trigger] count_of(cs@, p, c) == nd.filter(pfun(p, c)).len() by {
                        done.lemma_len_filter(pfun(p, c));
                        if poses@.contains(p) && c == canon@ {
                            assert(nd.filter(pfun(p, c)) =~= done.filter(pfun(p, c)).insert(pr));
                        } else {
                            assert(nd.filter(pfun(p, c)) =~= done.filter(pfun(p, c)));
                        }
                    }
                    assert forall|aw: (Seq<char>, Seq<char>)|
                        nd.contains(aw) <==> exists|a: int, b: int|
                            ((0 <= a < i && 0 <= b < self.entries@[a].1.side_set(side).entries@.len()) || (a
                                == i && 0 <= b < j + 1)) && aw == #[trigger] self.pair_at(side, a, b) by {
                        if aw == pr {
                            assert(self.pair_at(side, i as int, j as int) == pr);
                        }
                    }
                    done = nd;
                }
                j = j + 1;
            }
            proof {
                assert(self.entries@.take(i + 1).drop_last() == self.entries@.take(i as int));
                assert(self.entries@.take(i + 1).last() == self.entries@[i as int]);
            }
            i = i + 1;
        }
        proof {
            assert forall|p: Pos, c: Seq<char>|
                (#[trigger] counted_pairs(self@, side, p, c)).finite() && count_of(cs@, p, c)
                    == counted_pairs(self@, side, p, c).len() by {
                let f = |aw: (Seq<char>, Seq<char>)| self@[aw.0][side][aw.1].contains(p) && canonical(aw.1) == c;
                assert forall|aw: (Seq<char>, Seq<char>)| done.filter(f).contains(aw) <==> counted_pairs(self@, side, p, c).contains(aw) by {
                    if done.contains(aw) {
                        let (a, b) = choose|a: int, b: int|
                            0 <= a < self.entries@.len() && 0 <= b < self.entries@[a].1.side_set(side).entries@.len() && aw
                                == #[trigger] self.pair_at(side, a, b);
                        self.lemma_entry(a);
                        self.entries@[a].1.side_set(side).lemma_entry(b);
                    }
                    if counted_pairs(self@, side, p, c).contains(aw) {
                        let a = self.index_of(aw.0);
                        self.lemma_entry(a);
                        let cset = self.entries@[a].1.side_set(side);
                        let b = cset.index_of(aw.1);
                        assert(self.pair_at(side, a, b) == aw);
                    }
                }
                assert(done.filter(f) =~= counted_pairs(self@, side, p, c));
                done.lemma_len_filter(f);
            }
            assert forall|p: Pos, c: Seq<char>|
                #[trigger] has_count(cs@, p, c) <==> counted_pairs(self@, side, p, c).len() > 0 by {
                assert(counted_pairs(self@, side, p, c).finite());
                if has_count(cs@, p, c) {
                    let (k, m) = choose|k: int, m: int|
                        0 <= k < cs@.len() && cs@[k].0 == p && 0 <= m < cs@[k].1@.len() && (
                        #[trigger] cs@[k].1@[m]).0@ == c;
                    lemma_count_at(cs@, k, m);
                }
            }
            assert forall|p: Pos| count_keys(cs@).contains(p) <==> family_poses(self@, side).contains(p) by {
                if count_keys(cs@).contains(p) {
                    let k = choose|k: int| 0 <= k < cs@.len() && (#[trigger] cs@[k]).0 == p;
                    let c = cs@[k].1@[0].0@;
                    lemma_count_at(cs@, k, 0);
                    let cp = counted_pairs(self@, side, p, c);
                    assert(cp.finite());
                    vstd::set::axiom_set_choose_len(cp);
                    let aw = cp.choose();
                    assert(self@.dom().contains(aw.0) && self@[aw.0][side].dom().contains(aw.1));
                    assert(poses_union(self@[aw.0][side]).contains(p));
                }
                if family_poses(self@, side).contains(p) {
                    let a = choose|a: Seq<char>| self@.dom().contains(a) && #[trigger] poses_union(
                        self@[a][side],
                    ).contains(p);
                    let w = choose|w: Seq<char>| self@[a][side].dom().contains(w) && #[trigger] self@[a][side][w].contains(p);
                    let cp = counted_pairs(self@, side, p, canonical(w));
                    assert(cp.contains((a, w)));
                    assert(cp.finite());
                    vstd::set::axiom_set_contains_len(cp, (a, w));
                    assert(has_count(cs@, p, canonical(w)));
                    let (k, m) = choose|k: int, m: int|
                        0 <= k < cs@.len() && cs@[k].0 == p && 0 <= m < cs@[k].1@.len() && (
                        #[trigger] cs@[k].1@[m]).0@ == canonical(w);
                    assert(cs@[k].0 == p);
                }
            }
            assert(count_keys(cs@) =~= family_poses(self@, side));
        }
        cs
    }
}

/// The sum of the counts of a list of spellings.
pub open spec fn count_sum(ws: Seq<(String, usize)>) -> nat
    decreases ws.len(),
{
    if ws.len() == 0 {
        0
    } else {
        count_sum(ws.drop_last()) + ws.last().1 as nat
    }
}

/// The counts stored under part of speech `p`, added up; 0 when `p` has no
/// entry.
pub open spec fn pos_total(cs: Seq<(Pos, Vec<(String, usize)>)>, p: Pos) -> nat {
    if exists|i: int| 0 <= i < cs.len() && (#[trigger] cs[i]).0 == p {
        let i = choose|i: int| 0 <= i < cs.len() && (#[trigger] cs[i]).0 == p;
        count_sum(cs[i].1@)
    } else {
        0
    }
}

/// The (alternative, context word) pairs on `side` whose word takes part of
/// speech `p`.
pub open spec fn pos_pairs(m: AlternativesView, side: Side, p: Pos) -> Set<(Seq<char>, Seq<char>)> {
    Set::new(
        |aw: (Seq<char>, Seq<char>)|
            m.dom().contains(aw.0) && m[aw.0][side].dom().contains(aw.1) && m[aw.0][side][aw.1].contains(p),
    )
}

/// The pairs of `pos_pairs` whose word is counted under one of the
/// spellings of `ws`.
spec fn spelled(m: AlternativesView, side: Side, p: Pos, ws: Seq<(String, usize)>) -> Set<(Seq<char>, Seq<char>)> {
    Set::new(
        |aw: (Seq<char>, Seq<char>)|
            pos_pairs(m, side, p).contains(aw) && exists|j: int|
                0 <= j < ws.len() && (#[trigger] ws[j]).0@ == canonical(aw.1),
    )
}

/// The counts are those of the (alternative, word) pairs of `m` on `side`.
pub open spec fn counts_exact(m: AlternativesView, side: Side, cs: Seq<(Pos, Vec<(String, usize)>)>) -> bool {
    forall|p: Pos, c: Seq<char>|
        (#[trigger] counted_pairs(m, side, p, c)).finite() && count_of(cs, p, c) == counted_pairs(
            m,
            side,
            p,
            c,
        ).len()
}

proof fn lemma_spelled_len(
    m: AlternativesView,
    side: Side,
    cs: Seq<(Pos, Vec<(String, usize)>)>,
    i: int,
    k: int,
)
    requires
        counts_wf(cs),
        counts_exact(m, side, cs),
        0 <= i < cs.len(),
        0 <= k <= cs[i].1@.len(),
    ensures
        spelled(m, side, cs[i].0, cs[i].1@.take(k)).finite(),
        spelled(m, side, cs[i].0, cs[i].1@.take(k)).len() == count_sum(cs[i].1@.take(k)),
    decreases k,
{
    let ws = cs[i].1@;
    let p = cs[i].0;
    if k == 0 {
        assert(spelled(m, side, p, ws.take(0)) =~= Set::empty());
    } else {
        lemma_spelled_len(m, side, cs, i, k - 1);
        let prev = spelled(m, side, p, ws.take(k - 1));
        let c = ws[k - 1].0@;
        let cp = counted_pairs(m, side, p, c);
        let cur = spelled(m, side, p, ws.take(k));
        assert forall|aw: (Seq<char>, Seq<char>)| cur.contains(aw) <==> (prev + cp).contains(aw) by {
            if cur.contains(aw) {
                let j = choose|j: int| 0 <= j < ws.take(k).len() && (#[trigger] ws.take(k)[j]).0@ == canonical(aw.1);
                if j < k - 1 {
                    assert(ws.take(k - 1)[j] == ws.take(k)[j]);
                }
            }
            if prev.contains(aw) {
                let j = choose|j: int| 0 <= j < ws.take(k - 1).len() && (#[trigger] ws.take(k - 1)[j]).0@ == canonical(aw.1);
                assert(ws.take(k - 1)[j] == ws.take(k)[j]);
            }
            if cp.contains(aw) {
                assert(ws.take(k)[k - 1] == ws[k - 1]);
            }
        }
        assert(cur =~= prev + cp);
        assert(prev.disjoint(cp)) by {
            assert forall|aw: (Seq<char>, Seq<char>)| prev.contains(aw) implies !cp.contains(aw) by {
                let j = choose|j: int| 0 <= j < ws.take(k - 1).len() && (#[trigger] ws.take(k - 1)[j]).0@ == canonical(aw.1);
                assert(ws.take(k - 1)[j] == ws[j]);
                assert(ws[j].0@ != ws[k - 1].0@);
            }
        }
        vstd::set_lib::lemma_set_disjoint_lens(prev, cp);
        lemma_count_at(cs, i, k - 1);
        assert(ws.take(k).drop_last() == ws.take(k - 1));
        assert(ws.take(k).last() == ws[k - 1]);
    }
}

/// The counts under one part of speech add up to the number of
/// (alternative, context word) pairs on that side whose word takes it.
pub proof fn law_counts_add_up(
    m: AlternativesView,
    side: Side,
    cs: Seq<(Pos, Vec<(String, usize)>)>,
    p: Pos,
)
    requires
        counts_wf(cs),
        counts_exact(m, side, cs),
    ensures
        pos_pairs(m, side, p).finite(),
        pos_total(cs, p) == pos_pairs(m, side, p).len(),
{
    let pp = pos_pairs(m, side, p);
    if exists|i: int| 0 <= i < cs.len() && (#[trigger] cs[i]).0 == p {
        let i = choose|i: int| 0 <= i < cs.len() && (#[trigger] cs[i]).0 == p;
        let ws = cs[i].1@;
        lemma_spelled_len(m, side, cs, i, ws.len() as int);
        assert(ws.take(ws.len() as int) == ws);
        let sp = spelled(m, side, p, ws);
        assert forall|aw: (Seq<char>, Seq<char>)| pp.contains(aw) implies sp.contains(aw) by {
            let c = canonical(aw.1);
            let cp = counted_pairs(m, side, p, c);
            assert(cp.contains(aw));
            assert(cp.finite());
            vstd::set::axiom_set_contains_len(cp, aw);
            assert(has_count(cs, p, c));
            let (i2, j2) = choose|i2: int, j2: int|
                0 <= i2 < cs.len() && cs[i2].0 == p && 0 <= j2 < cs[i2].1@.len() && (#[trigger] cs[i2].1@[j2]).0@
                    == c;
            assert(i2 == i) by {
                if i2 < i {
                    assert(cs[i2].0 != cs[i].0);
                } else if i2 > i {
                    assert(cs[i].0 != cs[i2].0);
                }
            }
            assert(ws[j2].0@ == c);
        }
        assert(sp =~= pp);
    } else {
        assert forall|aw: (Seq<char>, Seq<char>)| !pp.contains(aw) by {
            if pp.contains(aw) {
                let c = canonical(aw.1);
                let cp = counted_pairs(m, side, p, c);
                assert(cp.contains(aw));
                assert(cp.finite());
                vstd::set::axiom_set_contains_len(cp, aw);
                assert(has_count(cs, p, c));
                let (i2, j2) = choose|i2: int, j2: int|
                    0 <= i2 < cs.len() && cs[i2].0 == p && 0 <= j2 < cs[i2].1@.len() && (#[trigger] cs[i2].1@[j2]).0@
                        == c;
                assert(cs[i2].0 == p);
            }
        }
        assert(pp =~= Set::empty());
    }
}

} // verus!
