//! The command line: word alternatives, families and options.
use vstd::prelude::*;
use crate::text::{chars_of, string_from_chars, push_str_chars, contains_char};

verus! {

/// One word or phrase being compared.
/// `raw` is the text as entered,
/// `jfmt` is the form the Ngram JSON uses (hyphens and apostrophes at word
/// edges spaced out),
/// `fam` is the family the alternative belongs to.
#[derive(Debug, Clone)]
pub struct Alternative {
    pub raw: String,
    pub jfmt: String,
    pub fam: Option<String>,
}

/// The options and alternatives given on the command line.
pub struct Cfg {
    pub debug: bool,
    pub raw: bool,
    pub alternatives: Vec<Alternative>,
    pub has_families: bool,
    pub since_year: Option<[char; 4]>,
}

/// Why the command line was refused.
#[derive(Debug, Clone)]
pub enum CliError {
    /// A `--since=` value that is neither empty nor four ASCII digits.
    YearNotFourDigits,
    /// An argument that starts with `-` and is no known option.
    UnknownOption(String),
}

/// An optional string as characters.
pub open spec fn opt_view(o: Option<String>) -> Option<Seq<char>> {
    match o {
        Some(s) => Some(s@),
        None => None,
    }
}

/// An alternative as characters.
pub struct AltView {
    pub raw: Seq<char>,
    pub jfmt: Seq<char>,
    pub fam: Option<Seq<char>>,
}

/// An alternative as characters.
pub open spec fn alt_view(a: Alternative) -> AltView {
    AltView { raw: a.raw@, jfmt: a.jfmt@, fam: opt_view(a.fam) }
}

/// A refusal as characters.
pub enum ErrorView {
    YearNotFourDigits,
    UnknownOption(Seq<char>),
}

/// A refusal as characters.
pub open spec fn error_view(e: CliError) -> ErrorView {
    match e {
        CliError::YearNotFourDigits => ErrorView::YearNotFourDigits,
        CliError::UnknownOption(s) => ErrorView::UnknownOption(s@),
    }
}

/// The message of a refusal.
pub open spec fn error_message(e: ErrorView) -> Seq<char> {
    match e {
        ErrorView::YearNotFourDigits => "Year must be exactly 4 digits"@,
        ErrorView::UnknownOption(s) => "Unknown option: "@ + s,
    }
}

impl CliError {
    /// The message of the refusal.
    pub fn message(&self) -> (res: String)
        ensures
            res@ == error_message(error_view(*self)),
    {
        match self {
            CliError::YearNotFourDigits => "Year must be exactly 4 digits".to_owned(),
            CliError::UnknownOption(s) => {
                let mut out: Vec<char> = Vec::new();
                push_str_chars(&mut out, "Unknown option: ");
                push_str_chars(&mut out, s.as_str());
                string_from_chars(out.as_slice())
            },
        }
    }
}

/// `s` begins with `p`.
pub open spec fn starts_with(s: Seq<char>, p: Seq<char>) -> bool {
    p.len() <= s.len() && s.take(p.len() as int) == p
}

/// Every hyphen replaced by ` - `.
pub open spec fn spaced_hyphens(s: Seq<char>) -> Seq<char>
    decreases s.len(),
{
    if s.len() == 0 {
        seq![]
    } else {
        spaced_hyphens(s.drop_last()) + if s.last() == '-' {
            seq![' ', '-', ' ']
        } else {
            seq![s.last()]
        }
    }
}

proof fn lemma_spaced_hyphens_concat(x: Seq<char>, y: Seq<char>)
    ensures
        spaced_hyphens(x + y) == spaced_hyphens(x) + spaced_hyphens(y),
    decreases y.len(),
{
    if y.len() == 0 {
        assert(x + y =~= x);
        assert(spaced_hyphens(x) + spaced_hyphens(y) =~= spaced_hyphens(x));
    } else {
        lemma_spaced_hyphens_concat(x, y.drop_last());
        assert((x + y).drop_last() =~= x + y.drop_last());
        assert((x + y).last() == y.last());
        let tail = if y.last() == '-' {
            seq![' ', '-', ' ']
        } else {
            seq![y.last()]
        };
        assert(spaced_hyphens(x) + spaced_hyphens(y.drop_last()) + tail =~= spaced_hyphens(x) + (
        spaced_hyphens(y.drop_last()) + tail));
    }
}

proof fn lemma_spaced_hyphens_plain(s: Seq<char>)
    requires
        !s.contains('-'),
    ensures
        spaced_hyphens(s) == s,
    decreases s.len(),
{
    if s.len() > 0 {
        assert(!s.drop_last().contains('-')) by {
            if s.drop_last().contains('-') {
                let i = choose|i: int| 0 <= i < s.drop_last().len() && s.drop_last()[i] == '-';
                assert(s[i] == '-');
            }
        }
        lemma_spaced_hyphens_plain(s.drop_last());
        assert(s.last() != '-') by {
            assert(s[s.len() - 1] == s.last());
        }
        assert(s.drop_last().push(s.last()) =~= s);
    }
}

/// The Ngram JSON form of a hyphenated phrase: text without hyphens stays
/// as it is, and every hyphen, wherever it stands, becomes ` - ` while the
/// text on either side of it is formed on its own (so the result is the
/// pieces between hyphens joined by ` - `).
pub proof fn law_every_hyphen_spaced(x: Seq<char>, y: Seq<char>)
    ensures
        !x.contains('-') ==> spaced_hyphens(x) == x,
        spaced_hyphens(x + seq!['-'] + y) == spaced_hyphens(x) + seq![' ', '-', ' '] + spaced_hyphens(y),
{
    if !x.contains('-') {
        lemma_spaced_hyphens_plain(x);
    }
    lemma_spaced_hyphens_concat(x + seq!['-'], y);
    lemma_spaced_hyphens_concat(x, seq!['-']);
    assert(spaced_hyphens(seq!['-']) =~= seq![' ', '-', ' ']) by {
        let h = seq!['-'];
        assert(h.drop_last() =~= Seq::<char>::empty());
        assert(spaced_hyphens(h.drop_last()) =~= Seq::<char>::empty());
        assert(h.last() == '-');
    }
}

/// The pieces of `s` between spaces; an empty text is one empty piece.
pub open spec fn split_spaces(s: Seq<char>) -> Seq<Seq<char>>
    decreases s.len(),
{
    if s.len() == 0 {
        seq![seq![]]
    } else {
        let prev = split_spaces(s.drop_last());
        if s.last() == ' ' {
            prev.push(seq![])
        } else {
            prev.update(prev.len() - 1, prev.last().push(s.last()))
        }
    }
}

/// A word with a leading apostrophe becomes `' rest`; one with a trailing
/// apostrophe becomes `rest '`. A lone apostrophe is already spaced out and
/// stays as it is.
pub open spec fn spaced_apostrophe_piece(p: Seq<char>) -> Seq<char> {
    if p.len() > 1 && p[0] == '\'' {
        seq!['\'', ' '] + p.drop_first()
    } else if p.len() > 1 && p.last() == '\'' {
        p.drop_last() + seq![' ', '\'']
    } else {
        p
    }
}

/// The pieces joined by single spaces.
pub open spec fn join_spaces(ps: Seq<Seq<char>>) -> Seq<char>
    decreases ps.len(),
{
    if ps.len() == 0 {
        seq![]
    } else if ps.len() == 1 {
        ps[0]
    } else {
        join_spaces(ps.drop_last()) + seq![' '] + ps.last()
    }
}

/// Words that start or end with an apostrophe get it spaced out, as the
/// Ngram JSON writes them (`'tis` becomes `' tis`).
pub open spec fn spaced_apostrophes(s: Seq<char>) -> Seq<char> {
    join_spaces(split_spaces(s).map_values(|p: Seq<char>| spaced_apostrophe_piece(p)))
}

/// The text before the first `=` (all of it when there is none).
pub open spec fn before_eq(s: Seq<char>) -> Seq<char>
    decreases s.len(),
{
    if s.len() == 0 {
        s
    } else if s[0] == '=' {
        seq![]
    } else {
        seq![s[0]] + before_eq(s.drop_first())
    }
}

/// The text after the first `=` (empty when there is none).
pub open spec fn after_eq(s: Seq<char>) -> Seq<char>
    decreases s.len(),
{
    if s.len() == 0 {
        s
    } else if s[0] == '=' {
        s.drop_first()
    } else {
        after_eq(s.drop_first())
    }
}

/// The second `=`-separated field of a family option.
pub open spec fn family_field(a: Seq<char>) -> Seq<char> {
    before_eq(after_eq(a))
}

/// The argument selects a family.
pub open spec fn is_family_option(a: Seq<char>) -> bool {
    starts_with(a, "--family="@) || starts_with(a, "--fam="@) || starts_with(a, "-f="@)
}

/// Four ASCII digits.
pub open spec fn is_year(y: Seq<char>) -> bool {
    y.len() == 4 && forall|k: int| 0 <= k < 4 ==> '0' <= #[trigger] y[k] <= '9'
}

/// The parser's state after some arguments.
pub struct ArgState {
    pub debug: bool,
    pub raw: bool,
    pub alts: Seq<AltView>,
    pub has_families: bool,
    pub since_year: Option<Seq<char>>,
    pub family: Option<Seq<char>>,
    pub notes: Seq<Seq<char>>,
}

/// Where the parser stands after some arguments: still reading, refused
/// with the debug notes so far, or stopped at an unreachable case (a
/// family option without a name while debugging).
pub enum ArgRun {
    Reading(ArgState),
    Refused(ErrorView, Seq<Seq<char>>),
    Halted,
}

/// The debug note for a simple word.
pub open spec fn word_note(family: Option<Seq<char>>, a: Seq<char>) -> Seq<char> {
    match family {
        Some(f) => "👉Word: "@ + f + "::"@ + a,
        None => "👉Word: "@ + a,
    }
}

/// The parser state before any argument.
pub open spec fn initial_state() -> ArgState {
    ArgState {
        debug: false,
        raw: false,
        alts: seq![],
        has_families: false,
        since_year: None,
        family: None,
        notes: seq![],
    }
}

/// Reads the value of a start-year option.
pub open spec fn year_step(s: ArgState, y: Seq<char>) -> ArgRun {
    if y.len() == 0 {
        ArgRun::Reading(ArgState { since_year: None, ..s })
    } else if is_year(y) {
        ArgRun::Reading(ArgState { since_year: Some(y), ..s })
    } else {
        ArgRun::Refused(ErrorView::YearNotFourDigits, s.notes)
    }
}

/// Reads one argument.
pub open spec fn arg_step(s: ArgState, a: Seq<char>) -> ArgRun {
    if a == "--raw"@ {
        ArgRun::Reading(ArgState { raw: true, ..s })
    } else if a == "--debug"@ || a == "-d"@ {
        ArgRun::Reading(ArgState { debug: true, ..s })
    } else if is_family_option(a) {
        let f = family_field(a);
        if s.debug && f.len() == 0 {
            ArgRun::Halted
        } else {
            ArgRun::Reading(
                ArgState {
                    family: if f.len() == 0 { None } else { Some(f) },
                    has_families: true,
                    notes: if s.debug { s.notes.push("👉Family: "@ + f) } else { s.notes },
                    ..s
                },
            )
        }
    } else if starts_with(a, "--since="@) {
        year_step(s, a.skip(8))
    } else if starts_with(a, "--since-year="@) {
        year_step(s, a.skip(13))
    } else if a.len() > 0 && a[0] == '-' {
        ArgRun::Refused(ErrorView::UnknownOption(a), s.notes)
    } else if a.contains('-') {
        ArgRun::Reading(
            ArgState {
                alts: s.alts.push(AltView { raw: a, jfmt: spaced_hyphens(a), fam: s.family }),
                ..s
            },
        )
    } else if a.contains('\'') {
        ArgRun::Reading(
            ArgState {
                alts: s.alts.push(AltView { raw: a, jfmt: spaced_apostrophes(a), fam: s.family }),
                ..s
            },
        )
    } else {
        ArgRun::Reading(
            ArgState {
                alts: s.alts.push(AltView { raw: a, jfmt: a, fam: s.family }),
                notes: if s.debug { s.notes.push(word_note(s.family, a)) } else { s.notes },
                ..s
            },
        )
    }
}

/// Reads the arguments in order, stopping at the first refusal.
pub open spec fn run_args(args: Seq<Seq<char>>) -> ArgRun
    decreases args.len(),
{
    if args.len() == 0 {
        ArgRun::Reading(initial_state())
    } else {
        match run_args(args.drop_last()) {
            ArgRun::Reading(s) => arg_step(s, args.last()),
            other => other,
        }
    }
}

/// Without any family option, every alternative is its own family.
pub open spec fn normalized_alts(s: ArgState) -> Seq<AltView> {
    if s.has_families {
        s.alts
    } else {
        s.alts.map_values(|a: AltView| AltView { fam: Some(a.raw), ..a })
    }
}

/// The arguments as characters.
pub open spec fn args_view(args: Seq<String>) -> Seq<Seq<char>> {
    args.map_values(|a: String| a@)
}

/// The configuration read from the final parser state.
pub open spec fn cfg_matches(cfg: Cfg, s: ArgState) -> bool {
    &&& cfg.debug == s.debug
    &&& cfg.raw == s.raw
    &&& cfg.has_families == s.has_families
    &&& cfg.alternatives@.map_values(|a: Alternative| alt_view(a)) == normalized_alts(s)
    &&& match cfg.since_year {
        Some(y) => s.since_year == Some(y@),
        None => s.since_year is None,
    }
}


proof fn lemma_after_eq(s: Seq<char>, k: int)
    requires
        0 <= k <= s.len(),
        forall|j: int| 0 <= j < k ==> s[j] != '=',
    ensures
        k < s.len() && s[k] == '=' ==> after_eq(s) == s.skip(k + 1),
        k == s.len() ==> after_eq(s) == Seq::<char>::empty(),
    decreases k,
{
    if k > 0 {
        lemma_after_eq(s.drop_first(), k - 1);
        if k < s.len() {
            assert(s.drop_first().skip(k) =~= s.skip(k + 1));
        }
    }
}

proof fn lemma_before_eq(s: Seq<char>, k: int)
    requires
        0 <= k <= s.len(),
        forall|j: int| 0 <= j < k ==> s[j] != '=',
    ensures
        k < s.len() && s[k] == '=' ==> before_eq(s) == s.take(k),
        k == s.len() ==> before_eq(s) == s,
    decreases k,
{
    if k > 0 {
        lemma_before_eq(s.drop_first(), k - 1);
        assert(seq![s[0]] + s.drop_first().take(k - 1) == s.take(k));
        assert(seq![s[0]] + s.drop_first() == s);
    }
}

fn first_eq_from(a: &Vec<char>, start: usize) -> (k: usize)
    requires
        start <= a@.len(),
    ensures
        start <= k <= a@.len(),
        forall|j: int| start <= j < k ==> a@[j] != '=',
        k < a@.len() ==> a@[k as int] == '=',
{
    let mut k = start;
    while k < a.len()
        invariant
            start <= k <= a@.len(),
            forall|j: int| start <= j < k ==> a@[j] != '=',
        decreases a@.len() - k,
    {
        if a[k] == '=' {
            return k;
        }
        k = k + 1;
    }
    k
}

fn slice_chars(a: &Vec<char>, from: usize, to: usize) -> (res: Vec<char>)
    requires
        from <= to <= a@.len(),
    ensures
        res@ == a@.subrange(from as int, to as int),
{
    let mut res: Vec<char> = Vec::new();
    let mut k = from;
    while k < to
        invariant
            from <= k <= to,
            to <= a@.len(),
            res@ == a@.subrange(from as int, k as int),
        decreases to - k,
    {
        res.push(a[k]);
        k = k + 1;
        assert(a@.subrange(from as int, k as int) == a@.subrange(from as int, k - 1).push(
            a@[k - 1],
        ));
    }
    res
}

fn family_field_of(a: &Vec<char>) -> (res: Vec<char>)
    ensures
        res@ == family_field(a@),
{
    let k = first_eq_from(a, 0);
    proof {
        lemma_after_eq(a@, k as int);
    }
    if k == a.len() {
        assert(before_eq(Seq::<char>::empty()) == Seq::<char>::empty());
        return Vec::new();
    }
    let m = first_eq_from(a, k + 1);
    let ghost t = a@.skip(k + 1);
    proof {
        assert forall|j: int| 0 <= j < m - (k + 1) implies t[j] != '=' by {
            assert(t[j] == a@[j + k + 1]);
        }
        lemma_before_eq(t, m - (k + 1));
        assert(t.take(m - (k + 1)) == a@.subrange(k + 1, m as int));
        assert(m == a@.len() ==> t == a@.subrange(k + 1, m as int));
    }
    slice_chars(a, k + 1, m)
}

fn chars_equal(a: &Vec<char>, lit: &str) -> (b: bool)
    ensures
        b == (a@ == lit@),
{
    let l = chars_of(lit);
    if a.len() != l.len() {
        return false;
    }
    let mut k: usize = 0;
    while k < a.len()
        invariant
            k <= a@.len(),
            a@.len() == l@.len(),
            l@ == lit@,
            forall|j: int| 0 <= j < k ==> a@[j] == l@[j],
        decreases a@.len() - k,
    {
        if a[k] != l[k] {
            assert(a@[k as int] != l@[k as int]);
            return false;
        }
        k = k + 1;
    }
    assert(a@ =~= l@);
    true
}

fn chars_start_with(a: &Vec<char>, lit: &str) -> (b: bool)
    ensures
        b == starts_with(a@, lit@),
{
    let l = chars_of(lit);
    if a.len() < l.len() {
        return false;
    }
    let mut k: usize = 0;
    while k < l.len()
        invariant
            k <= l@.len(),
            l@.len() <= a@.len(),
            l@ == lit@,
            forall|j: int| 0 <= j < k ==> a@[j] == l@[j],
        decreases l@.len() - k,
    {
        if a[k] != l[k] {
            assert(a@.take(l@.len() as int)[k as int] == a@[k as int]);
            assert(a@.take(l@.len() as int) != l@);
            return false;
        }
        k = k + 1;
    }
    assert(a@.take(l@.len() as int) =~= l@);
    true
}

fn spaced_hyphens_of(a: &Vec<char>) -> (res: Vec<char>)
    ensures
        res@ == spaced_hyphens(a@),
{
    let mut out: Vec<char> = Vec::new();
    let mut k: usize = 0;
    while k < a.len()
        invariant
            k <= a@.len(),
            out@ == spaced_hyphens(a@.take(k as int)),
        decreases a@.len() - k,
    {
        assert(a@.take(k + 1).drop_last() == a@.take(k as int));
        if a[k] == '-' {
            out.push(' ');
            out.push('-');
            out.push(' ');
        } else {
            out.push(a[k]);
        }
        k = k + 1;
        assert(out@ =~= spaced_hyphens(a@.take(k as int)));
    }
    assert(a@.take(a@.len() as int) == a@);
    out
}

proof fn lemma_split_spaces_nonempty(s: Seq<char>)
    ensures
        split_spaces(s).len() >= 1,
    decreases s.len(),
{
    if s.len() > 0 {
        lemma_split_spaces_nonempty(s.drop_last());
    }
}

fn spaced_apostrophe_piece_of(p: &Vec<char>) -> (res: Vec<char>)
    ensures
        res@ == spaced_apostrophe_piece(p@),
{
    let n = p.len();
    if n > 1 && p[0] == '\'' {
        let mut out: Vec<char> = vec!['\'', ' '];
        let rest = slice_chars(p, 1, n);
        let mut k: usize = 0;
        let ghost start = out@;
        while k < rest.len()
            invariant
                k <= rest@.len(),
                out@ == start + rest@.take(k as int),
            decreases rest@.len() - k,
        {
            out.push(rest[k]);
            k = k + 1;
            assert(rest@.take(k as int) == rest@.take(k - 1).push(rest@[k - 1]));
        }
        assert(rest@.take(rest@.len() as int) == rest@);
        assert(rest@ == p@.drop_first());
        out
    } else if n > 1 && p[n - 1] == '\'' {
        let mut out = slice_chars(p, 0, n - 1);
        assert(out@ == p@.drop_last());
        out.push(' ');
        out.push('\'');
        assert(out@ =~= p@.drop_last() + seq![' ', '\'']);
        out
    } else {
        let out = slice_chars(p, 0, n);
        assert(out@ =~= p@);
        out
    }
}

fn append_chars(out: &mut Vec<char>, more: &Vec<char>)
    ensures
        final(out)@ == old(out)@ + more@,
{
    let mut k: usize = 0;
    while k < more.len()
        invariant
            k <= more@.len(),
            out@ == old(out)@ + more@.take(k as int),
        decreases more@.len() - k,
    {
        out.push(more[k]);
        k = k + 1;
        assert(more@.take(k as int) == more@.take(k - 1).push(more@[k - 1]));
    }
    assert(more@.take(more@.len() as int) == more@);
}

fn spaced_apostrophes_of(a: &Vec<char>) -> (res: Vec<char>)
    ensures
        res@ == spaced_apostrophes(a@),
{
    let mut out: Vec<char> = Vec::new();
    let mut cur: Vec<char> = Vec::new();
    let mut any_done = false;
    let mut k: usize = 0;
    let ghost fix = |p: Seq<char>| spaced_apostrophe_piece(p);
    let ghost mut pieces: Seq<Seq<char>> = split_spaces(Seq::<char>::empty());
    assert(a@.take(0) == Seq::<char>::empty());
    while k < a.len()
        invariant
            k <= a@.len(),
            fix == (|p: Seq<char>| spaced_apostrophe_piece(p)),
            pieces == split_spaces(a@.take(k as int)),
            pieces.len() >= 1,
            cur@ == pieces.last(),
            any_done == (pieces.len() > 1),
            out@ == join_spaces(pieces.drop_last().map_values(fix)),
        decreases a@.len() - k,
    {
        assert(a@.take(k + 1).drop_last() == a@.take(k as int));
        assert(a@.take(k + 1).last() == a@[k as int]);
        if a[k] == ' ' {
            let fixed = spaced_apostrophe_piece_of(&cur);
            let ghost done = pieces.map_values(fix);
            assert(done.drop_last() == pieces.drop_last().map_values(fix));
            if any_done {
                out.push(' ');
            }
            append_chars(&mut out, &fixed);
            proof {
                if pieces.len() == 1 {
                    assert(out@ =~= join_spaces(done));
                } else {
                    assert(out@ =~= join_spaces(done));
                }
                let old_p = pieces;
                pieces = old_p.push(Seq::<char>::empty());
                assert(pieces.drop_last() =~= old_p);
                assert(pieces.drop_last().map_values(fix) =~= done);
            }
            cur = Vec::new();
            any_done = true;
        } else {
            cur.push(a[k]);
            proof {
                let prev = pieces;
                pieces = prev.update(prev.len() - 1, prev.last().push(a@[k as int]));
                assert(pieces.drop_last() =~= prev.drop_last());
            }
        }
        k = k + 1;
    }
    assert(a@.take(a@.len() as int) == a@);
    let fixed = spaced_apostrophe_piece_of(&cur);
    let ghost all = pieces.map_values(fix);
    assert(all.drop_last() == pieces.drop_last().map_values(fix));
    if any_done {
        out.push(' ');
    }
    append_chars(&mut out, &fixed);
    assert(out@ =~= join_spaces(all));
    out
}


fn clone_opt(o: &Option<String>) -> (res: Option<String>)
    ensures
        opt_view(res) == opt_view(*o),
{
    match o {
        Some(s) => Some(s.clone()),
        None => None,
    }
}

fn opt_of_chars(f: &Vec<char>) -> (res: Option<String>)
    ensures
        opt_view(res) == if f@.len() == 0 { None } else { Some(f@) },
{
    if f.len() == 0 {
        None
    } else {
        Some(string_from_chars(f.as_slice()))
    }
}

fn is_ascii_digit(c: char) -> (b: bool)
    ensures
        b == ('0' <= c <= '9'),
{
    '0' <= c && c <= '9'
}

/// Reads a start-year value: `Ok(None)` when empty, `Ok(Some(..))` for four
/// ASCII digits, `Err` otherwise.
fn read_year(y: &Vec<char>) -> (res: Result<Option<[char; 4]>, ()>)
    ensures
        y@.len() == 0 ==> res == Ok::<Option<[char; 4]>, ()>(None),
        y@.len() != 0 && is_year(y@) ==> (res matches Ok(Some(a)) && a@ == y@),
        y@.len() != 0 && !is_year(y@) ==> res is Err,
{
    if y.len() == 0 {
        return Ok(None);
    }
    if y.len() != 4 {
        return Err(());
    }
    if is_ascii_digit(y[0]) && is_ascii_digit(y[1]) && is_ascii_digit(y[2]) && is_ascii_digit(
        y[3],
    ) {
        let a: [char; 4] = [y[0], y[1], y[2], y[3]];
        assert(a@ =~= y@);
        Ok(Some(a))
    } else {
        Err(())
    }
}

/// The parser state held by the variables of `read_args`.
pub open spec fn state_matches(
    debug: bool,
    raw: bool,
    alts: Seq<Alternative>,
    has_families: bool,
    since_year: Option<[char; 4]>,
    family: Option<String>,
    notes: Seq<String>,
    s: ArgState,
) -> bool {
    &&& s.debug == debug
    &&& s.raw == raw
    &&& s.alts == alts.map_values(|a: Alternative| alt_view(a))
    &&& s.has_families == has_families
    &&& s.since_year == match since_year {
        Some(y) => Some(y@),
        None => None,
    }
    &&& s.family == opt_view(family)
    &&& s.notes == notes.map_values(|n: String| n@)
}

proof fn lemma_run_stops(args: Seq<Seq<char>>, i: int)
    requires
        0 <= i <= args.len(),
        !(run_args(args.take(i)) is Reading),
    ensures
        run_args(args) == run_args(args.take(i)),
    decreases args.len() - i,
{
    if i < args.len() {
        assert(args.take(i + 1).drop_last() == args.take(i));
        lemma_run_stops(args, i + 1);
    } else {
        assert(args.take(i) == args);
    }
}

proof fn lemma_map_push<A, B>(s: Seq<A>, x: A, f: spec_fn(A) -> B)
    ensures
        s.push(x).map_values(f) == s.map_values(f).push(f(x)),
{
    assert(s.push(x).map_values(f) =~= s.map_values(f).push(f(x)));
}

enum CliRun {
    Done(Vec<String>, Cfg),
    Refused(Vec<String>, CliError),
    Halted,
}

fn note_of(prefix: &str, parts: &Vec<char>) -> (res: String)
    ensures
        res@ == prefix@ + parts@,
{
    let mut out: Vec<char> = Vec::new();
    push_str_chars(&mut out, prefix);
    append_chars(&mut out, parts);
    string_from_chars(out.as_slice())
}

fn word_note_of(family: &Option<String>, a: &Vec<char>) -> (res: String)
    ensures
        res@ == word_note(opt_view(*family), a@),
{
    let mut out: Vec<char> = Vec::new();
    push_str_chars(&mut out, "👉Word: ");
    match family {
        Some(f) => {
            push_str_chars(&mut out, f.as_str());
            push_str_chars(&mut out, "::");
        },
        None => {},
    }
    append_chars(&mut out, a);
    let res = string_from_chars(out.as_slice());
    assert(res@ =~= word_note(opt_view(*family), a@));
    res
}

#[verifier::rlimit(50)]
fn read_args(args: &Vec<String>) -> (res: CliRun)
    ensures
        match run_args(args_view(args@)) {
            ArgRun::Reading(s) => res matches CliRun::Done(notes, cfg) && cfg_matches(cfg, s)
                && notes@.map_values(|n: String| n@) == s.notes,
            ArgRun::Refused(e, ns) => res matches CliRun::Refused(notes, err) && error_view(err)
                == e && notes@.map_values(|n: String| n@) == ns,
            ArgRun::Halted => res is Halted,
        },
{
    let ghost argv = args_view(args@);
    let mut debug = false;
    let mut raw = false;
    let mut alts: Vec<Alternative> = Vec::new();
    let mut has_families = false;
    let mut since_year: Option<[char; 4]> = None;
    let mut family: Option<String> = None;
    let mut notes: Vec<String> = Vec::new();
    let ghost mut st = initial_state();
    assert(argv.take(0) == Seq::<Seq<char>>::empty());
    assert(alts@.map_values(|a: Alternative| alt_view(a)) =~= Seq::<AltView>::empty());
    assert(notes@.map_values(|n: String| n@) =~= Seq::<Seq<char>>::empty());
    let mut i: usize = 0;
    while i < args.len()
        invariant
            i <= args@.len(),
            argv == args_view(args@),
            run_args(argv.take(i as int)) == ArgRun::Reading(st),
            state_matches(debug, raw, alts@, has_families, since_year, family, notes@, st),
        decreases args@.len() - i,
    {
        let a = chars_of(args[i].as_str());
        assert(argv.take(i + 1).drop_last() == argv.take(i as int));
        assert(argv.take(i + 1).last() == a@);
        let ghost next = arg_step(st, a@);
        let ghost alts0 = alts@;
        let ghost notes0 = notes@;
        proof {
            reveal_strlit("--since=");
            reveal_strlit("--since-year=");
        }
        if chars_equal(&a, "--raw") {
            raw = true;
        } else if chars_equal(&a, "--debug") || chars_equal(&a, "-d") {
            debug = true;
        } else if chars_start_with(&a, "--family=") || chars_start_with(&a, "--fam=")
            || chars_start_with(&a, "-f=") {
            let f = family_field_of(&a);
            if debug && f.len() == 0 {
                assert(run_args(argv.take(i + 1)) is Halted);
                proof {
                    lemma_run_stops(argv, i + 1);
                    assert(argv.take(argv.len() as int) == argv);
                }
                return CliRun::Halted;
            }
            if debug {
                let n = note_of("👉Family: ", &f);
                notes.push(n);
                proof {
                    lemma_map_push(notes0, n, |n: String| n@);
                }
            }
            family = opt_of_chars(&f);
            has_families = true;
        } else if chars_start_with(&a, "--since=") || chars_start_with(&a, "--since-year=") {
            let skip: usize = if chars_start_with(&a, "--since=") {
                8
            } else {
                13
            };
            let rest = slice_chars(&a, skip, a.len());
            assert(rest@ == a@.skip(skip as int));
            match read_year(&rest) {
                Ok(y) => {
                    since_year = y;
                },
                Err(()) => {
                    assert(run_args(argv.take(i + 1)) is Refused);
                    proof {
                        lemma_run_stops(argv, i + 1);
                    }
                    return CliRun::Refused(notes, CliError::YearNotFourDigits);
                },
            }
        } else if a.len() > 0 && a[0] == '-' {
            let err = CliError::UnknownOption(string_from_chars(a.as_slice()));
            assert(run_args(argv.take(i + 1)) is Refused);
            proof {
                lemma_run_stops(argv, i + 1);
            }
            return CliRun::Refused(notes, err);
        } else if contains_char(&a, '-') {
            let jfmt = spaced_hyphens_of(&a);
            alts.push(
                Alternative {
                    raw: string_from_chars(a.as_slice()),
                    jfmt: string_from_chars(jfmt.as_slice()),
                    fam: clone_opt(&family),
                },
            );
            proof {
                lemma_map_push(alts0, alts@.last(), |a: Alternative| alt_view(a));
                assert(alts@ == alts0.push(alts@.last()));
            }
        } else if contains_char(&a, '\'') {
            let jfmt = spaced_apostrophes_of(&a);
            alts.push(
                Alternative {
                    raw: string_from_chars(a.as_slice()),
                    jfmt: string_from_chars(jfmt.as_slice()),
                    fam: clone_opt(&family),
                },
            );
            proof {
                lemma_map_push(alts0, alts@.last(), |a: Alternative| alt_view(a));
                assert(alts@ == alts0.push(alts@.last()));
            }
        } else {
            if debug {
                let n = word_note_of(&family, &a);
                notes.push(n);
                proof {
                    lemma_map_push(notes0, n, |n: String| n@);
                }
            }
            alts.push(
                Alternative {
                    raw: string_from_chars(a.as_slice()),
                    jfmt: string_from_chars(a.as_slice()),
                    fam: clone_opt(&family),
                },
            );
            proof {
                lemma_map_push(alts0, alts@.last(), |a: Alternative| alt_view(a));
                assert(alts@ == alts0.push(alts@.last()));
            }
        }
        proof {
            st = next->Reading_0;
            assert(state_matches(debug, raw, alts@, has_families, since_year, family, notes@, st));
        }
        i = i + 1;
    }
    assert(argv.take(args@.len() as int) == argv);
    let mut finished: Vec<Alternative> = Vec::new();
    if has_families {
        finished = alts;
    } else {
        let mut k: usize = 0;
        while k < alts.len()
            invariant
                k <= alts@.len(),
                finished@.map_values(|a: Alternative| alt_view(a)) == alts@.take(
                    k as int,
                ).map_values(|a: Alternative| alt_view(a)).map_values(
                    |a: AltView| AltView { fam: Some(a.raw), ..a },
                ),
            decreases alts@.len() - k,
        {
            let alt = &alts[k];
            let ghost old_finished = finished@;
            finished.push(
                Alternative {
                    raw: alt.raw.clone(),
                    jfmt: alt.jfmt.clone(),
                    fam: Some(alt.raw.clone()),
                },
            );
            proof {
                let ghost f0 = |a: Alternative| alt_view(a);
                let ghost g0 = |a: AltView| AltView { fam: Some(a.raw), ..a };
                assert(alts@.take(k + 1) == alts@.take(k as int).push(alts@[k as int]));
                lemma_map_push(alts@.take(k as int), alts@[k as int], f0);
                lemma_map_push(alts@.take(k as int).map_values(f0), f0(alts@[k as int]), g0);
                assert(finished@ == old_finished.push(finished@.last()));
                lemma_map_push(old_finished, finished@.last(), f0);
            }
            k = k + 1;
        }
        assert(alts@.take(alts@.len() as int) == alts@);
    }
    CliRun::Done(
        notes,
        Cfg { debug, raw, alternatives: finished, has_families, since_year },
    )
}

/// Reading the arguments stops at an unreachable case: a family option
/// without a name while debugging.
pub open spec fn cli_halts(args: Seq<String>) -> bool {
    run_args(args_view(args)) is Halted
}

/// Whether reading `args` runs into the unreachable case: a family option
/// without a name after `--debug`, before any refusal.
pub fn cli_reaches_unreachable(args: &Vec<String>) -> (b: bool)
    ensures
        b == cli_halts(args@),
{
    match read_args(args) {
        CliRun::Halted => true,
        _ => false,
    }
}

/// Reads the command-line arguments (without the program name) into a
/// configuration, together with the debug notes to print.
///
/// `--raw` and `--debug`/`-d` set flags; `--family=`, `--fam=`, `-f=` set the
/// family of the following alternatives (none when the name is empty);
/// `--since=`/`--since-year=` take an empty value or four digits; any other
/// argument starting with `-` is refused. An argument with a hyphen keeps
/// its text and gets hyphens spaced out for the Ngram JSON; one with an
/// apostrophe keeps its text and gets apostrophes at word edges spaced out
/// for the Ngram JSON (a lone apostrophe stays as it is). Without any family
/// option, every alternative is its own family.
pub fn cli(args: &Vec<String>) -> (res: (Vec<String>, Result<Cfg, CliError>))
    requires
        !cli_halts(args@),
    ensures
        match run_args(args_view(args@)) {
            ArgRun::Reading(s) => res.1 matches Ok(cfg) && cfg_matches(cfg, s)
                && res.0@.map_values(|n: String| n@) == s.notes,
            ArgRun::Refused(e, ns) => res.1 matches Err(err) && error_view(err) == e
                && res.0@.map_values(|n: String| n@) == ns,
            ArgRun::Halted => false,
        },
{
    match read_args(args) {
        CliRun::Done(notes, cfg) => (notes, Ok(cfg)),
        CliRun::Refused(notes, err) => (notes, Err(err)),
        CliRun::Halted => (Vec::new(), Err(CliError::YearNotFourDigits)),
    }
}


proof fn lemma_has_families(args: Seq<Seq<char>>)
    requires
        run_args(args) is Reading,
    ensures
        run_args(args)->Reading_0.has_families <==> exists|i: int|
            0 <= i < args.len() && is_family_option(#[trigger] args[i]),
    decreases args.len(),
{
    if args.len() > 0 {
        let prev = args.drop_last();
        assert(run_args(prev) is Reading);
        lemma_has_families(prev);
        let st = run_args(prev)->Reading_0;
        let a = args.last();
        reveal_strlit("--raw");
        reveal_strlit("--debug");
        reveal_strlit("-d");
        reveal_strlit("--family=");
        reveal_strlit("--fam=");
        reveal_strlit("-f=");
        if a == "--raw"@ || a == "--debug"@ || a == "-d"@ {
            assert(!is_family_option(a)) by {
                assert(!starts_with(a, "--family="@));
                assert(!starts_with(a, "--fam="@)) by {
                    if a.len() >= 6 {
                        assert(a.take(6)[2] == a[2]);
                        assert(a.take(6)[2] != "--fam="@[2]);
                    }
                }
                assert(!starts_with(a, "-f="@)) by {
                    if a.len() >= 3 {
                        assert(a.take(3)[1] == a[1]);
                        assert(a.take(3)[1] != "-f="@[1]);
                    }
                }
            }
        }
        assert(run_args(args) == arg_step(st, a));
        assert(arg_step(st, a)->Reading_0.has_families == (st.has_families || is_family_option(a)));
        assert(args[args.len() - 1] == a);
        if exists|i: int| 0 <= i < prev.len() && is_family_option(#[trigger] prev[i]) {
            let i = choose|i: int| 0 <= i < prev.len() && is_family_option(#[trigger] prev[i]);
            assert(args[i] == prev[i]);
        }
        if exists|i: int| 0 <= i < args.len() && is_family_option(#[trigger] args[i]) {
            let i = choose|i: int| 0 <= i < args.len() && is_family_option(#[trigger] args[i]);
            if i < prev.len() {
                assert(prev[i] == args[i]);
            }
        }
    }
}

/// Without any family option on the command line, every alternative is
/// its own family.
pub proof fn law_each_alternative_own_family(args: Seq<Seq<char>>)
    requires
        run_args(args) is Reading,
        forall|i: int| 0 <= i < args.len() ==> !is_family_option(#[trigger] args[i]),
    ensures
        forall|i: int|
            0 <= i < normalized_alts(run_args(args)->Reading_0).len() ==> (#[trigger] normalized_alts(
                run_args(args)->Reading_0,
            )[i]).fam == Some(normalized_alts(run_args(args)->Reading_0)[i].raw),
{
    lemma_has_families(args);
}

} // verus!
