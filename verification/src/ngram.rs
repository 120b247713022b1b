//! The Google Books Ngram JSON endpoint: the query URL and the wildcard
//! expansions it answers with.
use vstd::prelude::*;
use vstd::utf8::*;
use vstd::string::*;
use crate::cli::{Alternative, Cfg};
use crate::text::{chars_of, string_from_chars, push_str_chars, contains_char};

verus! {

broadcast use vstd::utf8::group_utf8_lib;

/// Which side of the alternative a context word stands on.
#[derive(Debug, PartialEq, Eq, Hash, Clone, Copy, PartialOrd, Ord, Structural)]
pub enum Side {
    Before,
    After,
}

/// The kinds of item in the endpoint's answer.
#[derive(Debug, Clone, Copy, PartialEq, Eq, Structural)]
pub enum NgramType {
    NgramCollection,
    Expansion,
    Ngram,
}

/// One item of the endpoint's answer: the ngram, the query it expands,
/// and its kind.
pub struct NgramItem {
    pub ngram: String,
    pub parent: String,
    pub kind: NgramType,
}

/// One context row: the side, the alternative and the context word.
pub struct Row<'a> {
    pub side: Side,
    pub alt: &'a str,
    pub ctx: &'a str,
}

/// Why the endpoint's answer could not be read.
#[derive(Debug, Clone, Copy, PartialEq, Eq, Structural)]
pub enum NgramParseError {
    /// An expansion's parent has no leading `* ` and no trailing ` *`.
    NoWildcardInParent,
}

impl NgramParseError {
    /// The error message.
    pub fn message(&self) -> (res: &'static str)
        ensures
            res@ == "No wildcard found in parent"@,
    {
        "No wildcard found in parent"
    }
}

/// The UTF-8 bytes of a character sequence.
pub open spec fn utf8(s: Seq<char>) -> Seq<u8> {
    encode_utf8(s)
}

/// The bytes begin with `* `.
pub open spec fn starts_with_wildcard(b: Seq<u8>) -> bool {
    b.len() >= 2 && b[0] == 42u8 && b[1] == 32u8
}

/// The bytes end with ` *`.
pub open spec fn ends_with_wildcard(b: Seq<u8>) -> bool {
    b.len() >= 2 && b[b.len() - 2] == 32u8 && b[b.len() - 1] == 42u8
}

/// What one item contributes, over the UTF-8 bytes of its strings.
pub enum ItemParse {
    /// Not an expansion, or the ngram itself still holds a wildcard.
    Skipped,
    /// A context row: the side, the alternative and the context.
    Extracted(Side, Seq<u8>, Seq<u8>),
    /// The parent has no wildcard.
    NoWildcard,
}

/// What one item contributes. For a parent `* alt` the context is what
/// precedes ` alt` in the ngram; for `alt *` it is what follows `alt `.
pub open spec fn parse_item(item: NgramItem) -> ItemParse {
    let n = utf8(item.ngram@);
    let p = utf8(item.parent@);
    if item.kind != NgramType::Expansion || starts_with_wildcard(n) || ends_with_wildcard(n) {
        ItemParse::Skipped
    } else if starts_with_wildcard(p) {
        let alt = p.subrange(2, p.len() as int);
        ItemParse::Extracted(Side::Before, alt, n.subrange(0, n.len() - (alt.len() + 1)))
    } else if ends_with_wildcard(p) {
        let alt = p.subrange(0, p.len() - 2);
        ItemParse::Extracted(Side::After, alt, n.subrange(alt.len() + 1int, n.len() as int))
    } else {
        ItemParse::NoWildcard
    }
}

/// The context cannot be cut out of the ngram: the ngram is shorter than
/// the alternative and its space, or the cut falls inside a character.
pub open spec fn item_cut_fails(item: NgramItem) -> bool {
    let n = utf8(item.ngram@);
    match parse_item(item) {
        ItemParse::Extracted(side, alt, _) => {
            ||| n.len() < alt.len() + 1
            ||| (side == Side::Before && !is_char_boundary(n, n.len() - (alt.len() + 1)))
            ||| (side == Side::After && !is_char_boundary(n, alt.len() + 1int))
        },
        _ => false,
    }
}

/// Some item among the first `k` has a parent without wildcard.
pub open spec fn wildcard_missing_before(items: Seq<NgramItem>, k: int) -> bool {
    exists|j: int| 0 <= j < k && #[trigger] parse_item(items[j]) is NoWildcard
}

/// The rows contributed by the items, in order.
pub open spec fn extracted_rows(items: Seq<NgramItem>) -> Seq<(Side, Seq<u8>, Seq<u8>)>
    decreases items.len(),
{
    if items.len() == 0 {
        seq![]
    } else {
        let prev = extracted_rows(items.drop_last());
        match parse_item(items.last()) {
            ItemParse::Extracted(side, alt, ctx) => prev.push((side, alt, ctx)),
            _ => prev,
        }
    }
}

/// A row over the UTF-8 bytes of its strings.
pub open spec fn row_view(r: Row) -> (Side, Seq<u8>, Seq<u8>) {
    (r.side, r.alt.spec_bytes(), r.ctx.spec_bytes())
}

fn has_leading_wildcard(b: &[u8]) -> (res: bool)
    ensures
        res == starts_with_wildcard(b@),
{
    b.len() >= 2 && b[0] == 42u8 && b[1] == 32u8
}

fn has_trailing_wildcard(b: &[u8]) -> (res: bool)
    ensures
        res == ends_with_wildcard(b@),
{
    b.len() >= 2 && b[b.len() - 2] == 32u8 && b[b.len() - 1] == 42u8
}

proof fn lemma_boundary_after_wildcard(p: Seq<u8>)
    requires
        valid_utf8(p),
        starts_with_wildcard(p),
    ensures
        is_char_boundary(p, 2),
{
    if p.len() == 2 {
        is_char_boundary_start_end_of_seq(p);
    } else {
        let q = pop_first_scalar(p);
        assert(q =~= p.subrange(1, p.len() as int));
        assert(valid_utf8(q));
        let r = pop_first_scalar(q);
        assert(r =~= p.subrange(2, p.len() as int));
        assert(is_char_boundary(r, 0));
        assert(is_char_boundary(q, 1));
        assert(is_char_boundary(p, 2));
    }
}

proof fn lemma_boundary_before_wildcard(p: Seq<u8>)
    requires
        valid_utf8(p),
        ends_with_wildcard(p),
    ensures
        is_char_boundary(p, p.len() - 2),
{
    is_char_boundary_iff_not_is_continuation_byte(p, p.len() - 2);
}

/// Reads the endpoint's wildcard expansions into context rows.
///
/// Items that are not expansions, and expansions whose ngram still holds a
/// wildcard, are skipped. An expansion whose parent has neither a leading
/// `* ` nor a trailing ` *` is an error.
pub fn parse_items<'a>(items: &'a [NgramItem]) -> (res: Result<Vec<Row<'a>>, NgramParseError>)
    requires
        forall|i: int|
            0 <= i < items@.len() && !wildcard_missing_before(items@, i)
                ==> !item_cut_fails(#[trigger] items@[i]),
    ensures
        res is Err <==> wildcard_missing_before(items@, items@.len() as int),
        res matches Ok(rows) ==> rows@.map_values(|r: Row| row_view(r)) == extracted_rows(items@),
{
    let mut table: Vec<Row<'a>> = Vec::new();
    let mut i: usize = 0;
    while i < items.len()
        invariant
            i <= items@.len(),
            !wildcard_missing_before(items@, i as int),
            forall|k: int|
                0 <= k < items@.len() && !wildcard_missing_before(items@, k)
                    ==> !item_cut_fails(#[trigger] items@[k]),
            table@.map_values(|r: Row| row_view(r)) == extracted_rows(items@.take(i as int)),
        decreases items@.len() - i,
    {
        let item: &'a NgramItem = &items[i];
        assert(items@.take(i + 1).drop_last() == items@.take(i as int));
        assert(items@.take(i + 1).last() == items@[i as int]);
        let ghost item_view = parse_item(*item);
        if item.kind != NgramType::Expansion {
            i = i + 1;
            continue;
        }
        let ngram: &'a str = item.ngram.as_str();
        let nb = ngram.as_bytes();
        if has_leading_wildcard(nb) || has_trailing_wildcard(nb) {
            i = i + 1;
            continue;
        }
        let parent: &'a str = item.parent.as_str();
        let pb = parent.as_bytes();
        let alternative: &'a str;
        let is_prefix: bool;
        if has_leading_wildcard(pb) {
            proof {
                lemma_boundary_after_wildcard(pb@);
            }
            let (_, rest) = parent.split_at(2);
            alternative = rest;
            is_prefix = true;
        } else if has_trailing_wildcard(pb) {
            proof {
                lemma_boundary_before_wildcard(pb@);
            }
            let (front, _) = parent.split_at(pb.len() - 2);
            alternative = front;
            is_prefix = false;
        } else {
            assert(parse_item(items@[i as int]) is NoWildcard);
            assert(wildcard_missing_before(items@, items@.len() as int));
            return Err(NgramParseError::NoWildcardInParent);
        }
        assert(!item_cut_fails(items@[i as int]));
        let context: &'a str;
        let side: Side;
        if is_prefix {
            let (c, _) = ngram.split_at(nb.len() - (alternative.as_bytes().len() + 1));
            context = c;
            side = Side::Before;
        } else {
            let (_, c) = ngram.split_at(alternative.as_bytes().len() + 1);
            context = c;
            side = Side::After;
        }
        table.push(Row { side, alt: alternative, ctx: context });
        i = i + 1;
    }
    assert(items@.take(items@.len() as int) == items@);
    Ok(table)
}


/// The text contains a straight or a curly apostrophe.
pub open spec fn has_apostrophe(s: Seq<char>) -> bool {
    s.contains('\'') || s.contains('’')
}

/// The two wildcard queries for one alternative in its Ngram JSON form,
/// `* alt,alt *`; each is put in square brackets when the alternative holds
/// an apostrophe.
pub open spec fn query_terms(jfmt: Seq<char>) -> Seq<char> {
    if has_apostrophe(jfmt) {
        seq!['[', '*', ' '] + jfmt + seq![']', ',', '['] + jfmt + seq![' ', '*', ']']
    } else {
        seq!['*', ' '] + jfmt + seq![','] + jfmt + seq![' ', '*']
    }
}

/// The query terms of all alternatives, joined by commas.
pub open spec fn query_content(alts: Seq<Alternative>) -> Seq<char>
    decreases alts.len(),
{
    if alts.len() == 0 {
        seq![]
    } else if alts.len() == 1 {
        query_terms(alts[0].jfmt@)
    } else {
        query_content(alts.drop_last()) + seq![','] + query_terms(alts.last().jfmt@)
    }
}

/// The endpoint of the Google Books Ngram JSON interface.
pub open spec fn ngram_endpoint() -> Seq<char> {
    "https://books.google.com/ngrams/json"@
}

/// A URL query value encoded as `application/x-www-form-urlencoded`.
pub open spec fn form_unchanged(b: u8) -> bool {
    b == 42 || b == 45 || b == 46 || (48 <= b <= 57) || (65 <= b <= 90) || b == 95 || (97 <= b
        <= 122)
}

/// An upper-case hexadecimal digit.
pub open spec fn hex_upper(n: u8) -> char {
    if n < 10 {
        (48 + n) as char
    } else {
        (55 + n) as char
    }
}

/// The form encoding of one byte: kept, `+` for a space, else `%XX`.
pub open spec fn form_encode_byte(b: u8) -> Seq<char> {
    if form_unchanged(b) {
        seq![b as char]
    } else if b == 32 {
        seq!['+']
    } else {
        seq!['%', hex_upper(b / 16), hex_upper(b % 16)]
    }
}

/// The form encoding of a byte sequence.
pub open spec fn form_encode(bytes: Seq<u8>) -> Seq<char>
    decreases bytes.len(),
{
    if bytes.len() == 0 {
        seq![]
    } else {
        form_encode_byte(bytes[0]) + form_encode(bytes.drop_first())
    }
}

/// The query URL: the endpoint with the `content` pair and, when a start
/// year is given, the `year_start` pair.
pub open spec fn query_url(content: Seq<char>, year: Option<Seq<char>>) -> Seq<char> {
    let base = ngram_endpoint() + "?content="@ + form_encode(utf8(content));
    match year {
        Some(y) => base + "&year_start="@ + form_encode(utf8(y)),
        None => base,
    }
}

/// Calls `url::form_urlencoded::byte_serialize` on the UTF-8 bytes of `s`
/// and collects the pieces. The url crate's source keeps `*-._`, digits
/// and ASCII letters, writes a space as `+` and every other byte as `%`
/// with two upper-case hexadecimal digits.
#[verifier::external_body]
fn form_urlencode(s: &str) -> (res: String)
    ensures
        res@ == form_encode(utf8(s@)),
{
    url::form_urlencoded::byte_serialize(s.as_bytes()).collect()
}

fn query_terms_of(jfmt: &str) -> (res: Vec<char>)
    ensures
        res@ == query_terms(jfmt@),
{
    let cs = chars_of(jfmt);
    let bracketed = contains_char(&cs, '\'') || contains_char(&cs, '’');
    let mut res: Vec<char> = Vec::new();
    if bracketed {
        res.push('[');
    }
    res.push('*');
    res.push(' ');
    push_str_chars(&mut res, jfmt);
    if bracketed {
        res.push(']');
    }
    res.push(',');
    if bracketed {
        res.push('[');
    }
    push_str_chars(&mut res, jfmt);
    res.push(' ');
    res.push('*');
    if bracketed {
        res.push(']');
    }
    if bracketed {
        assert(res@ =~= query_terms(jfmt@));
    } else {
        assert(res@ =~= query_terms(jfmt@));
    }
    res
}

/// The `content` value of the query: for every alternative, in its Ngram
/// JSON form, `* alt` and `alt *`, bracketed when it holds an apostrophe, all
/// joined by commas.
pub fn query_content_of(cfg: &Cfg) -> (res: String)
    ensures
        res@ == query_content(cfg.alternatives@),
{
    let alts = &cfg.alternatives;
    let mut out: Vec<char> = Vec::new();
    let mut i: usize = 0;
    while i < alts.len()
        invariant
            i <= alts@.len(),
            out@ == query_content(alts@.take(i as int)),
        decreases alts@.len() - i,
    {
        let terms = query_terms_of(alts[i].jfmt.as_str());
        assert(alts@.take(i + 1).drop_last() == alts@.take(i as int));
        if i > 0 {
            out.push(',');
        }
        let mut j: usize = 0;
        let ghost before = out@;
        while j < terms.len()
            invariant
                j <= terms@.len(),
                out@ == before + terms@.take(j as int),
            decreases terms@.len() - j,
        {
            out.push(terms[j]);
            j = j + 1;
            assert(terms@.take(j as int) == terms@.take(j - 1).push(terms@[j - 1]));
        }
        assert(terms@.take(terms@.len() as int) == terms@);
        i = i + 1;
        if i == 1 {
            assert(out@ =~= query_content(alts@.take(i as int)));
        } else {
            assert(out@ =~= query_content(alts@.take(i as int)));
        }
    }
    assert(alts@.take(alts@.len() as int) == alts@);
    string_from_chars(out.as_slice())
}

/// The start year as text.
pub open spec fn year_text(year: Option<[char; 4]>) -> Option<Seq<char>> {
    match year {
        Some(y) => Some(y@),
        None => None,
    }
}

/// The query URL for the alternatives and the start year of `cfg`.
pub fn build_url(cfg: &Cfg) -> (res: String)
    ensures
        res@ == query_url(query_content(cfg.alternatives@), year_text(cfg.since_year)),
{
    let content = query_content_of(cfg);
    let mut out: Vec<char> = Vec::new();
    push_str_chars(&mut out, "https://books.google.com/ngrams/json");
    push_str_chars(&mut out, "?content=");
    let encoded = form_urlencode(content.as_str());
    push_str_chars(&mut out, encoded.as_str());
    match cfg.since_year {
        Some(y) => {
            let year: Vec<char> = vec![y[0], y[1], y[2], y[3]];
            assert(year@ =~= y@);
            let year_str = string_from_chars(year.as_slice());
            push_str_chars(&mut out, "&year_start=");
            let encoded_year = form_urlencode(year_str.as_str());
            push_str_chars(&mut out, encoded_year.as_str());
        },
        None => {},
    }
    string_from_chars(out.as_slice())
}

proof fn lemma_utf8_concat(a: Seq<char>, b: Seq<char>)
    ensures
        utf8(a + b) == utf8(a) + utf8(b),
    decreases a.len(),
{
    if a.len() > 0 {
        lemma_utf8_concat(a.drop_first(), b);
        assert((a + b).drop_first() =~= a.drop_first() + b);
        assert((a + b)[0] == a[0]);
        assert(utf8(a + b) =~= utf8(a) + utf8(b));
    } else {
        assert(a + b =~= b);
        assert(utf8(a) + utf8(b) =~= utf8(b));
    }
}

proof fn lemma_boundary_concat(x: Seq<u8>, y: Seq<u8>)
    requires
        valid_utf8(x),
        valid_utf8(y),
    ensures
        is_char_boundary(x + y, x.len() as int),
    decreases x.len(),
{
    valid_utf8_concat(x, y);
    if x.len() > 0 {
        let l = length_of_first_scalar(x);
        assert((x + y)[0] == x[0]);
        assert(length_of_first_scalar(x + y) == l);
        assert(pop_first_scalar(x + y) =~= pop_first_scalar(x) + y);
        lemma_boundary_concat(pop_first_scalar(x), y);
    } else {
        assert(x + y =~= y);
    }
}

/// An expansion written `ctx alt` of the query `* alt` yields the row
/// (before, `alt`, `ctx`), and its context can always be cut out.
pub proof fn law_leading_wildcard_expansion(item: NgramItem, ctx: Seq<char>, alt: Seq<char>)
    requires
        item.kind == NgramType::Expansion,
        item.parent@ == seq!['*', ' '] + alt,
        item.ngram@ == ctx + seq![' '] + alt,
        !starts_with_wildcard(utf8(item.ngram@)),
        !ends_with_wildcard(utf8(item.ngram@)),
    ensures
        parse_item(item) == ItemParse::Extracted(Side::Before, utf8(alt), utf8(ctx)),
        !item_cut_fails(item),
{
    broadcast use encode_utf8_valid_utf8;

    let sp = seq![' '];
    lemma_utf8_concat(seq!['*', ' '], alt);
    lemma_utf8_concat(ctx + sp, alt);
    lemma_utf8_concat(ctx, sp);
    let p = utf8(item.parent@);
    let n = utf8(item.ngram@);
    assert(utf8(seq!['*', ' ']) =~= seq![42u8, 32u8]) by {
        let w = seq!['*', ' '];
        assert(is_ascii_chars(w));
        is_ascii_chars_encode_utf8(w);
        assert(utf8(w)[0] == w[0] as u8);
        assert(utf8(w)[1] == w[1] as u8);
    }
    assert(utf8(sp) =~= seq![32u8]) by {
        assert(is_ascii_chars(sp));
        is_ascii_chars_encode_utf8(sp);
        assert(utf8(sp)[0] == sp[0] as u8);
    }
    assert(starts_with_wildcard(p));
    assert(p.subrange(2, p.len() as int) =~= utf8(alt));
    assert(n =~= utf8(ctx) + seq![32u8] + utf8(alt));
    assert(n.subrange(0, n.len() - (utf8(alt).len() + 1)) =~= utf8(ctx));
    lemma_boundary_concat(utf8(ctx), seq![32u8] + utf8(alt));
    assert(valid_utf8(seq![32u8] + utf8(alt))) by {
        assert(seq![32u8] + utf8(alt) =~= utf8(sp + alt)) by {
            lemma_utf8_concat(sp, alt);
        }
    }
    assert(utf8(ctx) + (seq![32u8] + utf8(alt)) =~= n);
}

/// An expansion written `alt ctx` of the query `alt *` yields the row
/// (after, `alt`, `ctx`), and its context can always be cut out.
pub proof fn law_trailing_wildcard_expansion(item: NgramItem, ctx: Seq<char>, alt: Seq<char>)
    requires
        item.kind == NgramType::Expansion,
        item.parent@ == alt + seq![' ', '*'],
        item.ngram@ == alt + seq![' '] + ctx,
        !starts_with_wildcard(utf8(item.parent@)),
        !starts_with_wildcard(utf8(item.ngram@)),
        !ends_with_wildcard(utf8(item.ngram@)),
    ensures
        parse_item(item) == ItemParse::Extracted(Side::After, utf8(alt), utf8(ctx)),
        !item_cut_fails(item),
{
    broadcast use encode_utf8_valid_utf8;

    let sp = seq![' '];
    lemma_utf8_concat(alt, seq![' ', '*']);
    lemma_utf8_concat(alt + sp, ctx);
    lemma_utf8_concat(alt, sp);
    let p = utf8(item.parent@);
    let n = utf8(item.ngram@);
    assert(utf8(seq![' ', '*']) =~= seq![32u8, 42u8]) by {
        let w = seq![' ', '*'];
        assert(is_ascii_chars(w));
        is_ascii_chars_encode_utf8(w);
        assert(utf8(w)[0] == w[0] as u8);
        assert(utf8(w)[1] == w[1] as u8);
    }
    assert(utf8(sp) =~= seq![32u8]) by {
        assert(is_ascii_chars(sp));
        is_ascii_chars_encode_utf8(sp);
        assert(utf8(sp)[0] == sp[0] as u8);
    }
    assert(ends_with_wildcard(p));
    assert(p.subrange(0, p.len() - 2) =~= utf8(alt));
    assert(n =~= utf8(alt) + seq![32u8] + utf8(ctx));
    assert(n.subrange(utf8(alt).len() + 1int, n.len() as int) =~= utf8(ctx));
    lemma_utf8_concat(alt, sp);
    lemma_boundary_concat(utf8(alt + sp), utf8(ctx));
    assert(utf8(alt + sp) =~= utf8(alt) + seq![32u8]);
}


/// The position, among the rows read from `items`, of the row that item
/// `i` contributes: the number of rows the items before it contribute.
pub open spec fn row_index(items: Seq<NgramItem>, i: int) -> int {
    extracted_rows(items.take(i)).len() as int
}

proof fn lemma_rows_prefix(items: Seq<NgramItem>, k: int)
    requires
        0 <= k <= items.len(),
    ensures
        extracted_rows(items.take(k)).len() <= extracted_rows(items).len(),
        forall|j: int|
            0 <= j < extracted_rows(items.take(k)).len() ==> extracted_rows(items)[j]
                == extracted_rows(items.take(k))[j],
    decreases items.len(),
{
    if k == items.len() {
        assert(items.take(k) == items);
    } else {
        lemma_rows_prefix(items.drop_last(), k);
        assert(items.drop_last().take(k) == items.take(k));
    }
}

proof fn lemma_row_of_item(items: Seq<NgramItem>, i: int)
    requires
        0 <= i < items.len(),
        parse_item(items[i]) is Extracted,
    ensures
        row_index(items, i) < extracted_rows(items).len(),
        parse_item(items[i]) == ({
            let r = extracted_rows(items)[row_index(items, i)];
            ItemParse::Extracted(r.0, r.1, r.2)
        }),
{
    assert(items.take(i + 1).drop_last() == items.take(i));
    assert(items.take(i + 1).last() == items[i]);
    lemma_rows_prefix(items, i + 1);
}

proof fn lemma_bytes_to_text(s: &str, t: Seq<char>)
    requires
        s.spec_bytes() == utf8(t),
    ensures
        s@ == t,
{
    broadcast use encode_utf8_decode_utf8;

    assert(decode_utf8(encode_utf8(s@)) == decode_utf8(encode_utf8(t)));
}

/// Of the rows read from `items` (as `parse_items` returns them), an
/// expansion `ctx alt` of the query `* alt` gives the row (before, `alt`,
/// `ctx`), so that the context, a space and the alternative make up the
/// ngram again.
pub proof fn law_leading_wildcard_row<'a>(
    items: Seq<NgramItem>,
    rows: Seq<Row<'a>>,
    i: int,
    ctx: Seq<char>,
    alt: Seq<char>,
)
    requires
        rows.map_values(|r: Row| row_view(r)) == extracted_rows(items),
        0 <= i < items.len(),
        items[i].kind == NgramType::Expansion,
        items[i].parent@ == seq!['*', ' '] + alt,
        items[i].ngram@ == ctx + seq![' '] + alt,
        !starts_with_wildcard(utf8(items[i].ngram@)),
        !ends_with_wildcard(utf8(items[i].ngram@)),
    ensures
        0 <= row_index(items, i) < rows.len(),
        rows[row_index(items, i)].side == Side::Before,
        rows[row_index(items, i)].alt@ == alt,
        rows[row_index(items, i)].ctx@ == ctx,
        rows[row_index(items, i)].ctx@ + seq![' '] + rows[row_index(items, i)].alt@ == items[i].ngram@,
{
    law_leading_wildcard_expansion(items[i], ctx, alt);
    lemma_row_of_item(items, i);
    let k = row_index(items, i);
    assert(row_view(rows[k]) == extracted_rows(items)[k]);
    lemma_bytes_to_text(rows[k].alt, alt);
    lemma_bytes_to_text(rows[k].ctx, ctx);
}

/// Of the rows read from `items` (as `parse_items` returns them), an
/// expansion `alt ctx` of the query `alt *` gives the row (after, `alt`,
/// `ctx`), so that the alternative, a space and the context make up the
/// ngram again.
pub proof fn law_trailing_wildcard_row<'a>(
    items: Seq<NgramItem>,
    rows: Seq<Row<'a>>,
    i: int,
    ctx: Seq<char>,
    alt: Seq<char>,
)
    requires
        rows.map_values(|r: Row| row_view(r)) == extracted_rows(items),
        0 <= i < items.len(),
        items[i].kind == NgramType::Expansion,
        items[i].parent@ == alt + seq![' ', '*'],
        items[i].ngram@ == alt + seq![' '] + ctx,
        !starts_with_wildcard(utf8(items[i].parent@)),
        !starts_with_wildcard(utf8(items[i].ngram@)),
        !ends_with_wildcard(utf8(items[i].ngram@)),
    ensures
        0 <= row_index(items, i) < rows.len(),
        rows[row_index(items, i)].side == Side::After,
        rows[row_index(items, i)].alt@ == alt,
        rows[row_index(items, i)].ctx@ == ctx,
        rows[row_index(items, i)].alt@ + seq![' '] + rows[row_index(items, i)].ctx@ == items[i].ngram@,
{
    law_trailing_wildcard_expansion(items[i], ctx, alt);
    lemma_row_of_item(items, i);
    let k = row_index(items, i);
    assert(row_view(rows[k]) == extracted_rows(items)[k]);
    lemma_bytes_to_text(rows[k].alt, alt);
    lemma_bytes_to_text(rows[k].ctx, ctx);
}

/// Some item that `parse_items` reaches cannot have its context cut out.
pub open spec fn items_cut_fail(items: Seq<NgramItem>) -> bool {
    exists|i: int|
        0 <= i < items.len() && !wildcard_missing_before(items, i) && item_cut_fails(
            #[trigger] items[i],
        )
}

/// Whether reading the items would reach an expansion whose context cannot
/// be cut out of its ngram (the ngram is shorter than its alternative, or
/// the cut falls inside a character).
pub fn items_cut_would_fail(items: &[NgramItem]) -> (res: bool)
    ensures
        res == items_cut_fail(items@),
{
    let mut i: usize = 0;
    while i < items.len()
        invariant
            i <= items@.len(),
            !wildcard_missing_before(items@, i as int),
            forall|k: int|
                0 <= k < i && !wildcard_missing_before(items@, k) ==> !item_cut_fails(
                    #[trigger] items@[k],
                ),
        decreases items@.len() - i,
    {
        let item = &items[i];
        let ngram = item.ngram.as_str();
        let nb = ngram.as_bytes();
        let parent = item.parent.as_str();
        let pb = parent.as_bytes();
        if item.kind != NgramType::Expansion || has_leading_wildcard(nb) || has_trailing_wildcard(
            nb,
        ) {
            assert(!item_cut_fails(items@[i as int]));
        } else if has_leading_wildcard(pb) || has_trailing_wildcard(pb) {
            let before = has_leading_wildcard(pb);
            let alt_len = pb.len() - 2;
            let fits = nb.len() >= alt_len + 1;
            let cut_ok = fits && if before {
                ngram.is_char_boundary(nb.len() - (alt_len + 1))
            } else {
                ngram.is_char_boundary(alt_len + 1)
            };
            if !cut_ok {
                assert(item_cut_fails(items@[i as int]));
                return true;
            }
            assert(!item_cut_fails(items@[i as int]));
        } else {
            assert(parse_item(items@[i as int]) is NoWildcard);
            assert forall|k: int|
                i < k < items@.len() implies wildcard_missing_before(items@, k) by {
                assert(parse_item(items@[i as int]) is NoWildcard);
            }
            return false;
        }
        assert forall|k: int|
            0 <= k < i + 1 && !wildcard_missing_before(items@, k) implies !item_cut_fails(
            #[trigger] items@[k],
        ) by {}
        assert(!wildcard_missing_before(items@, i + 1)) by {
            if wildcard_missing_before(items@, i + 1) {
                let j = choose|j: int| 0 <= j < i + 1 && #[trigger] parse_item(items@[j]) is NoWildcard;
                if j < i {
                    assert(wildcard_missing_before(items@, i as int));
                }
            }
        }
        i = i + 1;
    }
    false
}

} // verus!
