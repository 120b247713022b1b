//! Character-level helpers on strings.
use vstd::prelude::*;
use vstd::std_specs::iter::IteratorSpec;
use vstd::utf8::*;
use vstd::string::*;

verus! {

/// The characters of `s`, in order.
pub fn chars_of(s: &str) -> (res: Vec<char>)
    ensures
        res@ == s@,
{
    let mut res: Vec<char> = Vec::new();
    for c in it: s.chars()
        invariant
            it.seq() == s@,
            res@ == it.seq().take(it.index() as int),
    {
        res.push(c);
    }
    res
}

/// Appends one character to a string.
#[verifier::external_body]
fn push_char(s: &mut String, c: char)
    ensures
        final(s)@ == old(s)@.push(c),
{
    s.push(c);
}

/// The string made of the characters of `cs`, in order.
pub fn string_from_chars(cs: &[char]) -> (res: String)
    ensures
        res@ == cs@,
{
    let mut res = String::new();
    let mut i: usize = 0;
    while i < cs.len()
        invariant
            i <= cs@.len(),
            res@ == cs@.take(i as int),
        decreases cs@.len() - i,
    {
        push_char(&mut res, cs[i]);
        i = i + 1;
        assert(cs@.take(i as int) == cs@.take(i - 1).push(cs@[i - 1]));
    }
    assert(cs@.take(cs@.len() as int) == cs@);
    res
}


/// Appends the characters of `s` to `v`.
pub fn push_str_chars(v: &mut Vec<char>, s: &str)
    ensures
        final(v)@ == old(v)@ + s@,
{
    let cs = chars_of(s);
    let mut i: usize = 0;
    while i < cs.len()
        invariant
            i <= cs@.len(),
            cs@ == s@,
            v@ == old(v)@ + cs@.take(i as int),
        decreases cs@.len() - i,
    {
        v.push(cs[i]);
        i = i + 1;
        assert(cs@.take(i as int) == cs@.take(i - 1).push(cs@[i - 1]));
    }
    assert(cs@.take(cs@.len() as int) == cs@);
}

/// Whether `c` occurs in `cs`.
pub fn contains_char(cs: &[char], c: char) -> (res: bool)
    ensures
        res == cs@.contains(c),
{
    let mut i: usize = 0;
    while i < cs.len()
        invariant
            i <= cs@.len(),
            forall|k: int| 0 <= k < i ==> cs@[k] != c,
        decreases cs@.len() - i,
    {
        if cs[i] == c {
            assert(cs@[i as int] == c);
            return true;
        }
        i = i + 1;
    }
    false
}


/// Whether two strings hold the same text.
pub fn str_eq(a: &str, b: &str) -> (res: bool)
    ensures
        res == (a@ == b@),
{
    let x = chars_of(a);
    let y = chars_of(b);
    if x.len() != y.len() {
        return false;
    }
    let mut k: usize = 0;
    while k < x.len()
        invariant
            k <= x@.len(),
            x@.len() == y@.len(),
            x@ == a@,
            y@ == b@,
            forall|j: int| 0 <= j < k ==> x@[j] == y@[j],
        decreases x@.len() - k,
    {
        if x[k] != y[k] {
            assert(x@[k as int] != y@[k as int]);
            return false;
        }
        k = k + 1;
    }
    assert(x@ =~= y@);
    true
}

/// The texts held by a sequence of strings.
pub open spec fn str_set(v: Seq<String>) -> Set<Seq<char>> {
    Set::new(|w: Seq<char>| exists|i: int| 0 <= i < v.len() && #[trigger] v[i]@ == w)
}

/// No two strings of the sequence hold the same text.
pub open spec fn distinct_strs(v: Seq<String>) -> bool {
    forall|i: int, j: int| 0 <= i < j < v.len() ==> (#[trigger] v[i])@ != (#[trigger] v[j])@
}

/// Whether some string of `v` holds the text of `s`.
pub fn contains_str(v: &Vec<String>, s: &str) -> (b: bool)
    ensures
        b == str_set(v@).contains(s@),
{
    let mut i: usize = 0;
    while i < v.len()
        invariant
            i <= v@.len(),
            forall|k: int| 0 <= k < i ==> (#[trigger] v@[k])@ != s@,
        decreases v@.len() - i,
    {
        if str_eq(v[i].as_str(), s) {
            assert(v@[i as int]@ == s@);
            return true;
        }
        i = i + 1;
    }
    false
}

/// Adds the text of `s` unless it is already there.
pub fn insert_str(v: &mut Vec<String>, s: &str)
    requires
        distinct_strs(old(v)@),
    ensures
        distinct_strs(final(v)@),
        str_set(final(v)@) == str_set(old(v)@).insert(s@),
{
    if !contains_str(v, s) {
        let ghost v0 = v@;
        v.push(s.to_owned());
        assert(v@[v0.len() as int]@ == s@);
        assert forall|w: Seq<char>| str_set(v@).contains(w) <==> str_set(v0).insert(s@).contains(w) by {
            if str_set(v0).contains(w) {
                let i = choose|i: int| 0 <= i < v0.len() && #[trigger] v0[i]@ == w;
                assert(v@[i] == v0[i]);
            }
            if str_set(v@).contains(w) {
                let i = choose|i: int| 0 <= i < v@.len() && #[trigger] v@[i]@ == w;
                if i < v0.len() {
                    assert(v0[i] == v@[i]);
                }
            }
        }
        assert(str_set(v@) =~= str_set(v0).insert(s@));
    } else {
        assert(str_set(v@) =~= str_set(v@).insert(s@));
    }
}

/// Adds `p` unless it is already there.
pub fn insert_pos(v: &mut Vec<crate::pos::Pos>, p: crate::pos::Pos)
    requires
        old(v)@.no_duplicates(),
    ensures
        final(v)@.no_duplicates(),
        final(v)@.to_set() == old(v)@.to_set().insert(p),
{
    let mut i: usize = 0;
    while i < v.len()
        invariant
            i <= v@.len(),
            v@ == old(v)@,
            old(v)@.no_duplicates(),
            forall|k: int| 0 <= k < i ==> v@[k] != p,
        decreases v@.len() - i,
    {
        if v[i] == p {
            assert(v@.to_set() =~= v@.to_set().insert(p));
            return;
        }
        i = i + 1;
    }
    let ghost v0 = v@;
    v.push(p);
    assert(v@ == v0.push(p));
    proof {
        v0.lemma_push_to_set_commute(p);
    }
    assert(v@.to_set() =~= v0.to_set().insert(p));
}


/// Lexicographic order of byte sequences, the order of `str` and `String`.
pub open spec fn bytes_lt(a: Seq<u8>, b: Seq<u8>) -> bool
    decreases a.len(),
{
    if a.len() == 0 {
        b.len() > 0
    } else if b.len() == 0 {
        false
    } else if a[0] != b[0] {
        a[0] < b[0]
    } else {
        bytes_lt(a.drop_first(), b.drop_first())
    }
}

/// Texts ordered as Rust orders strings: by their UTF-8 bytes.
pub open spec fn text_lt(a: Seq<char>, b: Seq<char>) -> bool {
    bytes_lt(encode_utf8(a), encode_utf8(b))
}

pub proof fn lemma_bytes_lt_irreflexive(a: Seq<u8>)
    ensures
        !bytes_lt(a, a),
    decreases a.len(),
{
    if a.len() > 0 {
        lemma_bytes_lt_irreflexive(a.drop_first());
    }
}

pub proof fn lemma_bytes_lt_transitive(a: Seq<u8>, b: Seq<u8>, c: Seq<u8>)
    requires
        bytes_lt(a, b),
        bytes_lt(b, c),
    ensures
        bytes_lt(a, c),
    decreases a.len(),
{
    if a.len() > 0 && b.len() > 0 && c.len() > 0 && a[0] == b[0] && b[0] == c[0] {
        lemma_bytes_lt_transitive(a.drop_first(), b.drop_first(), c.drop_first());
    }
}

pub proof fn lemma_bytes_lt_total(a: Seq<u8>, b: Seq<u8>)
    requires
        a != b,
    ensures
        bytes_lt(a, b) || bytes_lt(b, a),
    decreases a.len(),
{
    if a.len() > 0 && b.len() > 0 && a[0] == b[0] {
        assert(a.drop_first() != b.drop_first()) by {
            if a.drop_first() == b.drop_first() {
                assert(a =~= seq![a[0]] + a.drop_first());
                assert(b =~= seq![b[0]] + b.drop_first());
            }
        }
        lemma_bytes_lt_total(a.drop_first(), b.drop_first());
    } else if a.len() == 0 && b.len() == 0 {
        assert(a =~= b);
    }
}

pub proof fn lemma_bytes_lt_asymmetric(a: Seq<u8>, b: Seq<u8>)
    requires
        bytes_lt(a, b),
    ensures
        !bytes_lt(b, a),
    decreases a.len(),
{
    if a.len() > 0 && b.len() > 0 && a[0] == b[0] {
        lemma_bytes_lt_asymmetric(a.drop_first(), b.drop_first());
    }
}

/// Distinct texts have distinct encodings, so one of them comes first.
pub proof fn lemma_text_lt_total(a: Seq<char>, b: Seq<char>)
    requires
        a != b,
    ensures
        text_lt(a, b) || text_lt(b, a),
{
    broadcast use encode_utf8_decode_utf8;

    assert(encode_utf8(a) != encode_utf8(b)) by {
        if encode_utf8(a) == encode_utf8(b) {
            assert(decode_utf8(encode_utf8(a)) == decode_utf8(encode_utf8(b)));
        }
    }
    lemma_bytes_lt_total(encode_utf8(a), encode_utf8(b));
}

proof fn lemma_bytes_lt_skip(a: Seq<u8>, b: Seq<u8>, i: int)
    requires
        0 <= i <= a.len(),
        i <= b.len(),
        a.take(i) == b.take(i),
    ensures
        bytes_lt(a, b) == bytes_lt(a.skip(i), b.skip(i)),
    decreases i,
{
    if i > 0 {
        assert(a[0] == a.take(i)[0]);
        assert(b[0] == b.take(i)[0]);
        assert(a.drop_first().take(i - 1) =~= a.take(i).drop_first());
        assert(b.drop_first().take(i - 1) =~= b.take(i).drop_first());
        lemma_bytes_lt_skip(a.drop_first(), b.drop_first(), i - 1);
        assert(a.drop_first().skip(i - 1) =~= a.skip(i));
        assert(b.drop_first().skip(i - 1) =~= b.skip(i));
    } else {
        assert(a.skip(0) =~= a);
        assert(b.skip(0) =~= b);
    }
}

proof fn lemma_bytes_lt_at(u: Seq<u8>, v: Seq<u8>, i: int)
    requires
        0 <= i < u.len(),
        i < v.len(),
        u.take(i) == v.take(i),
        u[i] < v[i],
    ensures
        bytes_lt(u, v),
{
    lemma_bytes_lt_skip(u, v, i);
    assert(u.skip(i)[0] == u[i]);
    assert(v.skip(i)[0] == v[i]);
}

proof fn lemma_leading_byte_ranges(a: u32)
    by (bit_vector)
    ensures
        a <= 0x7F ==> leading_byte_width_1(a) == a as u8,
        0x80 <= a <= 0x7FF ==> 0xC0 <= leading_byte_width_2(a) && leading_byte_width_2(a) <= 0xDF,
        0x800 <= a <= 0xFFFF ==> 0xE0 <= leading_byte_width_3(a) && leading_byte_width_3(a) <= 0xEF,
        0x10000 <= a <= 0x10FFFF ==> 0xF0 <= leading_byte_width_4(a),
{
}

proof fn lemma_width_2_order(a: u32, b: u32)
    by (bit_vector)
    requires
        0x80 <= a <= 0x7FF,
        0x80 <= b <= 0x7FF,
        a < b,
    ensures
        leading_byte_width_2(a) < leading_byte_width_2(b) || (leading_byte_width_2(a)
            == leading_byte_width_2(b) && last_continuation_byte(a) < last_continuation_byte(b)),
{
}

proof fn lemma_width_3_order(a: u32, b: u32)
    by (bit_vector)
    requires
        0x800 <= a <= 0xFFFF,
        0x800 <= b <= 0xFFFF,
        a < b,
    ensures
        leading_byte_width_3(a) < leading_byte_width_3(b) || (leading_byte_width_3(a)
            == leading_byte_width_3(b) && second_last_continuation_byte(a)
            < second_last_continuation_byte(b)) || (leading_byte_width_3(a) == leading_byte_width_3(
            b,
        ) && second_last_continuation_byte(a) == second_last_continuation_byte(b)
            && last_continuation_byte(a) < last_continuation_byte(b)),
{
}

proof fn lemma_width_4_order(a: u32, b: u32)
    by (bit_vector)
    requires
        0x10000 <= a <= 0x10FFFF,
        0x10000 <= b <= 0x10FFFF,
        a < b,
    ensures
        leading_byte_width_4(a) < leading_byte_width_4(b) || (leading_byte_width_4(a)
            == leading_byte_width_4(b) && third_last_continuation_byte(a)
            < third_last_continuation_byte(b)) || (leading_byte_width_4(a) == leading_byte_width_4(
            b,
        ) && third_last_continuation_byte(a) == third_last_continuation_byte(b)
            && second_last_continuation_byte(a) < second_last_continuation_byte(b)) || (
        leading_byte_width_4(a) == leading_byte_width_4(b) && third_last_continuation_byte(a)
            == third_last_continuation_byte(b) && second_last_continuation_byte(a)
            == second_last_continuation_byte(b) && last_continuation_byte(a) < last_continuation_byte(
            b,
        )),
{
}

/// A smaller scalar value has a smaller UTF-8 encoding, whatever follows.
proof fn lemma_scalar_order(a: u32, b: u32, x: Seq<u8>, y: Seq<u8>)
    requires
        is_scalar(a),
        is_scalar(b),
        a < b,
    ensures
        bytes_lt(encode_scalar(a) + x, encode_scalar(b) + y),
{
    let u = encode_scalar(a) + x;
    let v = encode_scalar(b) + y;
    lemma_leading_byte_ranges(a);
    lemma_leading_byte_ranges(b);
    assert(u.take(0) =~= v.take(0));
    if has_width_1_encoding(a) || !(has_width_1_encoding(b) || (has_width_2_encoding(a)
        && has_width_2_encoding(b)) || (has_width_3_encoding(a) && has_width_3_encoding(b)) || (
    has_width_4_encoding(a) && has_width_4_encoding(b))) {
        assert(u[0] < v[0]);
        lemma_bytes_lt_at(u, v, 0);
    } else if has_width_2_encoding(a) {
        lemma_width_2_order(a, b);
        if u[0] < v[0] {
            lemma_bytes_lt_at(u, v, 0);
        } else {
            assert(u.take(1) =~= v.take(1));
            lemma_bytes_lt_at(u, v, 1);
        }
    } else if has_width_3_encoding(a) {
        lemma_width_3_order(a, b);
        if u[0] < v[0] {
            lemma_bytes_lt_at(u, v, 0);
        } else if u[1] < v[1] {
            assert(u.take(1) =~= v.take(1));
            lemma_bytes_lt_at(u, v, 1);
        } else {
            assert(u.take(2) =~= v.take(2));
            lemma_bytes_lt_at(u, v, 2);
        }
    } else {
        lemma_width_4_order(a, b);
        if u[0] < v[0] {
            lemma_bytes_lt_at(u, v, 0);
        } else if u[1] < v[1] {
            assert(u.take(1) =~= v.take(1));
            lemma_bytes_lt_at(u, v, 1);
        } else if u[2] < v[2] {
            assert(u.take(2) =~= v.take(2));
            lemma_bytes_lt_at(u, v, 2);
        } else {
            assert(u.take(3) =~= v.take(3));
            lemma_bytes_lt_at(u, v, 3);
        }
    }
}

proof fn lemma_encode_front(c: char, rest: Seq<char>)
    ensures
        encode_utf8(seq![c] + rest) == encode_scalar(c as u32) + encode_utf8(rest),
{
    let s = seq![c] + rest;
    assert(s[0] == c);
    assert(s.drop_first() =~= rest);
}

/// Texts that agree up to some character and differ there come in the
/// order of those two characters.
pub proof fn lemma_text_lt_first_difference(p: Seq<char>, a: char, b: char, xs: Seq<char>, ys: Seq<char>)
    requires
        (a as u32) < (b as u32),
    ensures
        text_lt(p + seq![a] + xs, p + seq![b] + ys),
    decreases p.len(),
{
    broadcast use char_is_scalar;

    if p.len() == 0 {
        assert(p + seq![a] + xs =~= seq![a] + xs);
        assert(p + seq![b] + ys =~= seq![b] + ys);
        lemma_encode_front(a, xs);
        lemma_encode_front(b, ys);
        lemma_scalar_order(a as u32, b as u32, encode_utf8(xs), encode_utf8(ys));
    } else {
        let q = p.drop_first();
        lemma_text_lt_first_difference(q, a, b, xs, ys);
        assert(p + seq![a] + xs =~= seq![p[0]] + (q + seq![a] + xs));
        assert(p + seq![b] + ys =~= seq![p[0]] + (q + seq![b] + ys));
        lemma_encode_front(p[0], q + seq![a] + xs);
        lemma_encode_front(p[0], q + seq![b] + ys);
        let e = encode_scalar(p[0] as u32);
        let u = e + encode_utf8(q + seq![a] + xs);
        let v = e + encode_utf8(q + seq![b] + ys);
        assert(u.take(e.len() as int) =~= v.take(e.len() as int));
        lemma_bytes_lt_skip(u, v, e.len() as int);
        assert(u.skip(e.len() as int) =~= encode_utf8(q + seq![a] + xs));
        assert(v.skip(e.len() as int) =~= encode_utf8(q + seq![b] + ys));
    }
}

/// A text comes before every longer text that begins with it.
pub proof fn lemma_text_lt_proper_prefix(x: Seq<char>, c: char, ys: Seq<char>)
    ensures
        text_lt(x, x + seq![c] + ys),
    decreases x.len(),
{
    broadcast use char_is_scalar;

    if x.len() == 0 {
        assert(x + seq![c] + ys =~= seq![c] + ys);
        lemma_encode_front(c, ys);
        assert(encode_utf8(x) =~= Seq::<u8>::empty());
        assert(encode_scalar(c as u32).len() > 0);
    } else {
        let q = x.drop_first();
        lemma_text_lt_proper_prefix(q, c, ys);
        assert(x =~= seq![x[0]] + q);
        assert(x + seq![c] + ys =~= seq![x[0]] + (q + seq![c] + ys));
        lemma_encode_front(x[0], q);
        lemma_encode_front(x[0], q + seq![c] + ys);
        let e = encode_scalar(x[0] as u32);
        let u = e + encode_utf8(q);
        let v = e + encode_utf8(q + seq![c] + ys);
        assert(u.take(e.len() as int) =~= v.take(e.len() as int));
        lemma_bytes_lt_skip(u, v, e.len() as int);
        assert(u.skip(e.len() as int) =~= encode_utf8(q));
        assert(v.skip(e.len() as int) =~= encode_utf8(q + seq![c] + ys));
    }
}

/// Whether `a` comes before `b` in Rust's order of strings.
pub fn str_lt(a: &str, b: &str) -> (res: bool)
    ensures
        res == text_lt(a@, b@),
{
    let x = a.as_bytes();
    let y = b.as_bytes();
    let mut i: usize = 0;
    while i < x.len() && i < y.len()
        invariant
            i <= x@.len(),
            i <= y@.len(),
            x@ == encode_utf8(a@),
            y@ == encode_utf8(b@),
            x@.take(i as int) == y@.take(i as int),
        decreases x@.len() - i,
    {
        if x[i] != y[i] {
            proof {
                lemma_bytes_lt_skip(x@, y@, i as int);
                assert(x@.skip(i as int)[0] == x@[i as int]);
                assert(y@.skip(i as int)[0] == y@[i as int]);
            }
            return x[i] < y[i];
        }
        assert(x@.take(i + 1) =~= x@.take(i as int).push(x@[i as int]));
        assert(y@.take(i + 1) =~= y@.take(i as int).push(y@[i as int]));
        i = i + 1;
    }
    proof {
        lemma_bytes_lt_skip(x@, y@, i as int);
    }
    i == x.len() && i < y.len()
}


/// The texts of a sequence of strings, in order.
pub open spec fn texts(v: Seq<String>) -> Seq<Seq<char>> {
    v.map_values(|s: String| s@)
}

pub proof fn lemma_texts(v: Seq<String>)
    ensures
        texts(v).len() == v.len(),
        texts(v).to_set() == str_set(v),
        distinct_strs(v) <==> texts(v).no_duplicates(),
{
    let t = texts(v);
    assert forall|w: Seq<char>| t.to_set().contains(w) <==> str_set(v).contains(w) by {
        if t.contains(w) {
            let i = choose|i: int| 0 <= i < t.len() && t[i] == w;
            assert(v[i]@ == w);
        }
        if str_set(v).contains(w) {
            let i = choose|i: int| 0 <= i < v.len() && #[trigger] v[i]@ == w;
            assert(t[i] == w);
        }
    }
    assert(t.to_set() =~= str_set(v));
    if distinct_strs(v) {
        assert forall|i: int, j: int| 0 <= i < t.len() && 0 <= j < t.len() && i != j implies t[i] != t[j] by {
            if i < j {
                assert(v[i]@ != v[j]@);
            } else {
                assert(v[j]@ != v[i]@);
            }
        }
    }
    if t.no_duplicates() {
        assert forall|i: int, j: int| 0 <= i < j < v.len() implies (#[trigger] v[i])@ != (#[trigger] v[j])@ by {
            assert(t[i] != t[j]);
        }
    }
}

/// The Unicode lower case of a text, as `str::to_lowercase` computes it.
pub uninterp spec fn lowercase(s: Seq<char>) -> Seq<char>;

/// Calls `str::to_lowercase`. The result is named `lowercase`.
#[verifier::external_body]
fn to_lowercase(s: &str) -> (res: String)
    ensures
        res@ == lowercase(s@),
{
    s.to_lowercase()
}

/// Texts in strictly ascending order of Rust strings.
pub open spec fn ascending_texts(q: Seq<Seq<char>>) -> bool {
    forall|i: int, j: int| 0 <= i < j < q.len() ==> text_lt(#[trigger] q[i], #[trigger] q[j])
}

/// The texts of a finite set, in ascending order.
pub open spec fn sorted_texts(s: Set<Seq<char>>) -> Seq<Seq<char>> {
    choose|q: Seq<Seq<char>>| ascending_texts(q) && q.to_set() == s
}

proof fn lemma_text_lt_irreflexive(a: Seq<char>)
    ensures
        !text_lt(a, a),
{
    lemma_bytes_lt_irreflexive(encode_utf8(a));
}

/// Two ascending sequences with the same texts are the same sequence.
pub proof fn lemma_ascending_unique(q1: Seq<Seq<char>>, q2: Seq<Seq<char>>)
    requires
        ascending_texts(q1),
        ascending_texts(q2),
        q1.to_set() == q2.to_set(),
    ensures
        q1 == q2,
    decreases q1.len(),
{
    if q1.len() == 0 {
        if q2.len() > 0 {
            assert(q2.to_set().contains(q2[0]));
        }
        assert(q1 =~= q2);
    } else if q2.len() == 0 {
        assert(q1.to_set().contains(q1[0]));
    } else {
        let a = q1[0];
        let b = q2[0];
        assert(q1.to_set().contains(a));
        assert(q2.to_set().contains(b));
        if a != b {
            let i = choose|i: int| 0 <= i < q2.len() && q2[i] == a;
            let j = choose|j: int| 0 <= j < q1.len() && q1[j] == b;
            assert(i != 0 && j != 0);
            assert(text_lt(b, a));
            assert(text_lt(a, b));
            lemma_bytes_lt_asymmetric(encode_utf8(a), encode_utf8(b));
        }
        let r1 = q1.drop_first();
        let r2 = q2.drop_first();
        assert forall|w: Seq<char>| r1.to_set().contains(w) <==> r2.to_set().contains(w) by {
            if r1.contains(w) {
                let i = choose|i: int| 0 <= i < r1.len() && r1[i] == w;
                assert(q1[i + 1] == w);
                assert(text_lt(a, w));
                lemma_text_lt_irreflexive(w);
                assert(q2.to_set().contains(w));
                let k = choose|k: int| 0 <= k < q2.len() && q2[k] == w;
                assert(k != 0);
                assert(r2[k - 1] == w);
            }
            if r2.contains(w) {
                let i = choose|i: int| 0 <= i < r2.len() && r2[i] == w;
                assert(q2[i + 1] == w);
                assert(text_lt(b, w));
                lemma_text_lt_irreflexive(w);
                assert(q1.to_set().contains(w));
                let k = choose|k: int| 0 <= k < q1.len() && q1[k] == w;
                assert(k != 0);
                assert(r1[k - 1] == w);
            }
        }
        assert(r1.to_set() =~= r2.to_set());
        lemma_ascending_unique(r1, r2);
        assert(q1 =~= seq![a] + r1);
        assert(q2 =~= seq![b] + r2);
    }
}

/// Calls `itertools::Itertools::sorted` on the strings and collects the
/// result: the same strings (as a multiset) in ascending order of `String`.
#[verifier::external_body]
fn itertools_sorted(v: Vec<String>) -> (res: Vec<String>)
    ensures
        texts(res@).to_multiset() == texts(v@).to_multiset(),
        forall|i: int, j: int| 0 <= i < j < res@.len() ==> !text_lt(#[trigger] res@[j]@, #[trigger] res@[i]@),
{
    itertools::Itertools::sorted(v.into_iter()).collect()
}

/// The strings of a set of distinct strings in ascending order.
pub fn sort_texts(v: Vec<String>) -> (res: Vec<String>)
    requires
        distinct_strs(v@),
    ensures
        texts(res@) == sorted_texts(str_set(v@)),
        distinct_strs(res@),
{
    broadcast use vstd::seq_lib::group_to_multiset_ensures;

    let ghost tv = texts(v@);
    let res = itertools_sorted(v);
    proof {
        let tr = texts(res@);
        lemma_texts(v@);
        lemma_texts(res@);
        tv.lemma_multiset_has_no_duplicates();
        tr.lemma_multiset_has_no_duplicates_conv();
        assert forall|w: Seq<char>| tr.to_set().contains(w) <==> tv.to_set().contains(w) by {
            assert(tr.contains(w) <==> tr.to_multiset().contains(w));
            assert(tv.contains(w) <==> tv.to_multiset().contains(w));
        }
        assert(tr.to_set() =~= tv.to_set());
        assert forall|i: int, j: int| 0 <= i < j < tr.len() implies text_lt(#[trigger] tr[i], #[trigger] tr[j]) by {
            assert(tr[i] == res@[i]@ && tr[j] == res@[j]@);
            assert(tr[i] != tr[j]);
            assert(!text_lt(tr[j], tr[i]));
            lemma_text_lt_total(tr[i], tr[j]);
        }
        let q = sorted_texts(str_set(v@));
        assert(ascending_texts(q) && q.to_set() == str_set(v@));
        lemma_ascending_unique(q, tr);
    }
    res
}

/// Whether some string of `v` holds the text `s`; if so, a copy of it.
pub fn find_str(v: &Vec<String>, s: &str) -> (res: Option<String>)
    ensures
        res is Some <==> str_set(v@).contains(s@),
        res matches Some(x) ==> x@ == s@,
{
    let mut i: usize = 0;
    while i < v.len()
        invariant
            i <= v@.len(),
            forall|k: int| 0 <= k < i ==> (#[trigger] v@[k])@ != s@,
        decreases v@.len() - i,
    {
        if str_eq(v[i].as_str(), s) {
            return Some(v[i].clone());
        }
        i = i + 1;
    }
    None
}

/// The lower case of every string, without repeats.
pub fn lowercased(v: &Vec<String>) -> (res: Vec<String>)
    ensures
        distinct_strs(res@),
        str_set(res@) == str_set(v@).map(|w: Seq<char>| lowercase(w)),
{
    let mut res: Vec<String> = Vec::new();
    let mut k: usize = 0;
    while k < v.len()
        invariant
            k <= v@.len(),
            distinct_strs(res@),
            str_set(res@) == str_set(v@.take(k as int)).map(|w: Seq<char>| lowercase(w)),
        decreases v@.len() - k,
    {
        let low = to_lowercase(v[k].as_str());
        insert_str(&mut res, low.as_str());
        proof {
            let f = |w: Seq<char>| lowercase(w);
            let a = str_set(v@.take(k as int));
            let b = str_set(v@.take(k + 1));
            assert(b =~= a.insert(v@[k as int]@)) by {
                assert forall|w: Seq<char>| b.contains(w) <==> a.insert(v@[k as int]@).contains(w) by {
                    if b.contains(w) {
                        let i = choose|i: int| 0 <= i < k + 1 && #[trigger] v@.take(k + 1)[i]@ == w;
                        if i < k {
                            assert(v@.take(k as int)[i] == v@.take(k + 1)[i]);
                        }
                    }
                    if a.contains(w) {
                        let i = choose|i: int| 0 <= i < k && #[trigger] v@.take(k as int)[i]@ == w;
                        assert(v@.take(k + 1)[i] == v@.take(k as int)[i]);
                    }
                    if w == v@[k as int]@ {
                        assert(v@.take(k + 1)[k as int]@ == w);
                    }
                }
            }
            assert(b.map(f) =~= a.map(f).insert(f(v@[k as int]@))) by {
                assert forall|w: Seq<char>| b.map(f).contains(w) <==> a.map(f).insert(f(v@[k as int]@)).contains(w) by {
                    if b.map(f).contains(w) {
                        let x = choose|x: Seq<char>| b.contains(x) && f(x) == w;
                        if x != v@[k as int]@ {
                            assert(a.contains(x));
                        }
                    }
                    if a.map(f).contains(w) {
                        let x = choose|x: Seq<char>| a.contains(x) && f(x) == w;
                        assert(b.contains(x));
                    }
                    if w == f(v@[k as int]@) {
                        assert(b.contains(v@[k as int]@));
                    }
                }
            }
        }
        k = k + 1;
    }
    assert(v@.take(v@.len() as int) == v@);
    res
}

/// The strings of `a` whose text is (`keep`) or is not (`!keep`) in `b`.
pub fn filter_by_membership(a: &Vec<String>, b: &Vec<String>, keep: bool) -> (res: Vec<String>)
    requires
        distinct_strs(a@),
    ensures
        distinct_strs(res@),
        str_set(res@) == (if keep {
            str_set(a@).intersect(str_set(b@))
        } else {
            str_set(a@).difference(str_set(b@))
        }),
{
    let mut res: Vec<String> = Vec::new();
    let mut k: usize = 0;
    while k < a.len()
        invariant
            k <= a@.len(),
            distinct_strs(a@),
            distinct_strs(res@),
            forall|i: int| 0 <= i < res@.len() ==> exists|j: int| 0 <= j < k && (#[trigger] res@[i])@ == (#[trigger] a@[j])@,
            forall|w: Seq<char>| str_set(res@).contains(w) <==> (exists|j: int| 0 <= j < k && (#[trigger] a@[j])@ == w) && (str_set(b@).contains(w) == keep),
        decreases a@.len() - k,
    {
        let inside = contains_str(b, a[k].as_str());
        if inside == keep {
            let ghost r0 = res@;
            res.push(a[k].clone());
            proof {
                assert forall|i: int, j: int| 0 <= i < j < res@.len() implies (#[trigger] res@[i])@ != (#[trigger] res@[j])@ by {
                    if j == r0.len() {
                        let t = choose|t: int| 0 <= t < k && (#[trigger] r0[i])@ == (#[trigger] a@[t])@;
                        assert(res@[i] == r0[i]);
                        assert(a@[t]@ != a@[k as int]@);
                    } else {
                        assert(res@[i] == r0[i] && res@[j] == r0[j]);
                    }
                }
                assert forall|i: int| 0 <= i < res@.len() implies exists|j: int| 0 <= j < k + 1 && (#[trigger] res@[i])@ == (#[trigger] a@[j])@ by {
                    if i == r0.len() {
                        assert(res@[i]@ == a@[k as int]@);
                    } else {
                        assert(res@[i] == r0[i]);
                        let t = choose|t: int| 0 <= t < k && (#[trigger] r0[i])@ == (#[trigger] a@[t])@;
                        assert(res@[i]@ == a@[t]@);
                    }
                }
                assert forall|w: Seq<char>| str_set(res@).contains(w) <==> (exists|j: int| 0 <= j < k + 1 && (#[trigger] a@[j])@ == w) && (str_set(b@).contains(w) == keep) by {
                    if str_set(res@).contains(w) {
                        let i = choose|i: int| 0 <= i < res@.len() && #[trigger] res@[i]@ == w;
                        if i < r0.len() {
                            assert(res@[i] == r0[i]);
                            assert(str_set(r0).contains(w));
                        } else {
                            assert(a@[k as int]@ == w);
                        }
                    }
                    if (exists|j: int| 0 <= j < k + 1 && (#[trigger] a@[j])@ == w) && (str_set(b@).contains(w) == keep) {
                        let j = choose|j: int| 0 <= j < k + 1 && (#[trigger] a@[j])@ == w;
                        if j < k {
                            assert(str_set(r0).contains(w));
                            let i = choose|i: int| 0 <= i < r0.len() && #[trigger] r0[i]@ == w;
                            assert(res@[i] == r0[i]);
                        } else {
                            assert(res@[r0.len() as int]@ == w);
                        }
                    }
                }
            }
        } else {
            proof {
                assert forall|w: Seq<char>| str_set(res@).contains(w) <==> (exists|j: int| 0 <= j < k + 1 && (#[trigger] a@[j])@ == w) && (str_set(b@).contains(w) == keep) by {
                    if (exists|j: int| 0 <= j < k + 1 && (#[trigger] a@[j])@ == w) && (str_set(b@).contains(w) == keep) {
                        let j = choose|j: int| 0 <= j < k + 1 && (#[trigger] a@[j])@ == w;
                        if j == k {
                            assert(false);
                        }
                    }
                }
                assert forall|i: int| 0 <= i < res@.len() implies exists|j: int| 0 <= j < k + 1 && (#[trigger] res@[i])@ == (#[trigger] a@[j])@ by {
                    let t = choose|t: int| 0 <= t < k && (#[trigger] res@[i])@ == (#[trigger] a@[t])@;
                    assert(res@[i]@ == a@[t]@);
                }
            }
        }
        k = k + 1;
    }
    let ghost target = if keep {
        str_set(a@).intersect(str_set(b@))
    } else {
        str_set(a@).difference(str_set(b@))
    };
    assert forall|w: Seq<char>| str_set(res@).contains(w) <==> target.contains(w) by {
        if str_set(a@).contains(w) {
            let j = choose|j: int| 0 <= j < a@.len() && #[trigger] a@[j]@ == w;
            assert(a@[j]@ == w);
        }
    }
    assert(str_set(res@) =~= target);
    res
}

} // verus!
