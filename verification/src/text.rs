//! Text helpers for the string-valued primitives: strings at runtime are
//! lists of characters, so everything here works on character vectors and
//! their `Seq<char>` models.

use vstd::prelude::*;

verus! {

/// Whether a character counts as alphanumeric for the word-splitting
/// primitive.  The result depends on the character alone.
pub uninterp spec fn is_alnum_char(c: char) -> bool;

/// Relies on char::is_alphanumeric: true exactly for Unicode letters and
/// numbers, a function of the character alone.
#[verifier::external_body]
pub fn char_is_alphanumeric(c: char) -> (r: bool)
    ensures
        r == is_alnum_char(c),
{
    c.is_alphanumeric()
}

/// Whether a character counts as whitespace for the key handler that ends
/// an identifier.  The result depends on the character alone.
pub uninterp spec fn is_space_char(c: char) -> bool;

/// Relies on char::is_whitespace: true exactly for Unicode whitespace,
/// a function of the character alone.
#[verifier::external_body]
pub fn char_is_whitespace(c: char) -> (r: bool)
    ensures
        r == is_space_char(c),
{
    c.is_whitespace()
}

/// Relies on char::from_u32: `Some` exactly for valid Unicode scalar
/// values, and the returned character has the given code.
#[verifier::external_body]
pub fn char_from_u32(x: u32) -> (r: Option<char>)
    ensures
        r is Some <==> (x < 0xD800 || (0xE000 <= x && x <= 0x10FFFF)),
        r matches Some(c) ==> c as u32 == x,
{
    char::from_u32(x)
}

/// The characters of a string slice, as a vector.
pub fn chars_of(s: &str) -> (r: Vec<char>)
    ensures
        r@ == s@,
{
    let n = s.unicode_len();
    let mut r: Vec<char> = Vec::new();
    let mut i: usize = 0;
    while i < n
        invariant
            n == s@.len(),
            i <= n,
            r@ =~= s@.take(i as int),
        decreases n - i,
    {
        r.push(s.get_char(i));
        assert(r@ =~= s@.take(i + 1));
        i += 1;
    }
    assert(s@.take(n as int) =~= s@);
    r
}

/// Whether a character vector spells a given string.
pub fn text_is(t: &Vec<char>, lit: &str) -> (r: bool)
    ensures
        r == (t@ == lit@),
{
    let n = lit.unicode_len();
    if t.len() != n {
        assert(t@ != lit@) by {
            assert(t@.len() != lit@.len());
        }
        return false;
    }
    let mut i: usize = 0;
    while i < n
        invariant
            n == lit@.len(),
            n == t@.len(),
            i <= n,
            forall|j: int| 0 <= j < i ==> t@[j] == lit@[j],
        decreases n - i,
    {
        if t[i] != lit.get_char(i) {
            return false;
        }
        i += 1;
    }
    proof {
        assert(t@ =~= lit@);
    }
    true
}

/// Whether two character vectors spell the same text.
pub fn text_eq(a: &Vec<char>, b: &Vec<char>) -> (r: bool)
    ensures
        r == (a@ == b@),
{
    if a.len() != b.len() {
        assert(a@ != b@) by {
            assert(a@.len() != b@.len());
        }
        return false;
    }
    let n = a.len();
    let mut i: usize = 0;
    while i < n
        invariant
            n == a@.len(),
            n == b@.len(),
            i <= n,
            forall|j: int| 0 <= j < i ==> a@[j] == b@[j],
        decreases n - i,
    {
        if a[i] != b[i] {
            return false;
        }
        i += 1;
    }
    proof {
        assert(a@ =~= b@);
    }
    true
}

/// Append a copy of one character vector onto another.
pub fn append_chars(out: &mut Vec<char>, add: &Vec<char>)
    ensures
        final(out)@ == old(out)@ + add@,
{
    let n = add.len();
    let mut i: usize = 0;
    while i < n
        invariant
            n == add@.len(),
            i <= n,
            out@ =~= old(out)@ + add@.take(i as int),
        decreases n - i,
    {
        out.push(add[i]);
        assert(out@ =~= old(out)@ + add@.take(i + 1));
        i += 1;
    }
    assert(old(out)@ + add@.take(n as int) =~= old(out)@ + add@);
}

/// The model of replacing a needle by a replacement, with an empty needle
/// matching before every character and at the end, as string replacement
/// does.
pub open spec fn replaced(h: Seq<char>, n: Seq<char>, r: Seq<char>) -> Seq<char>
    decreases h.len(),
{
    if n.len() == 0 {
        r + empty_needle_rest(h, r)
    } else if h.len() < n.len() {
        h
    } else if h.take(n.len() as int) == n {
        r + replaced(h.skip(n.len() as int), n, r)
    } else {
        seq![h[0]] + replaced(h.skip(1), n, r)
    }
}

/// After the leading replacement, an empty needle interleaves the
/// replacement after every character of the haystack.
pub open spec fn empty_needle_rest(h: Seq<char>, r: Seq<char>) -> Seq<char>
    decreases h.len(),
{
    if h.len() == 0 {
        Seq::empty()
    } else {
        seq![h[0]] + r + empty_needle_rest(h.skip(1), r)
    }
}

/// Replace every non-overlapping occurrence of `n` in `h` by `r`, left to
/// right.
pub fn replace_chars(h: &Vec<char>, n: &Vec<char>, r: &Vec<char>) -> (out: Vec<char>)
    ensures
        out@ == replaced(h@, n@, r@),
{
    let mut out: Vec<char> = Vec::new();
    let hn = h.len();
    let mut i: usize = 0;
    if n.len() == 0 {
        append_chars(&mut out, r);
        proof {
            assert(h@.skip(0) =~= h@);
        }
        while i < hn
            invariant
                hn == h@.len(),
                i <= hn,
                replaced(h@, n@, r@) == out@ + empty_needle_rest(h@.skip(i as int), r@),
            decreases hn - i,
        {
            let ghost out0: Seq<char> = out@;
            out.push(h[i]);
            append_chars(&mut out, r);
            proof {
                assert(h@.skip(i as int).skip(1) =~= h@.skip(i + 1));
                assert(out@ =~= out0 + seq![h@[i as int]] + r@);
                assert(out0 + (seq![h@[i as int]] + r@ + empty_needle_rest(h@.skip(i + 1), r@))
                    =~= out@ + empty_needle_rest(h@.skip(i + 1), r@));
            }
            i += 1;
        }
        proof {
            assert(h@.skip(hn as int) =~= Seq::<char>::empty());
            assert(out@ + empty_needle_rest(h@.skip(hn as int), r@) =~= out@);
        }
        return out;
    }
    let nl = n.len();
    proof {
        assert(h@.skip(0) =~= h@);
    }
    while i < hn
        invariant
            hn == h@.len(),
            nl == n@.len(),
            nl > 0,
            i <= hn,
            replaced(h@, n@, r@) == out@ + replaced(h@.skip(i as int), n@, r@),
        decreases hn - i,
    {
        let ghost out0: Seq<char> = out@;
        let ghost rest: Seq<char> = h@.skip(i as int);
        if hn - i >= nl && window_matches(h, i, n) {
            append_chars(&mut out, r);
            proof {
                assert(rest.take(nl as int) =~= n@);
                assert(rest.skip(nl as int) =~= h@.skip(i + nl));
                assert(out0 + (r@ + replaced(h@.skip(i + nl), n@, r@))
                    =~= out@ + replaced(h@.skip(i + nl), n@, r@));
            }
            i += nl;
        } else {
            out.push(h[i]);
            proof {
                if hn - i >= nl {
                    assert(rest.take(nl as int) != n@);
                } else {
                    assert(rest.len() < nl);
                }
                assert(rest.skip(1) =~= h@.skip(i + 1));
                assert(out0 + (seq![rest[0]] + replaced(h@.skip(i + 1), n@, r@))
                    =~= out@ + replaced(h@.skip(i + 1), n@, r@));
            }
            i += 1;
        }
    }
    proof {
        assert(h@.skip(hn as int) =~= Seq::<char>::empty());
        assert(out@ + replaced(h@.skip(hn as int), n@, r@) =~= out@);
    }
    out
}

/// Whether `n` occurs in `h` starting at `i`.
fn window_matches(h: &Vec<char>, i: usize, n: &Vec<char>) -> (r: bool)
    requires
        i + n@.len() <= h@.len(),
    ensures
        r == (h@.skip(i as int).take(n@.len() as int) == n@),
{
    let nl = n.len();
    let hl = h.len();
    let mut j: usize = 0;
    while j < nl
        invariant
            nl == n@.len(),
            hl == h@.len(),
            i + nl <= h@.len(),
            j <= nl,
            forall|k: int| 0 <= k < j ==> h@[i + k] == n@[k],
        decreases nl - j,
    {
        if h[i + j] != n[j] {
            assert(h@.skip(i as int).take(nl as int)[j as int] != n@[j as int]);
            return false;
        }
        j += 1;
    }
    proof {
        assert(h@.skip(i as int).take(nl as int) =~= n@);
    }
    true
}

} // verus!

verus! {

/// The models of a sequence of character vectors, element by element.
pub open spec fn texts_view(vs: Seq<Vec<char>>) -> Seq<Seq<char>>
    decreases vs,
{
    if vs.len() == 0 {
        Seq::empty()
    } else {
        texts_view(vs.subrange(0, vs.len() - 1)).push(vs[vs.len() - 1]@)
    }
}

/// `texts_view` maps the view over the sequence, element by element.
pub proof fn lemma_texts_view(vs: Seq<Vec<char>>)
    ensures
        texts_view(vs).len() == vs.len(),
        forall|i: int| 0 <= i < vs.len() ==> texts_view(vs)[i] == vs[i]@,
    decreases vs,
{
    if vs.len() > 0 {
        lemma_texts_view(vs.subrange(0, vs.len() - 1));
    }
}

/// Extend the first of a non-empty piece list on the left.
pub open spec fn prepend_first(p: Seq<char>, ps: Seq<Seq<char>>) -> Seq<Seq<char>>
    recommends
        ps.len() > 0,
{
    seq![p + ps[0]] + ps.drop_first()
}

/// The pieces of a character sequence split at every occurrence of a
/// separator; a split at each end yields an empty piece there.
pub open spec fn pieces(s: Seq<char>, sep: char) -> Seq<Seq<char>>
    decreases s.len(),
{
    if s.len() == 0 {
        seq![Seq::<char>::empty()]
    } else if s[0] == sep {
        seq![Seq::<char>::empty()] + pieces(s.skip(1), sep)
    } else {
        prepend_first(seq![s[0]], pieces(s.skip(1), sep))
    }
}

/// A split always yields at least one piece.
pub proof fn lemma_pieces_len(s: Seq<char>, sep: char)
    ensures
        pieces(s, sep).len() > 0,
    decreases s.len(),
{
    if s.len() > 0 {
        lemma_pieces_len(s.skip(1), sep);
    }
}

/// Split a character vector at every occurrence of a separator.
pub fn split_char(v: &Vec<char>, sep: char) -> (out: Vec<Vec<char>>)
    ensures
        texts_view(out@) == pieces(v@, sep),
{
    let mut out: Vec<Vec<char>> = Vec::new();
    let mut cur: Vec<char> = Vec::new();
    let n = v.len();
    let mut i: usize = 0;
    proof {
        assert(v@.skip(0) =~= v@);
    }
    while i < n
        invariant
            n == v@.len(),
            i <= n,
            pieces(v@, sep) == texts_view(out@) + prepend_first(cur@, pieces(v@.skip(i as int), sep)),
        decreases n - i,
    {
        let ghost out0: Seq<Vec<char>> = out@;
        let ghost cur0: Seq<char> = cur@;
        let ghost rest: Seq<Seq<char>> = pieces(v@.skip(i as int), sep);
        let ghost rest1: Seq<Seq<char>> = pieces(v@.skip(i + 1), sep);
        proof {
            assert(v@.skip(i as int).skip(1) =~= v@.skip(i + 1));
            lemma_pieces_len(v@.skip(i + 1), sep);
        }
        if v[i] == sep {
            let mut done: Vec<char> = Vec::new();
            core::mem::swap(&mut done, &mut cur);
            out.push(done);
            proof {
                lemma_texts_view(out0);
                lemma_texts_view(out@);
                assert(texts_view(out@) =~= texts_view(out0).push(cur0));
                assert(rest =~= seq![Seq::<char>::empty()] + rest1);
                assert(prepend_first(cur0, rest) =~= seq![cur0] + rest1);
                assert(prepend_first(cur@, rest1) =~= rest1);
                assert(texts_view(out0) + prepend_first(cur0, rest)
                    =~= texts_view(out@) + prepend_first(cur@, rest1));
            }
        } else {
            cur.push(v[i]);
            proof {
                assert(rest =~= prepend_first(seq![v@[i as int]], rest1));
                assert(cur0 + (seq![v@[i as int]] + rest1[0]) =~= cur@ + rest1[0]);
                assert(prepend_first(cur0, rest) =~= prepend_first(cur@, rest1));
            }
        }
        i += 1;
    }
    let ghost outn: Seq<Vec<char>> = out@;
    let ghost curn: Seq<char> = cur@;
    out.push(cur);
    proof {
        lemma_texts_view(outn);
        lemma_texts_view(out@);
        assert(v@.skip(n as int) =~= Seq::<char>::empty());
        assert(prepend_first(curn, pieces(v@.skip(n as int), sep)) =~= seq![curn]);
        assert(texts_view(out@) =~= texts_view(outn).push(curn));
        assert(texts_view(out@) =~= pieces(v@, sep));
    }
    out
}

/// The model of the line-splitting primitive: split at every line break,
/// then drop one trailing empty piece if there is one.
pub open spec fn split_lines(s: Seq<char>) -> Seq<Seq<char>> {
    let ps = pieces(s, '\n');
    if ps.len() > 0 && ps.last().len() == 0 {
        ps.drop_last()
    } else {
        ps
    }
}

/// Split a character vector into lines, dropping one trailing empty line.
pub fn lines_of(v: &Vec<char>) -> (out: Vec<Vec<char>>)
    ensures
        texts_view(out@) == split_lines(v@),
{
    let mut out = split_char(v, '\n');
    proof {
        lemma_pieces_len(v@, '\n');
        lemma_texts_view(out@);
    }
    let m = out.len();
    assert(m > 0);
    if out[m - 1].len() == 0 {
        let ghost o0: Seq<Vec<char>> = out@;
        let _ = out.pop();
        proof {
            lemma_texts_view(out@);
            assert(out@ =~= o0.drop_last());
            assert(texts_view(out@) =~= texts_view(o0).drop_last());
        }
    }
    out
}

/// The word pieces of the remainder of a sequence: alphanumeric runs form
/// words; a run of other characters is one boundary; `after_sep` tells
/// whether the previous character was such a boundary character.
pub open spec fn words_rest(s: Seq<char>, after_sep: bool) -> Seq<Seq<char>>
    decreases s.len(),
{
    if s.len() == 0 {
        seq![Seq::<char>::empty()]
    } else if is_alnum_char(s[0]) {
        prepend_first(seq![s[0]], words_rest(s.skip(1), false))
    } else if after_sep {
        words_rest(s.skip(1), true)
    } else {
        seq![Seq::<char>::empty()] + words_rest(s.skip(1), true)
    }
}

/// The model of the word-splitting primitive: split at every run of
/// non-alphanumeric characters.
pub open spec fn split_words(s: Seq<char>) -> Seq<Seq<char>> {
    words_rest(s, false)
}

/// A word split always yields at least one piece.
pub proof fn lemma_words_rest_len(s: Seq<char>, after_sep: bool)
    ensures
        words_rest(s, after_sep).len() > 0,
    decreases s.len(),
{
    if s.len() > 0 {
        lemma_words_rest_len(s.skip(1), false);
        lemma_words_rest_len(s.skip(1), true);
    }
}

/// Split a character vector at every run of non-alphanumeric characters.
pub fn words_of(v: &Vec<char>) -> (out: Vec<Vec<char>>)
    ensures
        texts_view(out@) == split_words(v@),
{
    let mut out: Vec<Vec<char>> = Vec::new();
    let mut cur: Vec<char> = Vec::new();
    let mut after_sep = false;
    let n = v.len();
    let mut i: usize = 0;
    proof {
        assert(v@.skip(0) =~= v@);
    }
    while i < n
        invariant
            n == v@.len(),
            i <= n,
            split_words(v@) == texts_view(out@)
                + prepend_first(cur@, words_rest(v@.skip(i as int), after_sep)),
            after_sep ==> cur@.len() == 0,
        decreases n - i,
    {
        let ghost out0: Seq<Vec<char>> = out@;
        let ghost cur0: Seq<char> = cur@;
        let ghost rest: Seq<Seq<char>> = words_rest(v@.skip(i as int), after_sep);
        proof {
            assert(v@.skip(i as int).skip(1) =~= v@.skip(i + 1));
            lemma_words_rest_len(v@.skip(i + 1), false);
            lemma_words_rest_len(v@.skip(i + 1), true);
        }
        let c = v[i];
        if char_is_alphanumeric(c) {
            cur.push(c);
            after_sep = false;
            proof {
                let rest1 = words_rest(v@.skip(i + 1), false);
                assert(rest =~= prepend_first(seq![v@[i as int]], rest1));
                assert(cur0 + (seq![v@[i as int]] + rest1[0]) =~= cur@ + rest1[0]);
                assert(prepend_first(cur0, rest) =~= prepend_first(cur@, rest1));
            }
        } else if after_sep {
            proof {
                let rest1 = words_rest(v@.skip(i + 1), true);
                assert(rest =~= rest1);
            }
        } else {
            let mut done: Vec<char> = Vec::new();
            core::mem::swap(&mut done, &mut cur);
            out.push(done);
            after_sep = true;
            proof {
                let rest1 = words_rest(v@.skip(i + 1), true);
                lemma_texts_view(out0);
                lemma_texts_view(out@);
                assert(texts_view(out@) =~= texts_view(out0).push(cur0));
                assert(rest =~= seq![Seq::<char>::empty()] + rest1);
                assert(prepend_first(cur0, rest) =~= seq![cur0] + rest1);
                assert(prepend_first(cur@, rest1) =~= rest1);
                assert(texts_view(out0) + prepend_first(cur0, rest)
                    =~= texts_view(out@) + prepend_first(cur@, rest1));
            }
        }
        i += 1;
    }
    let ghost outn: Seq<Vec<char>> = out@;
    let ghost curn: Seq<char> = cur@;
    out.push(cur);
    proof {
        lemma_texts_view(outn);
        lemma_texts_view(out@);
        assert(v@.skip(n as int) =~= Seq::<char>::empty());
        assert(prepend_first(curn, words_rest(v@.skip(n as int), after_sep)) =~= seq![curn]);
        assert(texts_view(out@) =~= texts_view(outn).push(curn));
        assert(texts_view(out@) =~= split_words(v@));
    }
    out
}

} // verus!

verus! {

/// Whether a character is a decimal digit.
pub open spec fn is_digit(c: char) -> bool {
    48 <= c as u32 <= 57
}

/// Whether every character of a sequence is a decimal digit.
pub open spec fn all_digits(s: Seq<char>) -> bool {
    forall|i: int| 0 <= i < s.len() ==> is_digit(s[i])
}

/// The value of a sequence of decimal digits, most significant first.
pub open spec fn digits_val(s: Seq<char>) -> int
    decreases s.len(),
{
    if s.len() == 0 {
        0
    } else {
        digits_val(s.drop_last()) * 10 + (s.last() as u32 - 48)
    }
}

/// The model of parsing an integer: an optional sign, then at least one
/// decimal digit and nothing else.
pub open spec fn parsed_int(s: Seq<char>) -> Option<int> {
    if s.len() == 0 {
        None
    } else {
        let ds = if s[0] == '-' || s[0] == '+' {
            s.skip(1)
        } else {
            s
        };
        if ds.len() == 0 || !all_digits(ds) {
            None
        } else if s[0] == '-' {
            Some(-digits_val(ds))
        } else {
            Some(digits_val(ds))
        }
    }
}

/// A digit string's value is not negative.
pub proof fn lemma_digits_val_nonneg(s: Seq<char>)
    requires
        all_digits(s),
    ensures
        digits_val(s) >= 0,
    decreases s.len(),
{
    if s.len() > 0 {
        assert(all_digits(s.drop_last()));
        lemma_digits_val_nonneg(s.drop_last());
    }
}

/// Reading more digits never lowers the value.
pub proof fn lemma_digits_val_mono(s: Seq<char>, k: int)
    requires
        all_digits(s),
        0 <= k <= s.len(),
    ensures
        digits_val(s.take(k)) <= digits_val(s),
    decreases s.len() - k,
{
    if k < s.len() {
        lemma_digits_val_mono(s, k + 1);
        assert(s.take(k + 1).drop_last() =~= s.take(k));
        assert(all_digits(s.take(k)));
        lemma_digits_val_nonneg(s.take(k));
        assert(digits_val(s.take(k + 1)) == digits_val(s.take(k)) * 10 + (s[k] as u32 - 48));
    } else {
        assert(s.take(k) =~= s);
    }
}

/// Parse an integer from a character vector: `None` where the text is not
/// an integer or its value does not fit a machine integer.
pub fn parse_i64(v: &Vec<char>) -> (r: Option<i64>)
    ensures
        match parsed_int(v@) {
            None => r is None,
            Some(val) => {
                if i64::MIN <= val <= i64::MAX {
                    r matches Some(x) && x as int == val
                } else {
                    r is None
                }
            },
        },
{
    let n = v.len();
    if n == 0 {
        return None;
    }
    let c0 = v[0];
    let neg = c0 == '-';
    let start: usize = if c0 == '-' || c0 == '+' {
        1
    } else {
        0
    };
    if n == start {
        return None;
    }
    let ghost ds: Seq<char> = if start == 1 {
        v@.skip(1)
    } else {
        v@
    };
    let mut acc: i64 = 0;
    let mut j: usize = start;
    while j < n
        invariant
            n == v@.len(),
            start <= j <= n,
            start == 0 || start == 1,
            neg == (v@[0] == '-'),
            start == 1 <==> (v@[0] == '-' || v@[0] == '+'),
            start == 1 ==> ds == v@.skip(1),
            start == 0 ==> ds == v@,
            n - start == ds.len(),
            forall|k: int| 0 <= k < j - start ==> is_digit(ds[k]),
            !neg ==> acc as int == digits_val(ds.take(j - start)),
            neg ==> acc as int == -digits_val(ds.take(j - start)),
        decreases n - j,
    {
        let c = v[j];
        let u = c as u32;
        proof {
            assert(ds[j - start] == v@[j as int]);
        }
        if !(48 <= u && u <= 57) {
            proof {
                assert(!is_digit(ds[j - start]));
                assert(!all_digits(ds));
            }
            return None;
        }
        let d = (u - 48) as i64;
        let ghost taken: Seq<char> = ds.take(j - start);
        let ghost taken1: Seq<char> = ds.take(j + 1 - start);
        proof {
            assert(taken1.drop_last() =~= taken);
            assert(taken1.last() == ds[j - start]);
            assert(digits_val(taken1) == digits_val(taken) * 10 + (ds[j - start] as u32 - 48));
            assert(forall|k: int| 0 <= k < taken1.len() ==> is_digit(#[trigger] taken1[k]));
        }
        if !neg {
            match acc.checked_mul(10) {
                Some(m) => {
                    match m.checked_add(d) {
                        Some(x) => {
                            acc = x;
                        },
                        None => {
                            proof {
                                if parsed_int(v@) is Some {
                                    assert(all_digits(ds));
                                    lemma_prefix_at_least(ds, j - start + 1);
                                }
                            }
                            return None;
                        },
                    }
                },
                None => {
                    proof {
                        lemma_digits_val_nonneg(taken);
                        if parsed_int(v@) is Some {
                            assert(all_digits(ds));
                            lemma_prefix_at_least(ds, j - start + 1);
                        }
                    }
                    return None;
                },
            }
        } else {
            match acc.checked_mul(10) {
                Some(m) => {
                    match m.checked_sub(d) {
                        Some(x) => {
                            acc = x;
                        },
                        None => {
                            proof {
                                if parsed_int(v@) is Some {
                                    assert(all_digits(ds));
                                    lemma_prefix_at_least(ds, j - start + 1);
                                }
                            }
                            return None;
                        },
                    }
                },
                None => {
                    proof {
                        lemma_digits_val_nonneg(taken);
                        if parsed_int(v@) is Some {
                            assert(all_digits(ds));
                            lemma_prefix_at_least(ds, j - start + 1);
                        }
                    }
                    return None;
                },
            }
        }
        j += 1;
    }
    proof {
        assert(ds.take(n - start) =~= ds);
        assert(all_digits(ds));
    }
    Some(acc)
}

/// If a digit prefix is already known, the full value is at least it.
proof fn lemma_prefix_at_least(ds: Seq<char>, k1: int)
    requires
        0 < k1 <= ds.len(),
        all_digits(ds),
    ensures
        digits_val(ds) >= digits_val(ds.take(k1)),
{
    lemma_digits_val_mono(ds, k1);
}

} // verus!
