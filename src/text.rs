use vstd::prelude::*;

use vstd::utf8::{decode_utf8, valid_utf8};

verus! {

broadcast use vstd::string::axiom_spec_iter;

/// The characters of `s`, in order.
pub fn chars_of(s: &str) -> (r: Vec<char>)
    ensures
        r@ == s@,
{
    let mut r: Vec<char> = Vec::new();
    for c in it: s.chars()
        invariant
            it.seq() == s@,
            r@ == it.seq().subrange(0, it.index() as int),
    {
        r.push(c);
    }
    r
}

/// The characters with the Unicode `White_Space` property.
pub open spec fn is_white_space(c: char) -> bool {
    let u = c as u32;
    (0x09 <= u <= 0x0d) || u == 0x20 || u == 0x85 || u == 0xa0 || u == 0x1680 || (0x2000 <= u <= 0x200a)
        || u == 0x2028 || u == 0x2029 || u == 0x202f || u == 0x205f || u == 0x3000
}

/// Whether `c` has the Unicode `White_Space` property (as `char::is_whitespace`
/// tests it).
fn is_space(c: char) -> (r: bool)
    ensures
        r == is_white_space(c),
{
    let u = c as u32;
    (0x09 <= u && u <= 0x0d) || u == 0x20 || u == 0x85 || u == 0xa0 || u == 0x1680 || (0x2000 <= u && u <= 0x200a)
        || u == 0x2028 || u == 0x2029 || u == 0x202f || u == 0x205f || u == 0x3000
}

/// Relies on `std::str::from_utf8`: it accepts exactly the valid UTF-8
/// byte strings, and then gives the characters they encode.
#[verifier::external_body]
pub(crate) fn utf8_text(b: &[u8]) -> (r: Option<String>)
    ensures
        r is Some <==> valid_utf8(b@),
        r matches Some(s) ==> s@ == decode_utf8(b@),
{
    std::str::from_utf8(b).ok().map(|s| s.to_string())
}

/// The maximal runs of non-white-space characters of `s`, in order.
pub open spec fn words(s: Seq<char>) -> Seq<Seq<char>>
    decreases s.len(),
{
    if s.len() == 0 {
        Seq::empty()
    } else {
        let w = words(s.drop_last());
        let c = s.last();
        if is_white_space(c) {
            w
        } else if s.len() == 1 || is_white_space(s[s.len() - 2]) {
            w.push(seq![c])
        } else {
            w.update(w.len() - 1, w.last().push(c))
        }
    }
}

/// A word is never empty and holds no white space.
pub open spec fn is_word(w: Seq<char>) -> bool {
    w.len() > 0 && forall|i: int| 0 <= i < w.len() ==> !is_white_space(#[trigger] w[i])
}

/// The words of `s` are words, and a string that does not end in white
/// space has at least one.
pub proof fn lemma_words_are_words(s: Seq<char>)
    ensures
        forall|i: int| 0 <= i < words(s).len() ==> is_word(#[trigger] words(s)[i]),
        s.len() > 0 && !is_white_space(s.last()) ==> words(s).len() > 0,
    decreases s.len(),
{
    if s.len() > 0 {
        lemma_words_are_words(s.drop_last());
        let w = words(s.drop_last());
        let c = s.last();
        if !is_white_space(c) && !(s.len() == 1 || is_white_space(s[s.len() - 2])) {
            assert(s.drop_last().last() == s[s.len() - 2]);
            let lw = w.last().push(c);
            assert(is_word(w[w.len() - 1]));
            assert forall|i: int| 0 <= i < lw.len() implies !is_white_space(#[trigger] lw[i]) by {
                if i < lw.len() - 1 {
                    assert(lw[i] == w.last()[i]);
                }
            }
        }
        if !is_white_space(c) && (s.len() == 1 || is_white_space(s[s.len() - 2])) {
            let nw = seq![c];
            assert forall|i: int| 0 <= i < nw.len() implies !is_white_space(#[trigger] nw[i]) by {}
        }
    }
}

/// Splits `text` into its words.
pub fn split_words(text: &Vec<char>) -> (r: Vec<Vec<char>>)
    ensures
        r@.len() == words(text@).len(),
        forall|i: int| 0 <= i < r@.len() ==> (#[trigger] r@[i])@ == words(text@)[i],
{
    let mut r: Vec<Vec<char>> = Vec::new();
    let mut i: usize = 0;
    let mut in_word = false;
    while i < text.len()
        invariant
            0 <= i <= text@.len(),
            in_word == (i > 0 && !is_white_space(text@[i - 1])),
            r@.len() == words(text@.subrange(0, i as int)).len(),
            forall|k: int| 0 <= k < r@.len() ==> (#[trigger] r@[k])@ == words(text@.subrange(0, i as int))[k],
        decreases text@.len() - i,
    {
        let c = text[i];
        let ghost s = text@.subrange(0, i + 1);
        assert(s.drop_last() =~= text@.subrange(0, i as int));
        assert(s.last() == c);
        if is_space(c) {
            in_word = false;
        } else if !in_word {
            let mut w: Vec<char> = Vec::new();
            w.push(c);
            r.push(w);
            in_word = true;
            assert(i > 0 ==> s[s.len() - 2] == text@[i - 1]);
        } else {
            assert(s[s.len() - 2] == text@[i - 1]);
            proof {
                lemma_words_are_words(text@.subrange(0, i as int));
                assert(text@.subrange(0, i as int).last() == text@[i - 1]);
            }
            let last = r.len() - 1;
            r[last].push(c);
            in_word = true;
        }
        i = i + 1;
    }
    assert(text@.subrange(0, text@.len() as int) =~= text@);
    r
}

/// The words `ws` joined by single spaces.
pub open spec fn join(ws: Seq<Seq<char>>) -> Seq<char>
    decreases ws.len(),
{
    if ws.len() == 0 {
        Seq::empty()
    } else if ws.len() == 1 {
        ws[0]
    } else {
        join(ws.drop_last()) + seq![' '] + ws.last()
    }
}

/// The phrases that start at word `i`: `ws[i..j]` joined, for `j` from
/// `i + 1` up to the number of words.
pub open spec fn phrase_row(ws: Seq<Seq<char>>, i: int) -> Seq<Seq<char>> {
    Seq::new((ws.len() - i) as nat, |d: int| join(ws.subrange(i, i + d + 1)))
}

/// The phrases that start at one of the first `n` words, row after row.
pub open spec fn phrase_rows(ws: Seq<Seq<char>>, n: int) -> Seq<Seq<char>>
    decreases n,
{
    if n <= 0 {
        Seq::empty()
    } else {
        phrase_rows(ws, n - 1) + phrase_row(ws, n - 1)
    }
}

/// Every contiguous word-subsequence of `ws`, joined by single spaces.
pub open spec fn phrases(ws: Seq<Seq<char>>) -> Seq<Seq<char>> {
    phrase_rows(ws, ws.len() as int)
}

/// The phrases of a text with `k` words number `k * (k + 1) / 2`.
pub proof fn lemma_phrase_count(ws: Seq<Seq<char>>)
    ensures
        phrases(ws).len() == ws.len() * (ws.len() + 1) / 2,
{
    let k = ws.len() as int;
    lemma_phrase_rows_count(ws, k);
    let x = phrases(ws).len() as int;
    assert(2 * x == k * (k + 1));
    assert(x == k * (k + 1) / 2) by (nonlinear_arith)
        requires
            2 * x == k * (k + 1),
    ;
}

proof fn lemma_phrase_rows_count(ws: Seq<Seq<char>>, n: int)
    requires
        0 <= n <= ws.len(),
    ensures
        2 * phrase_rows(ws, n).len() == n * (2 * ws.len() - n + 1),
    decreases n,
{
    if n > 0 {
        lemma_phrase_rows_count(ws, n - 1);
        assert(phrase_rows(ws, n).len() == phrase_rows(ws, n - 1).len() + phrase_row(ws, n - 1).len());
        assert(phrase_row(ws, n - 1).len() == ws.len() - (n - 1));
        let l = ws.len() as int;
        let a = phrase_rows(ws, n - 1).len() as int;
        let b = phrase_rows(ws, n).len() as int;
        assert(2 * a == (n - 1) * (2 * l - (n - 1) + 1));
        assert(b == a + (l - (n - 1)));
        assert(2 * b == n * (2 * l - n + 1)) by (nonlinear_arith)
            requires
                2 * a == (n - 1) * (2 * l - (n - 1) + 1),
                b == a + (l - (n - 1)),
        ;
    } else {
        let l = ws.len() as int;
        assert(n * (2 * l - n + 1) == 0) by (nonlinear_arith)
            requires
                n == 0,
        ;
    }
}

proof fn lemma_join_len(ws: Seq<Seq<char>>)
    requires
        forall|i: int| 0 <= i < ws.len() ==> is_word(#[trigger] ws[i]),
    ensures
        ws.len() > 0 ==> join(ws).len() > 0,
        ws.len() >= 2 ==> join(ws).len() == join(ws.drop_last()).len() + 1 + ws.last().len(),
        ws.len() == 1 ==> forall|k: int| 0 <= k < join(ws).len() ==> !is_white_space(#[trigger] join(ws)[k]),
    decreases ws.len(),
{
    if ws.len() >= 2 {
        assert(is_word(ws.last()));
    } else if ws.len() == 1 {
        assert(is_word(ws[0]));
    }
}

/// `a + [' '] + l` and `b + [' '] + m` with `l` and `m` free of white
/// space are equal only when `a == b` and `l == m`.
proof fn lemma_split_last_space(a: Seq<char>, l: Seq<char>, b: Seq<char>, m: Seq<char>)
    requires
        a + seq![' '] + l == b + seq![' '] + m,
        forall|k: int| 0 <= k < l.len() ==> !is_white_space(#[trigger] l[k]),
        forall|k: int| 0 <= k < m.len() ==> !is_white_space(#[trigger] m[k]),
    ensures
        a == b,
        l == m,
{
    let x = a + seq![' '] + l;
    let y = b + seq![' '] + m;
    let a1 = a + seq![' '];
    let b1 = b + seq![' '];
    assert(x == a1 + l && y == b1 + m);
    assert(a1.len() == a.len() + 1 && b1.len() == b.len() + 1);
    assert(x.len() == y.len());
    assert(is_white_space(' '));
    if l.len() < m.len() {
        assert(x[a.len() as int] == a1[a.len() as int]);
        assert(a1[a.len() as int] == ' ');
        let k = a.len() - b1.len();
        assert(y[a.len() as int] == m[k]);
        assert(!is_white_space(m[k]));
    } else if m.len() < l.len() {
        assert(y[b.len() as int] == b1[b.len() as int]);
        assert(b1[b.len() as int] == ' ');
        let k = b.len() - a1.len();
        assert(x[b.len() as int] == l[k]);
        assert(!is_white_space(l[k]));
    }
    assert(a.len() == b.len());
    assert(a =~= x.subrange(0, a.len() as int));
    assert(b =~= y.subrange(0, b.len() as int));
    assert(l =~= x.subrange(a.len() + 1int, x.len() as int));
    assert(m =~= y.subrange(b.len() + 1int, y.len() as int));
}

/// Joining words by single spaces loses nothing: equal joins come from
/// equal word lists.
pub proof fn lemma_join_injective(ws1: Seq<Seq<char>>, ws2: Seq<Seq<char>>)
    requires
        forall|i: int| 0 <= i < ws1.len() ==> is_word(#[trigger] ws1[i]),
        forall|i: int| 0 <= i < ws2.len() ==> is_word(#[trigger] ws2[i]),
        join(ws1) == join(ws2),
    ensures
        ws1 == ws2,
    decreases ws1.len() + ws2.len(),
{
    lemma_join_len(ws1);
    lemma_join_len(ws2);
    if ws1.len() == 0 || ws2.len() == 0 {
        assert(ws1.len() == 0 && ws2.len() == 0);
        assert(ws1 =~= ws2);
    } else if ws1.len() == 1 && ws2.len() == 1 {
        assert(ws1 =~= ws2);
    } else if ws1.len() == 1 {
        let j = join(ws2.drop_last()).len() as int;
        assert(join(ws2)[j] == ' ');
        assert(is_white_space(' '));
        assert(!is_white_space(join(ws1)[j]));
    } else if ws2.len() == 1 {
        let j = join(ws1.drop_last()).len() as int;
        assert(join(ws1)[j] == ' ');
        assert(is_white_space(' '));
        assert(!is_white_space(join(ws2)[j]));
    } else {
        assert(is_word(ws1.last()));
        assert(is_word(ws2.last()));
        lemma_split_last_space(join(ws1.drop_last()), ws1.last(), join(ws2.drop_last()), ws2.last());
        lemma_join_injective(ws1.drop_last(), ws2.drop_last());
        assert(ws1 =~= ws1.drop_last().push(ws1.last()));
        assert(ws2 =~= ws2.drop_last().push(ws2.last()));
    }
}

/// No word occurs twice in `ws`.
pub open spec fn distinct_words(ws: Seq<Seq<char>>) -> bool {
    forall|a: int, b: int| 0 <= a < ws.len() && 0 <= b < ws.len() && #[trigger] ws[a] == #[trigger] ws[b] ==> a == b
}

/// The phrase of `ws[i..j]`.
pub open spec fn phrase_of(ws: Seq<Seq<char>>, i: int, j: int) -> Seq<char> {
    join(ws.subrange(i, j))
}

proof fn lemma_phrases_differ(ws: Seq<Seq<char>>, i: int, j: int, i2: int, j2: int)
    requires
        forall|k: int| 0 <= k < ws.len() ==> is_word(#[trigger] ws[k]),
        distinct_words(ws),
        0 <= i < j <= ws.len(),
        0 <= i2 < j2 <= ws.len(),
        i != i2 || j != j2,
    ensures
        phrase_of(ws, i, j) != phrase_of(ws, i2, j2),
{
    let s1 = ws.subrange(i, j);
    let s2 = ws.subrange(i2, j2);
    assert forall|k: int| 0 <= k < s1.len() implies is_word(#[trigger] s1[k]) by {
        assert(s1[k] == ws[i + k]);
    }
    assert forall|k: int| 0 <= k < s2.len() implies is_word(#[trigger] s2[k]) by {
        assert(s2[k] == ws[i2 + k]);
    }
    if phrase_of(ws, i, j) == phrase_of(ws, i2, j2) {
        lemma_join_injective(s1, s2);
        assert(s1[0] == ws[i] && s2[0] == ws[i2]);
        assert(i == i2);
        assert(s1.len() == s2.len());
    }
}

/// `x` is the phrase of some `ws[i..j]` with `i < n`.
pub open spec fn starts_before(ws: Seq<Seq<char>>, x: Seq<char>, n: int) -> bool {
    exists|i: int, j: int| 0 <= i < n && i < j <= ws.len() && x == #[trigger] phrase_of(ws, i, j)
}

proof fn lemma_phrase_rows_distinct(ws: Seq<Seq<char>>, n: int)
    requires
        forall|k: int| 0 <= k < ws.len() ==> is_word(#[trigger] ws[k]),
        distinct_words(ws),
        0 <= n <= ws.len(),
    ensures
        forall|p: int| 0 <= p < phrase_rows(ws, n).len() ==> starts_before(ws, #[trigger] phrase_rows(ws, n)[p], n),
        forall|p: int, q: int| 0 <= p < q < phrase_rows(ws, n).len() ==> #[trigger] phrase_rows(ws, n)[p]
            != #[trigger] phrase_rows(ws, n)[q],
    decreases n,
{
    if n > 0 {
        lemma_phrase_rows_distinct(ws, n - 1);
        let prev = phrase_rows(ws, n - 1);
        let row = phrase_row(ws, n - 1);
        let all = phrase_rows(ws, n);
        assert(all == prev + row);
        assert forall|p: int| 0 <= p < all.len() implies starts_before(ws, #[trigger] all[p], n) by {
            if p < prev.len() {
                assert(all[p] == prev[p]);
                assert(starts_before(ws, prev[p], n - 1));
                let (i, j) = choose|i: int, j: int| 0 <= i < n - 1 && i < j <= ws.len() && prev[p] == #[trigger] phrase_of(ws, i, j);
                assert(all[p] == phrase_of(ws, i, j));
            } else {
                let d = p - prev.len();
                assert(all[p] == row[d]);
                assert(row[d] == phrase_of(ws, n - 1, n + d));
                assert(0 <= n - 1 < n && n - 1 < n + d <= ws.len() && all[p] == phrase_of(ws, n - 1, n + d));
            }
        }
        assert forall|p: int, q: int| 0 <= p < q < all.len() implies #[trigger] all[p] != #[trigger] all[q] by {
            if q < prev.len() {
                assert(all[p] == prev[p] && all[q] == prev[q]);
            } else if p >= prev.len() {
                let d1 = p - prev.len();
                let d2 = q - prev.len();
                assert(all[p] == row[d1] && all[q] == row[d2]);
                assert(all[p] == phrase_of(ws, n - 1, n + d1));
                assert(all[q] == phrase_of(ws, n - 1, n + d2));
                lemma_phrases_differ(ws, n - 1, n + d1, n - 1, n + d2);
            } else {
                assert(all[p] == prev[p]);
                assert(starts_before(ws, prev[p], n - 1));
                let (i, j) = choose|i: int, j: int| 0 <= i < n - 1 && i < j <= ws.len() && prev[p] == #[trigger] phrase_of(ws, i, j);
                let d2 = q - prev.len();
                assert(all[q] == row[d2]);
                assert(all[q] == phrase_of(ws, n - 1, n + d2));
                lemma_phrases_differ(ws, i, j, n - 1, n + d2);
            }
        }
    }
}

/// A text whose `k` words are all different yields exactly `k * (k + 1) / 2`
/// phrases, no two alike.
pub proof fn lemma_distinct_phrases(text: Seq<char>)
    requires
        distinct_words(words(text)),
    ensures
        phrases(words(text)).len() == words(text).len() * (words(text).len() + 1) / 2,
        forall|p: int, q: int| 0 <= p < q < phrases(words(text)).len() ==> #[trigger] phrases(words(text))[p]
            != #[trigger] phrases(words(text))[q],
{
    let ws = words(text);
    lemma_words_are_words(text);
    lemma_phrase_count(ws);
    lemma_phrase_rows_distinct(ws, ws.len() as int);
}

/// Joins `ws[lo..hi]` with single spaces.
fn join_range(ws: &Vec<Vec<char>>, lo: usize, hi: usize) -> (r: Vec<char>)
    requires
        lo < hi <= ws@.len(),
    ensures
        r@ == join(ws@.subrange(lo as int, hi as int).map_values(|w: Vec<char>| w@)),
{
    let mut r: Vec<char> = Vec::new();
    let mut k: usize = lo;
    while k < hi
        invariant
            lo <= k <= hi <= ws@.len(),
            r@ == join(ws@.subrange(lo as int, k as int).map_values(|w: Vec<char>| w@)),
        decreases hi - k,
    {
        let ghost before = ws@.subrange(lo as int, k as int).map_values(|w: Vec<char>| w@);
        let ghost after = ws@.subrange(lo as int, k + 1).map_values(|w: Vec<char>| w@);
        assert(after.drop_last() =~= before);
        assert(after.last() == ws@[k as int]@);
        if k > lo {
            r.push(' ');
        }
        let mut m: usize = 0;
        let ghost mid = r@;
        while m < ws[k].len()
            invariant
                k < ws@.len(),
                0 <= m <= ws@[k as int]@.len(),
                r@ == mid + ws@[k as int]@.subrange(0, m as int),
            decreases ws@[k as int]@.len() - m,
        {
            r.push(ws[k][m]);
            assert(r@ =~= mid + ws@[k as int]@.subrange(0, m + 1));
            m = m + 1;
        }
        assert(ws@[k as int]@.subrange(0, ws@[k as int]@.len() as int) =~= ws@[k as int]@);
        if k == lo {
            assert(before.len() == 0);
            assert(r@ =~= join(after));
        } else {
            assert(r@ =~= join(after));
        }
        k = k + 1;
    }
    r
}

/// Every phrase of the words `ws`: for each start, the phrases that begin
/// there, from the shortest to the longest.
pub fn phrases_of(ws: &Vec<Vec<char>>) -> (r: Vec<Vec<char>>)
    ensures
        r@.len() == phrases(ws@.map_values(|w: Vec<char>| w@)).len(),
        forall|i: int| 0 <= i < r@.len() ==> (#[trigger] r@[i])@ == phrases(ws@.map_values(|w: Vec<char>| w@))[i],
{
    let ghost wv = ws@.map_values(|w: Vec<char>| w@);
    let k = ws.len();
    let mut r: Vec<Vec<char>> = Vec::new();
    let mut i: usize = 0;
    while i < k
        invariant
            k == ws@.len(),
            wv == ws@.map_values(|w: Vec<char>| w@),
            0 <= i <= k,
            r@.len() == phrase_rows(wv, i as int).len(),
            forall|m: int| 0 <= m < r@.len() ==> (#[trigger] r@[m])@ == phrase_rows(wv, i as int)[m],
        decreases k - i,
    {
        let ghost base = r@.len();
        let mut j: usize = i;
        while j < k
            invariant
                k == ws@.len(),
                wv == ws@.map_values(|w: Vec<char>| w@),
                i <= j <= k,
                r@.len() == base + (j - i),
                base == phrase_rows(wv, i as int).len(),
                forall|m: int| 0 <= m < base ==> (#[trigger] r@[m])@ == phrase_rows(wv, i as int)[m],
                forall|m: int| base <= m < r@.len() ==> (#[trigger] r@[m])@ == phrase_row(wv, i as int)[m - base],
            decreases k + 1 - j,
        {
            let p = join_range(ws, i, j + 1);
            assert(ws@.subrange(i as int, j + 1).map_values(|w: Vec<char>| w@) =~= wv.subrange(i as int, i + (j - i) + 1));
            r.push(p);
            j = j + 1;
        }
        assert forall|m: int| 0 <= m < r@.len() implies (#[trigger] r@[m])@ == phrase_rows(wv, i + 1)[m] by {
            if m >= base {
                assert(phrase_rows(wv, i + 1)[m] == phrase_row(wv, i as int)[m - base]);
            }
        }
        i = i + 1;
    }
    r
}

} // verus!
