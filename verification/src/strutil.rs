//! Verified character-sequence machinery shared by the whole crate:
//! first/last index search, substring tests, leftmost non-overlapping
//! replacement, trimming, and the conversions between `String`/`&str`
//! and `Vec<char>`.

use vstd::prelude::*;

verus! {

/// Characters treated as trimmable blank space: the whitespace set
/// of `char::is_whitespace`.
pub open spec fn is_blank(c: char) -> bool {
    c == ' ' || c == '\t' || c == '\n' || c == '\r' || c == '\u{b}' || c == '\u{c}' || c
        == '\u{85}' || c == '\u{a0}' || c == '\u{1680}' || ('\u{2000}' <= c && c <= '\u{200a}')
        || c == '\u{2028}' || c == '\u{2029}' || c == '\u{202f}' || c == '\u{205f}' || c
        == '\u{3000}'
}

fn is_blank_char(c: char) -> (b: bool)
    ensures
        b == is_blank(c),
{
    c == ' ' || c == '\t' || c == '\n' || c == '\r' || c == '\u{b}' || c == '\u{c}' || c
        == '\u{85}' || c == '\u{a0}' || c == '\u{1680}' || ('\u{2000}' <= c && c <= '\u{200a}')
        || c == '\u{2028}' || c == '\u{2029}' || c == '\u{202f}' || c == '\u{205f}' || c
        == '\u{3000}'
}

/// Index of the first character satisfying `p`, or -1 if none does.
pub open spec fn first_where(s: Seq<char>, p: spec_fn(char) -> bool) -> int
    decreases s.len(),
{
    if s.len() == 0 {
        -1
    } else if p(s[0]) {
        0
    } else {
        let r = first_where(s.drop_first(), p);
        if r < 0 {
            -1
        } else {
            r + 1
        }
    }
}

pub proof fn lemma_first_where(s: Seq<char>, p: spec_fn(char) -> bool)
    ensures
        first_where(s, p) == -1 || 0 <= first_where(s, p) < s.len(),
        first_where(s, p) == -1 ==> forall|i: int| 0 <= i < s.len() ==> !p(s[i]),
        first_where(s, p) >= 0 ==> p(s[first_where(s, p)]),
        first_where(s, p) >= 0 ==> forall|j: int| 0 <= j < first_where(s, p) ==> !p(s[j]),
    decreases s.len(),
{
    if s.len() > 0 && !p(s[0]) {
        let t = s.drop_first();
        lemma_first_where(t, p);
        let r = first_where(t, p);
        assert(forall|i: int| 0 <= i < t.len() ==> t[i] == s[i + 1]);
        if r == -1 {
            assert forall|i: int| 0 <= i < s.len() implies !p(s[i]) by {
                if i >= 1 {
                    assert(s[i] == t[i - 1]);
                }
            }
        } else {
            assert(first_where(s, p) == r + 1);
            assert(p(s[r + 1]));
            assert forall|j: int| 0 <= j < r + 1 implies !p(s[j]) by {
                if j >= 1 {
                    assert(s[j] == t[j - 1]);
                }
            }
        }
    }
}

/// The first index bearing `p` with none before it is exactly `first_where`.
pub proof fn lemma_first_where_is(s: Seq<char>, p: spec_fn(char) -> bool, k: int)
    requires
        0 <= k < s.len(),
        p(s[k]),
        forall|j: int| 0 <= j < k ==> !p(s[j]),
    ensures
        first_where(s, p) == k,
{
    lemma_first_where(s, p);
}

/// Index of the last character satisfying `p`, or -1 if none does.
pub open spec fn last_where(s: Seq<char>, p: spec_fn(char) -> bool) -> int
    decreases s.len(),
{
    if s.len() == 0 {
        -1
    } else if p(s.last()) {
        s.len() - 1
    } else {
        last_where(s.drop_last(), p)
    }
}

pub proof fn lemma_last_where(s: Seq<char>, p: spec_fn(char) -> bool)
    ensures
        last_where(s, p) == -1 || 0 <= last_where(s, p) < s.len(),
        last_where(s, p) == -1 ==> forall|i: int| 0 <= i < s.len() ==> !p(s[i]),
        last_where(s, p) >= 0 ==> p(s[last_where(s, p)]),
        last_where(s, p) >= 0 ==> forall|j: int| last_where(s, p) < j < s.len() ==> !p(s[j]),
    decreases s.len(),
{
    if s.len() > 0 && !p(s.last()) {
        lemma_last_where(s.drop_last(), p);
        assert forall|i: int| 0 <= i < s.len() - 1 implies s.drop_last()[i] == s[i] by {}
    }
}

pub proof fn lemma_last_where_is(s: Seq<char>, p: spec_fn(char) -> bool, k: int)
    requires
        0 <= k < s.len(),
        p(s[k]),
        forall|j: int| k < j < s.len() ==> !p(s[j]),
    ensures
        last_where(s, p) == k,
{
    lemma_last_where(s, p);
}

/// `pat` occurs in `s` starting at character index `i`.
pub open spec fn occurs_at(s: Seq<char>, pat: Seq<char>, i: int) -> bool {
    0 <= i && i + pat.len() <= s.len() && s.subrange(i, i + pat.len()) == pat
}

/// `pat` occurs somewhere in `s`.
pub open spec fn contains_seq(s: Seq<char>, pat: Seq<char>) -> bool {
    exists|i: int| occurs_at(s, pat, i)
}

/// Leftmost, non-overlapping replacement of `pat` by `rep`, as
/// `str::replace` performs it. An empty `pat` leaves `s` unchanged.
pub open spec fn spec_replace(s: Seq<char>, pat: Seq<char>, rep: Seq<char>) -> Seq<char>
    decreases s.len(),
{
    if pat.len() == 0 || s.len() < pat.len() {
        s
    } else if s.subrange(0, pat.len() as int) == pat {
        rep + spec_replace(s.skip(pat.len() as int), pat, rep)
    } else {
        seq![s[0]] + spec_replace(s.drop_first(), pat, rep)
    }
}

/// A concatenation of two sequences free of `c` is free of `c`.
proof fn lemma_concat_free(a: Seq<char>, b: Seq<char>, c: char)
    requires
        !a.contains(c),
        !b.contains(c),
    ensures
        !(a + b).contains(c),
{
    let t = a + b;
    assert forall|i: int| 0 <= i < t.len() implies t[i] != c by {
        if i < a.len() {
            assert(t[i] == a[i]);
        } else {
            assert(t[i] == b[i - a.len()]);
        }
    }
}

/// Replacing the one-character pattern `c` by a `c`-free sequence
/// leaves no occurrence of `c` behind.
pub proof fn lemma_replace_removes(s: Seq<char>, c: char, rep: Seq<char>)
    requires
        !rep.contains(c),
    ensures
        !spec_replace(s, seq![c], rep).contains(c),
    decreases s.len(),
{
    let pat = seq![c];
    if s.len() < 1 {
        assert(!s.contains(c));
    } else if s.subrange(0, 1) == pat {
        lemma_replace_removes(s.skip(1), c, rep);
        lemma_concat_free(rep, spec_replace(s.skip(1), pat, rep), c);
    } else {
        lemma_replace_removes(s.drop_first(), c, rep);
        assert(s.subrange(0, 1) =~= seq![s[0]]);
        assert(s[0] != c);
        assert(!seq![s[0]].contains(c)) by {
            assert(forall|i: int| 0 <= i < 1 ==> seq![s[0]][i] == s[0]);
        }
        lemma_concat_free(seq![s[0]], spec_replace(s.drop_first(), pat, rep), c);
    }
}

/// Replacing a one-character pattern absent from `s` changes nothing.
pub proof fn lemma_replace_absent_pat(s: Seq<char>, c: char, rep: Seq<char>)
    requires
        !s.contains(c),
    ensures
        spec_replace(s, seq![c], rep) == s,
    decreases s.len(),
{
    let pat = seq![c];
    if s.len() < 1 {
    } else {
        assert(s.subrange(0, 1) =~= seq![s[0]]);
        assert(s[0] != c);
        assert(!s.drop_first().contains(c)) by {
            assert forall|i: int| 0 <= i < s.len() - 1 implies s.drop_first()[i] != c by {
                assert(s.drop_first()[i] == s[i + 1]);
            }
        }
        lemma_replace_absent_pat(s.drop_first(), c, rep);
        assert(seq![s[0]] + s.drop_first() =~= s);
    }
}

/// Replacement introduces no character foreign to both `s` and `rep`.
pub proof fn lemma_replace_preserves_absent(s: Seq<char>, pat: Seq<char>, rep: Seq<char>, c: char)
    requires
        !s.contains(c),
        !rep.contains(c),
    ensures
        !spec_replace(s, pat, rep).contains(c),
    decreases s.len(),
{
    if pat.len() == 0 || s.len() < pat.len() {
    } else if s.subrange(0, pat.len() as int) == pat {
        assert(!s.skip(pat.len() as int).contains(c)) by {
            assert forall|i: int| 0 <= i < s.len() - pat.len() implies s.skip(
                pat.len() as int,
            )[i] != c by {
                assert(s.skip(pat.len() as int)[i] == s[i + pat.len()]);
            }
        }
        lemma_replace_preserves_absent(s.skip(pat.len() as int), pat, rep, c);
        lemma_concat_free(rep, spec_replace(s.skip(pat.len() as int), pat, rep), c);
    } else {
        assert(!s.drop_first().contains(c)) by {
            assert forall|i: int| 0 <= i < s.len() - 1 implies s.drop_first()[i] != c by {
                assert(s.drop_first()[i] == s[i + 1]);
            }
        }
        lemma_replace_preserves_absent(s.drop_first(), pat, rep, c);
        assert(s[0] != c);
        assert(!seq![s[0]].contains(c)) by {
            assert(forall|i: int| 0 <= i < 1 ==> seq![s[0]][i] == s[0]);
        }
        lemma_concat_free(seq![s[0]], spec_replace(s.drop_first(), pat, rep), c);
    }
}

/// Leading blanks dropped.
pub open spec fn trim_front(s: Seq<char>) -> Seq<char>
    decreases s.len(),
{
    if s.len() > 0 && is_blank(s[0]) {
        trim_front(s.drop_first())
    } else {
        s
    }
}

/// Trailing blanks dropped.
pub open spec fn trim_back(s: Seq<char>) -> Seq<char>
    decreases s.len(),
{
    if s.len() > 0 && is_blank(s.last()) {
        trim_back(s.drop_last())
    } else {
        s
    }
}

/// Leading and trailing blanks dropped.
pub open spec fn spec_trim(s: Seq<char>) -> Seq<char> {
    trim_back(trim_front(s))
}

proof fn lemma_trim_front_is(s: Seq<char>, a: int)
    requires
        0 <= a <= s.len(),
        forall|j: int| 0 <= j < a ==> is_blank(s[j]),
        a < s.len() ==> !is_blank(s[a]),
    ensures
        trim_front(s) == s.skip(a),
    decreases a,
{
    if a == 0 {
        assert(s.skip(0) =~= s);
    } else {
        assert(is_blank(s[0]));
        let t = s.drop_first();
        assert(forall|j: int| 0 <= j < t.len() ==> t[j] == s[j + 1]);
        lemma_trim_front_is(t, a - 1);
        assert(t.skip(a - 1) =~= s.skip(a));
    }
}

proof fn lemma_trim_back_is(s: Seq<char>, b: int)
    requires
        0 <= b <= s.len(),
        forall|j: int| b <= j < s.len() ==> is_blank(s[j]),
        b > 0 ==> !is_blank(s[b - 1]),
    ensures
        trim_back(s) == s.take(b),
    decreases s.len() - b,
{
    if b == s.len() {
        if s.len() > 0 && is_blank(s.last()) {
            assert(false);
        }
        assert(s.take(b) =~= s);
    } else {
        assert(is_blank(s.last()));
        let t = s.drop_last();
        assert(forall|j: int| 0 <= j < t.len() ==> t[j] == s[j]);
        lemma_trim_back_is(t, b);
        assert(t.take(b) =~= s.take(b));
    }
}

/// Drops leading and trailing blank space from a character vector.
pub fn trim_chars(v: &Vec<char>) -> (r: Vec<char>)
    ensures
        r@ == spec_trim(v@),
{
    let n = v.len();
    let mut a: usize = 0;
    while a < n && is_blank_char(v[a])
        invariant
            n == v@.len(),
            a <= n,
            forall|j: int| 0 <= j < a ==> is_blank(v@[j]),
        decreases n - a,
    {
        a = a + 1;
    }
    proof {
        lemma_trim_front_is(v@, a as int);
    }
    let ghost mid = v@.skip(a as int);
    let mut b: usize = n;
    while b > a && is_blank_char(v[b - 1])
        invariant
            n == v@.len(),
            a <= b <= n,
            forall|j: int| b <= j < n ==> is_blank(v@[j]),
        decreases b,
    {
        b = b - 1;
    }
    proof {
        assert(forall|j: int| 0 <= j < mid.len() ==> mid[j] == v@[a + j]);
        assert forall|j: int| b - a <= j < mid.len() implies is_blank(mid[j]) by {
            assert(mid[j] == v@[a + j]);
        }
        if b > a {
            assert(!is_blank(mid[b - a - 1]));
        }
        lemma_trim_back_is(mid, b - a);
    }
    let mut r: Vec<char> = Vec::new();
    let mut i: usize = a;
    while i < b
        invariant
            a <= i <= b <= n,
            n == v@.len(),
            r@ == v@.subrange(a as int, i as int),
        decreases b - i,
    {
        r.push(v[i]);
        assert(r@ =~= v@.subrange(a as int, i + 1 as int));
        i = i + 1;
    }
    proof {
        assert(mid.take(b - a) =~= v@.subrange(a as int, b as int));
    }
    r
}

/// Drops trailing blank space from a character vector.
pub fn trim_end_chars(v: &Vec<char>) -> (r: Vec<char>)
    ensures
        r@ == trim_back(v@),
{
    let n = v.len();
    let mut b: usize = n;
    while b > 0 && is_blank_char(v[b - 1])
        invariant
            n == v@.len(),
            b <= n,
            forall|j: int| b <= j < n ==> is_blank(v@[j]),
        decreases b,
    {
        b = b - 1;
    }
    proof {
        lemma_trim_back_is(v@, b as int);
    }
    let mut r: Vec<char> = Vec::new();
    let mut i: usize = 0;
    while i < b
        invariant
            i <= b <= n,
            n == v@.len(),
            r@ == v@.subrange(0, i as int),
        decreases b - i,
    {
        r.push(v[i]);
        assert(r@ =~= v@.subrange(0, i + 1 as int));
        i = i + 1;
    }
    proof {
        assert(v@.take(b as int) =~= v@.subrange(0, b as int));
    }
    r
}

/// `a` is a (not necessarily contiguous) subsequence of `b`.
pub open spec fn is_subseq(a: Seq<char>, b: Seq<char>) -> bool
    decreases a.len() + b.len(),
{
    if a.len() == 0 {
        true
    } else if b.len() == 0 {
        false
    } else if a[0] == b[0] {
        is_subseq(a.drop_first(), b.drop_first())
    } else {
        is_subseq(a, b.drop_first())
    }
}

/// Dropping the head of a subsequence keeps it a subsequence.
pub proof fn lemma_subseq_drop_first(a: Seq<char>, b: Seq<char>)
    requires
        is_subseq(a, b),
        a.len() > 0,
    ensures
        is_subseq(a.drop_first(), b),
    decreases a.len() + b.len(),
{
    let at = a.drop_first();
    if b.len() == 0 {
    } else if at.len() == 0 {
    } else if a[0] == b[0] {
        if at[0] == b[0] {
            lemma_subseq_drop_first(at, b.drop_first());
        }
    } else {
        lemma_subseq_drop_first(a, b.drop_first());
        if at[0] == b[0] {
            lemma_subseq_drop_first(at, b.drop_first());
        }
    }
}

/// A subsequence of `b` is a subsequence of `b` with one more leading
/// character.
pub proof fn lemma_subseq_cons_right(a: Seq<char>, b: Seq<char>, c: char)
    requires
        is_subseq(a, b),
    ensures
        is_subseq(a, seq![c] + b),
{
    let cb = seq![c] + b;
    if a.len() == 0 {
    } else {
        assert(cb[0] == c);
        assert(cb.drop_first() =~= b);
        if a[0] == c {
            lemma_subseq_drop_first(a, b);
        }
    }
}

/// Prepending the same text to both sides keeps the subsequence
/// relation.
pub proof fn lemma_subseq_prepend(x: Seq<char>, a: Seq<char>, b: Seq<char>)
    requires
        is_subseq(a, b),
    ensures
        is_subseq(x + a, x + b),
    decreases x.len(),
{
    if x.len() == 0 {
        assert(x + a =~= a);
        assert(x + b =~= b);
    } else {
        lemma_subseq_prepend(x.drop_first(), a, b);
        let xa = x + a;
        let xb = x + b;
        assert(xa[0] == x[0] && xb[0] == x[0]);
        assert(xa.drop_first() =~= x.drop_first() + a);
        assert(xb.drop_first() =~= x.drop_first() + b);
    }
}

/// Strict lexicographic order on character sequences, by scalar
/// value. On valid text it coincides with the byte order of the
/// UTF-8 encodings.
pub open spec fn lex_lt(a: Seq<char>, b: Seq<char>) -> bool
    decreases a.len(),
{
    if b.len() == 0 {
        false
    } else if a.len() == 0 {
        true
    } else if a[0] != b[0] {
        a[0] < b[0]
    } else {
        lex_lt(a.drop_first(), b.drop_first())
    }
}

pub open spec fn lex_leq(a: Seq<char>, b: Seq<char>) -> bool {
    lex_lt(a, b) || a == b
}

/// Any two sequences are ordered or equal.
pub proof fn lemma_lex_total(a: Seq<char>, b: Seq<char>)
    ensures
        lex_lt(a, b) || lex_lt(b, a) || a == b,
    decreases a.len(),
{
    if a.len() == 0 || b.len() == 0 {
        if a.len() == b.len() {
            assert(a =~= b);
        }
    } else if a[0] == b[0] {
        lemma_lex_total(a.drop_first(), b.drop_first());
        if a.drop_first() == b.drop_first() {
            assert(a.drop_first().len() == b.drop_first().len());
            assert(a.len() == b.len());
            assert forall|i: int| 0 <= i < a.len() implies a[i] == b[i] by {
                if i > 0 {
                    assert(a.drop_first()[i - 1] == a[i]);
                    assert(b.drop_first()[i - 1] == b[i]);
                }
            }
            assert(a =~= b);
        }
    }
}

/// Strict lexicographic order is asymmetric.
pub proof fn lemma_lex_asym(a: Seq<char>, b: Seq<char>)
    ensures
        !(lex_lt(a, b) && lex_lt(b, a)),
    decreases a.len(),
{
    if a.len() > 0 && b.len() > 0 && a[0] == b[0] {
        lemma_lex_asym(a.drop_first(), b.drop_first());
    }
}

/// Strict lexicographic order is transitive.
pub proof fn lemma_lex_lt_trans(a: Seq<char>, b: Seq<char>, c: Seq<char>)
    requires
        lex_lt(a, b),
        lex_lt(b, c),
    ensures
        lex_lt(a, c),
    decreases a.len(),
{
    if a.len() == 0 {
    } else {
        if a[0] == b[0] && b[0] == c[0] {
            lemma_lex_lt_trans(a.drop_first(), b.drop_first(), c.drop_first());
        }
    }
}

pub proof fn lemma_lex_leq_trans(a: Seq<char>, b: Seq<char>, c: Seq<char>)
    requires
        lex_leq(a, b),
        lex_leq(b, c),
    ensures
        lex_leq(a, c),
{
    if lex_lt(a, b) && lex_lt(b, c) {
        lemma_lex_lt_trans(a, b, c);
    }
}

fn lex_lt_from(a: &Vec<char>, b: &Vec<char>, i: usize) -> (r: bool)
    requires
        i <= a@.len(),
        i <= b@.len(),
    ensures
        r == lex_lt(a@.skip(i as int), b@.skip(i as int)),
    decreases a@.len() - i,
{
    let ghost sa = a@.skip(i as int);
    let ghost sb = b@.skip(i as int);
    if i == b.len() {
        false
    } else if i == a.len() {
        true
    } else {
        proof {
            assert(sa[0] == a@[i as int]);
            assert(sb[0] == b@[i as int]);
        }
        if a[i] != b[i] {
            a[i] < b[i]
        } else {
            proof {
                assert(sa.drop_first() =~= a@.skip(i + 1));
                assert(sb.drop_first() =~= b@.skip(i + 1));
            }
            lex_lt_from(a, b, i + 1)
        }
    }
}

/// Whether `a` precedes `b` in strict lexicographic order.
pub fn str_lex_lt(a: &String, b: &String) -> (r: bool)
    ensures
        r == lex_lt(a@, b@),
{
    let av = chars_of(a.as_str());
    let bv = chars_of(b.as_str());
    proof {
        assert(av@.skip(0) =~= av@);
        assert(bv@.skip(0) =~= bv@);
    }
    lex_lt_from(&av, &bv, 0)
}

/// `pat` stands at position `i` of `v`, compared character by
/// character.
pub fn matches_at(v: &Vec<char>, i: usize, pat: &Vec<char>) -> (b: bool)
    requires
        i + pat@.len() <= v@.len(),
    ensures
        b == (v@.subrange(i as int, i + pat@.len()) == pat@),
{
    let n = v.len();
    let mut k: usize = 0;
    while k < pat.len()
        invariant
            n == v@.len(),
            i + pat@.len() <= v@.len(),
            k <= pat@.len(),
            forall|j: int| 0 <= j < k ==> v@[i + j] == pat@[j],
        decreases pat@.len() - k,
    {
        assert(i + k < v@.len());
        if v[i + k] != pat[k] {
            assert(v@.subrange(i as int, i + pat@.len())[k as int] != pat@[k as int]);
            return false;
        }
        k = k + 1;
    }
    assert(v@.subrange(i as int, i + pat@.len()) =~= pat@);
    true
}

/// Whether `pat` occurs anywhere in `v`.
pub fn contains_sub(v: &Vec<char>, pat: &Vec<char>) -> (b: bool)
    requires
        pat@.len() > 0,
    ensures
        b == contains_seq(v@, pat@),
{
    if v.len() < pat.len() {
        assert(forall|i: int| !occurs_at(v@, pat@, i));
        return false;
    }
    let mut i: usize = 0;
    while i <= v.len() - pat.len()
        invariant
            pat@.len() > 0,
            pat@.len() <= v@.len(),
            i <= v@.len() - pat@.len() + 1,
            forall|j: int| 0 <= j < i ==> !occurs_at(v@, pat@, j),
        decreases v@.len() - i,
    {
        if matches_at(v, i, pat) {
            assert(occurs_at(v@, pat@, i as int));
            return true;
        }
        i = i + 1;
    }
    assert forall|j: int| !occurs_at(v@, pat@, j) implies true by {}
    assert(forall|j: int| occurs_at(v@, pat@, j) ==> 0 <= j <= v@.len() - pat@.len());
    false
}

/// Appends the characters of `src` to `out`.
pub fn append_chars(out: &mut Vec<char>, src: &Vec<char>)
    ensures
        final(out)@ == old(out)@ + src@,
{
    let mut k: usize = 0;
    while k < src.len()
        invariant
            k <= src@.len(),
            out@ == old(out)@ + src@.subrange(0, k as int),
        decreases src@.len() - k,
    {
        out.push(src[k]);
        assert(out@ =~= old(out)@ + src@.subrange(0, k + 1 as int));
        k = k + 1;
    }
    assert(out@ =~= old(out)@ + src@);
}

/// Leftmost, non-overlapping replacement of `pat` by `rep` in `v`.
pub fn replace_seq(v: &Vec<char>, pat: &Vec<char>, rep: &Vec<char>) -> (r: Vec<char>)
    ensures
        r@ == spec_replace(v@, pat@, rep@),
{
    let mut out: Vec<char> = Vec::new();
    if pat.len() == 0 {
        append_chars(&mut out, v);
        return out;
    }
    let mut i: usize = 0;
    proof {
        assert(v@.skip(0) =~= v@);
        assert(out@ + spec_replace(v@, pat@, rep@) =~= spec_replace(v@, pat@, rep@));
    }
    while i < v.len()
        invariant
            pat@.len() > 0,
            i <= v@.len(),
            spec_replace(v@, pat@, rep@) == out@ + spec_replace(v@.skip(i as int), pat@, rep@),
        decreases v@.len() - i,
    {
        let ghost tail = v@.skip(i as int);
        if pat.len() <= v.len() - i && matches_at(v, i, pat) {
            proof {
                assert(tail.subrange(0, pat@.len() as int) =~= v@.subrange(
                    i as int,
                    i + pat@.len(),
                ));
                assert(tail.skip(pat@.len() as int) =~= v@.skip(i + pat@.len()));
                assert(spec_replace(tail, pat@, rep@) == rep@ + spec_replace(
                    v@.skip(i + pat@.len()),
                    pat@,
                    rep@,
                ));
            }
            append_chars(&mut out, rep);
            proof {
                assert(out@ + spec_replace(v@.skip(i + pat@.len()), pat@, rep@) =~= spec_replace(
                    v@,
                    pat@,
                    rep@,
                ));
            }
            i = i + pat.len();
        } else {
            proof {
                if tail.len() >= pat@.len() {
                    assert(tail.subrange(0, pat@.len() as int) =~= v@.subrange(
                        i as int,
                        i + pat@.len(),
                    ));
                    assert(tail.subrange(0, pat@.len() as int) != pat@);
                }
                assert(tail.drop_first() =~= v@.skip(i + 1));
                assert(spec_replace(tail, pat@, rep@) == seq![v@[i as int]] + spec_replace(
                    v@.skip(i + 1),
                    pat@,
                    rep@,
                ));
            }
            out.push(v[i]);
            proof {
                assert(out@ + spec_replace(v@.skip(i + 1), pat@, rep@) =~= spec_replace(
                    v@,
                    pat@,
                    rep@,
                ));
            }
            i = i + 1;
        }
    }
    proof {
        assert(v@.skip(v@.len() as int) =~= Seq::<char>::empty());
        assert(spec_replace(v@.skip(v@.len() as int), pat@, rep@) =~= Seq::<char>::empty());
        assert(out@ =~= spec_replace(v@, pat@, rep@));
    }
    out
}

/// Character-wise equality of two vectors.
pub fn vec_eq(a: &Vec<char>, b: &Vec<char>) -> (r: bool)
    ensures
        r == (a@ == b@),
{
    if a.len() != b.len() {
        return false;
    }
    let mut i: usize = 0;
    while i < a.len()
        invariant
            a@.len() == b@.len(),
            i <= a@.len(),
            forall|j: int| 0 <= j < i ==> a@[j] == b@[j],
        decreases a@.len() - i,
    {
        if a[i] != b[i] {
            return false;
        }
        i = i + 1;
    }
    assert(a@ =~= b@);
    true
}

/// `parts` joined by `sep`.
pub open spec fn spec_join(parts: Seq<Seq<char>>, sep: Seq<char>) -> Seq<char>
    decreases parts.len(),
{
    if parts.len() == 0 {
        Seq::empty()
    } else if parts.len() == 1 {
        parts[0]
    } else {
        parts[0] + sep + spec_join(parts.drop_first(), sep)
    }
}

/// Appending one part extends the join by a separator and that part.
pub proof fn lemma_join_push(parts: Seq<Seq<char>>, sep: Seq<char>, x: Seq<char>)
    ensures
        parts.len() == 0 ==> spec_join(parts.push(x), sep) == x,
        parts.len() > 0 ==> spec_join(parts.push(x), sep) == spec_join(parts, sep) + sep + x,
    decreases parts.len(),
{
    if parts.len() == 0 {
        assert(spec_join(parts.push(x), sep) == parts.push(x)[0]);
        assert(parts.push(x)[0] == x);
    } else if parts.len() == 1 {
        let q = parts.push(x);
        assert(q.len() == 2);
        assert(q.drop_first() =~= parts.drop_first().push(x));
        assert(parts.drop_first().len() == 0);
        lemma_join_push(parts.drop_first(), sep, x);
        assert(spec_join(q, sep) == q[0] + sep + spec_join(q.drop_first(), sep));
        assert(q[0] == parts[0]);
        assert(spec_join(parts, sep) == parts[0]);
    } else {
        let q = parts.push(x);
        assert(q.drop_first() =~= parts.drop_first().push(x));
        lemma_join_push(parts.drop_first(), sep, x);
        assert(q[0] == parts[0]);
        assert(spec_join(q, sep) == q[0] + sep + spec_join(q.drop_first(), sep));
        assert(parts[0] + sep + (spec_join(parts.drop_first(), sep) + sep + x) =~= (parts[0] + sep
            + spec_join(parts.drop_first(), sep)) + sep + x);
    }
}

/// A one-character vector with a known view.
pub fn vec1(a: char) -> (v: Vec<char>)
    ensures
        v@ == seq![a],
{
    let mut v: Vec<char> = Vec::new();
    v.push(a);
    assert(v@ =~= seq![a]);
    v
}

/// A two-character vector with a known view.
pub fn vec2(a: char, b: char) -> (v: Vec<char>)
    ensures
        v@ == seq![a, b],
{
    let mut v: Vec<char> = Vec::new();
    v.push(a);
    v.push(b);
    assert(v@ =~= seq![a, b]);
    v
}

/// A three-character vector with a known view.
pub fn vec3(a: char, b: char, c: char) -> (v: Vec<char>)
    ensures
        v@ == seq![a, b, c],
{
    let mut v: Vec<char> = Vec::new();
    v.push(a);
    v.push(b);
    v.push(c);
    assert(v@ =~= seq![a, b, c]);
    v
}

/// Collects the characters of a string slice, in order.
pub fn chars_of(s: &str) -> (v: Vec<char>)
    ensures
        v@ == s@,
{
    let n = s.unicode_len();
    let mut v: Vec<char> = Vec::new();
    let mut i: usize = 0;
    while i < n
        invariant
            n == s@.len(),
            i <= n,
            v@ == s@.subrange(0, i as int),
        decreases n - i,
    {
        v.push(s.get_char(i));
        assert(v@ =~= s@.subrange(0, i + 1 as int));
        i = i + 1;
    }
    assert(v@ =~= s@);
    v
}

/// Relies on `String::push`: appends one character to the string.
#[verifier::external_body]
fn push_char(s: &mut String, c: char)
    ensures
        final(s)@ == old(s)@.push(c),
{
    s.push(c);
}

/// Builds a `String` from a character vector, in order.
pub fn string_of(v: &Vec<char>) -> (s: String)
    ensures
        s@ == v@,
{
    let mut s = String::new();
    let mut i: usize = 0;
    while i < v.len()
        invariant
            i <= v@.len(),
            s@ == v@.subrange(0, i as int),
        decreases v@.len() - i,
    {
        push_char(&mut s, v[i]);
        assert(s@ =~= v@.subrange(0, i + 1 as int));
        i = i + 1;
    }
    assert(s@ =~= v@);
    s
}

} // verus!
