//! Characters, trimming, and lexicographic order on character sequences.

use vstd::prelude::*;
use vstd::string::*;

verus! {

/// Characters with the Unicode `White_Space` property; trimming removes
/// exactly these from the ends of a string.
pub open spec fn is_ws(c: char) -> bool {
    ('\u{9}' <= c && c <= '\u{d}') || c == ' ' || c == '\u{85}' || c == '\u{a0}'
        || c == '\u{1680}' || ('\u{2000}' <= c && c <= '\u{200a}') || c == '\u{2028}'
        || c == '\u{2029}' || c == '\u{202f}' || c == '\u{205f}' || c == '\u{3000}'
}

pub fn is_ws_char(c: char) -> (r: bool)
    ensures
        r == is_ws(c),
{
    ('\u{9}' <= c && c <= '\u{d}') || c == ' ' || c == '\u{85}' || c == '\u{a0}'
        || c == '\u{1680}' || ('\u{2000}' <= c && c <= '\u{200a}') || c == '\u{2028}'
        || c == '\u{2029}' || c == '\u{202f}' || c == '\u{205f}' || c == '\u{3000}'
}

/// What is left of `s` after dropping leading whitespace.
pub open spec fn trim_front(s: Seq<char>) -> Seq<char>
    decreases s.len(),
{
    if s.len() > 0 && is_ws(s[0]) {
        trim_front(s.subrange(1, s.len() as int))
    } else {
        s
    }
}

/// What is left of `s` after dropping trailing whitespace.
pub open spec fn trim_back(s: Seq<char>) -> Seq<char>
    decreases s.len(),
{
    if s.len() > 0 && is_ws(s[s.len() - 1]) {
        trim_back(s.subrange(0, s.len() - 1))
    } else {
        s
    }
}

/// What is left of `s` after dropping whitespace at both ends.
pub open spec fn trim_ws(s: Seq<char>) -> Seq<char> {
    trim_back(trim_front(s))
}

/// What is left of `s` after dropping leading apostrophes.
pub open spec fn trim_front_quote(s: Seq<char>) -> Seq<char>
    decreases s.len(),
{
    if s.len() > 0 && s[0] == '\'' {
        trim_front_quote(s.subrange(1, s.len() as int))
    } else {
        s
    }
}

/// What is left of `s` after dropping trailing apostrophes.
pub open spec fn trim_back_quote(s: Seq<char>) -> Seq<char>
    decreases s.len(),
{
    if s.len() > 0 && s[s.len() - 1] == '\'' {
        trim_back_quote(s.subrange(0, s.len() - 1))
    } else {
        s
    }
}

/// What is left of `s` after dropping apostrophes at both ends.
pub open spec fn trim_quotes(s: Seq<char>) -> Seq<char> {
    trim_back_quote(trim_front_quote(s))
}

proof fn lemma_trim_front_skip(s: Seq<char>, i: int)
    requires
        0 <= i <= s.len(),
        forall|j: int| 0 <= j < i ==> is_ws(s[j]),
    ensures
        trim_front(s) == trim_front(s.subrange(i, s.len() as int)),
    decreases i,
{
    if i == 0 {
        assert(s.subrange(0, s.len() as int) =~= s);
    } else {
        let s1 = s.subrange(1, s.len() as int);
        assert(forall|j: int| 0 <= j < i - 1 ==> is_ws(s1[j]));
        lemma_trim_front_skip(s1, i - 1);
        assert(s1.subrange(i - 1, s1.len() as int) =~= s.subrange(i, s.len() as int));
    }
}

proof fn lemma_trim_back_cut(s: Seq<char>, i: int)
    requires
        0 <= i <= s.len(),
        forall|j: int| i <= j < s.len() ==> is_ws(s[j]),
    ensures
        trim_back(s) == trim_back(s.subrange(0, i)),
    decreases s.len() - i,
{
    if i == s.len() {
        assert(s.subrange(0, s.len() as int) =~= s);
    } else {
        let s1 = s.subrange(0, s.len() - 1);
        assert(is_ws(s[s.len() - 1]));
        assert(forall|j: int| i <= j < s1.len() ==> is_ws(s1[j]));
        lemma_trim_back_cut(s1, i);
        assert(s1.subrange(0, i) =~= s.subrange(0, i));
    }
}

/// Copy of `v[from..to]`.
pub fn subvec(v: &Vec<char>, from: usize, to: usize) -> (r: Vec<char>)
    requires
        from <= to <= v.len(),
    ensures
        r@ == v@.subrange(from as int, to as int),
{
    let mut r: Vec<char> = Vec::new();
    let mut i: usize = from;
    while i < to
        invariant
            from <= i <= to <= v.len(),
            r@ == v@.subrange(from as int, i as int),
        decreases to - i,
    {
        r.push(v[i]);
        proof {
            assert(v@.subrange(from as int, i + 1 as int) =~= v@.subrange(
                from as int,
                i as int,
            ).push(v@[i as int]));
        }
        i += 1;
    }
    r
}

/// Drops whitespace from both ends of a character sequence.
pub fn trim_chars(v: &Vec<char>) -> (r: Vec<char>)
    ensures
        r@ == trim_ws(v@),
{
    let n = v.len();
    let mut start: usize = 0;
    while start < n && is_ws_char(v[start])
        invariant
            0 <= start <= n,
            n == v.len(),
            forall|j: int| 0 <= j < start ==> is_ws(v@[j]),
        decreases n - start,
    {
        start += 1;
    }
    proof {
        lemma_trim_front_skip(v@, start as int);
    }
    let tf = Ghost(v@.subrange(start as int, n as int));
    assert(trim_front(v@) == tf@);
    let mut end: usize = n;
    while end > start && is_ws_char(v[end - 1])
        invariant
            start <= end <= n,
            n == v.len(),
            forall|j: int| end <= j < n ==> is_ws(v@[j]),
        decreases end,
    {
        end -= 1;
    }
    proof {
        assert(forall|j: int| end - start <= j < tf@.len() ==> is_ws(tf@[j]));
        lemma_trim_back_cut(tf@, end - start);
        assert(tf@.subrange(0, end - start) =~= v@.subrange(start as int, end as int));
        if end > start {
            assert(tf@.subrange(0, end - start)[end - start - 1] == v@[end - 1]);
        }
    }
    subvec(v, start, end)
}

/// Drops apostrophes from both ends of a character sequence.
pub fn trim_quote_chars(v: &Vec<char>) -> (r: Vec<char>)
    ensures
        r@ == trim_quotes(v@),
{
    let n = v.len();
    let mut start: usize = 0;
    while start < n && v[start] == '\''
        invariant
            0 <= start <= n,
            n == v.len(),
            forall|j: int| 0 <= j < start ==> v@[j] == '\'',
        decreases n - start,
    {
        start += 1;
    }
    proof {
        lemma_trim_front_quote_skip(v@, start as int);
    }
    let tf = Ghost(v@.subrange(start as int, n as int));
    assert(trim_front_quote(v@) == tf@);
    let mut end: usize = n;
    while end > start && v[end - 1] == '\''
        invariant
            start <= end <= n,
            n == v.len(),
            forall|j: int| end <= j < n ==> v@[j] == '\'',
        decreases end,
    {
        end -= 1;
    }
    proof {
        assert(forall|j: int| end - start <= j < tf@.len() ==> tf@[j] == '\'');
        lemma_trim_back_quote_cut(tf@, end - start);
        assert(tf@.subrange(0, end - start) =~= v@.subrange(start as int, end as int));
        if end > start {
            assert(tf@.subrange(0, end - start)[end - start - 1] == v@[end - 1]);
        }
    }
    subvec(v, start, end)
}

proof fn lemma_trim_front_quote_skip(s: Seq<char>, i: int)
    requires
        0 <= i <= s.len(),
        forall|j: int| 0 <= j < i ==> s[j] == '\'',
    ensures
        trim_front_quote(s) == trim_front_quote(s.subrange(i, s.len() as int)),
    decreases i,
{
    if i == 0 {
        assert(s.subrange(0, s.len() as int) =~= s);
    } else {
        let s1 = s.subrange(1, s.len() as int);
        assert(forall|j: int| 0 <= j < i - 1 ==> s1[j] == '\'');
        lemma_trim_front_quote_skip(s1, i - 1);
        assert(s1.subrange(i - 1, s1.len() as int) =~= s.subrange(i, s.len() as int));
    }
}

proof fn lemma_trim_back_quote_cut(s: Seq<char>, i: int)
    requires
        0 <= i <= s.len(),
        forall|j: int| i <= j < s.len() ==> s[j] == '\'',
    ensures
        trim_back_quote(s) == trim_back_quote(s.subrange(0, i)),
    decreases s.len() - i,
{
    if i == s.len() {
        assert(s.subrange(0, s.len() as int) =~= s);
    } else {
        let s1 = s.subrange(0, s.len() - 1);
        assert(forall|j: int| i <= j < s1.len() ==> s1[j] == '\'');
        lemma_trim_back_quote_cut(s1, i);
        assert(s1.subrange(0, i) =~= s.subrange(0, i));
    }
}

/// The characters of `s`, in order.
pub fn str_to_chars(s: &str) -> (r: Vec<char>)
    ensures
        r@ == s@,
{
    let n = s.unicode_len();
    let mut r: Vec<char> = Vec::new();
    let mut i: usize = 0;
    while i < n
        invariant
            0 <= i <= n,
            n == s@.len(),
            r@ == s@.subrange(0, i as int),
        decreases n - i,
    {
        let c = s.get_char(i);
        r.push(c);
        proof {
            assert(s@.subrange(0, i + 1 as int) =~= s@.subrange(0, i as int).push(s@[i as int]));
        }
        i += 1;
    }
    proof {
        assert(s@.subrange(0, n as int) =~= s@);
    }
    r
}

/// Relies on `core::iter::Iterator::collect` building a `String` from its
/// `char` items in order.
#[verifier::external_body]
pub fn chars_to_string(v: &Vec<char>) -> (r: String)
    ensures
        r@ == v@,
{
    v.iter().collect()
}

/// Strict lexicographic order on character sequences, by code point.
pub open spec fn lex_lt(a: Seq<char>, b: Seq<char>) -> bool
    decreases a.len(),
{
    if b.len() == 0 {
        false
    } else if a.len() == 0 {
        true
    } else if a[0] != b[0] {
        a[0] < b[0]
    } else {
        lex_lt(a.subrange(1, a.len() as int), b.subrange(1, b.len() as int))
    }
}

pub proof fn lemma_lex_lt_irrefl(a: Seq<char>)
    ensures
        !lex_lt(a, a),
    decreases a.len(),
{
    if a.len() > 0 {
        lemma_lex_lt_irrefl(a.subrange(1, a.len() as int));
    }
}

/// Exactly one of `a == b`, `lex_lt(a, b)`, `lex_lt(b, a)` holds.
pub proof fn lemma_lex_lt_connected(a: Seq<char>, b: Seq<char>)
    ensures
        a == b || lex_lt(a, b) || lex_lt(b, a),
        lex_lt(a, b) ==> a != b && !lex_lt(b, a),
    decreases a.len() + b.len(),
{
    lemma_lex_lt_irrefl(a);
    if a.len() == 0 && b.len() == 0 {
        assert(a =~= b);
    } else if a.len() > 0 && b.len() > 0 && a[0] == b[0] {
        let a1 = a.subrange(1, a.len() as int);
        let b1 = b.subrange(1, b.len() as int);
        lemma_lex_lt_connected(a1, b1);
        if a1 == b1 {
            assert forall|j: int| 0 <= j < a.len() implies a[j] == b[j] by {
                if j > 0 {
                    assert(a[j] == a1[j - 1]);
                    assert(b[j] == b1[j - 1]);
                }
            }
            assert(a =~= b);
        }
    }
}

pub proof fn lemma_lex_lt_trans(a: Seq<char>, b: Seq<char>, c: Seq<char>)
    requires
        lex_lt(a, b),
        lex_lt(b, c),
    ensures
        lex_lt(a, c),
    decreases a.len() + b.len() + c.len(),
{
    if a.len() == 0 {
        assert(c.len() > 0);
    } else {
        assert(b.len() > 0 && c.len() > 0);
        let a1 = a.subrange(1, a.len() as int);
        let b1 = b.subrange(1, b.len() as int);
        let c1 = c.subrange(1, c.len() as int);
        if a[0] == b[0] && b[0] == c[0] {
            lemma_lex_lt_trans(a1, b1, c1);
        }
    }
}

proof fn lemma_lex_lt_common_prefix(a: Seq<char>, b: Seq<char>, i: int)
    requires
        0 <= i <= a.len(),
        i <= b.len(),
        forall|j: int| 0 <= j < i ==> a[j] == b[j],
    ensures
        lex_lt(a, b) == lex_lt(
            a.subrange(i, a.len() as int),
            b.subrange(i, b.len() as int),
        ),
    decreases i,
{
    if i == 0 {
        assert(a.subrange(0, a.len() as int) =~= a);
        assert(b.subrange(0, b.len() as int) =~= b);
    } else {
        let a1 = a.subrange(1, a.len() as int);
        let b1 = b.subrange(1, b.len() as int);
        assert(forall|j: int| 0 <= j < i - 1 ==> a1[j] == b1[j]);
        lemma_lex_lt_common_prefix(a1, b1, i - 1);
        assert(a1.subrange(i - 1, a1.len() as int) =~= a.subrange(i, a.len() as int));
        assert(b1.subrange(i - 1, b1.len() as int) =~= b.subrange(i, b.len() as int));
    }
}

/// Decides `lex_lt` on two strings.
pub fn str_lex_lt(a: &str, b: &str) -> (r: bool)
    ensures
        r == lex_lt(a@, b@),
{
    let la = a.unicode_len();
    let lb = b.unicode_len();
    let mut i: usize = 0;
    loop
        invariant
            0 <= i <= la,
            i <= lb,
            la == a@.len(),
            lb == b@.len(),
            forall|j: int| 0 <= j < i ==> a@[j] == b@[j],
        decreases la - i,
    {
        proof {
            lemma_lex_lt_common_prefix(a@, b@, i as int);
        }
        if i >= la || i >= lb {
            return la < lb;
        }
        let ca = a.get_char(i);
        let cb = b.get_char(i);
        if ca != cb {
            return ca < cb;
        }
        i += 1;
    }
}

/// Decides string equality by characters.
pub fn str_eq(a: &str, b: &str) -> (r: bool)
    ensures
        r == (a@ == b@),
{
    let la = a.unicode_len();
    let lb = b.unicode_len();
    if la != lb {
        return false;
    }
    let mut i: usize = 0;
    while i < la
        invariant
            0 <= i <= la,
            la == a@.len(),
            la == lb,
            lb == b@.len(),
            forall|j: int| 0 <= j < i ==> a@[j] == b@[j],
        decreases la - i,
    {
        if a.get_char(i) != b.get_char(i) {
            return false;
        }
        i += 1;
    }
    proof {
        assert(a@ =~= b@);
    }
    true
}

} // verus!
