//! Parsing the compound `<order>/<operation>` key.

use vstd::prelude::*;
use crate::text::{trim_ws, trim_chars, str_to_chars, subvec, chars_to_string};

verus! {

/// Number of `/` separators in `s`.
pub open spec fn slash_count(s: Seq<char>) -> nat
    decreases s.len(),
{
    if s.len() == 0 {
        0
    } else {
        slash_count(s.subrange(1, s.len() as int)) + if s[0] == '/' {
            1nat
        } else {
            0nat
        }
    }
}

/// Position of a `/` in `s`; the position when there is exactly one.
pub open spec fn slash_pos(s: Seq<char>) -> int {
    choose|i: int| 0 <= i < s.len() && s[i] == '/'
}

/// The compound key split on `/`: both sides trimmed, defined only when the
/// split yields exactly two non-empty parts.
pub open spec fn parse_key(s: Seq<char>) -> Option<(Seq<char>, Seq<char>)> {
    if slash_count(s) != 1 {
        None
    } else {
        let i = slash_pos(s);
        let a = trim_ws(s.subrange(0, i));
        let b = trim_ws(s.subrange(i + 1, s.len() as int));
        if a.len() == 0 || b.len() == 0 {
            None
        } else {
            Some((a, b))
        }
    }
}

proof fn lemma_slash_count_le_len(s: Seq<char>)
    ensures
        slash_count(s) <= s.len(),
    decreases s.len(),
{
    if s.len() > 0 {
        lemma_slash_count_le_len(s.subrange(1, s.len() as int));
    }
}

/// `slash_count` splits at any position.
proof fn lemma_slash_count_decompose(s: Seq<char>, i: int)
    requires
        0 <= i < s.len(),
    ensures
        slash_count(s) == slash_count(s.subrange(0, i)) + (if s[i] == '/' {
            1nat
        } else {
            0nat
        }) + slash_count(s.subrange(i + 1, s.len() as int)),
    decreases i,
{
    if i == 0 {
        assert(s.subrange(0, 0) =~= Seq::<char>::empty());
    } else {
        let s1 = s.subrange(1, s.len() as int);
        lemma_slash_count_decompose(s1, i - 1);
        assert(s1.subrange(0, i - 1) =~= s.subrange(0, i).subrange(1, i));
        assert(s.subrange(0, i).subrange(1, i) == s.subrange(0, i).subrange(
            1,
            s.subrange(0, i).len() as int,
        ));
        assert(s1.subrange(i, s1.len() as int) =~= s.subrange(i + 1, s.len() as int));
        assert(s1[i - 1] == s[i]);
    }
}

proof fn lemma_slash_at_counts(s: Seq<char>, i: int)
    requires
        0 <= i < s.len(),
        s[i] == '/',
    ensures
        slash_count(s) >= 1,
{
    lemma_slash_count_decompose(s, i);
}

/// With exactly one separator, any separator position is the position.
proof fn lemma_slash_pos_unique(s: Seq<char>, i: int)
    requires
        slash_count(s) == 1,
        0 <= i < s.len(),
        s[i] == '/',
    ensures
        slash_pos(s) == i,
{
    let j = slash_pos(s);
    assert(0 <= j < s.len() && s[j] == '/');
    if i != j {
        lemma_slash_count_decompose(s, i);
        if j < i {
            lemma_slash_at_counts(s.subrange(0, i), j);
        } else {
            lemma_slash_at_counts(s.subrange(i + 1, s.len() as int), j - i - 1);
        }
    }
}

/// Splits a compound key on `/` and trims both sides; succeeds exactly when
/// the split yields two parts that are non-empty after trimming.
pub fn parse_order_and_operation(value: &str) -> (r: Option<(String, String)>)
    ensures
        r is Some <==> parse_key(value@) is Some,
        r is Some ==> r.unwrap().0@ == parse_key(value@).unwrap().0,
        r is Some ==> r.unwrap().1@ == parse_key(value@).unwrap().1,
{
    let chars = str_to_chars(value);
    let n = chars.len();
    let mut cnt: usize = 0;
    let mut pos: usize = 0;
    let mut i: usize = 0;
    while i < n
        invariant
            0 <= i <= n,
            n == chars.len(),
            chars@ == value@,
            cnt == slash_count(chars@.subrange(0, i as int)),
            cnt > 0 ==> pos < i && chars@[pos as int] == '/' && slash_count(
                chars@.subrange(0, pos as int),
            ) == 0,
        decreases n - i,
    {
        proof {
            lemma_slash_count_decompose(chars@.subrange(0, i + 1), i as int);
            assert(chars@.subrange(0, i + 1).subrange(0, i as int) =~= chars@.subrange(
                0,
                i as int,
            ));
            assert(chars@.subrange(0, i + 1).subrange(i + 1, i + 1) =~= Seq::<char>::empty());
            lemma_slash_count_le_len(chars@.subrange(0, i as int));
        }
        if chars[i] == '/' {
            if cnt == 0 {
                pos = i;
            }
            cnt += 1;
        }
        i += 1;
    }
    proof {
        assert(chars@.subrange(0, n as int) =~= chars@);
    }
    if cnt != 1 {
        return None;
    }
    proof {
        lemma_slash_pos_unique(chars@, pos as int);
    }
    let left = subvec(&chars, 0, pos);
    let right = subvec(&chars, pos + 1, n);
    let lt = trim_chars(&left);
    let rt = trim_chars(&right);
    if lt.len() == 0 || rt.len() == 0 {
        return None;
    }
    Some((chars_to_string(&lt), chars_to_string(&rt)))
}

} // verus!
