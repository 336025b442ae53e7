//! Worksheet identifiers: sanitization and collision-free allocation.

use vstd::prelude::*;
use vstd::string::*;
use crate::text::{
    trim_ws, trim_quotes, trim_chars, trim_quote_chars, str_to_chars, subvec, chars_to_string,
};

verus! {

/// Characters that may not appear in a worksheet identifier: the fixed set
/// `{ : \ / ? * [ ] }` plus any control character.
pub open spec fn is_invalid_name_char(c: char) -> bool {
    c == ':' || c == '\\' || c == '/' || c == '?' || c == '*' || c == '[' || c == ']'
        || c < '\u{20}' || ('\u{7f}' <= c && c < '\u{a0}')
}

/// `s` with every invalid identifier character replaced by `_`.
pub open spec fn replace_invalid(s: Seq<char>) -> Seq<char> {
    Seq::new(s.len(), |i: int| if is_invalid_name_char(s[i]) {
        '_'
    } else {
        s[i]
    })
}

/// `s`, or the fallback identifier when `s` is empty.
pub open spec fn or_fallback(s: Seq<char>) -> Seq<char> {
    if s.len() == 0 {
        "NO_ORDER"@
    } else {
        s
    }
}

/// A prefix of `s` of at most `n` characters.
pub open spec fn take_at_most(s: Seq<char>, n: int) -> Seq<char> {
    if s.len() <= n {
        s
    } else {
        s.subrange(0, n)
    }
}

/// The sanitized worksheet identifier for a raw order id: trim, fall back to
/// `NO_ORDER` when empty, replace invalid characters by `_`, strip outer
/// apostrophes, trim again, fall back again, and cut to 31 characters.
pub open spec fn sanitize_spec(s: Seq<char>) -> Seq<char> {
    let kept = or_fallback(trim_ws(s));
    let cleaned = replace_invalid(kept);
    let stripped = trim_ws(trim_quotes(cleaned));
    take_at_most(or_fallback(stripped), 31)
}

fn is_invalid_name_char_exec(c: char) -> (r: bool)
    ensures
        r == is_invalid_name_char(c),
{
    c == ':' || c == '\\' || c == '/' || c == '?' || c == '*' || c == '[' || c == ']'
        || c < '\u{20}' || ('\u{7f}' <= c && c < '\u{a0}')
}

/// Maps a raw order id to a valid, length-bounded worksheet identifier.
pub fn sanitize_sheet_name(raw: &str) -> (r: String)
    ensures
        r@ == sanitize_spec(raw@),
{
    let chars = str_to_chars(raw);
    let trimmed = trim_chars(&chars);
    let kept = if trimmed.len() == 0 {
        str_to_chars("NO_ORDER")
    } else {
        trimmed
    };
    assert(kept@ == or_fallback(trim_ws(raw@)));
    let mut cleaned: Vec<char> = Vec::new();
    let mut i: usize = 0;
    while i < kept.len()
        invariant
            0 <= i <= kept.len(),
            cleaned@.len() == i,
            forall|j: int| 0 <= j < i ==> cleaned@[j] == replace_invalid(kept@)[j],
        decreases kept.len() - i,
    {
        let c = kept[i];
        cleaned.push(if is_invalid_name_char_exec(c) {
            '_'
        } else {
            c
        });
        i += 1;
    }
    proof {
        assert(cleaned@ =~= replace_invalid(kept@));
    }
    let stripped = trim_chars(&trim_quote_chars(&cleaned));
    let full = if stripped.len() == 0 {
        str_to_chars("NO_ORDER")
    } else {
        stripped
    };
    let cut = if full.len() <= 31 {
        full
    } else {
        subvec(&full, 0, 31)
    };
    assert(cut@ == sanitize_spec(raw@));
    chars_to_string(&cut)
}

/// The sanitized identifier is never empty and never longer than 31
/// characters.
pub proof fn lemma_sanitize_bounds(s: Seq<char>)
    ensures
        1 <= sanitize_spec(s).len() <= 31,
{
    reveal_strlit("NO_ORDER");
}

/// The decimal digits of `n`, most significant first.
pub open spec fn dec_rep(n: nat) -> Seq<char>
    decreases n,
{
    if n < 10 {
        seq![((48 + n) as u8) as char]
    } else {
        dec_rep(n / 10).push(((48 + n % 10) as u8) as char)
    }
}

fn dec_digits(n: usize) -> (r: Vec<char>)
    ensures
        r@ == dec_rep(n as nat),
    decreases n,
{
    if n < 10 {
        let mut v: Vec<char> = Vec::new();
        v.push((48 + n as u8) as char);
        proof {
            assert(v@ =~= seq![((48 + n) as u8) as char]);
        }
        v
    } else {
        let mut v = dec_digits(n / 10);
        v.push((48 + (n % 10) as u8) as char);
        v
    }
}

/// The identifier allocated for `base` on its `cnt`-th occurrence: the base
/// itself the first time, and otherwise the base truncated so that the
/// `_<cnt>` suffix still fits inside 31 characters.
pub open spec fn unique_name_spec(base: Seq<char>, cnt: nat) -> Seq<char> {
    if cnt == 1 {
        base
    } else {
        let suffix = seq!['_'] + dec_rep(cnt);
        let keep: int = if suffix.len() <= 31 {
            31 - suffix.len()
        } else {
            0
        };
        take_at_most(base, keep) + suffix
    }
}

/// Occurrence counts of sanitized base names over one split operation.
pub struct NameRegistry {
    pub keys: Vec<String>,
    pub counts: Vec<usize>,
}

impl NameRegistry {
    /// Distinct keys, one count per key.
    pub open spec fn wf(self) -> bool {
        self.keys.len() == self.counts.len() && forall|i: int, j: int|
            0 <= i < j < self.keys.len() ==> self.keys[i]@ != self.keys[j]@
    }

    /// How many times `k` has been allocated so far.
    pub open spec fn count_of(self, k: Seq<char>) -> nat {
        if exists|i: int| 0 <= i < self.keys.len() && self.keys[i]@ == k {
            self.counts[choose|i: int| 0 <= i < self.keys.len() && self.keys[i]@ == k] as nat
        } else {
            0
        }
    }

    pub fn new() -> (r: Self)
        ensures
            r.wf(),
            forall|k: Seq<char>| r.count_of(k) == 0,
    {
        NameRegistry { keys: Vec::new(), counts: Vec::new() }
    }
}

/// Records one more occurrence of `base` and returns the collision-avoiding
/// identifier for it: `base` on the first occurrence, otherwise the truncated
/// base with an `_<count>` suffix, still within 31 characters.
pub fn make_unique_sheet_name(base: &str, used: &mut NameRegistry) -> (r: String)
    requires
        old(used).wf(),
        old(used).count_of(base@) < usize::MAX,
    ensures
        final(used).wf(),
        final(used).count_of(base@) == old(used).count_of(base@) + 1,
        forall|k: Seq<char>| k != base@ ==> final(used).count_of(k) == old(used).count_of(k),
        r@ == unique_name_spec(base@, old(used).count_of(base@) + 1),
{
    let n = used.keys.len();
    let mut idx: usize = 0;
    let mut found = false;
    let mut i: usize = 0;
    while i < n
        invariant
            0 <= i <= n,
            n == used.keys.len(),
            !found ==> forall|j: int| 0 <= j < i ==> used.keys[j]@ != base@,
            found ==> idx < i && used.keys[idx as int]@ == base@,
        decreases n - i,
    {
        if !found {
            if crate::text::str_eq(used.keys[i].as_str(), base) {
                found = true;
                idx = i;
            }
        }
        i += 1;
    }
    let ghost pre = *used;
    let cnt: usize;
    if found {
        proof {
            assert forall|j: int|
                0 <= j < pre.keys.len() && pre.keys[j]@ == base@ implies j == idx as int by {
                if j != idx as int {
                    assert(pre.keys[j]@ != pre.keys[idx as int]@);
                }
            }
        }
        let c = used.counts[idx];
        assert(c as nat == pre.count_of(base@));
        cnt = c + 1;
        used.counts[idx] = cnt;
    } else {
        cnt = 1;
        used.keys.push(base.to_owned());
        used.counts.push(1);
    }
    proof {
        assert(final(used).wf());
        assert forall|k: Seq<char>| true implies (if k == base@ {
            final(used).count_of(k) == pre.count_of(k) + 1
        } else {
            final(used).count_of(k) == pre.count_of(k)
        }) by {
            let m = final(used).keys.len() as int;
            if found {
                assert(final(used).keys@ =~= pre.keys@);
                if exists|i: int| 0 <= i < m && final(used).keys[i]@ == k {
                    let wi = choose|i: int| 0 <= i < m && final(used).keys[i]@ == k;
                    assert(pre.keys[wi]@ == k);
                    let wj = choose|i: int| 0 <= i < pre.keys.len() && pre.keys[i]@ == k;
                    assert(forall|a: int, b: int|
                        0 <= a < b < m ==> pre.keys[a]@ != pre.keys[b]@);
                    assert(wi == wj);
                    if k == base@ {
                        assert(wi == idx as int);
                    } else {
                        assert(wi != idx as int);
                    }
                }
            } else {
                if k == base@ {
                    assert(final(used).keys[m - 1]@ == base@);
                    let wi = choose|i: int| 0 <= i < m && final(used).keys[i]@ == k;
                    assert(wi == m - 1);
                } else {
                    if exists|i: int| 0 <= i < m && final(used).keys[i]@ == k {
                        let wi = choose|i: int| 0 <= i < m && final(used).keys[i]@ == k;
                        assert(wi < m - 1);
                        assert(pre.keys[wi]@ == k);
                        let wj = choose|i: int| 0 <= i < pre.keys.len() && pre.keys[i]@ == k;
                        assert(wi == wj);
                    } else {
                        assert(!exists|i: int| 0 <= i < pre.keys.len() && pre.keys[i]@ == k)
                            by {
                            if exists|i: int| 0 <= i < pre.keys.len() && pre.keys[i]@ == k {
                                let wi = choose|i: int|
                                    0 <= i < pre.keys.len() && pre.keys[i]@ == k;
                                assert(final(used).keys[wi]@ == k);
                            }
                        }
                    }
                }
            }
        }
    }
    if cnt == 1 {
        return base.to_owned();
    }
    let digits = dec_digits(cnt);
    let mut suffix: Vec<char> = Vec::new();
    suffix.push('_');
    let mut i: usize = 0;
    while i < digits.len()
        invariant
            0 <= i <= digits.len(),
            suffix@ == seq!['_'] + digits@.subrange(0, i as int),
        decreases digits.len() - i,
    {
        suffix.push(digits[i]);
        proof {
            assert(seq!['_'] + digits@.subrange(0, i + 1) =~= (seq!['_'] + digits@.subrange(
                0,
                i as int,
            )).push(digits@[i as int]));
        }
        i += 1;
    }
    proof {
        assert(digits@.subrange(0, digits@.len() as int) =~= digits@);
    }
    let keep: usize = if suffix.len() <= 31 {
        31 - suffix.len()
    } else {
        0
    };
    let base_chars = str_to_chars(base);
    let stem_len: usize = if base_chars.len() <= keep {
        base_chars.len()
    } else {
        keep
    };
    let mut out = subvec(&base_chars, 0, stem_len);
    let mut i: usize = 0;
    while i < suffix.len()
        invariant
            0 <= i <= suffix.len(),
            out@ == take_at_most(base@, keep as int) + suffix@.subrange(0, i as int),
        decreases suffix.len() - i,
    {
        out.push(suffix[i]);
        proof {
            assert(take_at_most(base@, keep as int) + suffix@.subrange(0, i + 1)
                =~= (take_at_most(base@, keep as int) + suffix@.subrange(0, i as int)).push(
                suffix@[i as int],
            ));
        }
        i += 1;
    }
    proof {
        assert(suffix@.subrange(0, suffix@.len() as int) =~= suffix@);
    }
    chars_to_string(&out)
}

/// Two different base names, each allocated for the first time, never yield
/// the same identifier.
pub proof fn lemma_first_allocations_distinct(a: Seq<char>, b: Seq<char>)
    requires
        a != b,
    ensures
        unique_name_spec(a, 1) != unique_name_spec(b, 1),
{
}

/// A base allocated twice yields two distinct identifiers, except for a base
/// of exactly 31 characters that already ends in `_2`.
pub proof fn lemma_repeat_allocation_distinct(base: Seq<char>)
    requires
        !(base.len() == 31 && base[29] == '_' && base[30] == '2'),
    ensures
        unique_name_spec(base, 2) != unique_name_spec(base, 1),
{
    let second = unique_name_spec(base, 2);
    assert(dec_rep(2) =~= seq!['2']);
    let suffix = seq!['_'] + dec_rep(2);
    assert(suffix.len() == 2);
    assert(second == take_at_most(base, 29) + suffix);
    if base.len() <= 29 {
        assert(second.len() == base.len() + 2);
    } else if base.len() == 30 {
        assert(second.len() == 31);
    } else if base.len() == 31 {
        if second == base {
            assert(base[29] == second[29] && second[29] == '_');
            assert(base[30] == second[30] && second[30] == '2');
        }
    } else {
        assert(second.len() == 31 && base.len() > 31);
    }
}

} // verus!
