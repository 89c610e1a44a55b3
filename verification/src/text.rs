//! Free-text helpers: trimming, description/key cleanup, substring search,
//! and parsing of trailing numeric suffixes.

use vstd::prelude::*;
use vstd::string::StrSliceExecFns;

verus! {

// ---------------------------------------------------------------------------
// Character classes
// ---------------------------------------------------------------------------

/// Whitespace, as Unicode's White_Space property defines it (the set that
/// `str::trim` strips).
pub open spec fn is_space(c: char) -> bool {
    ||| c == ' '
    ||| c == '\t'
    ||| c == '\n'
    ||| c == '\r'
    ||| c == '\u{0b}'
    ||| c == '\u{0c}'
    ||| c == '\u{85}'
    ||| c == '\u{a0}'
    ||| c == '\u{1680}'
    ||| (0x2000 <= c as u32 && c as u32 <= 0x200a)
    ||| c == '\u{2028}'
    ||| c == '\u{2029}'
    ||| c == '\u{202f}'
    ||| c == '\u{205f}'
    ||| c == '\u{3000}'
}

/// The bounded punctuation set stripped from the ends of a derived
/// description once a ticket key has been cut out of it.
pub open spec fn is_desc_punct(c: char) -> bool {
    c == ':' || c == '-'
}

pub fn is_space_char(c: char) -> (b: bool)
    ensures
        b == is_space(c),
{
    c == ' ' || c == '\t' || c == '\n' || c == '\r' || c == '\u{0b}' || c == '\u{0c}'
        || c == '\u{85}' || c == '\u{a0}' || c == '\u{1680}' || (0x2000 <= c as u32 && c as u32
        <= 0x200a) || c == '\u{2028}' || c == '\u{2029}' || c == '\u{202f}' || c == '\u{205f}'
        || c == '\u{3000}'
}

pub fn is_desc_punct_char(c: char) -> (b: bool)
    ensures
        b == is_desc_punct(c),
{
    c == ':' || c == '-'
}

// ---------------------------------------------------------------------------
// Leading/trailing runs and trimming
// ---------------------------------------------------------------------------

/// Length of the longest prefix of `s` whose characters all satisfy `pred`.
pub open spec fn count_leading(s: Seq<char>, pred: spec_fn(char) -> bool) -> int
    decreases s.len(),
{
    if s.len() > 0 && pred(s[0]) {
        1 + count_leading(s.drop_first(), pred)
    } else {
        0
    }
}

/// Length of the longest suffix of `s` whose characters all satisfy `pred`.
pub open spec fn count_trailing(s: Seq<char>, pred: spec_fn(char) -> bool) -> int
    decreases s.len(),
{
    if s.len() > 0 && pred(s.last()) {
        1 + count_trailing(s.drop_last(), pred)
    } else {
        0
    }
}

pub proof fn lemma_count_leading(s: Seq<char>, pred: spec_fn(char) -> bool)
    ensures
        0 <= count_leading(s, pred) <= s.len(),
        forall|k: int| 0 <= k < count_leading(s, pred) ==> pred(#[trigger] s[k]),
        count_leading(s, pred) < s.len() ==> !pred(s[count_leading(s, pred)]),
    decreases s.len(),
{
    if s.len() > 0 && pred(s[0]) {
        lemma_count_leading(s.drop_first(), pred);
        let c = count_leading(s, pred);
        assert forall|k: int| 0 <= k < c implies pred(#[trigger] s[k]) by {
            if k >= 1 {
                assert(s.drop_first()[k - 1] == s[k]);
            }
        }
        if c < s.len() {
            assert(s.drop_first()[c - 1] == s[c]);
        }
    }
}

pub proof fn lemma_count_leading_unique(s: Seq<char>, pred: spec_fn(char) -> bool, i: int)
    requires
        0 <= i <= s.len(),
        forall|k: int| 0 <= k < i ==> pred(#[trigger] s[k]),
        i < s.len() ==> !pred(s[i]),
    ensures
        i == count_leading(s, pred),
{
    lemma_count_leading(s, pred);
    let c = count_leading(s, pred);
    if i < c {
        assert(pred(s[i]));
        assert(false);
    } else if c < i {
        assert(pred(s[c]));
        assert(false);
    }
}

pub proof fn lemma_count_trailing(s: Seq<char>, pred: spec_fn(char) -> bool)
    ensures
        0 <= count_trailing(s, pred) <= s.len(),
        forall|k: int| s.len() - count_trailing(s, pred) <= k < s.len() ==> pred(#[trigger] s[k]),
        count_trailing(s, pred) < s.len() ==> !pred(s[s.len() - count_trailing(s, pred) - 1]),
    decreases s.len(),
{
    if s.len() > 0 && pred(s.last()) {
        lemma_count_trailing(s.drop_last(), pred);
        let t = count_trailing(s, pred);
        assert forall|k: int| s.len() - t <= k < s.len() implies pred(#[trigger] s[k]) by {
            if k < s.len() - 1 {
                assert(s.drop_last()[k] == s[k]);
            }
        }
        if t < s.len() {
            assert(s.drop_last()[s.len() - t - 1] == s[s.len() - t - 1]);
        }
    }
}

pub proof fn lemma_count_trailing_unique(s: Seq<char>, pred: spec_fn(char) -> bool, t: int)
    requires
        0 <= t <= s.len(),
        forall|k: int| s.len() - t <= k < s.len() ==> pred(#[trigger] s[k]),
        t < s.len() ==> !pred(s[s.len() - t - 1]),
    ensures
        t == count_trailing(s, pred),
{
    lemma_count_trailing(s, pred);
    let c = count_trailing(s, pred);
    if t < c {
        assert(pred(s[s.len() - t - 1]));
        assert(false);
    } else if c < t {
        assert(pred(s[s.len() - c - 1]));
        assert(false);
    }
}

/// `s` with the maximal run of `pred` characters removed from both ends.
pub open spec fn trim_pred(s: Seq<char>, pred: spec_fn(char) -> bool) -> Seq<char> {
    if count_leading(s, pred) == s.len() {
        Seq::empty()
    } else {
        s.subrange(count_leading(s, pred), s.len() - count_trailing(s, pred))
    }
}

/// When some character fails `pred`, the two trimmed runs do not overlap.
pub proof fn lemma_trim_pred_bounds(s: Seq<char>, pred: spec_fn(char) -> bool)
    ensures
        count_leading(s, pred) < s.len() ==> count_leading(s, pred) + count_trailing(s, pred)
            < s.len(),
{
    lemma_count_leading(s, pred);
    lemma_count_trailing(s, pred);
    let lo = count_leading(s, pred);
    let t = count_trailing(s, pred);
    if lo < s.len() && lo + t >= s.len() {
        assert(s.len() - t <= lo < s.len());
        assert(pred(s[lo]));
        assert(false);
    }
}

pub open spec fn spacep() -> spec_fn(char) -> bool {
    |c: char| is_space(c)
}

pub open spec fn punctp() -> spec_fn(char) -> bool {
    |c: char| is_desc_punct(c)
}

/// What `str::trim` returns, at the level of character sequences.
pub open spec fn spec_trim(s: Seq<char>) -> Seq<char> {
    trim_pred(s, spacep())
}

/// Trims whitespace (`punct == false`) or the description punctuation set
/// (`punct == true`) from both ends.
fn trim_by<'a>(s: &'a str, punct: bool) -> (r: &'a str)
    ensures
        r@ == trim_pred(s@, if punct {
            punctp()
        } else {
            spacep()
        }),
{
    let ghost pred: spec_fn(char) -> bool = if punct {
        punctp()
    } else {
        spacep()
    };
    let n: usize = s.unicode_len();
    let mut lo: usize = 0;
    loop
        invariant
            0 <= lo <= n,
            n == s@.len(),
            pred == if punct {
                punctp()
            } else {
                spacep()
            },
            forall|k: int| 0 <= k < lo ==> pred(#[trigger] s@[k]),
        ensures
            0 <= lo <= n,
            forall|k: int| 0 <= k < lo ==> pred(#[trigger] s@[k]),
            lo < n ==> !pred(s@[lo as int]),
        decreases n - lo,
    {
        if lo == n {
            break ;
        }
        let c = s.get_char(lo);
        let hit = if punct {
            is_desc_punct_char(c)
        } else {
            is_space_char(c)
        };
        if !hit {
            break ;
        }
        lo = lo + 1;
    }
    proof {
        lemma_count_leading_unique(s@, pred, lo as int);
    }
    if lo == n {
        let r = s.substring_char(n, n);
        proof {
            assert(r@ =~= Seq::<char>::empty());
        }
        return r;
    }
    let mut hi: usize = n;
    loop
        invariant
            lo < hi <= n,
            n == s@.len(),
            pred == if punct {
                punctp()
            } else {
                spacep()
            },
            !pred(s@[lo as int]),
            forall|k: int| hi <= k < n ==> pred(#[trigger] s@[k]),
        ensures
            lo < hi <= n,
            forall|k: int| hi <= k < n ==> pred(#[trigger] s@[k]),
            !pred(s@[hi - 1]),
        decreases hi,
    {
        let c = s.get_char(hi - 1);
        let hit = if punct {
            is_desc_punct_char(c)
        } else {
            is_space_char(c)
        };
        if !hit {
            break ;
        }
        // the loop never passes `lo`, whose character fails `pred`
        hi = hi - 1;
    }
    proof {
        lemma_count_trailing_unique(s@, pred, (n - hi) as int);
    }
    s.substring_char(lo, hi)
}

// ---------------------------------------------------------------------------
// Description and key cleanup
// ---------------------------------------------------------------------------

/// A derived description: whitespace-trimmed, then stripped of leading and
/// trailing `:`/`-` punctuation, then whitespace-trimmed again.
pub open spec fn spec_clean_description(s: Seq<char>) -> Seq<char> {
    spec_trim(trim_pred(spec_trim(s), punctp()))
}

pub fn clean_description(input: &str) -> (r: String)
    ensures
        r@ == spec_clean_description(input@),
{
    let a = trim_by(input, false);
    let b = trim_by(a, true);
    let c = trim_by(b, false);
    c.to_owned()
}

pub open spec fn not_colon() -> spec_fn(char) -> bool {
    |c: char| c != ':'
}

/// Index of the first `:` in `s`, or `s.len()` when there is none.
pub open spec fn first_colon(s: Seq<char>) -> int {
    count_leading(s, not_colon())
}

/// A normalized user-entered key: the text before the first `:` (guarding
/// against pasted `"KEY: description"` strings), whitespace-trimmed; the
/// whole input trimmed when no `:` is present.
pub open spec fn spec_clean_key(s: Seq<char>) -> Seq<char> {
    spec_trim(s.take(first_colon(s)))
}

pub fn clean_key(input: &str) -> (r: String)
    ensures
        r@ == spec_clean_key(input@),
{
    let n: usize = input.unicode_len();
    let mut i: usize = 0;
    loop
        invariant
            0 <= i <= n,
            n == input@.len(),
            forall|k: int| 0 <= k < i ==> #[trigger] input@[k] != ':',
        ensures
            0 <= i <= n,
            forall|k: int| 0 <= k < i ==> #[trigger] input@[k] != ':',
            i < n ==> input@[i as int] == ':',
        decreases n - i,
    {
        if i == n {
            break ;
        }
        if input.get_char(i) == ':' {
            break ;
        }
        i = i + 1;
    }
    proof {
        assert forall|k: int| 0 <= k < i implies (not_colon())(#[trigger] input@[k]) by {}
        if i < n {
            assert(!(not_colon())(input@[i as int]));
        }
        lemma_count_leading_unique(input@, not_colon(), i as int);
        assert(input@.take(i as int) =~= input@.subrange(0, i as int));
    }
    let prefix = input.substring_char(0, i);
    let r = trim_by(prefix, false);
    r.to_owned()
}

// ---------------------------------------------------------------------------
// String comparison and substring search
// ---------------------------------------------------------------------------

/// Character-wise string equality.
pub fn str_eq(a: &str, b: &str) -> (r: bool)
    ensures
        r == (a@ == b@),
{
    let an: usize = a.unicode_len();
    let bn: usize = b.unicode_len();
    if an != bn {
        proof {
            assert(a@ != b@);
        }
        return false;
    }
    let mut i: usize = 0;
    while i < an
        invariant
            0 <= i <= an,
            an == a@.len(),
            an == b@.len(),
            forall|k: int| 0 <= k < i ==> a@[k] == b@[k],
        decreases an - i,
    {
        if a.get_char(i) != b.get_char(i) {
            return false;
        }
        i = i + 1;
    }
    proof {
        assert(a@ =~= b@);
    }
    true
}

/// `n` occurs in `h` starting at position `i`.
pub open spec fn sub_at(h: Seq<char>, n: Seq<char>, i: int) -> bool {
    0 <= i && i + n.len() <= h.len() && h.subrange(i, i + n.len()) == n
}

/// `n` occurs contiguously somewhere in `h`.
pub open spec fn contains_sub(h: Seq<char>, n: Seq<char>) -> bool {
    exists|i: int| sub_at(h, n, i)
}

/// Case-sensitive substring search, the heart of suggestion filtering.
pub fn str_contains_sub(h: &str, n: &str) -> (b: bool)
    ensures
        b == contains_sub(h@, n@),
{
    let hn: usize = h.unicode_len();
    let nn: usize = n.unicode_len();
    if nn > hn {
        return false;
    }
    if nn == 0 {
        proof {
            assert(h@.subrange(0, n@.len() as int) =~= n@);
            assert(sub_at(h@, n@, 0));
        }
        return true;
    }
    let mut i: usize = 0;
    while i <= hn - nn
        invariant
            0 <= i <= hn - nn + 1,
            0 < nn <= hn,
            hn == h@.len(),
            nn == n@.len(),
            forall|j: int| 0 <= j < i ==> !sub_at(h@, n@, j),
        decreases hn - i,
    {
        let mut k: usize = 0;
        let mut all_eq = true;
        let ghost mut bad: int = 0;
        while k < nn
            invariant
                0 <= k <= nn,
                i + nn <= hn,
                hn == h@.len(),
                nn == n@.len(),
                all_eq ==> forall|m: int| 0 <= m < k ==> h@[i + m] == n@[m],
                !all_eq ==> 0 <= bad < nn && h@[i + bad] != n@[bad],
            decreases nn - k,
        {
            if h.get_char(i + k) != n.get_char(k) {
                all_eq = false;
                proof {
                    bad = k as int;
                }
                k = nn;
            } else {
                k = k + 1;
            }
        }
        if all_eq {
            proof {
                assert(h@.subrange(i as int, i + n@.len()) =~= n@);
                assert(sub_at(h@, n@, i as int));
            }
            return true;
        }
        proof {
            assert(h@.subrange(i as int, i + n@.len())[bad] == h@[i + bad]);
            assert(h@.subrange(i as int, i + n@.len()) != n@);
            assert(!sub_at(h@, n@, i as int));
        }
        i = i + 1;
    }
    proof {
        assert forall|j: int| !#[trigger] sub_at(h@, n@, j) by {
            if 0 <= j && j + n@.len() <= h@.len() {
                assert(j < i);
            }
        }
    }
    false
}

// ---------------------------------------------------------------------------
// Numeric suffix parsing
// ---------------------------------------------------------------------------

pub open spec fn is_ascii_digit(c: char) -> bool {
    48 <= c as u32 && c as u32 <= 57
}

pub open spec fn digit_val(c: char) -> int {
    c as u32 - 48
}

/// Value of a string of decimal digits, most significant first.
pub open spec fn digits_value(s: Seq<char>) -> int
    decreases s.len(),
{
    if s.len() == 0 {
        0
    } else {
        digits_value(s.drop_last()) * 10 + digit_val(s.last())
    }
}

/// The digits of a decimal string: the text after an optional leading `+`.
pub open spec fn parse_target(s: Seq<char>) -> Seq<char> {
    if s.len() > 0 && s[0] == '+' {
        s.drop_first()
    } else {
        s
    }
}

/// What `str::parse::<u64>` accepts: an optional `+`, then one or more
/// decimal digits, with a value that fits in a `u64`.
pub open spec fn spec_parse_u64(s: Seq<char>) -> Option<u64> {
    let t = parse_target(s);
    if t.len() > 0 && (forall|k: int| 0 <= k < t.len() ==> is_ascii_digit(#[trigger] t[k]))
        && digits_value(t) <= u64::MAX as int {
        Some(digits_value(t) as u64)
    } else {
        None
    }
}

pub open spec fn spec_parse_u64_or_zero(s: Seq<char>) -> u64 {
    match spec_parse_u64(s) {
        Some(v) => v,
        None => 0u64,
    }
}

proof fn lemma_digits_value_nonneg(s: Seq<char>)
    requires
        forall|k: int| 0 <= k < s.len() ==> is_ascii_digit(#[trigger] s[k]),
    ensures
        digits_value(s) >= 0,
    decreases s.len(),
{
    if s.len() > 0 {
        lemma_digits_value_nonneg(s.drop_last());
    }
}

/// A digit string's value never shrinks as more digits are appended.
proof fn lemma_digits_value_prefix(s: Seq<char>, k: int)
    requires
        0 <= k <= s.len(),
        forall|m: int| 0 <= m < s.len() ==> is_ascii_digit(#[trigger] s[m]),
    ensures
        digits_value(s.take(k)) <= digits_value(s),
    decreases s.len() - k,
{
    if k < s.len() {
        lemma_digits_value_prefix(s, k + 1);
        let a = s.take(k);
        let b = s.take(k + 1);
        assert(b.drop_last() =~= a);
        assert(b.last() == s[k]);
        lemma_digits_value_nonneg(a);
    } else {
        assert(s.take(k) =~= s);
    }
}

/// Parses `s` as `str::parse::<u64>` would, yielding 0 when that fails
/// (missing digits, a stray character, or overflow).
pub fn parse_u64_or_zero(s: &str) -> (r: u64)
    ensures
        r == spec_parse_u64_or_zero(s@),
{
    let n: usize = s.unicode_len();
    let start: usize = if n > 0 && s.get_char(0) == '+' {
        1
    } else {
        0
    };
    let ghost t = parse_target(s@);
    proof {
        assert(t =~= s@.subrange(start as int, n as int));
    }
    if start == n {
        return 0;
    }
    let mut acc: u64 = 0;
    let mut i: usize = start;
    loop
        invariant
            start <= i <= n,
            n == s@.len(),
            t == parse_target(s@),
            start == n - t.len(),
            t =~= s@.subrange(start as int, n as int),
            forall|k: int| 0 <= k < i - start ==> is_ascii_digit(#[trigger] t[k]),
            acc as int == digits_value(t.take(i - start)),
        ensures
            t == parse_target(s@),
            start == n - t.len(),
            n == s@.len(),
            forall|k: int| 0 <= k < t.len() ==> is_ascii_digit(#[trigger] t[k]),
            acc as int == digits_value(t.take(n - start)),
        decreases n - i,
    {
        if i == n {
            break ;
        }
        let c = s.get_char(i);
        if !(c as u32 >= 48 && c as u32 <= 57) {
            proof {
                assert(!is_ascii_digit(t[i - start]));
                assert(spec_parse_u64(s@) is None);
            }
            return 0;
        }
        let d: u64 = (c as u32 - 48) as u64;
        proof {
            assert(t.take(i + 1 - start).drop_last() =~= t.take(i - start));
            assert(t.take(i + 1 - start).last() == t[i - start]);
        }
        let next = match acc.checked_mul(10) {
            Some(m) => m.checked_add(d),
            None => None,
        };
        match next {
            Some(v) => {
                acc = v;
            },
            None => {
                proof {
                    if forall|k: int| 0 <= k < t.len() ==> is_ascii_digit(#[trigger] t[k]) {
                        assert(digits_value(t.take(i + 1 - start)) == acc * 10 + d);
                        lemma_digits_value_prefix(t, i + 1 - start);
                        assert(digits_value(t) > u64::MAX as int);
                    }
                    assert(spec_parse_u64(s@) is None);
                }
                return 0;
            },
        }
        i = i + 1;
    }
    proof {
        assert(t.take(n - start) =~= t);
        assert(spec_parse_u64(s@) == Some(acc));
    }
    acc
}

} // verus!
