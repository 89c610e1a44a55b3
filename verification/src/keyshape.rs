//! The ticket-key grammar: an upper-case project prefix, a dash, and a
//! positive number with no leading zero (`[A-Z][A-Z0-9_]+-[1-9][0-9]*`),
//! together with scanning for the leftmost occurrence in free text.
//!
//! Scanning starts matches only on a word boundary, taken relative to the
//! ASCII word characters (letters, digits, `_`).

use vstd::prelude::*;
use vstd::string::StrSliceExecFns;
use vstd::string::StringExecFns;

use crate::text;

verus! {

pub open spec fn is_upper(c: char) -> bool {
    65 <= c as u32 && c as u32 <= 90
}

pub open spec fn is_lower(c: char) -> bool {
    97 <= c as u32 && c as u32 <= 122
}

/// Characters allowed in the project prefix after its first letter.
pub open spec fn is_key_char(c: char) -> bool {
    is_upper(c) || text::is_ascii_digit(c) || c == '_'
}

/// ASCII word characters; a key match must not be preceded by one.
pub open spec fn is_word_char(c: char) -> bool {
    is_upper(c) || is_lower(c) || text::is_ascii_digit(c) || c == '_'
}

/// `1` through `9`: the ticket number's first digit.
pub open spec fn is_pos_digit(c: char) -> bool {
    49 <= c as u32 && c as u32 <= 57
}

fn is_upper_char(c: char) -> (b: bool)
    ensures
        b == is_upper(c),
{
    c as u32 >= 65 && c as u32 <= 90
}

fn is_key_char_exec(c: char) -> (b: bool)
    ensures
        b == is_key_char(c),
{
    (c as u32 >= 65 && c as u32 <= 90) || (c as u32 >= 48 && c as u32 <= 57) || c == '_'
}

fn is_word_char_exec(c: char) -> (b: bool)
    ensures
        b == is_word_char(c),
{
    (c as u32 >= 65 && c as u32 <= 90) || (c as u32 >= 97 && c as u32 <= 122) || (c as u32 >= 48
        && c as u32 <= 57) || c == '_'
}

fn is_digit_char(c: char) -> (b: bool)
    ensures
        b == text::is_ascii_digit(c),
{
    c as u32 >= 48 && c as u32 <= 57
}

fn is_pos_digit_char(c: char) -> (b: bool)
    ensures
        b == is_pos_digit(c),
{
    c as u32 >= 49 && c as u32 <= 57
}

/// The whole of `k` has the ticket-key shape: an upper-case letter, one or
/// more further prefix characters, a dash, then a number without leading zero.
pub open spec fn is_key_shape(k: Seq<char>) -> bool {
    exists|e: int|
        {
            &&& 2 <= e <= k.len() - 2
            &&& is_upper(k[0])
            &&& (forall|m: int| 1 <= m < e ==> is_key_char(#[trigger] k[m]))
            &&& #[trigger] k[e] == '-'
            &&& is_pos_digit(k[e + 1])
            &&& (forall|m: int| e + 2 <= m < k.len() ==> text::is_ascii_digit(#[trigger] k[m]))
        }
}

/// The dash of a well-shaped key sits exactly where the prefix run of key
/// characters ends, so a scan that stops at the first non-key character has
/// found it.
proof fn lemma_shape_at_scan_end(k: Seq<char>, e: int)
    requires
        1 <= e <= k.len(),
        forall|m: int| 1 <= m < e ==> is_key_char(#[trigger] k[m]),
        e < k.len() ==> !is_key_char(k[e]),
        is_key_shape(k),
    ensures
        2 <= e <= k.len() - 2,
        is_upper(k[0]),
        k[e] == '-',
        is_pos_digit(k[e + 1]),
        forall|m: int| e + 2 <= m < k.len() ==> text::is_ascii_digit(#[trigger] k[m]),
{
    let w = choose|w: int|
        {
            &&& 2 <= w <= k.len() - 2
            &&& is_upper(k[0])
            &&& (forall|m: int| 1 <= m < w ==> is_key_char(#[trigger] k[m]))
            &&& #[trigger] k[w] == '-'
            &&& is_pos_digit(k[w + 1])
            &&& (forall|m: int| w + 2 <= m < k.len() ==> text::is_ascii_digit(#[trigger] k[m]))
        };
    if w < e {
        assert(is_key_char(k[w]));
        assert(false);
    }
    if e < w {
        assert(is_key_char(k[e]));
        assert(false);
    }
}

/// Position `i` sits on a word boundary of `s`.
pub open spec fn boundary(s: Seq<char>, i: int) -> bool {
    i == 0 || !is_word_char(s[i - 1])
}

/// A greedy key match occupies `s[i..j)`: it starts on a word boundary, has
/// the key shape, and takes as many trailing digits as it can.
pub open spec fn found_at(s: Seq<char>, i: int, j: int) -> bool {
    &&& 0 <= i <= j <= s.len()
    &&& boundary(s, i)
    &&& (j == s.len() || !text::is_ascii_digit(s[j]))
    &&& is_key_shape(s.subrange(i, j))
}

/// Some greedy key match starts at position `i`.
pub open spec fn match_at(s: Seq<char>, i: int) -> bool {
    exists|j: int| found_at(s, i, j)
}

/// `s` contains a key match somewhere.
pub open spec fn has_key_match(s: Seq<char>) -> bool {
    exists|i: int| match_at(s, i)
}

/// Decides whether the whole of `k` is a well-shaped ticket key.
pub fn is_ticket_key(k: &str) -> (b: bool)
    ensures
        b == is_key_shape(k@),
{
    let n: usize = k.unicode_len();
    if n < 4 {
        return false;
    }
    if !is_upper_char(k.get_char(0)) {
        return false;
    }
    let mut e: usize = 1;
    loop
        invariant
            1 <= e <= n,
            n == k@.len(),
            forall|m: int| 1 <= m < e ==> is_key_char(#[trigger] k@[m]),
        ensures
            1 <= e <= n,
            forall|m: int| 1 <= m < e ==> is_key_char(#[trigger] k@[m]),
            e < n ==> !is_key_char(k@[e as int]),
        decreases n - e,
    {
        if e == n {
            break ;
        }
        if !is_key_char_exec(k.get_char(e)) {
            break ;
        }
        e = e + 1;
    }
    if e == n || k.get_char(e) != '-' || e == 1 {
        proof {
            if is_key_shape(k@) {
                lemma_shape_at_scan_end(k@, e as int);
                assert(false);
            }
        }
        return false;
    }
    if e + 1 == n || !is_pos_digit_char(k.get_char(e + 1)) {
        proof {
            if is_key_shape(k@) {
                lemma_shape_at_scan_end(k@, e as int);
                assert(false);
            }
        }
        return false;
    }
    let mut d: usize = e + 2;
    loop
        invariant
            e + 2 <= d <= n,
            n == k@.len(),
            forall|m: int| e + 2 <= m < d ==> text::is_ascii_digit(#[trigger] k@[m]),
        ensures
            e + 2 <= d <= n,
            forall|m: int| e + 2 <= m < d ==> text::is_ascii_digit(#[trigger] k@[m]),
            d < n ==> !text::is_ascii_digit(k@[d as int]),
        decreases n - d,
    {
        if d == n {
            break ;
        }
        if !is_digit_char(k.get_char(d)) {
            break ;
        }
        d = d + 1;
    }
    if d == n {
        proof {
            assert({
                &&& 2 <= e as int <= k@.len() - 2
                &&& is_upper(k@[0])
                &&& (forall|m: int| 1 <= m < e as int ==> is_key_char(#[trigger] k@[m]))
                &&& k@[e as int] == '-'
                &&& is_pos_digit(k@[e as int + 1])
                &&& (forall|m: int|
                    e as int + 2 <= m < k@.len() ==> text::is_ascii_digit(#[trigger] k@[m]))
            });
            assert(is_key_shape(k@));
        }
        true
    } else {
        proof {
            if is_key_shape(k@) {
                lemma_shape_at_scan_end(k@, e as int);
                assert(false);
            }
        }
        false
    }
}

/// A greedy match inside `s` puts its dash exactly where the scan of prefix
/// characters after `i` first stops.
proof fn lemma_found_at_elim(s: Seq<char>, i: int, j: int, e: int)
    requires
        found_at(s, i, j),
        i + 1 <= e <= s.len(),
        forall|m: int| i + 1 <= m < e ==> is_key_char(#[trigger] s[m]),
        e < s.len() ==> !is_key_char(s[e]),
    ensures
        i + 2 <= e <= j - 2,
        is_upper(s[i]),
        s[e] == '-',
        is_pos_digit(s[e + 1]),
        forall|m: int| e + 2 <= m < j ==> text::is_ascii_digit(#[trigger] s[m]),
{
    let k = s.subrange(i, j);
    let w = choose|w: int|
        {
            &&& 2 <= w <= k.len() - 2
            &&& is_upper(k[0])
            &&& (forall|m: int| 1 <= m < w ==> is_key_char(#[trigger] k[m]))
            &&& #[trigger] k[w] == '-'
            &&& is_pos_digit(k[w + 1])
            &&& (forall|m: int| w + 2 <= m < k.len() ==> text::is_ascii_digit(#[trigger] k[m]))
        };
    if i + w < e {
        assert(is_key_char(s[i + w]));
        assert(k[w] == s[i + w]);
        assert(false);
    }
    if e < i + w {
        assert(is_key_char(k[e - i]));
        assert(k[e - i] == s[e]);
        assert(false);
    }
    assert(k[w] == s[e]);
    assert(k[0] == s[i]);
    assert(k[w + 1] == s[e + 1]);
    assert forall|m: int| e + 2 <= m < j implies text::is_ascii_digit(#[trigger] s[m]) by {
        assert(k[m - i] == s[m]);
        assert(text::is_ascii_digit(k[m - i]));
    }
}

/// Attempts the greedy match that starts at position `i`, returning its end.
fn try_match_at(s: &str, i: usize) -> (r: Option<usize>)
    requires
        i < s@.len(),
    ensures
        match r {
            Some(j) => i < j <= s@.len() && found_at(s@, i as int, j as int),
            None => !match_at(s@, i as int),
        },
{
    let n: usize = s.unicode_len();
    if i > 0 && is_word_char_exec(s.get_char(i - 1)) {
        proof {
            assert forall|j: int| !found_at(s@, i as int, j) by {}
        }
        return None;
    }
    if !is_upper_char(s.get_char(i)) {
        proof {
            assert forall|j: int| !found_at(s@, i as int, j) by {
                if found_at(s@, i as int, j) {
                    let k = s@.subrange(i as int, j);
                    let w = choose|w: int|
                        {
                            &&& 2 <= w <= k.len() - 2
                            &&& is_upper(k[0])
                            &&& (forall|m: int| 1 <= m < w ==> is_key_char(#[trigger] k[m]))
                            &&& #[trigger] k[w] == '-'
                            &&& is_pos_digit(k[w + 1])
                            &&& (forall|m: int|
                                w + 2 <= m < k.len() ==> text::is_ascii_digit(#[trigger] k[m]))
                        };
                    assert(k[0] == s@[i as int]);
                    assert(false);
                }
            }
        }
        return None;
    }
    let mut e: usize = i + 1;
    loop
        invariant
            i + 1 <= e <= n,
            n == s@.len(),
            forall|m: int| i + 1 <= m < e ==> is_key_char(#[trigger] s@[m]),
        ensures
            i + 1 <= e <= n,
            forall|m: int| i + 1 <= m < e ==> is_key_char(#[trigger] s@[m]),
            e < n ==> !is_key_char(s@[e as int]),
        decreases n - e,
    {
        if e == n {
            break ;
        }
        if !is_key_char_exec(s.get_char(e)) {
            break ;
        }
        e = e + 1;
    }
    if e == i + 1 || e == n || s.get_char(e) != '-' || e + 1 == n || !is_pos_digit_char(
        s.get_char(e + 1),
    ) {
        proof {
            assert forall|j: int| !found_at(s@, i as int, j) by {
                if found_at(s@, i as int, j) {
                    lemma_found_at_elim(s@, i as int, j, e as int);
                    assert(false);
                }
            }
        }
        return None;
    }
    let mut d: usize = e + 2;
    loop
        invariant
            e + 2 <= d <= n,
            n == s@.len(),
            forall|m: int| e + 2 <= m < d ==> text::is_ascii_digit(#[trigger] s@[m]),
        ensures
            e + 2 <= d <= n,
            forall|m: int| e + 2 <= m < d ==> text::is_ascii_digit(#[trigger] s@[m]),
            d < n ==> !text::is_ascii_digit(s@[d as int]),
        decreases n - d,
    {
        if d == n {
            break ;
        }
        if !is_digit_char(s.get_char(d)) {
            break ;
        }
        d = d + 1;
    }
    proof {
        let k = s@.subrange(i as int, d as int);
        let w = e - i;
        assert({
            &&& 2 <= w as int <= k.len() - 2
            &&& is_upper(k[0])
            &&& (forall|m: int| 1 <= m < w as int ==> is_key_char(#[trigger] k[m]))
            &&& k[w as int] == '-'
            &&& is_pos_digit(k[w as int + 1])
            &&& (forall|m: int|
                w as int + 2 <= m < k.len() ==> text::is_ascii_digit(#[trigger] k[m]))
        }) by {
            assert(k[0] == s@[i as int]);
            assert(k[w as int] == s@[e as int]);
            assert(k[w as int + 1] == s@[e as int + 1]);
            assert forall|m: int| 1 <= m < w as int implies is_key_char(#[trigger] k[m]) by {
                assert(k[m] == s@[i + m]);
            }
            assert forall|m: int| w as int + 2 <= m < k.len() implies text::is_ascii_digit(
                #[trigger] k[m],
            ) by {
                assert(k[m] == s@[i + m]);
            }
        }
        assert(is_key_shape(k));
        assert(found_at(s@, i as int, d as int));
    }
    Some(d)
}

/// Finds the leftmost greedy key match in `s`, as start and end positions.
pub fn find_key(s: &str) -> (r: Option<(usize, usize)>)
    ensures
        match r {
            Some(ij) => {
                &&& ij.0 < ij.1 <= s@.len()
                &&& found_at(s@, ij.0 as int, ij.1 as int)
                &&& forall|i2: int| 0 <= i2 < ij.0 ==> !match_at(s@, i2)
            },
            None => !has_key_match(s@),
        },
{
    let n: usize = s.unicode_len();
    let mut i: usize = 0;
    while i < n
        invariant
            0 <= i <= n,
            n == s@.len(),
            forall|i2: int| 0 <= i2 < i ==> !match_at(s@, i2),
        decreases n - i,
    {
        match try_match_at(s, i) {
            Some(j) => {
                return Some((i, j));
            },
            None => {},
        }
        i = i + 1;
    }
    proof {
        assert forall|i2: int| !match_at(s@, i2) by {
            if match_at(s@, i2) {
                let j = choose|j: int| found_at(s@, i2, j);
                let k = s@.subrange(i2, j);
                if i2 >= n {
                    let w = choose|w: int|
                        {
                            &&& 2 <= w <= k.len() - 2
                            &&& is_upper(k[0])
                            &&& (forall|m: int| 1 <= m < w ==> is_key_char(#[trigger] k[m]))
                            &&& #[trigger] k[w] == '-'
                            &&& is_pos_digit(k[w + 1])
                            &&& (forall|m: int|
                                w + 2 <= m < k.len() ==> text::is_ascii_digit(#[trigger] k[m]))
                        };
                    assert(false);
                }
            }
        }
    }
    None
}

/// `s` contains a key match somewhere.
pub fn has_match(s: &str) -> (b: bool)
    ensures
        b == has_key_match(s@),
{
    match find_key(s) {
        Some(ij) => {
            proof {
                assert(match_at(s@, ij.0 as int));
            }
            true
        },
        None => false,
    }
}

/// The outcome of scanning a description for a ticket key.
pub enum KeyExtraction {
    /// A key was found: `key` is the matched text and `residual` the
    /// description with the match removed, trimmed of whitespace and of
    /// leading/trailing `:`/`-` punctuation.
    Found { key: String, residual: String },
    NotFound,
}

/// The relation a successful extraction establishes between the input and
/// the returned key and residual description.
pub open spec fn extraction_at(
    s: Seq<char>,
    i: int,
    j: int,
    key: Seq<char>,
    residual: Seq<char>,
) -> bool {
    &&& found_at(s, i, j)
    &&& (forall|i2: int| 0 <= i2 < i ==> !match_at(s, i2))
    &&& key == s.subrange(i, j)
    &&& residual == text::spec_clean_description(s.subrange(0, i) + s.subrange(j, s.len() as int))
}

/// Scans a free-text description for the leftmost ticket key; on success the
/// key is cut out and the remainder cleaned into a derived description.
pub fn extract_from_description(desc: &str) -> (r: KeyExtraction)
    ensures
        match r {
            KeyExtraction::Found { key, residual } => exists|i: int, j: int|
                #[trigger] extraction_at(desc@, i, j, key@, residual@),
            KeyExtraction::NotFound => !has_key_match(desc@),
        },
{
    let n: usize = desc.unicode_len();
    match find_key(desc) {
        Some((i, j)) => {
            let key = desc.substring_char(i, j).to_owned();
            let before = desc.substring_char(0, i).to_owned();
            let after = desc.substring_char(j, n);
            let combined = before.concat(after);
            let residual = text::clean_description(combined.as_str());
            let out = KeyExtraction::Found { key, residual };
            proof {
                match &out {
                    KeyExtraction::Found { key: k2, residual: r2 } => {
                        assert(extraction_at(desc@, i as int, j as int, k2@, r2@));
                        assert(exists|a: int, b: int|
                            #[trigger] extraction_at(desc@, a, b, k2@, r2@));
                    },
                    KeyExtraction::NotFound => {
                        assert(false);
                    },
                }
            }
            out
        },
        None => KeyExtraction::NotFound,
    }
}

} // verus!
