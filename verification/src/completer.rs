//! The suggestion ranker behind the interactive key prompt: registry pairs
//! are pre-sorted by the numeric suffix of their key, filtered
//! case-insensitively against the concatenation of key and description, and
//! rendered as `"<key>: <description>"`; a chosen suggestion is parsed back
//! into its bare key.

use vstd::prelude::*;
use vstd::string::StrSliceExecFns;
use vstd::string::StringExecFns;

use crate::registry;
use crate::registry::KeyRegistry;
use crate::strutil;
use crate::strutil::lower_of;
use crate::text;

verus! {

/// One ranked suggestion candidate.
pub struct IssueKey {
    pub key: String,
    pub desc: String,
    /// Lowercase of `key + desc`; queries match against this.
    pub hash: String,
    /// Numeric suffix of the key (after its last `-`); unparsable means 0.
    pub order: u64,
}

/// The autocomplete state: registry pairs, sorted by `order` ascending.
pub struct IssueCompleter {
    pub prev_issues: Vec<IssueKey>,
}

pub open spec fn nondashp() -> spec_fn(char) -> bool {
    |c: char| c != '-'
}

/// The ranking order of a key: the numeric value of the text after the last
/// `-`, or 0 when there is no dash or the text is not a number.
pub open spec fn order_of(k: Seq<char>) -> u64 {
    let t = text::count_trailing(k, nondashp());
    if t == k.len() {
        0u64
    } else {
        text::spec_parse_u64_or_zero(k.subrange(k.len() - t, k.len() as int))
    }
}

/// All of a candidate's content, as plain mathematical values.
pub open spec fn issue_view(x: IssueKey) -> (Seq<char>, Seq<char>, Seq<char>, u64) {
    (x.key@, x.desc@, x.hash@, x.order)
}

pub open spec fn issue_views(s: Seq<IssueKey>) -> Seq<(Seq<char>, Seq<char>, Seq<char>, u64)> {
    s.map_values(|x: IssueKey| issue_view(x))
}

/// The candidate a registry pair gives rise to.
pub open spec fn expected_issue(k: Seq<char>, d: Seq<char>) -> (Seq<char>, Seq<char>, Seq<char>, u64) {
    (k, d, lower_of(k + d), order_of(k))
}

pub open spec fn expected_views(s: Seq<registry::RegistryEntry>) -> Seq<
    (Seq<char>, Seq<char>, Seq<char>, u64),
> {
    s.map_values(|p: registry::RegistryEntry| expected_issue(p.key@, p.desc@))
}

/// A candidate is internally consistent with its own key and description.
pub open spec fn issue_ok(x: IssueKey) -> bool {
    x.hash@ == lower_of(x.key@ + x.desc@) && x.order == order_of(x.key@)
}

/// Candidates stand in ascending ranking order.
pub open spec fn sorted_by_order(s: Seq<IssueKey>) -> bool {
    forall|a: int, b: int|
        0 <= a <= b < s.len() ==> (#[trigger] s[a]).order <= (#[trigger] s[b]).order
}

/// Ranking order of a key, as `order_of` defines it.
pub fn order_of_key(k: &str) -> (r: u64)
    ensures
        r == order_of(k@),
{
    let n: usize = k.unicode_len();
    let mut j: usize = n;
    loop
        invariant
            0 <= j <= n,
            n == k@.len(),
            forall|m: int| j <= m < n ==> #[trigger] k@[m] != '-',
        ensures
            0 <= j <= n,
            forall|m: int| j <= m < n ==> #[trigger] k@[m] != '-',
            j > 0 ==> k@[j - 1] == '-',
        decreases j,
    {
        if j == 0 {
            break ;
        }
        if k.get_char(j - 1) == '-' {
            break ;
        }
        j = j - 1;
    }
    proof {
        assert forall|m: int| n - (n - j) <= m < n implies (nondashp())(#[trigger] k@[m]) by {}
        if j > 0 {
            assert(!(nondashp())(k@[j - 1]));
        }
        text::lemma_count_trailing_unique(k@, nondashp(), (n - j) as int);
    }
    if j == 0 {
        return 0;
    }
    let suffix = k.substring_char(j, n);
    text::parse_u64_or_zero(suffix)
}

/// Inserting an element anywhere adds exactly it to the multiset.
proof fn lemma_to_multiset_insert<A>(s: Seq<A>, p: int, v: A)
    requires
        0 <= p <= s.len(),
    ensures
        s.insert(p, v).to_multiset() == s.to_multiset().insert(v),
{
    broadcast use vstd::seq_lib::group_to_multiset_ensures;
    broadcast use vstd::multiset::group_multiset_axioms;

    let a = s.take(p);
    let b = s.skip(p);
    assert(s.insert(p, v) =~= a.push(v) + b);
    assert(s =~= a + b);
    vstd::seq_lib::lemma_multiset_commutative(a.push(v), b);
    vstd::seq_lib::lemma_multiset_commutative(a, b);
    assert(a.push(v).to_multiset() =~= a.to_multiset().insert(v));
    assert(s.insert(p, v).to_multiset() =~= s.to_multiset().insert(v));
}

/// Prefix step for the opaque `filter`.
proof fn lemma_filter_take_step<A>(s: Seq<A>, pred: spec_fn(A) -> bool, i: int)
    requires
        0 <= i < s.len(),
    ensures
        s.take(i + 1).filter(pred) == if pred(s[i]) {
            s.take(i).filter(pred).push(s[i])
        } else {
            s.take(i).filter(pred)
        },
{
    reveal(Seq::filter);
    assert(s.take(i + 1).drop_last() =~= s.take(i));
    assert(s.take(i + 1).last() == s[i]);
}

/// A prefix's filtering is a prefix of the whole filtering.
proof fn lemma_filter_take_prefix<A>(s: Seq<A>, pred: spec_fn(A) -> bool, i: int)
    requires
        0 <= i <= s.len(),
    ensures
        s.filter(pred).len() >= s.take(i).filter(pred).len(),
        forall|k: int|
            0 <= k < s.take(i).filter(pred).len() ==> #[trigger] s.filter(pred)[k] == s.take(
                i,
            ).filter(pred)[k],
{
    broadcast use vstd::prelude::Seq::filter_distributes_over_add;

    assert(s =~= s.take(i) + s.skip(i));
    assert(s.filter(pred) == s.take(i).filter(pred) + s.skip(i).filter(pred));
}

impl IssueCompleter {
    /// Builds the completer from the registry: one candidate per pair, with
    /// its lowercase match text and numeric ranking order, sorted by that
    /// order ascending.
    pub fn new(prev: &KeyRegistry) -> (r: IssueCompleter)
        ensures
            r.prev_issues@.len() == prev.pairs@.len(),
            sorted_by_order(r.prev_issues@),
            forall|a: int| 0 <= a < r.prev_issues@.len() ==> issue_ok(#[trigger] r.prev_issues@[a]),
            issue_views(r.prev_issues@).to_multiset() == expected_views(prev.pairs@).to_multiset(),
    {
        let n: usize = prev.len();
        let mut issues: Vec<IssueKey> = Vec::new();
        let mut i: usize = 0;
        proof {
            assert(issue_views(issues@) =~= expected_views(prev.pairs@.take(0)));
        }
        while i < n
            invariant
                0 <= i <= n,
                n == prev.pairs@.len(),
                issues@.len() == i,
                sorted_by_order(issues@),
                forall|a: int| 0 <= a < issues@.len() ==> issue_ok(#[trigger] issues@[a]),
                issue_views(issues@).to_multiset() == expected_views(
                    prev.pairs@.take(i as int),
                ).to_multiset(),
            decreases n - i,
        {
            let k = prev.key_at(i);
            let d = prev.desc_at(i);
            let order: u64 = order_of_key(k.as_str());
            let joined = k.clone().concat(d.as_str());
            let hash = strutil::lowercase(joined.as_str());
            let x = IssueKey { key: k.clone(), desc: d.clone(), hash, order };
            proof {
                assert(issue_view(x) == expected_issue(prev.pairs@[i as int].key@, prev.pairs@[i as int].desc@));
            }
            let mut pos: usize = 0;
            loop
                invariant
                    0 <= pos <= issues@.len(),
                    forall|m: int| 0 <= m < pos ==> (#[trigger] issues@[m]).order <= order,
                ensures
                    0 <= pos <= issues@.len(),
                    forall|m: int| 0 <= m < pos ==> (#[trigger] issues@[m]).order <= order,
                    pos < issues@.len() ==> issues@[pos as int].order > order,
                decreases issues@.len() - pos,
            {
                if pos == issues.len() {
                    break ;
                }
                if issues[pos].order > order {
                    break ;
                }
                pos = pos + 1;
            }
            let ghost s0 = issues@;
            let ghost xv = x;
            issues.insert(pos, x);
            proof {
                s0.insert_ensures(pos as int, xv);
                assert(xv.order == order);
                assert forall|a: int, b: int|
                    0 <= a <= b < issues@.len() implies (#[trigger] issues@[a]).order <= (
                #[trigger] issues@[b]).order by {
                    if a < pos {
                        assert(issues@[a] == s0[a]);
                    } else if a == pos {
                        assert(issues@[a] == xv);
                    } else {
                        assert(issues@[a] == s0[a - 1]);
                    }
                    if b < pos {
                        assert(issues@[b] == s0[b]);
                    } else if b == pos {
                        assert(issues@[b] == xv);
                    } else {
                        assert(issues@[b] == s0[b - 1]);
                    }
                }
                assert forall|a: int| 0 <= a < issues@.len() implies issue_ok(
                    #[trigger] issues@[a],
                ) by {
                    if a < pos {
                        assert(issues@[a] == s0[a]);
                    } else if a == pos {
                        assert(issues@[a] == xv);
                    } else {
                        assert(issues@[a] == s0[a - 1]);
                    }
                }
                lemma_to_multiset_insert(s0, pos as int, xv);
                assert(issue_views(s0.insert(pos as int, xv)) =~= issue_views(s0).insert(
                    pos as int,
                    issue_view(xv),
                ));
                lemma_to_multiset_insert(issue_views(s0), pos as int, issue_view(xv));
                assert(expected_views(prev.pairs@.take(i + 1)).drop_last() =~= expected_views(
                    prev.pairs@.take(i as int),
                ));
                assert(expected_views(prev.pairs@.take(i + 1)).last() == expected_issue(
                    prev.pairs@[i as int].key@,
                    prev.pairs@[i as int].desc@,
                ));
                assert(expected_views(prev.pairs@.take(i + 1)) =~= expected_views(
                    prev.pairs@.take(i as int),
                ).push(issue_view(xv)));
                broadcast use vstd::seq_lib::group_to_multiset_ensures;

                assert(issue_views(issues@).to_multiset() == expected_views(
                    prev.pairs@.take(i + 1),
                ).to_multiset());
            }
            i = i + 1;
        }
        proof {
            assert(prev.pairs@.take(n as int) =~= prev.pairs@);
        }
        IssueCompleter { prev_issues: issues }
    }

    /// The filter a query applies to a candidate: the lowercased query
    /// occurs somewhere in the candidate's lowercase key+description text.
    pub open spec fn query_hits(q: Seq<char>) -> spec_fn(IssueKey) -> bool {
        |x: IssueKey| text::contains_sub(x.hash@, q)
    }

    /// At most the first 20 matching candidates, in ranking order, each
    /// rendered as `"<key>: <description>"`.
    pub fn get_suggestions(&self, input: &str) -> (r: Vec<String>)
        ensures
            ({
                let sel = self.prev_issues@.filter(Self::query_hits(lower_of(input@)));
                &&& r@.len() == if sel.len() <= 20 {
                    sel.len() as int
                } else {
                    20
                }
                &&& forall|k: int|
                    0 <= k < r@.len() ==> (#[trigger] r@[k])@ == registry::rendered(
                        sel[k].key@,
                        sel[k].desc@,
                    )
            }),
    {
        let low = strutil::lowercase(input);
        let ghost q = lower_of(input@);
        let ghost pred = Self::query_hits(q);
        let n: usize = self.prev_issues.len();
        let mut out: Vec<String> = Vec::new();
        let mut i: usize = 0;
        proof {
            assert(self.prev_issues@.take(0).filter(pred) =~= Seq::<IssueKey>::empty()) by {
                reveal(Seq::filter);
            }
        }
        loop
            invariant
                0 <= i <= n,
                n == self.prev_issues@.len(),
                low@ == q,
                pred == Self::query_hits(q),
                out@.len() == self.prev_issues@.take(i as int).filter(pred).len(),
                out@.len() <= 20,
                forall|k: int|
                    0 <= k < out@.len() ==> (#[trigger] out@[k])@ == registry::rendered(
                        self.prev_issues@.take(i as int).filter(pred)[k].key@,
                        self.prev_issues@.take(i as int).filter(pred)[k].desc@,
                    ),
            ensures
                0 <= i <= n,
                n == self.prev_issues@.len(),
                out@.len() == self.prev_issues@.take(i as int).filter(pred).len(),
                out@.len() <= 20,
                forall|k: int|
                    0 <= k < out@.len() ==> (#[trigger] out@[k])@ == registry::rendered(
                        self.prev_issues@.take(i as int).filter(pred)[k].key@,
                        self.prev_issues@.take(i as int).filter(pred)[k].desc@,
                    ),
                i == n || out@.len() == 20,
            decreases n - i,
        {
            if i == n {
                break ;
            }
            if out.len() == 20 {
                break ;
            }
            let x = &self.prev_issues[i];
            let hit = text::str_contains_sub(x.hash.as_str(), low.as_str());
            proof {
                lemma_filter_take_step(self.prev_issues@, pred, i as int);
            }
            if hit {
                let shown = registry::format_key(x.key.as_str(), x.desc.as_str());
                out.push(shown);
            }
            i = i + 1;
        }
        proof {
            let sel = self.prev_issues@.filter(pred);
            if i == n {
                assert(self.prev_issues@.take(n as int) =~= self.prev_issues@);
            } else {
                lemma_filter_take_prefix(self.prev_issues@, pred, i as int);
            }
        }
        out
    }

    /// Turns a chosen suggestion (or raw typed text) back into its key: the
    /// text before the first `:`, or nothing when no `:` is present.
    pub fn get_completion(&self, _input: &str, highlighted_suggestion: Option<String>) -> (r:
        Option<String>)
        ensures
            match highlighted_suggestion {
                Some(s) => match r {
                    Some(k) => text::first_colon(s@) < s@.len() && k@ == s@.take(
                        text::first_colon(s@),
                    ),
                    None => text::first_colon(s@) == s@.len(),
                },
                None => r is None,
            },
    {
        match highlighted_suggestion {
            Some(suggestion) => extract_key(suggestion.as_str()),
            None => None,
        }
    }
}

/// The key portion of a rendered suggestion: the text before the first `:`,
/// or nothing when no colon is present.
pub fn extract_key(chosen: &str) -> (r: Option<String>)
    ensures
        match r {
            Some(k) => text::first_colon(chosen@) < chosen@.len() && k@ == chosen@.take(
                text::first_colon(chosen@),
            ),
            None => text::first_colon(chosen@) == chosen@.len(),
        },
{
    let n: usize = chosen.unicode_len();
    let mut i: usize = 0;
    loop
        invariant
            0 <= i <= n,
            n == chosen@.len(),
            forall|k: int| 0 <= k < i ==> #[trigger] chosen@[k] != ':',
        ensures
            0 <= i <= n,
            forall|k: int| 0 <= k < i ==> #[trigger] chosen@[k] != ':',
            i < n ==> chosen@[i as int] == ':',
        decreases n - i,
    {
        if i == n {
            break ;
        }
        if chosen.get_char(i) == ':' {
            break ;
        }
        i = i + 1;
    }
    proof {
        assert forall|k: int| 0 <= k < i implies (text::not_colon())(#[trigger] chosen@[k]) by {}
        if i < n {
            assert(!(text::not_colon())(chosen@[i as int]));
        }
        text::lemma_count_leading_unique(chosen@, text::not_colon(), i as int);
    }
    if i == n {
        None
    } else {
        let prefix = chosen.substring_char(0, i);
        proof {
            assert(prefix@ =~= chosen@.take(i as int));
        }
        Some(prefix.to_owned())
    }
}

} // verus!
