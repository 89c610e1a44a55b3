//! The entry merger: filters out running and deleted records, groups the
//! survivors of one day by their exact description, and collapses each group
//! into one canonical entry that sums durations, takes the earliest start
//! and keeps every member's tag carrier.
//!
//! Filtering policy: a record participates when its duration is positive,
//! its deletion stamp is absent, and it carries a usable start timestamp.
//! Groups whose derived description would be empty are kept.

use vstd::prelude::*;

use crate::records::EntryTag;
use crate::records::MergedEntry;
use crate::records::TimeEntry;
use crate::records::carrier_of;
use crate::records::clone_opt_tags;
use crate::records::et_view;
use crate::text;
use crate::timefmt::Timestamp;
use crate::timefmt::spec_ts_min;
use crate::timefmt::ts_min;

verus! {

/// A record survives filtering: finished (positive duration), not deleted,
/// and with a usable start timestamp.
pub open spec fn participates(e: TimeEntry) -> bool {
    e.duration > 0 && e.server_deleted_at is None && e.start is Some
}

/// Start timestamp of a surviving record.
pub open spec fn start_of(e: TimeEntry) -> Timestamp {
    match e.start {
        Some(t) => t,
        None => arbitrary(),
    }
}

/// A fetched record's start, when present, is a valid calendar timestamp.
pub open spec fn wf_entry(e: TimeEntry) -> bool {
    match e.start {
        Some(t) => t.wf(),
        None => true,
    }
}

/// The subsequence of `s` that survives filtering and reads description `d`.
pub open spec fn group(s: Seq<TimeEntry>, d: Seq<char>) -> Seq<TimeEntry>
    decreases s.len(),
{
    if s.len() == 0 {
        Seq::empty()
    } else if participates(s.last()) && s.last().description@ == d {
        group(s.drop_last(), d).push(s.last())
    } else {
        group(s.drop_last(), d)
    }
}

/// Sum of the durations in `g`.
pub open spec fn sum_dur(g: Seq<TimeEntry>) -> int
    decreases g.len(),
{
    if g.len() == 0 {
        0
    } else {
        sum_dur(g.drop_last()) + g.last().duration
    }
}

/// Earliest start among the members of a nonempty `g`.
pub open spec fn min_start(g: Seq<TimeEntry>) -> Timestamp
    decreases g.len(),
{
    if g.len() == 0 {
        arbitrary()
    } else if g.len() == 1 {
        start_of(g[0])
    } else {
        spec_ts_min(min_start(g.drop_last()), start_of(g.last()))
    }
}

/// Total duration of all surviving records, whatever their description.
pub open spec fn sum_participating(s: Seq<TimeEntry>) -> int
    decreases s.len(),
{
    if s.len() == 0 {
        0
    } else {
        sum_participating(s.drop_last()) + if participates(s.last()) {
            s.last().duration as int
        } else {
            0
        }
    }
}

/// What the merger promises of one canonical entry: it aggregates exactly
/// the group of surviving records that share its description — the duration
/// is the group's exact sum, the start its earliest member start, the tag
/// carriers its members' in order, and the owner ids its first member's.
pub open spec fn merged_ok(s: Seq<TimeEntry>, m: MergedEntry) -> bool {
    let g = group(s, m.description@);
    &&& g.len() > 0
    &&& m.user_id == g[0].user_id
    &&& m.workspace_id == g[0].workspace_id
    &&& m.duration == sum_dur(g)
    &&& m.start == min_start(g)
    &&& m.tags@.len() == g.len()
    &&& forall|k: int| 0 <= k < g.len() ==> et_view(#[trigger] m.tags@[k]) == carrier_of(g[k])
}

/// One merged entry for description `d` already stands in `rs`.
pub open spec fn desc_in(rs: Seq<MergedEntry>, d: Seq<char>) -> bool {
    exists|k: int| 0 <= k < rs.len() && (#[trigger] rs[k]).description@ == d
}

/// Extending a prefix by one record extends its groups accordingly.
proof fn lemma_group_take_step(s: Seq<TimeEntry>, d: Seq<char>, i: int)
    requires
        0 <= i < s.len(),
    ensures
        group(s.take(i + 1), d) == if participates(s[i]) && s[i].description@ == d {
            group(s.take(i), d).push(s[i])
        } else {
            group(s.take(i), d)
        },
{
    let t = s.take(i + 1);
    assert(t.len() == i + 1);
    assert(t.drop_last() =~= s.take(i));
    assert(t.last() == s[i]);
}

/// Every member of a group survives filtering and reads the group's
/// description: no running or deleted record, and none with another
/// description, contributes anything to a merged entry.
pub proof fn lemma_group_members(s: Seq<TimeEntry>, d: Seq<char>)
    ensures
        forall|k: int|
            0 <= k < group(s, d).len() ==> participates(#[trigger] group(s, d)[k]) && group(
                s,
                d,
            )[k].description@ == d,
    decreases s.len(),
{
    if s.len() > 0 {
        lemma_group_members(s.drop_last(), d);
        let g0 = group(s.drop_last(), d);
        if participates(s.last()) && s.last().description@ == d {
            assert forall|k: int| 0 <= k < group(s, d).len() implies participates(
                #[trigger] group(s, d)[k],
            ) && group(s, d)[k].description@ == d by {
                if k < g0.len() {
                    assert(group(s, d)[k] == g0[k]);
                } else {
                    assert(group(s, d)[k] == s.last());
                }
            }
        }
    }
}

/// A surviving record with description `d` makes the group for `d`
/// nonempty.
pub proof fn lemma_group_witness(s: Seq<TimeEntry>, d: Seq<char>, i: int)
    requires
        0 <= i < s.len(),
        participates(s[i]),
        s[i].description@ == d,
    ensures
        group(s, d).len() > 0,
    decreases s.len(),
{
    if i < s.len() - 1 {
        assert(s.drop_last()[i] == s[i]);
        lemma_group_witness(s.drop_last(), d, i);
    }
}

/// A group's duration sum is bounded by the total surviving duration.
proof fn lemma_sum_group_le(s: Seq<TimeEntry>, d: Seq<char>)
    ensures
        sum_dur(group(s, d)) <= sum_participating(s),
    decreases s.len(),
{
    if s.len() > 0 {
        lemma_sum_group_le(s.drop_last(), d);
        let g0 = group(s.drop_last(), d);
        if participates(s.last()) && s.last().description@ == d {
            let g = g0.push(s.last());
            assert(g.drop_last() =~= g0);
            assert(g.last() == s.last());
        }
    }
}

/// The surviving total over a prefix never exceeds the whole total.
proof fn lemma_sum_participating_take(s: Seq<TimeEntry>, j: int)
    requires
        0 <= j <= s.len(),
    ensures
        sum_participating(s.take(j)) <= sum_participating(s),
    decreases s.len() - j,
{
    if j < s.len() {
        lemma_sum_participating_take(s, j + 1);
        let t = s.take(j + 1);
        assert(t.drop_last() =~= s.take(j));
        assert(t.last() == s[j]);
    } else {
        assert(s.take(j) =~= s);
    }
}

/// One merged entry for description `d` already stands in `rs`.
fn has_description(res: &Vec<MergedEntry>, d: &str) -> (b: bool)
    ensures
        b == desc_in(res@, d@),
{
    let n: usize = res.len();
    let mut i: usize = 0;
    while i < n
        invariant
            0 <= i <= n,
            n == res@.len(),
            forall|k: int| 0 <= k < i ==> (#[trigger] res@[k]).description@ != d@,
        decreases n - i,
    {
        if text::str_eq(res[i].description.as_str(), d) {
            return true;
        }
        i = i + 1;
    }
    false
}

/// Aggregates the group for description `d` over the whole record list.
fn merge_group(entries: &Vec<TimeEntry>, d: &String) -> (m: MergedEntry)
    requires
        forall|i: int| 0 <= i < entries@.len() ==> wf_entry(#[trigger] entries@[i]),
        sum_participating(entries@) <= i64::MAX,
        group(entries@, d@).len() > 0,
    ensures
        merged_ok(entries@, m),
        m.description@ == d@,
        m.duration > 0,
        m.start.wf(),
{
    let n: usize = entries.len();
    let mut j: usize = 0;
    let mut dur: i64 = 0;
    let mut tags: Vec<EntryTag> = Vec::new();
    let mut found = false;
    let mut start_val = Timestamp { year: 0, month: 1, day: 1, hour: 0, minute: 0, second: 0 };
    let mut user_id: i64 = 0;
    let mut workspace_id: i64 = 0;
    while j < n
        invariant
            0 <= j <= n,
            n == entries@.len(),
            forall|i: int| 0 <= i < entries@.len() ==> wf_entry(#[trigger] entries@[i]),
            sum_participating(entries@) <= i64::MAX,
            ({
                let g = group(entries@.take(j as int), d@);
                &&& found == (g.len() > 0)
                &&& dur as int == sum_dur(g)
                &&& dur >= 0
                &&& tags@.len() == g.len()
                &&& (forall|k: int|
                    0 <= k < g.len() ==> et_view(#[trigger] tags@[k]) == carrier_of(g[k]))
                &&& (found ==> dur > 0 && start_val == min_start(g) && start_val.wf() && user_id
                    == g[0].user_id && workspace_id == g[0].workspace_id)
            }),
        decreases n - j,
    {
        let e = &entries[j];
        let is_p = e.duration > 0 && e.server_deleted_at.is_none() && e.start.is_some();
        let desc_eq = text::str_eq(e.description.as_str(), d.as_str());
        proof {
            lemma_group_take_step(entries@, d@, j as int);
        }
        let ghost g0 = group(entries@.take(j as int), d@);
        let ghost g1 = group(entries@.take(j + 1), d@);
        if is_p && desc_eq {
            proof {
                assert(g1 == g0.push(entries@[j as int]));
                assert(g1.drop_last() =~= g0);
                assert(g1.last() == entries@[j as int]);
                assert(sum_dur(g1) == sum_dur(g0) + e.duration);
                lemma_sum_group_le(entries@.take(j + 1), d@);
                lemma_sum_participating_take(entries@, j + 1);
                assert(sum_dur(g1) <= i64::MAX);
            }
            let ts = match &e.start {
                Some(t) => *t,
                None => {
                    proof {
                        assert(false);
                    }
                    Timestamp { year: 0, month: 1, day: 1, hour: 0, minute: 0, second: 0 }
                },
            };
            dur = dur + e.duration;
            tags.push(
                EntryTag {
                    id: e.id,
                    user_id: e.user_id,
                    workspace_id: e.workspace_id,
                    tags: clone_opt_tags(&e.tags),
                },
            );
            if found {
                start_val = ts_min(start_val, ts);
            } else {
                start_val = ts;
                user_id = e.user_id;
                workspace_id = e.workspace_id;
                found = true;
            }
            proof {
                assert(ts == start_of(entries@[j as int]));
                if g0.len() == 0 {
                    assert(g1.len() == 1);
                    assert(g1[0] == entries@[j as int]);
                    assert(min_start(g1) == start_of(g1[0]));
                } else {
                    assert(min_start(g1) == spec_ts_min(min_start(g0), start_of(g1.last())));
                    assert(g1[0] == g0[0]);
                }
                assert forall|k: int| 0 <= k < g1.len() implies et_view(#[trigger] tags@[k])
                    == carrier_of(g1[k]) by {
                    if k < g0.len() {
                        assert(g1[k] == g0[k]);
                    } else {
                        assert(g1[k] == entries@[j as int]);
                    }
                }
            }
        } else {
            proof {
                assert(g1 == g0);
            }
        }
        j = j + 1;
    }
    proof {
        assert(entries@.take(n as int) =~= entries@);
    }
    let description = d.clone();
    MergedEntry { user_id, workspace_id, duration: dur, description, start: start_val, tags }
}

/// Merges one day's raw records: drops running and deleted records and those
/// without a usable start, groups the rest by exact description, and emits
/// one canonical entry per group. Output order is unspecified to callers
/// beyond holding one entry per surviving description.
pub fn merge_filter_entries(entries: Vec<TimeEntry>) -> (res: Vec<MergedEntry>)
    requires
        forall|i: int| 0 <= i < entries@.len() ==> wf_entry(#[trigger] entries@[i]),
        sum_participating(entries@) <= i64::MAX,
    ensures
        forall|k: int|
            0 <= k < res@.len() ==> merged_ok(entries@, #[trigger] res@[k]) && res@[k].duration > 0
                && res@[k].start.wf(),
        forall|k1: int, k2: int|
            0 <= k1 < k2 < res@.len() ==> (#[trigger] res@[k1]).description@ != (
            #[trigger] res@[k2]).description@,
        forall|i: int|
            0 <= i < entries@.len() && participates(#[trigger] entries@[i]) ==> desc_in(
                res@,
                entries@[i].description@,
            ),
{
    let n: usize = entries.len();
    let mut res: Vec<MergedEntry> = Vec::new();
    let mut i: usize = 0;
    while i < n
        invariant
            0 <= i <= n,
            n == entries@.len(),
            forall|q: int| 0 <= q < entries@.len() ==> wf_entry(#[trigger] entries@[q]),
            sum_participating(entries@) <= i64::MAX,
            forall|k: int|
                0 <= k < res@.len() ==> merged_ok(entries@, #[trigger] res@[k]) && res@[k].duration
                    > 0 && res@[k].start.wf(),
            forall|k1: int, k2: int|
                0 <= k1 < k2 < res@.len() ==> (#[trigger] res@[k1]).description@ != (
                #[trigger] res@[k2]).description@,
            forall|q: int|
                0 <= q < i && participates(#[trigger] entries@[q]) ==> desc_in(
                    res@,
                    entries@[q].description@,
                ),
        decreases n - i,
    {
        let e = &entries[i];
        let is_p = e.duration > 0 && e.server_deleted_at.is_none() && e.start.is_some();
        if is_p && !has_description(&res, e.description.as_str()) {
            let ghost res0 = res@;
            proof {
                lemma_group_witness(entries@, e.description@, i as int);
            }
            let m = merge_group(&entries, &entries[i].description);
            res.push(m);
            proof {
                assert forall|q: int|
                    0 <= q < i + 1 && participates(#[trigger] entries@[q]) implies desc_in(
                    res@,
                    entries@[q].description@,
                ) by {
                    if q < i {
                        let k = choose|k: int|
                            0 <= k < res0.len() && (#[trigger] res0[k]).description@
                                == entries@[q].description@;
                        assert((res@[k]).description@ == entries@[q].description@);
                    } else {
                        assert((res@[res@.len() - 1]).description@ == entries@[q].description@);
                    }
                }
                assert forall|k1: int, k2: int| 0 <= k1 < k2 < res@.len() implies (
                #[trigger] res@[k1]).description@ != (#[trigger] res@[k2]).description@ by {
                    if k2 == res@.len() - 1 {
                        assert(res@[k1] == res0[k1]);
                        assert(!desc_in(res0, entries@[i as int].description@));
                    }
                }
            }
        } else {
            proof {
                if is_p {
                    assert(desc_in(res@, entries@[i as int].description@));
                }
            }
        }
        i = i + 1;
    }
    res
}

} // verus!
