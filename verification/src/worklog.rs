//! Work-log submissions: the credential record, the submitted work-log and
//! its construction from a resolved entry, and the day's total duration.

use vstd::prelude::*;

use crate::records::MergedEntry;
use crate::timefmt;
use crate::timefmt::Timestamp;

verus! {

/// The operator's stored credentials for both collaborating services.
pub struct Credentials {
    pub username: String,
    pub password: String,
    pub tempo_token: String,
    pub account_id: String,
}

/// One work-log entry ready for submission. The full timestamp is retained
/// for bookkeeping; only its rendered date and time are transmitted.
pub struct Worklog {
    pub author_account_id: String,
    pub description: String,
    pub issue_key: String,
    pub start_date: String,
    pub start_time: String,
    pub time_spent_seconds: u64,
    pub date: Timestamp,
}

/// A ticket reference in a submission result.
pub struct Issue {
    pub key: String,
}

/// One already-submitted work-log as the target system reports it.
pub struct WorkLogResult {
    pub issue: Issue,
    pub start_date: String,
    pub start_time: String,
    pub time_spent_seconds: u64,
    pub description: String,
}

/// What a built work-log holds, relative to its canonical entry, the
/// resolved key and description, and the author's account.
pub open spec fn worklog_ok(
    w: Worklog,
    account_id: Seq<char>,
    entry: MergedEntry,
    key: Seq<char>,
    desc: Seq<char>,
) -> bool {
    &&& w.author_account_id@ == account_id
    &&& w.description@ == desc
    &&& w.issue_key@ == key
    &&& w.start_date@ == timefmt::date_chars(entry.start)
    &&& w.start_time@ == timefmt::time_chars(entry.start)
    &&& w.time_spent_seconds == entry.duration as u64
    &&& w.date == entry.start
}

/// Builds the work-log for one resolved canonical entry.
pub fn build_worklog(account_id: &str, entry: &MergedEntry, key: &str, desc: String) -> (w: Worklog)
    requires
        entry.start.wf(),
        entry.duration >= 0,
    ensures
        worklog_ok(w, account_id@, *entry, key@, desc@),
{
    let (start_date, start_time) = timefmt::datetime_to_date_and_time(&entry.start);
    Worklog {
        author_account_id: account_id.to_owned(),
        description: desc,
        issue_key: key.to_owned(),
        start_date,
        start_time,
        time_spent_seconds: entry.duration as u64,
        date: entry.start,
    }
}

/// Sum of the merged entries' durations.
pub open spec fn total_dur(s: Seq<MergedEntry>) -> int
    decreases s.len(),
{
    if s.len() == 0 {
        0
    } else {
        total_dur(s.drop_last()) + s.last().duration
    }
}

/// A prefix's total never exceeds the whole when durations are nonnegative.
proof fn lemma_total_dur_take(s: Seq<MergedEntry>, j: int)
    requires
        0 <= j <= s.len(),
        forall|i: int| 0 <= i < s.len() ==> (#[trigger] s[i]).duration >= 0,
    ensures
        total_dur(s.take(j)) <= total_dur(s),
    decreases s.len() - j,
{
    if j < s.len() {
        lemma_total_dur_take(s, j + 1);
        let t = s.take(j + 1);
        assert(t.drop_last() =~= s.take(j));
        assert(t.last() == s[j]);
    } else {
        assert(s.take(j) =~= s);
    }
}

/// The day's total tracked duration, summed over the merged entries.
pub fn total_duration(entries: &Vec<MergedEntry>) -> (r: u64)
    requires
        forall|i: int| 0 <= i < entries@.len() ==> (#[trigger] entries@[i]).duration >= 0,
        total_dur(entries@) <= u64::MAX,
    ensures
        r as int == total_dur(entries@),
{
    let n: usize = entries.len();
    let mut acc: u64 = 0;
    let mut i: usize = 0;
    while i < n
        invariant
            0 <= i <= n,
            n == entries@.len(),
            forall|q: int| 0 <= q < entries@.len() ==> (#[trigger] entries@[q]).duration >= 0,
            total_dur(entries@) <= u64::MAX,
            acc as int == total_dur(entries@.take(i as int)),
        decreases n - i,
    {
        proof {
            let t = entries@.take(i + 1);
            assert(t.drop_last() =~= entries@.take(i as int));
            assert(t.last() == entries@[i as int]);
            lemma_total_dur_take(entries@, i + 1);
        }
        acc = acc + (entries[i].duration as u64);
        i = i + 1;
    }
    proof {
        assert(entries@.take(n as int) =~= entries@);
    }
    acc
}

} // verus!
