//! The sync orchestrator, as a state machine over one day's merged entries:
//! resolve every entry (registering newly confirmed keys at once, so later
//! entries see them), submit all work-logs, mark only the successfully
//! submitted entries' source records as handled, and persist the registry
//! whatever the submission outcomes were. The caller performs each returned
//! action — prompts, network calls, persistence — and feeds the outcome
//! back in as an event.

use vstd::prelude::*;

use crate::records::EntryTag;
use crate::records::MergedEntry;
use crate::records::TagRequest;
use crate::records::add_tag;
use crate::records::entry_has_tag;
use crate::records::et_view;
use crate::records::seq_has_view;
use crate::registry::KeyRegistry;
use crate::resolver;
use crate::resolver::ResolveAction;
use crate::resolver::ResolveEvent;
use crate::resolver::Resolver;
use crate::worklog;
use crate::worklog::Worklog;

verus! {

/// One resolved entry's key together with its source records' tag carriers,
/// kept for the marking phase.
pub struct MarkGroup {
    pub key: String,
    pub carriers: Vec<EntryTag>,
}

/// One marker update to apply to a source record: its identity and the full
/// tag set to store.
pub struct MarkRequest {
    pub id: i64,
    pub workspace_id: i64,
    pub request: TagRequest,
}

/// Per-entry submission outcome, for the run's report.
pub struct ReportItem {
    pub key: String,
    pub ok: bool,
}

#[derive(Clone, Copy, PartialEq, Eq, Structural, Debug)]
pub enum SyncPhase {
    /// An entry's key resolution dialogue is under way.
    Resolving,
    /// A resolved key is new: waiting on its registry description.
    AwaitKeyDesc,
    /// All entries resolved: waiting on the submission outcomes.
    Submitting,
    /// Waiting for the markers to be applied.
    Marking,
    /// Waiting for the registry to be persisted.
    Saving,
    Complete,
}

/// The orchestrator's state across one run.
pub struct SyncSession {
    pub account_id: String,
    pub entries: Vec<MergedEntry>,
    pub registry: KeyRegistry,
    pub idx: usize,
    pub resolver: Resolver,
    pub pending_key: String,
    pub pending_desc: String,
    pub worklogs: Vec<Worklog>,
    pub marks: Vec<MarkGroup>,
    pub mark_requests: Vec<MarkRequest>,
    pub report: Vec<ReportItem>,
    pub phase: SyncPhase,
}

/// What the caller must do next.
pub enum SyncAction {
    /// Perform the resolver's prompt and answer with a resolver event.
    Prompt(ResolveAction),
    /// Ask for the new key's registry description, defaulting to the
    /// resolved description.
    AskKeyDesc { key: String, default_text: String },
    /// Submit every work-log in `worklogs`; answer with one success flag
    /// per work-log, in order.
    SubmitAll,
    /// Apply every update in `mark_requests`; answer `Marked`.
    MarkAll,
    /// Persist `registry`; answer with whether saving succeeded.
    SaveRegistry,
    /// The run is over; a failed save was reported, not fatal.
    Finished { save_failed: bool },
}

/// The outcome the caller feeds back.
pub enum SyncEvent {
    Resolver(ResolveEvent),
    KeyDescEntered(String),
    Submitted(Vec<bool>),
    Marked,
    Saved(bool),
}

/// Entries the orchestrator accepts: merged entries with a nonnegative
/// duration and a valid start timestamp.
pub open spec fn entries_wf(es: Seq<MergedEntry>) -> bool {
    forall|i: int| 0 <= i < es.len() ==> (#[trigger] es[i]).duration >= 0 && es[i].start.wf()
}

impl SyncSession {
    /// The state invariant every step preserves.
    pub open spec fn wf(self) -> bool {
        &&& self.registry.wf()
        &&& entries_wf(self.entries@)
        &&& self.worklogs@.len() == self.marks@.len()
        &&& (self.phase is Resolving ==> self.idx < self.entries@.len())
        &&& (self.phase is AwaitKeyDesc ==> self.idx < self.entries@.len())
    }
}

/// Which events the pending phase accepts.
pub open spec fn event_matches(s: SyncSession, ev: SyncEvent) -> bool {
    match s.phase {
        SyncPhase::Resolving => (ev matches SyncEvent::Resolver(rev) && resolver::event_fits(
            s.resolver,
            rev,
        )),
        SyncPhase::AwaitKeyDesc => ev is KeyDescEntered,
        SyncPhase::Submitting => (ev matches SyncEvent::Submitted(flags) && flags@.len()
            == s.worklogs@.len()),
        SyncPhase::Marking => ev is Marked,
        SyncPhase::Saving => ev is Saved,
        SyncPhase::Complete => false,
    }
}

/// A freshly started resolver for `entry`, with its first prompt.
pub open spec fn resolver_started(entry: MergedEntry, r: Resolver, a: ResolveAction) -> bool {
    &&& r.original_desc@ == entry.description@
    &&& r.duration == entry.duration as u64
    &&& resolver::proposal_ok(entry, resolver::opt_view(r.candidate0), r.derived0@)
    &&& resolver::start_shape(r, a)
}

/// After an entry is finished: either the next entry's resolution starts,
/// or, past the last entry, the submission phase begins.
pub open spec fn next_prompt(s2: SyncSession, a: SyncAction) -> bool {
    if s2.idx < s2.entries@.len() {
        &&& s2.phase is Resolving
        &&& (a matches SyncAction::Prompt(ra) && resolver_started(
            s2.entries@[s2.idx as int],
            s2.resolver,
            ra,
        ))
    } else {
        &&& s2.phase is Submitting
        &&& a is SubmitAll
    }
}

/// The fields one entry's completion must not touch.
pub open spec fn same_frame(a: SyncSession, b: SyncSession) -> bool {
    &&& a.account_id@ == b.account_id@
    &&& a.entries@ == b.entries@
    &&& a.report@ == b.report@
    &&& a.mark_requests@ == b.mark_requests@
}

/// One entry was appended to the accumulated work-logs and mark groups: the
/// work-log is built from the entry at `s0.idx` with the resolved key and
/// description, and the mark group carries that key with the entry's tag
/// carriers.
pub open spec fn entry_finalized(
    s0: SyncSession,
    s2: SyncSession,
    key: Seq<char>,
    desc: Seq<char>,
) -> bool {
    &&& same_frame(s0, s2)
    &&& s2.idx == s0.idx + 1
    &&& s2.worklogs@.len() == s0.worklogs@.len() + 1
    &&& (forall|q: int|
        0 <= q < s0.worklogs@.len() ==> #[trigger] s2.worklogs@[q] == s0.worklogs@[q])
    &&& worklog::worklog_ok(
        s2.worklogs@.last(),
        s0.account_id@,
        s0.entries@[s0.idx as int],
        key,
        desc,
    )
    &&& s2.marks@.len() == s0.marks@.len() + 1
    &&& (forall|q: int| 0 <= q < s0.marks@.len() ==> #[trigger] s2.marks@[q] == s0.marks@[q])
    &&& s2.marks@.last().key@ == key
    &&& s2.marks@.last().carriers@.len() == s0.entries@[s0.idx as int].tags@.len()
    &&& (forall|c: int|
        0 <= c < s0.entries@[s0.idx as int].tags@.len() ==> et_view(
            #[trigger] s2.marks@.last().carriers@[c],
        ) == et_view(s0.entries@[s0.idx as int].tags@[c]))
}

/// What `KeyRegistry::insert` promises, as a relation between the registry
/// before and after.
pub open spec fn registry_inserted(
    r0: KeyRegistry,
    k: Seq<char>,
    d: Seq<char>,
    r1: KeyRegistry,
) -> bool {
    &&& r1.wf()
    &&& r1.pairs@.len() == r0.pairs@.len() + (if r0.spec_contains(k) {
        0int
    } else {
        1
    })
    &&& (forall|i: int|
        0 <= i < r0.pairs@.len() ==> (#[trigger] r1.pairs@[i]).key@ == r0.pairs@[i].key@)
    &&& (forall|i: int|
        0 <= i < r0.pairs@.len() && r0.pairs@[i].key@ != k ==> (#[trigger] r1.pairs@[i]).desc@
            == r0.pairs@[i].desc@)
    &&& (forall|i: int|
        0 <= i < r1.pairs@.len() && (#[trigger] r1.pairs@[i]).key@ == k ==> r1.pairs@[i].desc@
            == d)
    &&& r1.spec_contains(k)
    &&& (forall|x: Seq<char>| #[trigger] r1.spec_contains(x) <==> (x == k || r0.spec_contains(x)))
}

/// One marker update stems from carrier `c` of flagged group `k`: it
/// addresses that carrier's record, and its tag set is the carrier's plus
/// the group's key, without duplicates.
pub open spec fn plan_src(
    marks: Seq<MarkGroup>,
    flags: Seq<bool>,
    k: int,
    c: int,
    mr: MarkRequest,
) -> bool {
    &&& 0 <= k < marks.len()
    &&& flags[k]
    &&& 0 <= c < marks[k].carriers@.len()
    &&& mr.id == marks[k].carriers@[c].id
    &&& mr.workspace_id == marks[k].carriers@[c].workspace_id
    &&& mr.request.tags@.len() >= 1
    &&& (mr.request.tags@[0])@ == marks[k].key@
    &&& (forall|a: int, b: int|
        0 <= a < b < mr.request.tags@.len() ==> (#[trigger] mr.request.tags@[a])@ != (
        #[trigger] mr.request.tags@[b])@)
    &&& (forall|x: Seq<char>|
        #[trigger] seq_has_view(mr.request.tags@, x) <==> (x == marks[k].key@ || entry_has_tag(
            marks[k].carriers@[c],
            x,
        )))
}

/// Group `k` was submitted successfully and `c` indexes one of its
/// carriers.
pub open spec fn flagged_at(marks: Seq<MarkGroup>, flags: Seq<bool>, k: int, c: int) -> bool {
    0 <= k < marks.len() && flags[k] && 0 <= c < marks[k].carriers@.len()
}

/// Update `m` of the plan stems from some flagged group's carrier.
pub open spec fn planned(
    reqs: Seq<MarkRequest>,
    marks: Seq<MarkGroup>,
    flags: Seq<bool>,
    m: int,
) -> bool {
    exists|k: int, c: int| #[trigger] plan_src(marks, flags, k, c, reqs[m])
}

/// Carrier `c` of flagged group `k` has its update somewhere in the plan.
pub open spec fn covered(
    reqs: Seq<MarkRequest>,
    marks: Seq<MarkGroup>,
    flags: Seq<bool>,
    k: int,
    c: int,
) -> bool {
    exists|m: int| 0 <= m < reqs.len() && #[trigger] plan_src(marks, flags, k, c, reqs[m])
}

/// The marking plan covers exactly the carriers of the successfully
/// submitted entries.
pub open spec fn mark_plan_ok(
    reqs: Seq<MarkRequest>,
    marks: Seq<MarkGroup>,
    flags: Seq<bool>,
) -> bool {
    &&& (forall|q: int| 0 <= q < reqs.len() ==> #[trigger] planned(reqs, marks, flags, q))
    &&& (forall|k: int, c: int|
        #[trigger] flagged_at(marks, flags, k, c) ==> covered(reqs, marks, flags, k, c))
}

/// The report pairs every submitted work-log's key with its outcome.
pub open spec fn report_ok(rep: Seq<ReportItem>, wls: Seq<Worklog>, flags: Seq<bool>) -> bool {
    &&& rep.len() == wls.len()
    &&& (forall|q: int|
        0 <= q < rep.len() ==> (#[trigger] rep[q]).key@ == wls[q].issue_key@ && rep[q].ok
            == flags[q])
}

/// A finished resolution's effect: a known key finalizes the entry at once;
/// an unknown key first asks for its registry description.
pub open spec fn resolved_outcome(
    s0: SyncSession,
    key: Seq<char>,
    desc: Seq<char>,
    s2: SyncSession,
    a: SyncAction,
) -> bool {
    if s0.registry.spec_contains(key) {
        &&& s2.registry == s0.registry
        &&& entry_finalized(s0, s2, key, desc)
        &&& next_prompt(s2, a)
    } else {
        &&& s2.phase is AwaitKeyDesc
        &&& s2.pending_key@ == key
        &&& s2.pending_desc@ == desc
        &&& s2.registry == s0.registry
        &&& s2.idx == s0.idx
        &&& s2.worklogs@ == s0.worklogs@
        &&& s2.marks@ == s0.marks@
        &&& same_frame(s0, s2)
        &&& (a matches SyncAction::AskKeyDesc { key: ak, default_text: ad } && ak@ == key && ad@
            == desc)
    }
}

/// The orchestrator's full transition relation.
pub open spec fn sync_step_shape(
    s0: SyncSession,
    ev: SyncEvent,
    s2: SyncSession,
    a: SyncAction,
) -> bool {
    match s0.phase {
        SyncPhase::Resolving => match ev {
            SyncEvent::Resolver(rev) => exists|r2: Resolver, ra: ResolveAction|
                {
                    &&& #[trigger] resolver::step_shape(s0.resolver, rev, r2, ra)
                    &&& resolver::same_core(s0.resolver, r2)
                    &&& match ra {
                        ResolveAction::Finished { key, desc } => resolved_outcome(
                            s0,
                            key@,
                            desc@,
                            s2,
                            a,
                        ),
                        _ => {
                            &&& s2.phase is Resolving
                            &&& s2.idx == s0.idx
                            &&& s2.resolver == r2
                            &&& s2.registry == s0.registry
                            &&& s2.worklogs@ == s0.worklogs@
                            &&& s2.marks@ == s0.marks@
                            &&& same_frame(s0, s2)
                            &&& a == SyncAction::Prompt(ra)
                        },
                    }
                },
            _ => true,
        },
        SyncPhase::AwaitKeyDesc => match ev {
            SyncEvent::KeyDescEntered(d) => {
                &&& registry_inserted(s0.registry, s0.pending_key@, d@, s2.registry)
                &&& entry_finalized(s0, s2, s0.pending_key@, s0.pending_desc@)
                &&& next_prompt(s2, a)
            },
            _ => true,
        },
        SyncPhase::Submitting => match ev {
            SyncEvent::Submitted(flags) => {
                &&& s2.phase is Marking
                &&& a is MarkAll
                &&& s2.registry == s0.registry
                &&& s2.worklogs@ == s0.worklogs@
                &&& s2.marks@ == s0.marks@
                &&& s2.entries@ == s0.entries@
                &&& s2.idx == s0.idx
                &&& report_ok(s2.report@, s0.worklogs@, flags@)
                &&& mark_plan_ok(s2.mark_requests@, s0.marks@, flags@)
            },
            _ => true,
        },
        SyncPhase::Marking => match ev {
            SyncEvent::Marked => {
                &&& s2.phase is Saving
                &&& a is SaveRegistry
                &&& s2.registry == s0.registry
                &&& s2.worklogs@ == s0.worklogs@
                &&& s2.marks@ == s0.marks@
                &&& s2.mark_requests@ == s0.mark_requests@
                &&& s2.report@ == s0.report@
                &&& same_frame(s0, s2)
            },
            _ => true,
        },
        SyncPhase::Saving => match ev {
            SyncEvent::Saved(ok) => {
                &&& s2.phase is Complete
                &&& s2.registry == s0.registry
                &&& s2.report@ == s0.report@
                &&& (a matches SyncAction::Finished { save_failed } && save_failed == !ok)
            },
            _ => true,
        },
        SyncPhase::Complete => true,
    }
}

/// Duplicates the carriers of one entry for the marking bookkeeping.
fn duplicate_tags(v: &Vec<EntryTag>) -> (r: Vec<EntryTag>)
    ensures
        r@.len() == v@.len(),
        forall|k: int| 0 <= k < v@.len() ==> et_view(#[trigger] r@[k]) == et_view(v@[k]),
{
    let n: usize = v.len();
    let mut r: Vec<EntryTag> = Vec::new();
    let mut i: usize = 0;
    while i < n
        invariant
            0 <= i <= n,
            n == v@.len(),
            r@.len() == i,
            forall|k: int| 0 <= k < i ==> et_view(#[trigger] r@[k]) == et_view(v@[k]),
        decreases n - i,
    {
        r.push(v[i].duplicate());
        i = i + 1;
    }
    r
}

/// Appends the finished entry's work-log and mark group and moves on: to
/// the next entry's resolution, or to submission after the last.
fn finalize_advance(s: SyncSession, key: String, desc: String) -> (res: (SyncSession, SyncAction))
    requires
        s.wf(),
        s.idx < s.entries@.len(),
    ensures
        res.0.wf(),
        res.0.registry == s.registry,
        entry_finalized(s, res.0, key@, desc@),
        next_prompt(res.0, res.1),
{
    let SyncSession {
        account_id,
        entries,
        registry,
        idx,
        resolver: rsv,
        pending_key,
        pending_desc,
        mut worklogs,
        mut marks,
        mark_requests,
        report,
        phase: _,
    } = s;
    let w = worklog::build_worklog(account_id.as_str(), &entries[idx], key.as_str(), desc);
    worklogs.push(w);
    let carriers = duplicate_tags(&entries[idx].tags);
    marks.push(MarkGroup { key, carriers });
    let total: usize = entries.len();
    let idx2: usize = idx + 1;
    if idx2 < entries.len() {
        let (r2, ra) = resolver::resolve_start(&entries[idx2]);
        let s2 = SyncSession {
            account_id,
            entries,
            registry,
            idx: idx2,
            resolver: r2,
            pending_key,
            pending_desc,
            worklogs,
            marks,
            mark_requests,
            report,
            phase: SyncPhase::Resolving,
        };
        (s2, SyncAction::Prompt(ra))
    } else {
        let s2 = SyncSession {
            account_id,
            entries,
            registry,
            idx: idx2,
            resolver: rsv,
            pending_key,
            pending_desc,
            worklogs,
            marks,
            mark_requests,
            report,
            phase: SyncPhase::Submitting,
        };
        (s2, SyncAction::SubmitAll)
    }
}

impl SyncSession {
    /// Begins a run over one day's merged entries with the loaded registry:
    /// immediately starts the first entry's resolution, or, with nothing to
    /// do, moves straight to (empty) submission.
    pub fn new(account_id: String, registry: KeyRegistry, entries: Vec<MergedEntry>) -> (res: (
        SyncSession,
        SyncAction,
    ))
        requires
            registry.wf(),
            entries_wf(entries@),
        ensures
            res.0.wf(),
            res.0.registry == registry,
            res.0.entries@ == entries@,
            res.0.account_id@ == account_id@,
            res.0.idx == 0,
            res.0.worklogs@.len() == 0,
            res.0.marks@.len() == 0,
            res.0.report@.len() == 0,
            res.0.mark_requests@.len() == 0,
            next_prompt(res.0, res.1),
    {
        let idle = Resolver {
            original_desc: String::new(),
            duration: 0,
            candidate0: None,
            derived0: String::new(),
            key: None,
            desc: String::new(),
            phase: resolver::ResolvePhase::Finished,
        };
        if entries.len() > 0 {
            let (r0, ra) = resolver::resolve_start(&entries[0]);
            let s = SyncSession {
                account_id,
                entries,
                registry,
                idx: 0,
                resolver: r0,
                pending_key: String::new(),
                pending_desc: String::new(),
                worklogs: Vec::new(),
                marks: Vec::new(),
                mark_requests: Vec::new(),
                report: Vec::new(),
                phase: SyncPhase::Resolving,
            };
            (s, SyncAction::Prompt(ra))
        } else {
            let s = SyncSession {
                account_id,
                entries,
                registry,
                idx: 0,
                resolver: idle,
                pending_key: String::new(),
                pending_desc: String::new(),
                worklogs: Vec::new(),
                marks: Vec::new(),
                mark_requests: Vec::new(),
                report: Vec::new(),
                phase: SyncPhase::Submitting,
            };
            (s, SyncAction::SubmitAll)
        }
    }

    /// One orchestrator step: feeds the outcome of the previous action in
    /// and returns the next state and action.
    pub fn step(self, ev: SyncEvent) -> (res: (SyncSession, SyncAction))
        requires
            self.wf(),
            event_matches(self, ev),
        ensures
            res.0.wf(),
            sync_step_shape(self, ev, res.0, res.1),
    {
        let ghost s0 = self;
        let ghost gev = ev;
        match self.phase {
            SyncPhase::Resolving => {
                match ev {
                    SyncEvent::Resolver(rev) => {
                        let ghost grev = rev;
                        let SyncSession {
                            account_id,
                            entries,
                            registry,
                            idx,
                            resolver: rsv,
                            pending_key,
                            pending_desc,
                            worklogs,
                            marks,
                            mark_requests,
                            report,
                            phase,
                        } = self;
                        let (r2, ra) = resolver::resolve_step(rsv, rev);
                        let ghost gr2 = r2;
                        let ghost gra = ra;
                        match ra {
                            ResolveAction::Finished { key, desc } => {
                                let ghost gkey = key@;
                                let ghost gdesc = desc@;
                                if registry.contains(key.as_str()) {
                                    let s1 = SyncSession {
                                        account_id,
                                        entries,
                                        registry,
                                        idx,
                                        resolver: r2,
                                        pending_key,
                                        pending_desc,
                                        worklogs,
                                        marks,
                                        mark_requests,
                                        report,
                                        phase,
                                    };
                                    let (s2, a) = finalize_advance(s1, key, desc);
                                    proof {
                                        assert(resolver::step_shape(s0.resolver, grev, gr2, gra));
                                        assert(resolved_outcome(s0, gkey, gdesc, s2, a));
                                        assert(sync_step_shape(s0, gev, s2, a)) by {
                                            assert(resolver::step_shape(
                                                s0.resolver,
                                                grev,
                                                gr2,
                                                gra,
                                            ));
                                        }
                                    }
                                    (s2, a)
                                } else {
                                    let action = SyncAction::AskKeyDesc {
                                        key: key.clone(),
                                        default_text: desc.clone(),
                                    };
                                    let s2 = SyncSession {
                                        account_id,
                                        entries,
                                        registry,
                                        idx,
                                        resolver: r2,
                                        pending_key: key,
                                        pending_desc: desc,
                                        worklogs,
                                        marks,
                                        mark_requests,
                                        report,
                                        phase: SyncPhase::AwaitKeyDesc,
                                    };
                                    proof {
                                        assert(resolved_outcome(s0, gkey, gdesc, s2, action));
                                        assert(sync_step_shape(s0, gev, s2, action)) by {
                                            assert(resolver::step_shape(
                                                s0.resolver,
                                                grev,
                                                gr2,
                                                gra,
                                            ));
                                        }
                                    }
                                    (s2, action)
                                }
                            },
                            _ => {
                                let s2 = SyncSession {
                                    account_id,
                                    entries,
                                    registry,
                                    idx,
                                    resolver: r2,
                                    pending_key,
                                    pending_desc,
                                    worklogs,
                                    marks,
                                    mark_requests,
                                    report,
                                    phase: SyncPhase::Resolving,
                                };
                                let a = SyncAction::Prompt(ra);
                                proof {
                                    assert(sync_step_shape(s0, gev, s2, a)) by {
                                        assert(resolver::step_shape(s0.resolver, grev, gr2, gra));
                                        assert(a == SyncAction::Prompt(gra));
                                    }
                                }
                                (s2, a)
                            },
                        }
                    },
                    _ => {
                        proof {
                            assert(false);
                        }
                        (self, SyncAction::SubmitAll)
                    },
                }
            },
            SyncPhase::AwaitKeyDesc => {
                match ev {
                    SyncEvent::KeyDescEntered(d) => {
                        let SyncSession {
                            account_id,
                            entries,
                            mut registry,
                            idx,
                            resolver: rsv,
                            pending_key,
                            pending_desc,
                            worklogs,
                            marks,
                            mark_requests,
                            report,
                            phase,
                        } = self;
                        registry.insert(pending_key.clone(), d);
                        let s1 = SyncSession {
                            account_id,
                            entries,
                            registry,
                            idx,
                            resolver: rsv,
                            pending_key: pending_key.clone(),
                            pending_desc: pending_desc.clone(),
                            worklogs,
                            marks,
                            mark_requests,
                            report,
                            phase,
                        };
                        finalize_advance(s1, pending_key, pending_desc)
                    },
                    _ => {
                        proof {
                            assert(false);
                        }
                        (self, SyncAction::SubmitAll)
                    },
                }
            },
            SyncPhase::Submitting => {
                match ev {
                    SyncEvent::Submitted(flags) => {
                        let SyncSession {
                            account_id,
                            entries,
                            registry,
                            idx,
                            resolver: rsv,
                            pending_key,
                            pending_desc,
                            worklogs,
                            marks,
                            mark_requests: _,
                            report: _,
                            phase: _,
                        } = self;
                        let mut report: Vec<ReportItem> = Vec::new();
                        let wn: usize = worklogs.len();
                        let mut q: usize = 0;
                        while q < wn
                            invariant
                                0 <= q <= wn,
                                wn == worklogs@.len(),
                                flags@.len() == worklogs@.len(),
                                report@.len() == q,
                                forall|m: int|
                                    0 <= m < q ==> (#[trigger] report@[m]).key@
                                        == worklogs@[m].issue_key@ && report@[m].ok == flags@[m],
                            decreases wn - q,
                        {
                            report.push(
                                ReportItem { key: worklogs[q].issue_key.clone(), ok: flags[q] },
                            );
                            q = q + 1;
                        }
                        let mut reqs: Vec<MarkRequest> = Vec::new();
                        let mn: usize = marks.len();
                        let mut k: usize = 0;
                        while k < mn
                            invariant
                                0 <= k <= mn,
                                mn == marks@.len(),
                                flags@.len() == worklogs@.len(),
                                marks@.len() == worklogs@.len(),
                                forall|m: int|
                                    0 <= m < reqs@.len() ==> #[trigger] planned(
                                        reqs@,
                                        marks@,
                                        flags@,
                                        m,
                                    ),
                                forall|k2: int, c2: int|
                                    #[trigger] flagged_at(marks@, flags@, k2, c2) && k2 < k
                                        ==> covered(reqs@, marks@, flags@, k2, c2),
                            decreases mn - k,
                        {
                            if flags[k] {
                                let group = &marks[k];
                                let cn: usize = group.carriers.len();
                                let mut c: usize = 0;
                                while c < cn
                                    invariant
                                        0 <= c <= cn,
                                        0 <= k < mn,
                                        mn == marks@.len(),
                                        cn == marks@[k as int].carriers@.len(),
                                        *group == marks@[k as int],
                                        flags@[k as int],
                                        flags@.len() == marks@.len(),
                                        forall|m: int|
                                            0 <= m < reqs@.len() ==> #[trigger] planned(
                                                reqs@,
                                                marks@,
                                                flags@,
                                                m,
                                            ),
                                        forall|k2: int, c2: int|
                                            #[trigger] flagged_at(marks@, flags@, k2, c2) && k2 < k
                                                ==> covered(reqs@, marks@, flags@, k2, c2),
                                        forall|c2: int|
                                            #[trigger] flagged_at(marks@, flags@, k as int, c2)
                                                && c2 < c ==> covered(
                                                reqs@,
                                                marks@,
                                                flags@,
                                                k as int,
                                                c2,
                                            ),
                                    decreases cn - c,
                                {
                                    let carrier = &group.carriers[c];
                                    let request = add_tag(carrier, group.key.as_str());
                                    let mr = MarkRequest {
                                        id: carrier.id,
                                        workspace_id: carrier.workspace_id,
                                        request,
                                    };
                                    let ghost reqs0 = reqs@;
                                    reqs.push(mr);
                                    proof {
                                        assert(flagged_at(marks@, flags@, k as int, c as int));
                                        assert(plan_src(
                                            marks@,
                                            flags@,
                                            k as int,
                                            c as int,
                                            reqs@[reqs@.len() - 1],
                                        ));
                                        assert(planned(reqs@, marks@, flags@, reqs@.len() - 1));
                                        assert(covered(
                                            reqs@,
                                            marks@,
                                            flags@,
                                            k as int,
                                            c as int,
                                        ));
                                        assert forall|m: int|
                                            0 <= m < reqs@.len() implies #[trigger] planned(
                                            reqs@,
                                            marks@,
                                            flags@,
                                            m,
                                        ) by {
                                            if m < reqs0.len() {
                                                assert(planned(reqs0, marks@, flags@, m));
                                                let (k2, c2) = choose|k2: int, c2: int|
                                                    #[trigger] plan_src(
                                                        marks@,
                                                        flags@,
                                                        k2,
                                                        c2,
                                                        reqs0[m],
                                                    );
                                                assert(reqs@[m] == reqs0[m]);
                                                assert(plan_src(marks@, flags@, k2, c2, reqs@[m]));
                                            }
                                        }
                                        assert forall|k2: int, c2: int|
                                            #[trigger] flagged_at(marks@, flags@, k2, c2) && k2
                                                < k implies covered(
                                            reqs@,
                                            marks@,
                                            flags@,
                                            k2,
                                            c2,
                                        ) by {
                                            assert(covered(reqs0, marks@, flags@, k2, c2));
                                            let m = choose|m: int|
                                                0 <= m < reqs0.len() && #[trigger] plan_src(
                                                    marks@,
                                                    flags@,
                                                    k2,
                                                    c2,
                                                    reqs0[m],
                                                );
                                            assert(reqs@[m] == reqs0[m]);
                                            assert(plan_src(marks@, flags@, k2, c2, reqs@[m]));
                                        }
                                        assert forall|c2: int|
                                            #[trigger] flagged_at(marks@, flags@, k as int, c2)
                                                && c2 < c + 1 implies covered(
                                            reqs@,
                                            marks@,
                                            flags@,
                                            k as int,
                                            c2,
                                        ) by {
                                            if c2 < c {
                                                assert(covered(reqs0, marks@, flags@, k as int, c2));
                                                let m = choose|m: int|
                                                    0 <= m < reqs0.len() && #[trigger] plan_src(
                                                        marks@,
                                                        flags@,
                                                        k as int,
                                                        c2,
                                                        reqs0[m],
                                                    );
                                                assert(reqs@[m] == reqs0[m]);
                                                assert(plan_src(
                                                    marks@,
                                                    flags@,
                                                    k as int,
                                                    c2,
                                                    reqs@[m],
                                                ));
                                            }
                                        }
                                    }
                                    c = c + 1;
                                }
                                proof {
                                    assert forall|k2: int, c2: int|
                                        #[trigger] flagged_at(marks@, flags@, k2, c2) && k2 < k + 1
                                            implies covered(reqs@, marks@, flags@, k2, c2) by {
                                        if k2 == k {
                                            assert(flagged_at(marks@, flags@, k as int, c2));
                                        }
                                    }
                                }
                            } else {
                                proof {
                                    assert forall|k2: int, c2: int|
                                        #[trigger] flagged_at(marks@, flags@, k2, c2) && k2 < k + 1
                                            implies covered(reqs@, marks@, flags@, k2, c2) by {
                                        assert(k2 < k);
                                    }
                                }
                            }
                            k = k + 1;
                        }
                        proof {
                            assert forall|k2: int, c2: int| #[trigger] flagged_at(
                                marks@,
                                flags@,
                                k2,
                                c2,
                            ) implies covered(reqs@, marks@, flags@, k2, c2) by {
                                assert(k2 < k);
                            }
                        }
                        let s2 = SyncSession {
                            account_id,
                            entries,
                            registry,
                            idx,
                            resolver: rsv,
                            pending_key,
                            pending_desc,
                            worklogs,
                            marks,
                            mark_requests: reqs,
                            report,
                            phase: SyncPhase::Marking,
                        };
                        (s2, SyncAction::MarkAll)
                    },
                    _ => {
                        proof {
                            assert(false);
                        }
                        (self, SyncAction::SubmitAll)
                    },
                }
            },
            SyncPhase::Marking => {
                match ev {
                    SyncEvent::Marked => {
                        let s2 = SyncSession { phase: SyncPhase::Saving, ..self };
                        (s2, SyncAction::SaveRegistry)
                    },
                    _ => {
                        proof {
                            assert(false);
                        }
                        (self, SyncAction::SubmitAll)
                    },
                }
            },
            SyncPhase::Saving => {
                match ev {
                    SyncEvent::Saved(ok) => {
                        let s2 = SyncSession { phase: SyncPhase::Complete, ..self };
                        (s2, SyncAction::Finished { save_failed: !ok })
                    },
                    _ => {
                        proof {
                            assert(false);
                        }
                        (self, SyncAction::SubmitAll)
                    },
                }
            },
            SyncPhase::Complete => {
                proof {
                    assert(false);
                }
                (self, SyncAction::SubmitAll)
            },
        }
    }
}

} // verus!
