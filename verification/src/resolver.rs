//! The key resolver: for one canonical entry it proposes a ticket key —
//! first from the record tags, then from the description text — and then
//! drives the confirm-or-edit dialogue as a state machine. The caller
//! performs each returned action (a prompt) and feeds the operator's answer
//! back in as an event; an empty normalized key restarts the whole
//! resolution, so a finished resolution always carries a non-empty key.

use vstd::prelude::*;
use vstd::string::StrSliceExecFns;

use crate::keyshape;
use crate::records::EntryTag;
use crate::records::MergedEntry;
use crate::text;

verus! {

/// An optional owned string, as an optional character sequence.
pub open spec fn opt_view(o: Option<String>) -> Option<Seq<char>> {
    match o {
        None => None,
        Some(s) => Some(s@),
    }
}

/// The tag texts one carrier contributes, in order.
pub open spec fn tag_list(e: EntryTag) -> Seq<Seq<char>> {
    match e.tags {
        None => Seq::empty(),
        Some(v) => v@.map_values(|s: String| s@),
    }
}

/// All tag texts of an entry's carriers, carrier by carrier, in order: the
/// deterministic scan order of tag-based key extraction.
pub open spec fn flat_tags(ts: Seq<EntryTag>) -> Seq<Seq<char>>
    decreases ts.len(),
{
    if ts.len() == 0 {
        Seq::empty()
    } else {
        flat_tags(ts.drop_last()) + tag_list(ts.last())
    }
}

/// Position `k` holds the first tag in scan order that contains a key
/// match, and that tag reads `t`.
pub open spec fn first_tag_match(flat: Seq<Seq<char>>, k: int, t: Seq<char>) -> bool {
    &&& 0 <= k < flat.len()
    &&& flat[k] == t
    &&& keyshape::has_key_match(t)
    &&& forall|m: int| 0 <= m < k ==> !keyshape::has_key_match(#[trigger] flat[m])
}

/// `t` is the first tag in the entry's scan order that contains a key
/// match.
pub open spec fn tag_candidate_ok(entry: MergedEntry, t: Seq<char>) -> bool {
    exists|k: int| #[trigger] first_tag_match(flat_tags(entry.tags@), k, t)
}

/// No tag of the entry contains a key match.
pub open spec fn no_tag_candidate(entry: MergedEntry) -> bool {
    forall|m: int|
        0 <= m < flat_tags(entry.tags@).len() ==> !keyshape::has_key_match(
            #[trigger] flat_tags(entry.tags@)[m],
        )
}

proof fn lemma_flat_take_step(ts: Seq<EntryTag>, i: int)
    requires
        0 <= i < ts.len(),
    ensures
        flat_tags(ts.take(i + 1)) == flat_tags(ts.take(i)) + tag_list(ts[i]),
{
    let t = ts.take(i + 1);
    assert(t.drop_last() =~= ts.take(i));
    assert(t.last() == ts[i]);
}

proof fn lemma_flat_take_prefix(ts: Seq<EntryTag>, i: int)
    requires
        0 <= i <= ts.len(),
    ensures
        flat_tags(ts).len() >= flat_tags(ts.take(i)).len(),
        forall|k: int|
            0 <= k < flat_tags(ts.take(i)).len() ==> #[trigger] flat_tags(ts)[k] == flat_tags(
                ts.take(i),
            )[k],
    decreases ts.len() - i,
{
    if i < ts.len() {
        lemma_flat_take_prefix(ts, i + 1);
        lemma_flat_take_step(ts, i);
        assert forall|k: int| 0 <= k < flat_tags(ts.take(i)).len() implies #[trigger] flat_tags(
            ts,
        )[k] == flat_tags(ts.take(i))[k] by {
            assert(flat_tags(ts.take(i + 1))[k] == flat_tags(ts.take(i))[k]);
        }
    } else {
        assert(ts.take(i) =~= ts);
    }
}

/// Scans the union of the entry's carriers' tags, in carrier order then tag
/// order, for the first tag containing a ticket-key match; the whole tag
/// text is the candidate key.
pub fn get_possible_key_tag(entry: &MergedEntry) -> (r: Option<String>)
    ensures
        match r {
            Some(t) => tag_candidate_ok(*entry, t@),
            None => no_tag_candidate(*entry),
        },
{
    let n: usize = entry.tags.len();
    let mut i: usize = 0;
    while i < n
        invariant
            0 <= i <= n,
            n == entry.tags@.len(),
            forall|m: int|
                0 <= m < flat_tags(entry.tags@.take(i as int)).len() ==> !keyshape::has_key_match(
                    #[trigger] flat_tags(entry.tags@.take(i as int))[m],
                ),
        decreases n - i,
    {
        let ghost fi = flat_tags(entry.tags@.take(i as int));
        proof {
            lemma_flat_take_step(entry.tags@, i as int);
        }
        match &entry.tags[i].tags {
            None => {
                proof {
                    assert(tag_list(entry.tags@[i as int]) =~= Seq::<Seq<char>>::empty());
                    assert(flat_tags(entry.tags@.take(i + 1)) =~= fi);
                }
            },
            Some(v) => {
                let ghost tl = tag_list(entry.tags@[i as int]);
                proof {
                    assert(tl =~= v@.map_values(|s: String| s@));
                }
                let vn: usize = v.len();
                let mut j: usize = 0;
                while j < vn
                    invariant
                        0 <= j <= vn,
                        vn == v@.len(),
                        0 <= i < n,
                        n == entry.tags@.len(),
                        fi == flat_tags(entry.tags@.take(i as int)),
                        tl == tag_list(entry.tags@[i as int]),
                        tl.len() == vn,
                        forall|m: int| 0 <= m < vn ==> #[trigger] tl[m] == v@[m]@,
                        flat_tags(entry.tags@.take(i + 1)) == fi + tl,
                        forall|m: int|
                            0 <= m < fi.len() ==> !keyshape::has_key_match(#[trigger] fi[m]),
                        forall|m: int|
                            0 <= m < j ==> !keyshape::has_key_match((#[trigger] v@[m])@),
                    decreases vn - j,
                {
                    let tag = &v[j];
                    if keyshape::has_match(tag.as_str()) {
                        let ghost flat = flat_tags(entry.tags@);
                        let ghost k: int = fi.len() + j;
                        proof {
                            lemma_flat_take_prefix(entry.tags@, i + 1);
                            assert((fi + tl)[k] == tl[j as int]);
                            assert(flat[k] == v@[j as int]@);
                            assert forall|m: int| 0 <= m < k implies !keyshape::has_key_match(
                                #[trigger] flat[m],
                            ) by {
                                assert(flat[m] == (fi + tl)[m]);
                                if m < fi.len() {
                                    assert((fi + tl)[m] == fi[m]);
                                } else {
                                    assert((fi + tl)[m] == tl[m - fi.len()]);
                                    assert(tl[m - fi.len()] == v@[m - fi.len()]@);
                                }
                            }
                            assert(first_tag_match(flat, k, v@[j as int]@));
                        }
                        let cloned = tag.clone();
                        proof {
                            assert(cloned@ == v@[j as int]@);
                            assert(tag_candidate_ok(*entry, cloned@)) by {
                                assert(first_tag_match(flat_tags(entry.tags@), k, cloned@));
                            }
                        }
                        return Some(cloned);
                    }
                    j = j + 1;
                }
                proof {
                    assert forall|m: int|
                        0 <= m < flat_tags(entry.tags@.take(i + 1)).len() implies !keyshape::has_key_match(
                        #[trigger] flat_tags(entry.tags@.take(i + 1))[m],
                    ) by {
                        assert(flat_tags(entry.tags@.take(i + 1))[m] == (fi + tl)[m]);
                        if m < fi.len() {
                            assert((fi + tl)[m] == fi[m]);
                        } else {
                            assert((fi + tl)[m] == tl[m - fi.len()]);
                            assert(tl[m - fi.len()] == v@[m - fi.len()]@);
                        }
                    }
                }
            },
        }
        i = i + 1;
    }
    proof {
        assert(entry.tags@.take(n as int) =~= entry.tags@);
    }
    None
}

/// The derived description: the entry's description with its leftmost key
/// match cut out and the remainder cleaned, or, when no match exists, the
/// description cleaned as it stands.
pub open spec fn derived_ok(s: Seq<char>, derived: Seq<char>) -> bool {
    if keyshape::has_key_match(s) {
        exists|i: int, j: int, key: Seq<char>| #[trigger] keyshape::extraction_at(
            s,
            i,
            j,
            key,
            derived,
        )
    } else {
        derived == text::spec_clean_description(s)
    }
}

/// The automatic key proposal: the first matching tag when one exists, else
/// the key found in the description, else nothing.
pub open spec fn candidate_ok(entry: MergedEntry, cand: Option<Seq<char>>) -> bool {
    match cand {
        Some(t) => tag_candidate_ok(entry, t) || (no_tag_candidate(entry) && exists|
            i: int,
            j: int,
            resid: Seq<char>,
        | #[trigger] keyshape::extraction_at(entry.description@, i, j, t, resid)),
        None => no_tag_candidate(entry) && !keyshape::has_key_match(entry.description@),
    }
}

pub open spec fn proposal_ok(entry: MergedEntry, cand: Option<Seq<char>>, derived: Seq<char>) -> bool {
    candidate_ok(entry, cand) && derived_ok(entry.description@, derived)
}

/// Where the resolution dialogue stands.
pub enum ResolvePhase {
    /// A candidate key was proposed; waiting on the confirm-or-edit answer.
    AwaitEdit,
    /// No candidate; waiting on a typed key.
    AwaitKeyInput,
    /// A key was typed; waiting on the edit-description answer.
    AwaitEditAfterKey,
    /// Waiting on a replacement description.
    AwaitDescription,
    Finished,
}

/// The resolver's state across one entry's dialogue.
pub struct Resolver {
    /// The entry's description, verbatim.
    pub original_desc: String,
    /// The entry's duration in seconds, for display in prompts.
    pub duration: u64,
    /// The automatic proposal, kept for restarts.
    pub candidate0: Option<String>,
    /// The derived description of the proposal, kept for restarts.
    pub derived0: String,
    /// The key chosen so far (proposed or typed), before normalization.
    pub key: Option<String>,
    /// The committed description so far.
    pub desc: String,
    pub phase: ResolvePhase,
}

/// What the caller must do next.
pub enum ResolveAction {
    /// Show the candidate key and derived description; ask whether to edit.
    AskConfirmEdit { key: String, desc: String },
    /// Report the missing key (description and duration) and prompt for a
    /// key, with autocompletion.
    AskKeyInput { desc: String, duration: u64 },
    /// Ask whether to edit the description.
    AskEditPlain,
    /// Prompt for a replacement description.
    AskDescription { default_text: String },
    /// Resolution is complete: a non-empty normalized key and the committed
    /// description.
    Finished { key: String, desc: String },
}

/// The operator's answer to the pending prompt.
pub enum ResolveEvent {
    Confirmed(bool),
    TextEntered(String),
}

/// Which events the pending phase accepts.
pub open spec fn event_fits(r: Resolver, ev: ResolveEvent) -> bool {
    match r.phase {
        ResolvePhase::AwaitEdit => (ev is Confirmed) && r.key is Some,
        ResolvePhase::AwaitEditAfterKey => (ev is Confirmed) && r.key is Some,
        ResolvePhase::AwaitKeyInput => ev is TextEntered,
        ResolvePhase::AwaitDescription => (ev is TextEntered) && r.key is Some,
        ResolvePhase::Finished => false,
    }
}

/// The resolvers' unchanging core: the entry's description and duration and
/// the automatic proposal.
pub open spec fn same_core(a: Resolver, b: Resolver) -> bool {
    &&& a.original_desc@ == b.original_desc@
    &&& a.duration == b.duration
    &&& opt_view(a.candidate0) == opt_view(b.candidate0)
    &&& a.derived0@ == b.derived0@
}

/// The shape a fresh (or restarted) resolution takes: with a candidate, the
/// confirm-or-edit prompt; without one, the key prompt.
pub open spec fn start_shape(r: Resolver, a: ResolveAction) -> bool {
    match opt_view(r.candidate0) {
        Some(k) => {
            &&& r.phase is AwaitEdit
            &&& opt_view(r.key) == Some(k)
            &&& r.desc@ == r.derived0@
            &&& (a matches ResolveAction::AskConfirmEdit { key: ak, desc: ad } && ak@ == k && ad@
                == r.derived0@)
        },
        None => {
            &&& r.phase is AwaitKeyInput
            &&& r.key is None
            &&& r.desc@ == r.derived0@
            &&& (a matches ResolveAction::AskKeyInput { desc: d, duration: u } && d@
                == r.original_desc@ && u == r.duration)
        },
    }
}

/// Committing normalizes the chosen key; an empty result restarts the whole
/// resolution, anything else finishes with it.
pub open spec fn commit_shape(r: Resolver, final_desc: Seq<char>, r2: Resolver, a: ResolveAction) -> bool {
    match opt_view(r.key) {
        Some(kv) => {
            let ck = text::spec_clean_key(kv);
            if ck.len() == 0 {
                same_core(r, r2) && start_shape(r2, a)
            } else {
                &&& r2.phase is Finished
                &&& (a matches ResolveAction::Finished { key, desc } && key@ == ck && desc@
                    == final_desc)
            }
        },
        None => false,
    }
}

/// The full transition relation of one dialogue step.
pub open spec fn step_shape(r: Resolver, ev: ResolveEvent, r2: Resolver, a: ResolveAction) -> bool {
    match r.phase {
        ResolvePhase::AwaitEdit | ResolvePhase::AwaitEditAfterKey => match ev {
            ResolveEvent::Confirmed(e) => {
                if e {
                    &&& same_core(r, r2)
                    &&& r2.phase is AwaitDescription
                    &&& opt_view(r2.key) == opt_view(r.key)
                    &&& r2.desc@ == r.desc@
                    &&& (a matches ResolveAction::AskDescription { default_text } && default_text@
                        == r.desc@)
                } else {
                    commit_shape(r, r.desc@, r2, a)
                }
            },
            ResolveEvent::TextEntered(_) => true,
        },
        ResolvePhase::AwaitKeyInput => match ev {
            ResolveEvent::TextEntered(k) => {
                &&& same_core(r, r2)
                &&& opt_view(r2.key) == Some(k@)
                &&& r2.desc@ == r.desc@
                &&& r2.phase is AwaitEditAfterKey
                &&& a is AskEditPlain
            },
            ResolveEvent::Confirmed(_) => true,
        },
        ResolvePhase::AwaitDescription => match ev {
            ResolveEvent::TextEntered(d) => commit_shape(r, d@, r2, a),
            ResolveEvent::Confirmed(_) => true,
        },
        ResolvePhase::Finished => true,
    }
}

fn clone_opt_string(o: &Option<String>) -> (r: Option<String>)
    ensures
        opt_view(r) == opt_view(*o),
{
    match o {
        None => None,
        Some(s) => Some(s.clone()),
    }
}

/// Builds the start state and first action for `r`, whose proposal fields
/// are already set; used both at start and on restart.
fn enter_start(r: Resolver) -> (res: (Resolver, ResolveAction))
    ensures
        same_core(r, res.0),
        res.0.original_desc@ == r.original_desc@,
        res.0.duration == r.duration,
        start_shape(res.0, res.1),
{
    let candidate = clone_opt_string(&r.candidate0);
    let desc = r.derived0.clone();
    match candidate {
        Some(k) => {
            let action = ResolveAction::AskConfirmEdit { key: k.clone(), desc: desc.clone() };
            let r2 = Resolver {
                key: Some(k),
                desc,
                phase: ResolvePhase::AwaitEdit,
                ..r
            };
            (r2, action)
        },
        None => {
            let action = ResolveAction::AskKeyInput {
                desc: r.original_desc.clone(),
                duration: r.duration,
            };
            let r2 = Resolver { key: None, desc, phase: ResolvePhase::AwaitKeyInput, ..r };
            (r2, action)
        },
    }
}

/// Begins resolution of one canonical entry: computes the automatic
/// proposal (tags first, then the description) and the derived description,
/// and returns the first prompt.
pub fn resolve_start(entry: &MergedEntry) -> (res: (Resolver, ResolveAction))
    requires
        entry.duration >= 0,
    ensures
        res.0.original_desc@ == entry.description@,
        res.0.duration == entry.duration as u64,
        proposal_ok(*entry, opt_view(res.0.candidate0), res.0.derived0@),
        start_shape(res.0, res.1),
{
    let tag_cand = get_possible_key_tag(entry);
    let (cand, derived) = match keyshape::extract_from_description(entry.description.as_str()) {
        keyshape::KeyExtraction::Found { key, residual } => {
            proof {
                assert(keyshape::has_key_match(entry.description@)) by {
                    let (i, j) = choose|i: int, j: int|
                        #[trigger] keyshape::extraction_at(entry.description@, i, j, key@, residual@);
                    assert(keyshape::found_at(entry.description@, i, j));
                    assert(keyshape::match_at(entry.description@, i));
                }
            }
            match tag_cand {
                Some(t) => (Some(t), residual),
                None => (Some(key), residual),
            }
        },
        keyshape::KeyExtraction::NotFound => {
            let cleaned = text::clean_description(entry.description.as_str());
            (tag_cand, cleaned)
        },
    };
    let r = Resolver {
        original_desc: entry.description.clone(),
        duration: entry.duration as u64,
        candidate0: cand,
        derived0: derived,
        key: None,
        desc: String::new(),
        phase: ResolvePhase::AwaitKeyInput,
    };
    enter_start(r)
}

/// One step of the dialogue: feeds the operator's answer in and returns the
/// next state and prompt (or the finished resolution).
pub fn resolve_step(r: Resolver, ev: ResolveEvent) -> (res: (Resolver, ResolveAction))
    requires
        event_fits(r, ev),
    ensures
        same_core(r, res.0),
        step_shape(r, ev, res.0, res.1),
{
    match r.phase {
        ResolvePhase::AwaitEdit | ResolvePhase::AwaitEditAfterKey => {
            match ev {
                ResolveEvent::Confirmed(e) => {
                    if e {
                        let action = ResolveAction::AskDescription { default_text: r.desc.clone() };
                        let r2 = Resolver { phase: ResolvePhase::AwaitDescription, ..r };
                        (r2, action)
                    } else {
                        commit(r)
                    }
                },
                ResolveEvent::TextEntered(_) => {
                    proof {
                        assert(false);
                    }
                    commit(r)
                },
            }
        },
        ResolvePhase::AwaitKeyInput => {
            match ev {
                ResolveEvent::TextEntered(k) => {
                    let r2 = Resolver { key: Some(k), phase: ResolvePhase::AwaitEditAfterKey, ..r };
                    (r2, ResolveAction::AskEditPlain)
                },
                ResolveEvent::Confirmed(_) => {
                    proof {
                        assert(false);
                    }
                    commit(r)
                },
            }
        },
        ResolvePhase::AwaitDescription => {
            match ev {
                ResolveEvent::TextEntered(d) => {
                    let r2 = Resolver { desc: d, ..r };
                    commit(r2)
                },
                ResolveEvent::Confirmed(_) => {
                    proof {
                        assert(false);
                    }
                    commit(r)
                },
            }
        },
        ResolvePhase::Finished => {
            proof {
                assert(false);
            }
            commit(r)
        },
    }
}

/// Normalizes the chosen key and either finishes or restarts.
fn commit(r: Resolver) -> (res: (Resolver, ResolveAction))
    requires
        r.key is Some,
    ensures
        same_core(r, res.0),
        commit_shape(r, r.desc@, res.0, res.1),
{
    let cleaned = match &r.key {
        Some(k) => text::clean_key(k.as_str()),
        None => {
            proof {
                assert(false);
            }
            String::new()
        },
    };
    if cleaned.unicode_len() == 0 {
        enter_start(r)
    } else {
        let desc = r.desc.clone();
        let r2 = Resolver { phase: ResolvePhase::Finished, ..r };
        (r2, ResolveAction::Finished { key: cleaned, desc })
    }
}

} // verus!
