//! The data model: raw records as fetched, the per-record tag carriers kept
//! through merging, merged entries, and the tag-set update used to mark a
//! record as handled.

use vstd::prelude::*;

use crate::timefmt::Timestamp;

verus! {

/// One tracked interval as the source system reports it. A non-positive
/// duration means the interval is still running; a present deletion stamp
/// means it was deleted; both exclude it from merging, as does a missing or
/// unparseable start.
pub struct TimeEntry {
    pub id: i64,
    pub user_id: i64,
    pub workspace_id: i64,
    pub at: String,
    pub description: String,
    pub duration: i64,
    pub duronly: bool,
    pub start: Option<Timestamp>,
    pub stop: Option<String>,
    pub server_deleted_at: Option<String>,
    pub tags: Option<Vec<String>>,
}

/// Per-record identity plus its original tag set, kept through merging so
/// the marker can later be applied to each source record.
pub struct EntryTag {
    pub id: i64,
    pub user_id: i64,
    pub workspace_id: i64,
    pub tags: Option<Vec<String>>,
}

/// All raw records sharing one description within the synced day, collapsed
/// into a single canonical entry.
pub struct MergedEntry {
    pub user_id: i64,
    pub workspace_id: i64,
    pub duration: i64,
    pub description: String,
    pub start: Timestamp,
    pub tags: Vec<EntryTag>,
}

/// The full tag set sent back to the source system when marking a record.
pub struct TagRequest {
    pub tags: Vec<String>,
}

/// An optional tag list, seen as its sequence of character sequences.
pub open spec fn opt_tags_view(t: Option<Vec<String>>) -> Option<Seq<String>> {
    match t {
        None => None,
        Some(v) => Some(v@),
    }
}

/// Everything a tag carrier holds, as plain mathematical values.
pub open spec fn et_view(e: EntryTag) -> (i64, i64, i64, Option<Seq<String>>) {
    (e.id, e.user_id, e.workspace_id, opt_tags_view(e.tags))
}

/// The tag carrier a raw record contributes to its merged entry.
pub open spec fn carrier_of(e: TimeEntry) -> (i64, i64, i64, Option<Seq<String>>) {
    (e.id, e.user_id, e.workspace_id, opt_tags_view(e.tags))
}

/// Some element of `v` reads `x`.
pub open spec fn seq_has_view(v: Seq<String>, x: Seq<char>) -> bool {
    exists|k: int| 0 <= k < v.len() && (#[trigger] v[k])@ == x
}

/// The carrier's tag set contains a tag reading `x`.
pub open spec fn entry_has_tag(e: EntryTag, x: Seq<char>) -> bool {
    match e.tags {
        None => false,
        Some(v) => seq_has_view(v@, x),
    }
}

/// Whether some element of `v` equals the string `s`.
pub fn vec_has_string(v: &Vec<String>, s: &str) -> (b: bool)
    ensures
        b == seq_has_view(v@, s@),
{
    let n: usize = v.len();
    let mut i: usize = 0;
    while i < n
        invariant
            0 <= i <= n,
            n == v@.len(),
            forall|k: int| 0 <= k < i ==> (#[trigger] v@[k])@ != s@,
        decreases n - i,
    {
        if crate::text::str_eq(v[i].as_str(), s) {
            return true;
        }
        i = i + 1;
    }
    false
}

/// Duplicates a vector of strings, keeping each element's text.
pub fn clone_string_vec(v: &Vec<String>) -> (r: Vec<String>)
    ensures
        r@ == v@,
{
    let n: usize = v.len();
    let mut r: Vec<String> = Vec::new();
    let mut i: usize = 0;
    while i < n
        invariant
            0 <= i <= n,
            n == v@.len(),
            r@ =~= v@.take(i as int),
        decreases n - i,
    {
        r.push(v[i].clone());
        proof {
            assert(r@ =~= v@.take(i + 1));
        }
        i = i + 1;
    }
    proof {
        assert(v@.take(n as int) =~= v@);
    }
    r
}

/// Duplicates an optional tag list, keeping each tag's text.
pub fn clone_opt_tags(t: &Option<Vec<String>>) -> (r: Option<Vec<String>>)
    ensures
        opt_tags_view(r) == opt_tags_view(*t),
{
    match t {
        None => None,
        Some(v) => Some(clone_string_vec(v)),
    }
}

impl EntryTag {
    /// A copy of this carrier with the same identity and tag texts.
    pub fn duplicate(&self) -> (r: EntryTag)
        ensures
            et_view(r) == et_view(*self),
    {
        let tags = match &self.tags {
            None => None,
            Some(v) => Some(clone_string_vec(v)),
        };
        EntryTag { id: self.id, user_id: self.user_id, workspace_id: self.workspace_id, tags }
    }
}

/// Marking is idempotent at the level of tag sets: on a carrier that
/// already holds the marker, the union that `add_tag` promises adds
/// nothing, so re-running a sync cannot duplicate markers.
pub proof fn lemma_mark_idempotent(e: EntryTag, marker: Seq<char>, x: Seq<char>)
    requires
        entry_has_tag(e, marker),
    ensures
        (x == marker || entry_has_tag(e, x)) <==> entry_has_tag(e, x),
{
}

/// Builds the tag set that marks a record as handled: the marker tag,
/// followed by the record's original tags, without duplicates. Because the
/// update is a set union rather than an append, applying it to an already
/// marked record yields the same set again.
pub fn add_tag(entry: &EntryTag, new_tag: &str) -> (r: TagRequest)
    ensures
        r.tags@.len() >= 1,
        (r.tags@[0])@ == new_tag@,
        forall|a: int, b: int|
            0 <= a < b < r.tags@.len() ==> (#[trigger] r.tags@[a])@ != (#[trigger] r.tags@[b])@,
        forall|x: Seq<char>|
            #[trigger] seq_has_view(r.tags@, x) <==> (x == new_tag@ || entry_has_tag(*entry, x)),
{
    let mut out: Vec<String> = Vec::new();
    out.push(new_tag.to_owned());
    match &entry.tags {
        None => {},
        Some(existing) => {
            let n: usize = existing.len();
            let mut i: usize = 0;
            proof {
                assert forall|x: Seq<char>| #[trigger] seq_has_view(out@, x) implies x
                    == new_tag@ by {
                    let k = choose|k: int| 0 <= k < out@.len() && (#[trigger] out@[k])@ == x;
                }
                assert(seq_has_view(out@, new_tag@)) by {
                    assert((out@[0])@ == new_tag@);
                }
            }
            while i < n
                invariant
                    0 <= i <= n,
                    n == existing@.len(),
                    out@.len() >= 1,
                    (out@[0])@ == new_tag@,
                    forall|a: int, b: int|
                        0 <= a < b < out@.len() ==> (#[trigger] out@[a])@ != (#[trigger] out@[b])@,
                    forall|x: Seq<char>|
                        #[trigger] seq_has_view(out@, x) <==> (x == new_tag@ || seq_has_view(
                            existing@.take(i as int),
                            x,
                        )),
                decreases n - i,
            {
                let tag = &existing[i];
                let ghost out0 = out@;
                let ghost tv = existing@[i as int]@;
                if !vec_has_string(&out, tag.as_str()) {
                    out.push(tag.clone());
                    proof {
                        assert(out@ =~= out0.push(out@[out@.len() - 1]));
                        assert((out@[out@.len() - 1])@ == tv);
                        assert forall|a: int, b: int|
                            0 <= a < b < out@.len() implies (#[trigger] out@[a])@ != (
                        #[trigger] out@[b])@ by {
                            if b == out@.len() - 1 {
                                assert(out@[a] == out0[a]);
                                assert(!seq_has_view(out0, tv));
                            }
                        }
                        assert forall|x: Seq<char>| #[trigger] seq_has_view(out@, x) implies (x
                            == new_tag@ || seq_has_view(existing@.take(i + 1), x)) by {
                            let k = choose|k: int|
                                0 <= k < out@.len() && (#[trigger] out@[k])@ == x;
                            if k < out@.len() - 1 {
                                assert(out0[k]@ == x);
                                assert(seq_has_view(out0, x));
                                if x != new_tag@ {
                                    let k2 = choose|k2: int|
                                        0 <= k2 < existing@.take(i as int).len() && (
                                        #[trigger] existing@.take(i as int)[k2])@ == x;
                                    assert(existing@.take(i + 1)[k2]@ == x);
                                    assert(seq_has_view(existing@.take(i + 1), x));
                                }
                            } else {
                                assert(x == tv);
                                assert(existing@.take(i + 1)[i as int]@ == x);
                                assert(seq_has_view(existing@.take(i + 1), x));
                            }
                        }
                        assert forall|x: Seq<char>|
                            x == new_tag@ || seq_has_view(existing@.take(i + 1), x) implies #[trigger] seq_has_view(
                            out@,
                            x,
                        ) by {
                            if x == new_tag@ {
                                assert((out@[0])@ == x);
                            } else {
                                let k = choose|k: int|
                                    0 <= k < existing@.take(i + 1).len() && (
                                    #[trigger] existing@.take(i + 1)[k])@ == x;
                                if k < i {
                                    assert(existing@.take(i as int)[k]@ == x);
                                    assert(seq_has_view(existing@.take(i as int), x));
                                    assert(seq_has_view(out0, x));
                                    let k2 = choose|k2: int|
                                        0 <= k2 < out0.len() && (#[trigger] out0[k2])@ == x;
                                    assert((out@[k2])@ == x);
                                } else {
                                    assert(x == tv);
                                    assert((out@[out@.len() - 1])@ == x);
                                }
                            }
                        }
                    }
                } else {
                    proof {
                        assert forall|x: Seq<char>| #[trigger] seq_has_view(out@, x) implies (x
                            == new_tag@ || seq_has_view(existing@.take(i + 1), x)) by {
                            if x != new_tag@ {
                                let k2 = choose|k2: int|
                                    0 <= k2 < existing@.take(i as int).len() && (
                                    #[trigger] existing@.take(i as int)[k2])@ == x;
                                assert(existing@.take(i + 1)[k2]@ == x);
                                assert(seq_has_view(existing@.take(i + 1), x));
                            }
                        }
                        assert forall|x: Seq<char>|
                            x == new_tag@ || seq_has_view(existing@.take(i + 1), x) implies #[trigger] seq_has_view(
                            out@,
                            x,
                        ) by {
                            if x != new_tag@ {
                                let k = choose|k: int|
                                    0 <= k < existing@.take(i + 1).len() && (
                                    #[trigger] existing@.take(i + 1)[k])@ == x;
                                if k < i {
                                    assert(existing@.take(i as int)[k]@ == x);
                                    assert(seq_has_view(existing@.take(i as int), x));
                                } else {
                                    assert(x == tv);
                                    assert(seq_has_view(out@, tv));
                                }
                            }
                        }
                    }
                }
                i = i + 1;
            }
            proof {
                assert(existing@.take(n as int) =~= existing@);
            }
        },
    }
    TagRequest { tags: out }
}

} // verus!
