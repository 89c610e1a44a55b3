//! The persistent key→description registry: unique keys, last-writer-wins
//! insertion, and the rendering used when keys are listed or filtered.

use vstd::prelude::*;
use vstd::string::StringExecFns;

use crate::records::seq_has_view;
use crate::text;

verus! {

/// One confirmed key→description pair.
pub struct RegistryEntry {
    pub key: String,
    pub desc: String,
}

/// The key→description registry, loaded at sync start and persisted at sync
/// end. Keys are unique; insertion overwrites silently.
pub struct KeyRegistry {
    pub pairs: Vec<RegistryEntry>,
}

/// `"<key>: <description>"`, the rendering of one registry pair.
pub open spec fn rendered(k: Seq<char>, d: Seq<char>) -> Seq<char> {
    k + seq![':', ' '] + d
}

impl KeyRegistry {
    /// Keys are pairwise distinct.
    pub open spec fn wf(self) -> bool {
        forall|a: int, b: int|
            0 <= a < b < self.pairs@.len() ==> (#[trigger] self.pairs@[a]).key@ != (
            #[trigger] self.pairs@[b]).key@
    }

    /// The registry holds `k`.
    pub open spec fn spec_contains(self, k: Seq<char>) -> bool {
        exists|i: int| 0 <= i < self.pairs@.len() && (#[trigger] self.pairs@[i]).key@ == k
    }

    /// The registry maps `k` to `d`.
    pub open spec fn has_pair(self, k: Seq<char>, d: Seq<char>) -> bool {
        exists|i: int|
            0 <= i < self.pairs@.len() && (#[trigger] self.pairs@[i]).key@ == k
                && self.pairs@[i].desc@ == d
    }

    /// The empty registry, which an absent or corrupt backing store yields.
    pub fn new() -> (r: KeyRegistry)
        ensures
            r.pairs@.len() == 0,
            r.wf(),
    {
        KeyRegistry { pairs: Vec::new() }
    }

    pub fn len(&self) -> (n: usize)
        ensures
            n == self.pairs@.len(),
    {
        self.pairs.len()
    }

    pub fn key_at(&self, i: usize) -> (k: &String)
        requires
            i < self.pairs@.len(),
        ensures
            k@ == self.pairs@[i as int].key@,
    {
        &self.pairs[i].key
    }

    pub fn desc_at(&self, i: usize) -> (d: &String)
        requires
            i < self.pairs@.len(),
        ensures
            d@ == self.pairs@[i as int].desc@,
    {
        &self.pairs[i].desc
    }

    /// Index of `key`, when present.
    fn find_index(&self, key: &str) -> (r: Option<usize>)
        ensures
            match r {
                Some(i) => i < self.pairs@.len() && self.pairs@[i as int].key@ == key@,
                None => !self.spec_contains(key@),
            },
    {
        let n: usize = self.pairs.len();
        let mut i: usize = 0;
        while i < n
            invariant
                0 <= i <= n,
                n == self.pairs@.len(),
                forall|k: int| 0 <= k < i ==> (#[trigger] self.pairs@[k]).key@ != key@,
            decreases n - i,
        {
            if text::str_eq(self.pairs[i].key.as_str(), key) {
                return Some(i);
            }
            i = i + 1;
        }
        None
    }

    pub fn contains(&self, key: &str) -> (b: bool)
        ensures
            b == self.spec_contains(key@),
    {
        match self.find_index(key) {
            Some(_) => true,
            None => false,
        }
    }

    /// The description stored for `key`, when the registry holds it.
    pub fn get(&self, key: &str) -> (r: Option<&String>)
        ensures
            match r {
                Some(d) => self.has_pair(key@, d@),
                None => !self.spec_contains(key@),
            },
    {
        match self.find_index(key) {
            Some(i) => Some(&self.pairs[i].desc),
            None => None,
        }
    }

    /// Inserts or overwrites, last-writer-wins: the key now maps to `desc`,
    /// every other pair stays as it was, and no position moves.
    pub fn insert(&mut self, key: String, desc: String)
        requires
            old(self).wf(),
        ensures
            final(self).wf(),
            final(self).pairs@.len() == old(self).pairs@.len() + (if old(self).spec_contains(key@) {
                0int
            } else {
                1
            }),
            forall|i: int|
                0 <= i < old(self).pairs@.len() ==> (#[trigger] final(self).pairs@[i]).key@ == old(
                    self,
                ).pairs@[i].key@,
            forall|i: int|
                0 <= i < old(self).pairs@.len() && old(self).pairs@[i].key@ != key@ ==> (
                #[trigger] final(self).pairs@[i]).desc@ == old(self).pairs@[i].desc@,
            forall|i: int|
                0 <= i < final(self).pairs@.len() && (#[trigger] final(self).pairs@[i]).key@
                    == key@ ==> final(self).pairs@[i].desc@ == desc@,
            final(self).spec_contains(key@),
            forall|x: Seq<char>|
                #[trigger] final(self).spec_contains(x) <==> (x == key@ || old(self).spec_contains(
                    x,
                )),
    {
        let ghost p0 = self.pairs@;
        match self.find_index(key.as_str()) {
            Some(i) => {
                let _removed = self.pairs.remove(i);
                let entry = RegistryEntry { key, desc };
                self.pairs.insert(i, entry);
                proof {
                    assert(self.pairs@ =~= p0.update(i as int, self.pairs@[i as int]));
                    assert forall|x: Seq<char>| #[trigger] self.spec_contains(x) implies (x
                        == key@ || old(self).spec_contains(x)) by {
                        let k = choose|k: int|
                            0 <= k < self.pairs@.len() && (#[trigger] self.pairs@[k]).key@ == x;
                        if k != i {
                            assert(p0[k].key@ == x);
                        }
                    }
                    assert forall|x: Seq<char>|
                        x == key@ || old(self).spec_contains(x) implies #[trigger] self.spec_contains(
                        x,
                    ) by {
                        if x == key@ {
                            assert(self.pairs@[i as int].key@ == x);
                        } else {
                            let k = choose|k: int| 0 <= k < p0.len() && (#[trigger] p0[k]).key@ == x;
                            assert(self.pairs@[k].key@ == x);
                        }
                    }
                }
            },
            None => {
                let entry = RegistryEntry { key, desc };
                self.pairs.push(entry);
                proof {
                    assert forall|x: Seq<char>| #[trigger] self.spec_contains(x) implies (x
                        == key@ || old(self).spec_contains(x)) by {
                        let k = choose|k: int|
                            0 <= k < self.pairs@.len() && (#[trigger] self.pairs@[k]).key@ == x;
                        if k < p0.len() {
                            assert(p0[k].key@ == x);
                        }
                    }
                    assert forall|x: Seq<char>|
                        x == key@ || old(self).spec_contains(x) implies #[trigger] self.spec_contains(
                        x,
                    ) by {
                        if x == key@ {
                            assert(self.pairs@[self.pairs@.len() - 1].key@ == x);
                        } else {
                            let k = choose|k: int| 0 <= k < p0.len() && (#[trigger] p0[k]).key@ == x;
                            assert(self.pairs@[k].key@ == x);
                        }
                    }
                    assert forall|a: int, b: int| 0 <= a < b < self.pairs@.len() implies (
                    #[trigger] self.pairs@[a]).key@ != (#[trigger] self.pairs@[b]).key@ by {
                        if b == self.pairs@.len() - 1 {
                            assert(p0[a].key@ == self.pairs@[a].key@);
                            assert(!old(self).spec_contains(key@));
                        }
                    }
                }
            },
        }
    }

    /// Drops every pair whose rendering stands in `selected`; the rest keep
    /// their key and description. This backs the interactive key cleanup.
    pub fn remove_rendered(&mut self, selected: &Vec<String>)
        requires
            old(self).wf(),
        ensures
            final(self).wf(),
            forall|k: Seq<char>, d: Seq<char>|
                #[trigger] final(self).has_pair(k, d) <==> (old(self).has_pair(k, d)
                    && !seq_has_view(selected@, rendered(k, d))),
    {
        let n: usize = self.pairs.len();
        let ghost p0 = self.pairs@;
        let mut out: Vec<RegistryEntry> = Vec::new();
        let mut i: usize = 0;
        while i < n
            invariant
                0 <= i <= n,
                n == p0.len(),
                self.pairs@ == p0,
                old(self).pairs@ == p0,
                old(self).wf(),
                forall|a: int, b: int|
                    0 <= a < b < out@.len() ==> (#[trigger] out@[a]).key@ != (
                    #[trigger] out@[b]).key@,
                forall|a: int|
                    0 <= a < out@.len() ==> !seq_has_view(
                        selected@,
                        rendered((#[trigger] out@[a]).key@, out@[a].desc@),
                    ),
                forall|a: int|
                    0 <= a < out@.len() ==> exists|q: int|
                        0 <= q < i && (#[trigger] out@[a]).key@ == p0[q].key@ && out@[a].desc@
                            == p0[q].desc@,
                forall|q: int|
                    0 <= q < i && !seq_has_view(
                        selected@,
                        rendered((#[trigger] p0[q]).key@, p0[q].desc@),
                    ) ==> exists|a: int|
                        0 <= a < out@.len() && (#[trigger] out@[a]).key@ == p0[q].key@
                            && out@[a].desc@ == p0[q].desc@,
            decreases n - i,
        {
            let entry = &self.pairs[i];
            let shown = format_key(entry.key.as_str(), entry.desc.as_str());
            let keep = !crate::records::vec_has_string(selected, shown.as_str());
            let ghost out0 = out@;
            if keep {
                out.push(RegistryEntry { key: entry.key.clone(), desc: entry.desc.clone() });
                proof {
                    let last: int = out@.len() - 1;
                    assert((out@[last]).key@ == p0[i as int].key@);
                    assert((out@[last]).desc@ == p0[i as int].desc@);
                    assert forall|a: int| 0 <= a < out@.len() implies exists|q: int|
                        0 <= q < i + 1 && (#[trigger] out@[a]).key@ == p0[q].key@ && out@[a].desc@
                            == p0[q].desc@ by {
                        if a < last {
                            assert(out@[a] == out0[a]);
                            let q = choose|q: int|
                                0 <= q < i && (#[trigger] out0[a]).key@ == p0[q].key@
                                    && out0[a].desc@ == p0[q].desc@;
                            assert(0 <= q < i + 1 && (out@[a]).key@ == p0[q].key@ && out@[a].desc@
                                == p0[q].desc@);
                        } else {
                            assert((out@[a]).key@ == p0[i as int].key@ && out@[a].desc@ == p0[i as int].desc@);
                        }
                    }
                    assert forall|a: int, b: int| 0 <= a < b < out@.len() implies (
                    #[trigger] out@[a]).key@ != (#[trigger] out@[b]).key@ by {
                        if b == last {
                            let q = choose|q: int|
                                0 <= q < i && (#[trigger] out0[a]).key@ == p0[q].key@
                                    && out0[a].desc@ == p0[q].desc@;
                            assert(p0[q].key@ != p0[i as int].key@);
                        }
                    }
                    assert forall|q: int|
                        0 <= q < i + 1 && !seq_has_view(
                            selected@,
                            rendered((#[trigger] p0[q]).key@, p0[q].desc@),
                        ) implies exists|a: int|
                        0 <= a < out@.len() && (#[trigger] out@[a]).key@ == p0[q].key@
                            && out@[a].desc@ == p0[q].desc@ by {
                        if q < i {
                            let a = choose|a: int|
                                0 <= a < out0.len() && (#[trigger] out0[a]).key@ == p0[q].key@
                                    && out0[a].desc@ == p0[q].desc@;
                            assert(0 <= a < out@.len() && (out@[a]).key@ == p0[q].key@
                                && out@[a].desc@ == p0[q].desc@);
                        } else {
                            assert(0 <= last < out@.len() && (out@[last]).key@ == p0[q].key@
                                && out@[last].desc@ == p0[q].desc@);
                        }
                    }
                }
            } else {
                proof {
                    assert forall|q: int|
                        0 <= q < i + 1 && !seq_has_view(
                            selected@,
                            rendered((#[trigger] p0[q]).key@, p0[q].desc@),
                        ) implies exists|a: int|
                        0 <= a < out@.len() && (#[trigger] out@[a]).key@ == p0[q].key@
                            && out@[a].desc@ == p0[q].desc@ by {
                        if q == i as int {
                            assert(seq_has_view(selected@, rendered(p0[q].key@, p0[q].desc@)));
                        }
                    }
                }
            }
            i = i + 1;
        }
        self.pairs = out;
        proof {
            assert forall|k: Seq<char>, d: Seq<char>| #[trigger] final(self).has_pair(
                k,
                d,
            ) implies (old(self).has_pair(k, d) && !seq_has_view(selected@, rendered(k, d))) by {
                let a = choose|a: int|
                    0 <= a < self.pairs@.len() && (#[trigger] self.pairs@[a]).key@ == k
                        && self.pairs@[a].desc@ == d;
                let q = choose|q: int|
                    0 <= q < n && (#[trigger] self.pairs@[a]).key@ == p0[q].key@
                        && self.pairs@[a].desc@ == p0[q].desc@;
                assert(p0[q].key@ == k && p0[q].desc@ == d);
            }
            assert forall|k: Seq<char>, d: Seq<char>|
                old(self).has_pair(k, d) && !seq_has_view(
                    selected@,
                    rendered(k, d),
                ) implies #[trigger] final(self).has_pair(k, d) by {
                let q = choose|q: int|
                    0 <= q < p0.len() && (#[trigger] p0[q]).key@ == k && p0[q].desc@ == d;
                let a = choose|a: int|
                    0 <= a < self.pairs@.len() && (#[trigger] self.pairs@[a]).key@ == p0[q].key@
                        && self.pairs@[a].desc@ == p0[q].desc@;
                assert(self.pairs@[a].key@ == k && self.pairs@[a].desc@ == d);
            }
        }
    }
}

/// Renders one registry pair as `"<key>: <description>"` for listing and
/// selection.
pub fn format_key(key: &str, value: &str) -> (r: String)
    ensures
        r@ == rendered(key@, value@),
{
    let r = key.to_owned().concat(": ").concat(value);
    proof {
        reveal_strlit(": ");
        assert(r@ =~= rendered(key@, value@));
    }
    r
}

} // verus!
