//! The lookup matcher: the mutable working set of still-outstanding
//! requested keys, shrunk by exactly one entry each time a record is
//! matched and committed.

use vstd::prelude::*;

verus! {

use crate::entry::JMDictEntry;
use crate::entry_id::JMDictEntryId;

/// The view of a sequence of requested keys.
pub open spec fn id_views(v: Seq<JMDictEntryId>) -> Seq<Seq<char>> {
    v.map_values(|k: JMDictEntryId| k@)
}

/// The view of a sequence of entries as the sequence of their keys.
pub open spec fn entry_keys(v: Seq<JMDictEntry>) -> Seq<Seq<char>> {
    v.map_values(|e: JMDictEntry| e@.key)
}

/// The index of the first key in `keys` equal to `cand`, if any.
pub open spec fn find_key(keys: Seq<Seq<char>>, cand: Seq<char>) -> Option<int>
    decreases keys.len(),
{
    if keys.len() == 0 {
        None
    } else if keys[0] == cand {
        Some(0)
    } else {
        match find_key(keys.drop_first(), cand) {
            Some(i) => Some(i + 1),
            None => None,
        }
    }
}

/// `find_key` returns the first index holding `cand`, or `None` when no
/// index holds it.
pub proof fn lemma_find_key(keys: Seq<Seq<char>>, cand: Seq<char>)
    ensures
        match find_key(keys, cand) {
            Some(i) => 0 <= i < keys.len() && keys[i] == cand && (forall|j: int|
                0 <= j < i ==> keys[j] != cand),
            None => forall|j: int| 0 <= j < keys.len() ==> keys[j] != cand,
        },
    decreases keys.len(),
{
    if keys.len() == 0 {
    } else if keys[0] == cand {
    } else {
        lemma_find_key(keys.drop_first(), cand);
        assert(forall|j: int| 1 <= j < keys.len() ==> keys[j] == keys.drop_first()[j - 1]);
    }
}

/// Removes from `entries_ids` the first key exactly equal to
/// `kanji_string` and returns it; returns `None`, leaving the list
/// unchanged, when no key matches.
pub fn lookup_entry_id(entries_ids: &mut Vec<JMDictEntryId>, kanji_string: &str) -> (r: Option<
    JMDictEntryId,
>)
    ensures
        match find_key(id_views(old(entries_ids)@), kanji_string@) {
            Some(i) => r == Some(old(entries_ids)@[i]) && final(entries_ids)@ == old(
                entries_ids,
            )@.remove(i),
            None => r is None && final(entries_ids)@ == old(entries_ids)@,
        },
{
    let ghost keys = id_views(entries_ids@);
    proof {
        lemma_find_key(keys, kanji_string@);
    }
    let n = entries_ids.len();
    let mut i: usize = 0;
    while i < n
        invariant
            n == entries_ids@.len(),
            i <= n,
            entries_ids@ == old(entries_ids)@,
            keys == id_views(entries_ids@),
            forall|j: int| 0 <= j < i ==> keys[j] != kanji_string@,
            match find_key(keys, kanji_string@) {
                Some(k) => 0 <= k < keys.len() && keys[k] == kanji_string@ && (forall|j: int|
                    0 <= j < k ==> keys[j] != kanji_string@),
                None => forall|j: int| 0 <= j < keys.len() ==> keys[j] != kanji_string@,
            },
        decreases n - i,
    {
        proof {
            assert(keys[i as int] == entries_ids@[i as int]@);
        }
        if entries_ids[i].match_kanji(kanji_string) {
            proof {
                assert(find_key(keys, kanji_string@) == Some(i as int));
            }
            let id = entries_ids.remove(i);
            return Some(id);
        }
        i += 1;
    }
    None
}

/// The mutable set of still-outstanding requested keys for one scan. It
/// starts as the full requested list (duplicates are kept, each occupying
/// its own slot) and shrinks by exactly one entry per committed match.
pub struct LookupMatcher {
    outstanding: Vec<JMDictEntryId>,
}

impl View for LookupMatcher {
    type V = Seq<Seq<char>>;

    closed spec fn view(&self) -> Seq<Seq<char>> {
        id_views(self.outstanding@)
    }
}

impl LookupMatcher {
    /// Builds the working set from the caller's ordered key list.
    pub fn new(requested: Vec<JMDictEntryId>) -> (r: Self)
        ensures
            r@ == id_views(requested@),
    {
        LookupMatcher { outstanding: requested }
    }

    /// True when some outstanding key equals `candidate`.
    pub fn is_outstanding(&self, candidate: &str) -> (r: bool)
        ensures
            r == (find_key(self@, candidate@) is Some),
    {
        let ghost keys = self@;
        proof {
            lemma_find_key(keys, candidate@);
        }
        let n = self.outstanding.len();
        let mut i: usize = 0;
        while i < n
            invariant
                n == self.outstanding@.len(),
                i <= n,
                keys == id_views(self.outstanding@),
                forall|j: int| 0 <= j < i ==> keys[j] != candidate@,
                match find_key(keys, candidate@) {
                    Some(k) => 0 <= k < keys.len() && keys[k] == candidate@,
                    None => forall|j: int| 0 <= j < keys.len() ==> keys[j] != candidate@,
                },
            decreases n - i,
        {
            proof {
                assert(keys[i as int] == self.outstanding@[i as int]@);
            }
            if self.outstanding[i].match_kanji(candidate) {
                return true;
            }
            i += 1;
        }
        false
    }

    /// Removes the first outstanding key exactly equal to `candidate` and
    /// returns it; `Some` means a removal occurred.
    pub fn commit(&mut self, candidate: &str) -> (r: Option<JMDictEntryId>)
        ensures
            match find_key(old(self)@, candidate@) {
                Some(i) => r is Some && r->Some_0@ == candidate@ && final(self)@ == old(
                    self,
                )@.remove(i),
                None => r is None && final(self)@ == old(self)@,
            },
    {
        let ghost old_keys = self@;
        let ghost old_vec = self.outstanding@;
        let r = lookup_entry_id(&mut self.outstanding, candidate);
        proof {
            lemma_find_key(old_keys, candidate@);
            if let Some(i) = find_key(old_keys, candidate@) {
                assert(old_vec[i]@ == old_keys[i]);
                assert(id_views(old_vec.remove(i)) =~= id_views(old_vec).remove(i));
            }
        }
        r
    }

    /// True while any requested key is still unresolved.
    pub fn has_outstanding(&self) -> (r: bool)
        ensures
            r == (self@.len() > 0),
    {
        self.outstanding.len() > 0
    }
}


/// The positions, in request order, of the first entry whose key equals
/// each requested key; a requested key that no entry's key equals
/// contributes nothing.
pub open spec fn reorder_spec(req: Seq<Seq<char>>, keys: Seq<Seq<char>>) -> Seq<int>
    decreases req.len(),
{
    if req.len() == 0 {
        Seq::empty()
    } else {
        let rest = reorder_spec(req.drop_first(), keys);
        match find_key(keys, req[0]) {
            Some(i) => seq![i] + rest,
            None => rest,
        }
    }
}

/// Re-imposes the caller's original key order on a batch of entries: for
/// each requested key, in request order, the index of the first entry
/// whose key equals it. Requested keys that match no entry are skipped, so
/// the caller can detect them by diffing against the request.
#[verifier::loop_isolation(false)]
pub fn reorder_entries(requested: &Vec<JMDictEntryId>, entries: &Vec<JMDictEntry>) -> (r: Vec<
    usize,
>)
    ensures
        r@.map_values(|u: usize| u as int) == reorder_spec(
            id_views(requested@),
            entry_keys(entries@),
        ),
        forall|j: int| 0 <= j < r@.len() ==> (#[trigger] r@[j]) < entries@.len(),
{
    let ghost req = id_views(requested@);
    let ghost keys = entry_keys(entries@);
    let mut r: Vec<usize> = Vec::new();
    let n = requested.len();
    let m = entries.len();
    let mut i: usize = 0;
    proof {
        assert(req.subrange(0, n as int) =~= req);
        assert(r@.map_values(|u: usize| u as int) + reorder_spec(req, keys) =~= reorder_spec(
            req,
            keys,
        ));
    }
    while i < n
        invariant
            i <= n,
            r@.map_values(|u: usize| u as int) + reorder_spec(
                req.subrange(i as int, n as int),
                keys,
            ) == reorder_spec(req, keys),
            forall|j: int| 0 <= j < r@.len() ==> (#[trigger] r@[j]) < m,
        decreases n - i,
    {
        let ghost rest = req.subrange(i as int, n as int);
        let ghost rest2 = req.subrange(i as int + 1, n as int);
        proof {
            assert(rest[0] == req[i as int]);
            assert(rest.drop_first() =~= rest2);
            assert(req[i as int] == requested@[i as int]@);
            lemma_find_key(keys, req[i as int]);
        }
        let cand = requested[i].kanji_string();
        let ghost pre = r@;
        let mut j: usize = 0;
        let mut hit: bool = false;
        while j < m && !hit
            invariant
                j <= m,
                hit ==> j > 0 && find_key(keys, cand@) == Some(j - 1 as int) && r@ == pre.push(
                    (j - 1) as usize,
                ),
                !hit ==> r@ == pre && (forall|k: int| 0 <= k < j ==> keys[k] != cand@),
            decreases m - j + (if hit { 0int } else { 1int }),
        {
            proof {
                assert(keys[j as int] == entries@[j as int]@.key);
            }
            if entries[j].entry_id().match_kanji(cand) {
                proof {
                    assert(find_key(keys, cand@) == Some(j as int));
                }
                r.push(j);
                hit = true;
            }
            j += 1;
        }
        proof {
            if hit {
                let w = (j - 1) as usize;
                assert(r@.map_values(|u: usize| u as int) =~= pre.map_values(|u: usize| u as int)
                    + seq![w as int]);
                assert(pre.map_values(|u: usize| u as int) + seq![w as int] + reorder_spec(
                    rest2,
                    keys,
                ) =~= pre.map_values(|u: usize| u as int) + (seq![w as int] + reorder_spec(
                    rest2,
                    keys,
                )));
            } else {
                assert(find_key(keys, cand@) is None);
            }
        }
        i += 1;
    }
    proof {
        assert(req.subrange(n as int, n as int) =~= Seq::<Seq<char>>::empty());
        assert(r@.map_values(|u: usize| u as int) + Seq::<int>::empty() =~= r@.map_values(
            |u: usize| u as int,
        ));
    }
    r
}

} // verus!
