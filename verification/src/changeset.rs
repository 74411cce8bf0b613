//! The changeset aggregator: an in-memory mapping from byte-sequence keys to
//! byte-sequence values with last-write-wins semantics. One batch holds two
//! independent instances, one for the memory namespace and one for storage.

use vstd::prelude::*;
use crate::types::Pair;
use crate::types::bytes_eq;

verus! {

/// Folds a write stream into a mapping, later writes overriding earlier ones.
pub open spec fn map_of(s: Seq<Pair>) -> Map<Seq<u8>, Seq<u8>>
    decreases s.len(),
{
    if s.len() == 0 {
        Map::empty()
    } else {
        map_of(s.drop_last()).insert(s.last().key@, s.last().value@)
    }
}

/// No two entries share a key.
pub open spec fn keys_unique(s: Seq<Pair>) -> bool {
    forall|i: int, j: int| 0 <= i < j < s.len() ==> s[i].key@ != s[j].key@
}

/// A batch's accumulated writes for one namespace. Semantically the
/// changeset is the mapping `self@`; the entries additionally keep a
/// canonical order — the order in which their keys were first written.
/// Transactions in a batch are applied strictly sequentially in a fixed,
/// caller-determined order, so the write history, and with it the entry
/// order and the serialized form, is a deterministic function of the ordered
/// batch: two runs over the same ordered transactions yield identical bytes.
pub struct Changeset {
    entries: Vec<Pair>,
}

impl View for Changeset {
    type V = Map<Seq<u8>, Seq<u8>>;

    open spec fn view(&self) -> Map<Seq<u8>, Seq<u8>> {
        map_of(self.entries_seq())
    }
}

/// Some entry of the write stream carries this key.
pub open spec fn has_key(s: Seq<Pair>, k: Seq<u8>) -> bool {
    exists|i: int| 0 <= i < s.len() && (#[trigger] s[i]).key@ == k
}

pub proof fn lemma_map_of_domain(s: Seq<Pair>)
    ensures
        forall|k: Seq<u8>| #[trigger] map_of(s).contains_key(k) <==> has_key(s, k),
    decreases s.len(),
{
    if s.len() > 0 {
        let t = s.drop_last();
        lemma_map_of_domain(t);
        assert forall|k: Seq<u8>| #[trigger] map_of(s).contains_key(k) implies has_key(s, k) by {
            if k == s.last().key@ {
                assert(0 <= s.len() - 1 < s.len() && s[s.len() - 1].key@ == k);
            } else {
                assert(map_of(t).contains_key(k));
                let i = choose|i: int| 0 <= i < t.len() && (#[trigger] t[i]).key@ == k;
                assert(s[i] == t[i]);
            }
        }
        assert forall|k: Seq<u8>| has_key(s, k) implies #[trigger] map_of(s).contains_key(k) by {
            let i = choose|i: int| 0 <= i < s.len() && (#[trigger] s[i]).key@ == k;
            if i < s.len() - 1 {
                assert(t[i] == s[i]);
                assert(has_key(t, k));
                assert(map_of(t).contains_key(k));
            }
        }
    }
}

/// With unique keys, the mapping holds exactly each entry's value at its key.
pub proof fn lemma_map_of_at(s: Seq<Pair>, i: int)
    requires
        keys_unique(s),
        0 <= i < s.len(),
    ensures
        map_of(s).contains_key(s[i].key@),
        map_of(s)[s[i].key@] == s[i].value@,
    decreases s.len(),
{
    if i == s.len() - 1 {
    } else {
        lemma_map_of_at(s.drop_last(), i);
        assert(s.drop_last()[i] == s[i]);
        assert(s[i].key@ != s.last().key@);
    }
}

/// Replacing the value at one entry (same key) turns the mapping's value at
/// that key into the new value and changes nothing else.
pub proof fn lemma_map_of_update(s: Seq<Pair>, i: int, e: Pair)
    requires
        keys_unique(s),
        0 <= i < s.len(),
        e.key@ == s[i].key@,
    ensures
        map_of(s.update(i, e)) == map_of(s).insert(e.key@, e.value@),
    decreases s.len(),
{
    let t = s.update(i, e);
    if i == s.len() - 1 {
        assert(t.drop_last() =~= s.drop_last());
        assert(map_of(t) =~= map_of(s).insert(e.key@, e.value@));
    } else {
        assert(t.drop_last() =~= s.drop_last().update(i, e));
        assert(s.drop_last()[i] == s[i]);
        lemma_map_of_update(s.drop_last(), i, e);
        assert(s[i].key@ != s.last().key@);
        assert(t.last() == s.last());
        assert(map_of(t) =~= map_of(s).insert(e.key@, e.value@));
    }
}

impl Changeset {
    /// The stored entries, in first-write key order; `self@` folds them.
    pub closed spec fn entries_seq(&self) -> Seq<Pair> {
        self.entries@
    }

    /// The type's invariant: stored keys are unique.
    pub open spec fn wf(&self) -> bool {
        keys_unique(self.entries_seq())
    }

    /// An empty changeset, as each batch starts with.
    pub fn new() -> (r: Changeset)
        ensures
            r.wf(),
            r@ == Map::<Seq<u8>, Seq<u8>>::empty(),
            r.entries_seq() == Seq::<Pair>::empty(),
    {
        Changeset { entries: Vec::new() }
    }

    /// How many distinct keys have been written.
    pub fn len(&self) -> (r: usize)
        requires
            self.wf(),
        ensures
            r == self.entries_seq().len(),
            r == self@.dom().len(),
    {
        proof {
            self.lemma_entry_count();
        }
        self.entries.len()
    }

    proof fn lemma_entry_count(&self)
        requires
            self.wf(),
        ensures
            self@.dom().len() == self.entries_seq().len(),
        decreases self.entries_seq().len(),
    {
        lemma_entries_count(self.entries_seq());
    }

    /// Borrows the entry at a position, for serialization.
    pub fn entry_at(&self, i: usize) -> (r: &Pair)
        requires
            i < self.entries_seq().len(),
        ensures
            *r == self.entries_seq()[i as int],
    {
        &self.entries[i]
    }

    /// Records a write: the key now maps to `value`, overriding any earlier
    /// write of the same key (last write wins).
    pub fn set(&mut self, key: Vec<u8>, value: Vec<u8>)
        requires
            old(self).wf(),
        ensures
            final(self).wf(),
            final(self)@ == old(self)@.insert(key@, value@),
            old(self)@.contains_key(key@) ==> final(self).entries_seq().len() == old(
                self,
            ).entries_seq().len(),
            !old(self)@.contains_key(key@) ==> final(self).entries_seq() == old(
                self,
            ).entries_seq().push(Pair { key: key, value: value }),
    {
        let ghost s0 = old(self).entries@;
        let mut i: usize = 0;
        while i < self.entries.len()
            invariant
                s0 == old(self).entries_seq(),
                self.entries@ == s0,
                keys_unique(s0),
                i <= s0.len(),
                forall|j: int| 0 <= j < i ==> s0[j].key@ != key@,
            decreases s0.len() - i,
        {
            if bytes_eq(&self.entries[i].key, &key) {
                let e = Pair { key, value };
                let ghost ge = e;
                proof {
                    lemma_map_of_domain(s0);
                    assert(0 <= i < s0.len() && s0[i as int].key@ == ge.key@);
                    lemma_map_of_update(s0, i as int, ge);
                }
                self.entries.set(i, e);
                proof {
                    assert(map_of(self.entries@) == map_of(s0).insert(ge.key@, ge.value@));
                    assert forall|a: int, b: int|
                        0 <= a < b < self.entries@.len() implies self.entries@[a].key@
                        != self.entries@[b].key@ by {
                        assert(self.entries@[a].key@ == s0[a].key@);
                        assert(self.entries@[b].key@ == s0[b].key@);
                    }
                }
                return ;
            }
            i += 1;
        }
        proof {
            lemma_map_of_domain(s0);
            assert(!map_of(s0).contains_key(key@));
        }
        let e = Pair { key, value };
        self.entries.push(e);
        proof {
            assert(self.entries@.drop_last() =~= s0);
            assert(forall|j: int| 0 <= j < s0.len() ==> self.entries@[j] == s0[j]);
        }
    }

    /// Looks a key up: returns the recorded value exactly when the key was
    /// written in this batch.
    pub fn get(&self, key: &Vec<u8>) -> (r: Option<&Vec<u8>>)
        requires
            self.wf(),
        ensures
            match r {
                Some(v) => self@.contains_key(key@) && v@ == self@[key@],
                None => !self@.contains_key(key@),
            },
    {
        let ghost s0 = self.entries@;
        let mut i: usize = 0;
        while i < self.entries.len()
            invariant
                self.wf(),
                self.entries@ == s0,
                i <= s0.len(),
                forall|j: int| 0 <= j < i ==> s0[j].key@ != key@,
            decreases s0.len() - i,
        {
            if bytes_eq(&self.entries[i].key, key) {
                proof {
                    lemma_map_of_at(s0, i as int);
                }
                return Some(&self.entries[i].value);
            }
            i += 1;
        }
        proof {
            lemma_map_of_domain(s0);
        }
        None
    }

}

proof fn lemma_entries_count(s: Seq<Pair>)
    requires
        keys_unique(s),
    ensures
        map_of(s).dom().len() == s.len(),
        map_of(s).dom().finite(),
    decreases s.len(),
{
    if s.len() > 0 {
        lemma_entries_count(s.drop_last());
        lemma_map_of_domain(s.drop_last());
        assert(!map_of(s.drop_last()).contains_key(s.last().key@));
        vstd::set::axiom_set_insert_len(map_of(s.drop_last()).dom(), s.last().key@);
        assert(map_of(s).dom() =~= map_of(s.drop_last()).dom().insert(s.last().key@));
    }
}

} // verus!
