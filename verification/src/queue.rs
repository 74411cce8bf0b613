//! The reliable-dequeue protocol's processing list, modeled as the sequence
//! of serialized transaction byte forms currently in flight. The queue
//! service keeps the real list; the surrounding process mirrors every
//! operation onto it through the service's atomic move and remove
//! primitives. A transaction's identity here is its exact byte encoding.

use vstd::prelude::*;
use crate::types::Transaction;
use crate::types::FatalError;
use crate::types::bytes_eq;
use crate::cbor::spec_enc_tx;
use crate::cbor::spec_tx_at;
use crate::cbor::tx_views_eq;
use crate::cbor::decode_transaction;

verus! {

/// How many entries of the list equal `x`.
pub open spec fn count_matches(s: Seq<Seq<u8>>, x: Seq<u8>) -> nat
    decreases s.len(),
{
    if s.len() == 0 {
        0
    } else {
        (if s[0] == x {
            1nat
        } else {
            0nat
        }) + count_matches(s.drop_first(), x)
    }
}

/// The list after an acknowledge: the first entry equal to `x` is removed;
/// a list holding no such entry is unchanged (acknowledging an absent item
/// is a no-op, not an error).
pub open spec fn spec_ack(s: Seq<Seq<u8>>, x: Seq<u8>) -> Seq<Seq<u8>>
    decreases s.len(),
{
    if s.len() == 0 {
        s
    } else if s[0] == x {
        s.drop_first()
    } else {
        seq![s[0]] + spec_ack(s.drop_first(), x)
    }
}

proof fn lemma_count_cons(a: Seq<u8>, t: Seq<Seq<u8>>, x: Seq<u8>)
    ensures
        count_matches(seq![a] + t, x) == (if a == x {
            1nat
        } else {
            0nat
        }) + count_matches(t, x),
{
    let s = seq![a] + t;
    assert(s.len() == t.len() + 1);
    assert(s[0] == a);
    assert(s.drop_first() =~= t);
}

/// A list with no matching entry is left exactly as it was.
pub proof fn lemma_ack_absent(s: Seq<Seq<u8>>, x: Seq<u8>)
    requires
        forall|j: int| 0 <= j < s.len() ==> s[j] != x,
    ensures
        spec_ack(s, x) == s,
    decreases s.len(),
{
    if s.len() > 0 {
        let t = s.drop_first();
        assert forall|j: int| 0 <= j < t.len() implies t[j] != x by {
            assert(t[j] == s[j + 1]);
        }
        lemma_ack_absent(t, x);
        assert(spec_ack(s, x) =~= s);
    }
}

/// Acknowledging removes the first occurrence when one exists.
pub proof fn lemma_ack_at(s: Seq<Seq<u8>>, x: Seq<u8>, i: int)
    requires
        0 <= i < s.len(),
        s[i] == x,
        forall|j: int| 0 <= j < i ==> s[j] != x,
    ensures
        spec_ack(s, x) == s.remove(i),
    decreases s.len(),
{
    if i == 0 {
        assert(spec_ack(s, x) =~= s.remove(0));
    } else {
        let t = s.drop_first();
        assert(t[i - 1] == s[i]);
        assert forall|j: int| 0 <= j < i - 1 implies t[j] != x by {
            assert(t[j] == s[j + 1]);
        }
        lemma_ack_at(t, x, i - 1);
        assert(s[0] != x);
        assert(spec_ack(s, x) =~= s.remove(i));
    }
}

/// Acknowledging is exact and idempotent: one matching entry leaves with
/// each acknowledge while any is present (the other entries' counts are
/// untouched), and once none is left further acknowledges change nothing.
pub proof fn lemma_ack_counts(s: Seq<Seq<u8>>, x: Seq<u8>)
    ensures
        count_matches(s, x) > 0 ==> count_matches(spec_ack(s, x), x) == count_matches(s, x) - 1,
        count_matches(s, x) > 0 ==> spec_ack(s, x).len() == s.len() - 1,
        count_matches(s, x) == 0 ==> spec_ack(s, x) == s,
        forall|y: Seq<u8>|
            y != x ==> #[trigger] count_matches(spec_ack(s, x), y) == count_matches(s, y),
    decreases s.len(),
{
    if s.len() == 0 {
    } else {
        let t = s.drop_first();
        lemma_ack_counts(t, x);
        if s[0] == x {
            assert forall|y: Seq<u8>|
                y != x implies #[trigger] count_matches(spec_ack(s, x), y) == count_matches(
                s,
                y,
            ) by {}
        } else {
            if count_matches(s, x) == 0 {
                assert(spec_ack(t, x) == t);
                assert(spec_ack(s, x) =~= s);
            } else {
                lemma_count_cons(s[0], spec_ack(t, x), x);
            }
            assert forall|y: Seq<u8>|
                y != x implies #[trigger] count_matches(spec_ack(s, x), y) == count_matches(
                s,
                y,
            ) by {
                lemma_count_cons(s[0], spec_ack(t, x), y);
            }
        }
    }
}

/// Acknowledging twice removes at most one entry: when a single copy is in
/// flight (the normal-operation invariant), the second acknowledge is a
/// no-op.
pub proof fn lemma_ack_twice_noop(s: Seq<Seq<u8>>, x: Seq<u8>)
    requires
        count_matches(s, x) == 1,
    ensures
        count_matches(spec_ack(s, x), x) == 0,
        spec_ack(spec_ack(s, x), x) == spec_ack(s, x),
{
    lemma_ack_counts(s, x);
    lemma_ack_counts(spec_ack(s, x), x);
}

/// A matching entry exists exactly when the count is positive.
pub proof fn lemma_count_positive(s: Seq<Seq<u8>>, x: Seq<u8>)
    ensures
        count_matches(s, x) > 0 <==> exists|j: int| 0 <= j < s.len() && s[j] == x,
    decreases s.len(),
{
    if s.len() > 0 {
        let t = s.drop_first();
        lemma_count_positive(t, x);
        if count_matches(s, x) > 0 {
            if s[0] == x {
                assert(s[0] == x && 0 < s.len());
            } else {
                let j = choose|j: int| 0 <= j < t.len() && t[j] == x;
                assert(s[j + 1] == t[j]);
            }
        }
        if exists|j: int| 0 <= j < s.len() && s[j] == x {
            let j = choose|j: int| 0 <= j < s.len() && s[j] == x;
            if j > 0 {
                assert(t[j - 1] == s[j]);
            }
        }
    }
}

/// The in-flight entries of the processing list, in order.
pub struct ProcessingQueue {
    entries: Vec<Vec<u8>>,
}

impl ProcessingQueue {
    /// The serialized transactions currently in flight, in order.
    pub closed spec fn items(&self) -> Seq<Seq<u8>> {
        self.entries@.map(|i: int, v: Vec<u8>| v@)
    }

    /// An empty processing list.
    pub fn new() -> (r: ProcessingQueue)
        ensures
            r.items() == Seq::<Seq<u8>>::empty(),
    {
        let r = ProcessingQueue { entries: Vec::new() };
        proof {
            assert(r.items() =~= Seq::<Seq<u8>>::empty());
        }
        r
    }

    /// How many entries are in flight.
    pub fn len(&self) -> (r: usize)
        ensures
            r == self.items().len(),
    {
        self.entries.len()
    }

    /// Records that one serialized transaction moved into processing.
    pub fn begin_processing(&mut self, item: Vec<u8>)
        ensures
            final(self).items() == old(self).items().push(item@),
    {
        self.entries.push(item);
        proof {
            assert(final(self).items() =~= old(self).items().push(item@));
        }
    }

    /// Removes the first in-flight entry whose bytes equal the given
    /// serialized form; with no such entry the list is unchanged. Under the
    /// normal-operation invariant (at most one in-flight copy per
    /// transaction) this removes exactly the dequeued copy, and a repeated
    /// acknowledge is a no-op.
    pub fn acknowledge(&mut self, item: &Vec<u8>)
        ensures
            final(self).items() == spec_ack(old(self).items(), item@),
    {
        let ghost s0 = self.items();
        let mut i: usize = 0;
        while i < self.entries.len()
            invariant
                s0 == old(self).items(),
                self.entries@ == old(self).entries@,
                i <= self.entries@.len(),
                forall|j: int| 0 <= j < i ==> s0[j] != item@,
            decreases self.entries@.len() - i,
        {
            if bytes_eq(&self.entries[i], item) {
                proof {
                    assert(s0[i as int] == item@);
                    lemma_ack_at(s0, item@, i as int);
                }
                let _removed = self.entries.remove(i);
                proof {
                    assert(self.items() =~= s0.remove(i as int));
                }
                return ;
            }
            proof {
                assert(s0[i as int] == self.entries@[i as int]@);
            }
            i += 1;
        }
        proof {
            lemma_ack_absent(s0, item@);
        }
    }

    /// Whether some in-flight entry equals the given serialized form.
    pub fn contains(&self, item: &Vec<u8>) -> (r: bool)
        ensures
            r == (count_matches(self.items(), item@) > 0),
    {
        let mut i: usize = 0;
        while i < self.entries.len()
            invariant
                i <= self.entries@.len(),
                forall|j: int| 0 <= j < i ==> self.items()[j] != item@,
            decreases self.entries@.len() - i,
        {
            if bytes_eq(&self.entries[i], item) {
                proof {
                    assert(self.items()[i as int] == item@);
                    lemma_count_positive(self.items(), item@);
                }
                return true;
            }
            proof {
                assert(self.items()[i as int] == self.entries@[i as int]@);
            }
            i += 1;
        }
        proof {
            lemma_count_positive(self.items(), item@);
        }
        false
    }
}

/// Interprets what the queue service's atomic move handed back: no bytes
/// means the source queue was empty; otherwise the bytes must decode as a
/// transaction, and bytes that do not are a fatal fault (a corrupt queue
/// entry is an unrecoverable operator error, never retried).
pub fn interpret_dequeued(bytes: &Vec<u8>) -> (r: Result<Option<Transaction>, FatalError>)
    ensures
        bytes@.len() == 0 ==> r == Ok::<Option<Transaction>, FatalError>(None),
        match r {
            Ok(Some(t)) => bytes@ == spec_enc_tx(t) && bytes@.len() > 0,
            Ok(None) => bytes@.len() == 0,
            Err(e) => e == FatalError::CorruptTransaction && bytes@.len() > 0,
        },
        forall|t: Transaction|
            (#[trigger] spec_tx_at(bytes@, 0, t) && spec_enc_tx(t).len() == bytes@.len()) ==> (
            r matches Ok(o) && o matches Some(u) && tx_views_eq(u, t)),
{
    if bytes.len() == 0 {
        return Ok(None);
    }
    match decode_transaction(bytes) {
        Ok(t) => {
            proof {
                assert(bytes@.len() > 0);
            }
            Ok(Some(t))
        },
        Err(_) => Err(FatalError::CorruptTransaction),
    }
}

} // verus!
