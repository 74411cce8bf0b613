//! The result encoder: one output line of exactly three space-separated
//! tokens — the ordered completed-transaction list, the memory changeset and
//! the storage changeset — each serialized in the canonical binary form and
//! wrapped in a text-safe encoding. A changeset's canonical entry order is
//! first-write order; since a batch applies its transactions in a fixed,
//! caller-determined order, the line is a deterministic function of the
//! ordered batch and its engine outcomes, so downstream consumers may hash
//! or compare it. (Two write histories that happen to reach the same final
//! mapping by different routes serialize that mapping in their own key
//! orders; determinism is per ordered batch, which is what consensus
//! replays.)

use vstd::prelude::*;
use vstd::string::StringExecFns;
use crate::types::Pair;
use crate::types::CompletedTransaction;
use crate::changeset::Changeset;
use crate::cbor::spec_enc_ct_list;
use crate::cbor::spec_enc_changeset;
use crate::cbor::encode_completed_list;
use crate::cbor::push_hdr;
use crate::cbor::push_enc_bytes;
use crate::cbor::decode_completed_list;
use crate::cbor::decode_changeset_pairs;
use crate::cbor::spec_pairs_at;
use crate::cbor::spec_ct_list_at;
use crate::cbor::ct_bounded;
use crate::cbor::ct_views_eq;
use crate::cbor::pairs_views_eq;
use crate::processor::BlockBuilder;

verus! {

/// The text form that the text-safe wrapping gives a byte string. It is a
/// function of the bytes alone.
pub uninterp spec fn b64_of(bytes: Seq<u8>) -> Seq<char>;

/// Relies on base64::encode (standard alphabet, padded): the text form
/// depends on the input bytes alone; an empty input gives an empty text; the
/// alphabet (letters, digits, `+`, `/`, `=` padding) contains no space, so
/// the text never holds the output line's separator.
#[verifier::external_body]
fn b64_encode(b: &Vec<u8>) -> (r: String)
    ensures
        r@ == b64_of(b@),
        b@.len() == 0 ==> r@.len() == 0,
        forall|i: int| 0 <= i < r@.len() ==> r@[i] != ' ',
{
    base64::encode(b.as_slice())
}

/// Relies on base64::decode (standard alphabet): it inverts base64::encode,
/// so text that is the text form of some bytes decodes to exactly those
/// bytes.
#[verifier::external_body]
fn b64_decode(s: &str) -> (r: Result<Vec<u8>, ()>)
    ensures
        r is Err ==> forall|x: Seq<u8>| s@ != b64_of(x),
        r matches Ok(v) ==> forall|x: Seq<u8>| s@ == b64_of(x) ==> v@ == x,
{
    match base64::decode(s) {
        Ok(v) => Ok(v),
        Err(_) => Err(()),
    }
}

/// Serializes a changeset: its entries in the canonical (first-write)
/// order, as a map of byte-string keys to byte-string values.
pub fn encode_changeset(cs: &Changeset) -> (r: Vec<u8>)
    requires
        cs.wf(),
    ensures
        r@ == spec_enc_changeset(cs.entries_seq()),
{
    let n = cs.len();
    let mut out: Vec<u8> = Vec::new();
    push_hdr(&mut out, 5, n as u64);
    let ghost mid = out@;
    let mut i: usize = 0;
    while i < n
        invariant
            cs.wf(),
            n == cs.entries_seq().len(),
            i <= n,
            out@ == mid + crate::cbor::spec_enc_pair_items(cs.entries_seq().subrange(0, i as int)),
        decreases n - i,
    {
        let e = cs.entry_at(i);
        push_enc_bytes(&mut out, &e.key);
        push_enc_bytes(&mut out, &e.value);
        proof {
            assert(cs.entries_seq().subrange(0, i + 1).drop_last() =~= cs.entries_seq().subrange(
                0,
                i as int,
            ));
            assert(out@ =~= mid + crate::cbor::spec_enc_pair_items(
                cs.entries_seq().subrange(0, i + 1),
            ));
        }
        i += 1;
    }
    proof {
        assert(cs.entries_seq().subrange(0, cs.entries_seq().len() as int) =~= cs.entries_seq());
    }
    out
}

/// The whole output line: three text tokens separated by single spaces.
pub open spec fn spec_output_line(
    cts: Seq<CompletedTransaction>,
    mem: Seq<Pair>,
    stor: Seq<Pair>,
) -> Seq<char> {
    b64_of(spec_enc_ct_list(cts)) + (" ")@ + b64_of(spec_enc_changeset(mem)) + (" ")@ + b64_of(
        spec_enc_changeset(stor),
    )
}

/// Serializes a batch's outcome as the one output line: the record list, the
/// memory changeset, then the storage changeset, each in its canonical
/// binary form wrapped text-safe, separated by single spaces. The second
/// clause makes the line's shape recoverable: the separator appears at
/// exactly the two stated positions and nowhere inside a token, so splitting
/// the line on spaces yields exactly the three tokens.
pub fn encode_output(b: &BlockBuilder) -> (r: String)
    requires
        b.wf(),
    ensures
        r@ == spec_output_line(
            b.completed(),
            b.memory_cs().entries_seq(),
            b.storage_cs().entries_seq(),
        ),
        ({
            let n1 = b64_of(spec_enc_ct_list(b.completed())).len() as int;
            let n2 = b64_of(spec_enc_changeset(b.memory_cs().entries_seq())).len() as int;
            forall|i: int| 0 <= i < r@.len() ==> ((r@[i] == ' ') <==> (i == n1 || i == n1 + n2 + 1))
        }),
{
    let cts_bytes = encode_completed_list(b.completed_ref());
    let mem_bytes = encode_changeset(b.memory_ref());
    let stor_bytes = encode_changeset(b.storage_ref());
    let t1 = b64_encode(&cts_bytes);
    let t2 = b64_encode(&mem_bytes);
    let t3 = b64_encode(&stor_bytes);
    let mut line = t1;
    line.append(" ");
    line.append(t2.as_str());
    line.append(" ");
    line.append(t3.as_str());
    proof {
        reveal_strlit(" ");
        assert((" ")@ =~= seq![' ']);
        let n1 = b64_of(spec_enc_ct_list(b.completed())).len() as int;
        let n2 = b64_of(spec_enc_changeset(b.memory_cs().entries_seq())).len() as int;
        assert forall|i: int|
            0 <= i < line@.len() implies ((line@[i] == ' ') <==> (i == n1 || i == n1 + n2 + 1)) by {
            if i < n1 {
                assert(line@[i] == b64_of(spec_enc_ct_list(b.completed()))[i]);
            } else if i == n1 {
                assert(line@[i] == ' ');
            } else if i < n1 + n2 + 1 {
                assert(line@[i] == b64_of(spec_enc_changeset(b.memory_cs().entries_seq()))[i - n1
                    - 1]);
            } else if i == n1 + n2 + 1 {
                assert(line@[i] == ' ');
            } else {
                assert(line@[i] == b64_of(spec_enc_changeset(b.storage_cs().entries_seq()))[i - n1
                    - n2 - 2]);
            }
        }
    }
    line
}

/// Decodes the three tokens of an output line back into the record list and
/// the two changesets' key/value pairs. A batch of zero transactions — the
/// empty record list and two empty changesets — is always recognized: its
/// own output line decodes back to exactly those empty values. In general,
/// a token that carries a record list's encoding yields exactly those
/// records in order, and one that carries a changeset's encoding yields
/// exactly that changeset's pairs, in stored order.
pub fn decode_output(t1: &str, t2: &str, t3: &str) -> (r: Result<
    (Vec<CompletedTransaction>, Vec<Pair>, Vec<Pair>),
    (),
>)
    ensures
        (t1@ == b64_of(spec_enc_ct_list(Seq::<CompletedTransaction>::empty())) && t2@ == b64_of(
            spec_enc_changeset(Seq::<Pair>::empty()),
        ) && t3@ == b64_of(spec_enc_changeset(Seq::<Pair>::empty()))) ==> (r matches Ok(v)
            && v.0@.len() == 0 && v.1@.len() == 0 && v.2@.len() == 0),
        r matches Ok(v) ==> forall|cts: Seq<CompletedTransaction>|
            (cts.len() <= u64::MAX && (forall|i: int|
                0 <= i < cts.len() ==> ct_bounded(#[trigger] cts[i])) && t1@ == b64_of(
                #[trigger] spec_enc_ct_list(cts),
            )) ==> (v.0@.len() == cts.len() && (forall|i: int|
                0 <= i < cts.len() ==> ct_views_eq(#[trigger] v.0@[i], cts[i]))),
        r matches Ok(v) ==> forall|mem: Seq<Pair>|
            (mem.len() <= u64::MAX && (forall|i: int|
                0 <= i < mem.len() ==> (#[trigger] mem[i]).key@.len() <= u64::MAX
                    && mem[i].value@.len() <= u64::MAX) && t2@ == b64_of(
                #[trigger] spec_enc_changeset(mem),
            )) ==> pairs_views_eq(v.1@, mem),
        r matches Ok(v) ==> forall|stor: Seq<Pair>|
            (stor.len() <= u64::MAX && (forall|i: int|
                0 <= i < stor.len() ==> (#[trigger] stor[i]).key@.len() <= u64::MAX
                    && stor[i].value@.len() <= u64::MAX) && t3@ == b64_of(
                #[trigger] spec_enc_changeset(stor),
            )) ==> pairs_views_eq(v.2@, stor),
{
    let cts_bytes = match b64_decode(t1) {
        Ok(v) => v,
        Err(_) => {
            return Err(());
        },
    };
    let mem_bytes = match b64_decode(t2) {
        Ok(v) => v,
        Err(_) => {
            return Err(());
        },
    };
    let stor_bytes = match b64_decode(t3) {
        Ok(v) => v,
        Err(_) => {
            return Err(());
        },
    };
    proof {
        if t1@ == b64_of(spec_enc_ct_list(Seq::<CompletedTransaction>::empty())) {
            assert(spec_ct_list_at(cts_bytes@, Seq::<CompletedTransaction>::empty()));
        }
        assert forall|cts: Seq<CompletedTransaction>|
            (cts.len() <= u64::MAX && (forall|i: int|
                0 <= i < cts.len() ==> ct_bounded(#[trigger] cts[i])) && t1@ == b64_of(
                #[trigger] spec_enc_ct_list(cts),
            )) implies spec_ct_list_at(cts_bytes@, cts) by {}
    }
    let cts = match decode_completed_list(&cts_bytes) {
        Ok(v) => v,
        Err(_) => {
            return Err(());
        },
    };
    proof {
        if t2@ == b64_of(spec_enc_changeset(Seq::<Pair>::empty())) {
            assert(spec_pairs_at(mem_bytes@, Seq::<Pair>::empty()));
        }
        assert forall|mem: Seq<Pair>|
            (mem.len() <= u64::MAX && (forall|i: int|
                0 <= i < mem.len() ==> (#[trigger] mem[i]).key@.len() <= u64::MAX
                    && mem[i].value@.len() <= u64::MAX) && t2@ == b64_of(
                #[trigger] spec_enc_changeset(mem),
            )) implies spec_pairs_at(mem_bytes@, mem) by {}
    }
    let mem = match decode_changeset_pairs(&mem_bytes) {
        Ok(v) => v,
        Err(_) => {
            return Err(());
        },
    };
    proof {
        if t3@ == b64_of(spec_enc_changeset(Seq::<Pair>::empty())) {
            assert(spec_pairs_at(stor_bytes@, Seq::<Pair>::empty()));
        }
        assert forall|stor: Seq<Pair>|
            (stor.len() <= u64::MAX && (forall|i: int|
                0 <= i < stor.len() ==> (#[trigger] stor[i]).key@.len() <= u64::MAX
                    && stor[i].value@.len() <= u64::MAX) && t3@ == b64_of(
                #[trigger] spec_enc_changeset(stor),
            )) implies spec_pairs_at(stor_bytes@, stor) by {}
    }
    let stor = match decode_changeset_pairs(&stor_bytes) {
        Ok(v) => v,
        Err(_) => {
            return Err(());
        },
    };
    Ok((cts, mem, stor))
}

} // verus!
