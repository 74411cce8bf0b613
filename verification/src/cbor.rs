//! The batch result's binary encoding: a self-describing, length-prefixed
//! format (concise binary object representation). Every item is encoded in
//! canonical form — the shortest header that fits the value — so the bytes
//! are deterministic for a given input and reproducible across
//! implementations, which downstream consumers rely on when they hash or
//! compare output. Multi-byte integers are big-endian throughout.
//!
//! Shapes used by this library:
//! - a transaction is an array of seven items: contract address, contract
//!   name, sender (byte strings), nonce, gas limit (unsigned), function
//!   (byte string), arguments (array of byte strings);
//! - a completed transaction is an array of ten items: the seven above,
//!   then return code (unsigned), return value (byte string) and
//!   execution order (unsigned);
//! - a changeset is a map from byte-string keys to byte-string values,
//!   in first-write key order.

use vstd::prelude::*;
use crate::types::Pair;
use crate::types::Transaction;
use crate::types::CompletedTransaction;
use crate::types::arg_views;

verus! {

/// The fixed-width big-endian encoding of an unsigned integer.
pub open spec fn spec_be8(x: u64) -> Seq<u8> {
    seq![
        ((x >> 56) & 0xff) as u8,
        ((x >> 48) & 0xff) as u8,
        ((x >> 40) & 0xff) as u8,
        ((x >> 32) & 0xff) as u8,
        ((x >> 24) & 0xff) as u8,
        ((x >> 16) & 0xff) as u8,
        ((x >> 8) & 0xff) as u8,
        (x & 0xff) as u8,
    ]
}

/// The unsigned integer read back from eight big-endian bytes.
pub open spec fn spec_be8_val(s: Seq<u8>) -> u64
    recommends
        s.len() == 8,
{
    ((s[0] as u64) << 56 | (s[1] as u64) << 48 | (s[2] as u64) << 40 | (s[3] as u64) << 32 | (
    s[4] as u64) << 24 | (s[5] as u64) << 16 | (s[6] as u64) << 8 | (s[7] as u64)) as u64
}

pub proof fn lemma_be8_round_trip(x: u64)
    ensures
        spec_be8(x).len() == 8,
        spec_be8_val(spec_be8(x)) == x,
{
    assert((((((x >> 56) & 0xff) as u8) as u64) << 56 | ((((x >> 48) & 0xff) as u8) as u64) << 48
        | ((((x >> 40) & 0xff) as u8) as u64) << 40 | ((((x >> 32) & 0xff) as u8) as u64) << 32 | (
    (((x >> 24) & 0xff) as u8) as u64) << 24 | ((((x >> 16) & 0xff) as u8) as u64) << 16 | ((((x
        >> 8) & 0xff) as u8) as u64) << 8 | (((x & 0xff) as u8) as u64)) == x) by (bit_vector);
}

/// The canonical item header: the major type in the three top bits and the
/// value (a small immediate, or the big-endian bytes of the shortest width
/// that holds it).
pub open spec fn spec_hdr(major: u8, n: u64) -> Seq<u8>
    recommends
        major < 8,
{
    let tag = (major as u64) * 32;
    if n < 24 {
        seq![(tag + n) as u8]
    } else if n < 256 {
        seq![(tag + 24) as u8, n as u8]
    } else if n < 65536 {
        seq![(tag + 25) as u8, ((n >> 8) & 0xff) as u8, (n & 0xff) as u8]
    } else if n < 4294967296 {
        seq![
            (tag + 26) as u8,
            ((n >> 24) & 0xff) as u8,
            ((n >> 16) & 0xff) as u8,
            ((n >> 8) & 0xff) as u8,
            (n & 0xff) as u8,
        ]
    } else {
        seq![(tag + 27) as u8] + spec_be8(n)
    }
}

/// Appends the canonical header for `major` and `n`.
pub fn push_hdr(out: &mut Vec<u8>, major: u8, n: u64)
    requires
        major < 8,
    ensures
        final(out)@ == old(out)@ + spec_hdr(major, n),
{
    let tag: u8 = major * 32;
    proof {
        assert(tag == (major as u64) * 32);
    }
    if n < 24 {
        out.push(tag + (n as u8));
        proof {
            assert(out@ =~= old(out)@ + spec_hdr(major, n));
        }
    } else if n < 256 {
        out.push(tag + 24);
        out.push(n as u8);
        proof {
            assert(out@ =~= old(out)@ + spec_hdr(major, n));
        }
    } else if n < 65536 {
        out.push(tag + 25);
        out.push(((n >> 8) & 0xff) as u8);
        out.push((n & 0xff) as u8);
        proof {
            assert(out@ =~= old(out)@ + spec_hdr(major, n));
        }
    } else if n < 4294967296 {
        out.push(tag + 26);
        out.push(((n >> 24) & 0xff) as u8);
        out.push(((n >> 16) & 0xff) as u8);
        out.push(((n >> 8) & 0xff) as u8);
        out.push((n & 0xff) as u8);
        proof {
            assert(out@ =~= old(out)@ + spec_hdr(major, n));
        }
    } else {
        out.push(tag + 27);
        out.push(((n >> 56) & 0xff) as u8);
        out.push(((n >> 48) & 0xff) as u8);
        out.push(((n >> 40) & 0xff) as u8);
        out.push(((n >> 32) & 0xff) as u8);
        out.push(((n >> 24) & 0xff) as u8);
        out.push(((n >> 16) & 0xff) as u8);
        out.push(((n >> 8) & 0xff) as u8);
        out.push((n & 0xff) as u8);
        proof {
            assert(out@ =~= old(out)@ + spec_hdr(major, n));
        }
    }
}

/// An unsigned integer item.
pub open spec fn spec_enc_uint(n: u64) -> Seq<u8> {
    spec_hdr(0, n)
}

/// A byte-string item: its length header, then the bytes themselves.
pub open spec fn spec_enc_bytes(b: Seq<u8>) -> Seq<u8>
    recommends
        b.len() <= u64::MAX,
{
    spec_hdr(2, b.len() as u64) + b
}

/// The items of an array of byte strings, in order.
pub open spec fn spec_enc_bytes_items(s: Seq<Seq<u8>>) -> Seq<u8>
    decreases s.len(),
{
    if s.len() == 0 {
        Seq::empty()
    } else {
        spec_enc_bytes_items(s.drop_last()) + spec_enc_bytes(s.last())
    }
}

/// An array of byte strings: its count header, then each item.
pub open spec fn spec_enc_args(s: Seq<Seq<u8>>) -> Seq<u8> {
    spec_hdr(4, s.len() as u64) + spec_enc_bytes_items(s)
}

pub fn push_enc_uint(out: &mut Vec<u8>, n: u64)
    ensures
        final(out)@ == old(out)@ + spec_enc_uint(n),
{
    push_hdr(out, 0, n);
}

pub fn push_enc_bytes(out: &mut Vec<u8>, b: &Vec<u8>)
    ensures
        final(out)@ == old(out)@ + spec_enc_bytes(b@),
{
    push_hdr(out, 2, b.len() as u64);
    let ghost mid = out@;
    let mut i: usize = 0;
    while i < b.len()
        invariant
            i <= b@.len(),
            out@ == mid + b@.subrange(0, i as int),
        decreases b@.len() - i,
    {
        out.push(b[i]);
        proof {
            assert(out@ =~= mid + b@.subrange(0, i + 1));
        }
        i += 1;
    }
    proof {
        assert(b@.subrange(0, b@.len() as int) =~= b@);
    }
}

pub fn push_enc_args(out: &mut Vec<u8>, args: &Vec<Vec<u8>>)
    ensures
        final(out)@ == old(out)@ + spec_enc_args(arg_views(args@)),
{
    let ghost vs = arg_views(args@);
    push_hdr(out, 4, args.len() as u64);
    let ghost mid = out@;
    let mut i: usize = 0;
    while i < args.len()
        invariant
            vs == arg_views(args@),
            vs.len() == args@.len(),
            i <= args@.len(),
            out@ == mid + spec_enc_bytes_items(vs.subrange(0, i as int)),
        decreases args@.len() - i,
    {
        push_enc_bytes(out, &args[i]);
        proof {
            assert(vs.subrange(0, i + 1).drop_last() =~= vs.subrange(0, i as int));
            assert(vs.subrange(0, i + 1).last() == args@[i as int]@);
            assert(out@ =~= mid + spec_enc_bytes_items(vs.subrange(0, i + 1)));
        }
        i += 1;
    }
    proof {
        assert(vs.subrange(0, vs.len() as int) =~= vs);
    }
}

/// The seven fields that a transaction and a completed record share, encoded
/// consecutively.
pub open spec fn spec_enc_fields7(t: Transaction) -> Seq<u8> {
    spec_enc_bytes(t.contract_address@) + spec_enc_bytes(t.contract_name@) + spec_enc_bytes(
        t.sender@,
    ) + spec_enc_uint(t.nonce) + spec_enc_uint(t.gas_limit) + spec_enc_bytes(t.function@)
        + spec_enc_args(arg_views(t.arguments@))
}

/// A transaction: an array of its seven fields.
pub open spec fn spec_enc_tx(t: Transaction) -> Seq<u8> {
    spec_hdr(4, 7) + spec_enc_fields7(t)
}

/// The serialized byte form of a transaction: its identity for queue removal.
pub fn encode_transaction(t: &Transaction) -> (r: Vec<u8>)
    ensures
        r@ == spec_enc_tx(*t),
{
    let mut out: Vec<u8> = Vec::new();
    push_hdr(&mut out, 4, 7);
    push_enc_bytes(&mut out, &t.contract_address);
    push_enc_bytes(&mut out, &t.contract_name);
    push_enc_bytes(&mut out, &t.sender);
    push_enc_uint(&mut out, t.nonce);
    push_enc_uint(&mut out, t.gas_limit);
    push_enc_bytes(&mut out, &t.function);
    push_enc_args(&mut out, &t.arguments);
    proof {
        assert(out@ =~= spec_enc_tx(*t));
    }
    out
}

/// The transaction-shaped head of a completed record: the seven echoed
/// fields.
pub open spec fn ct_head(c: CompletedTransaction) -> Transaction {
    Transaction {
        contract_address: c.contract_address,
        contract_name: c.contract_name,
        sender: c.sender,
        nonce: c.nonce,
        gas_limit: c.gas_limit,
        function: c.function,
        arguments: c.arguments,
    }
}

/// A completed transaction: an array of its ten fields — the echoed seven,
/// then return code, return value and execution order.
pub open spec fn spec_enc_ct(c: CompletedTransaction) -> Seq<u8> {
    spec_hdr(4, 10) + spec_enc_fields7(ct_head(c)) + spec_enc_uint(c.return_code) + spec_enc_bytes(
        c.return_value@,
    ) + spec_enc_uint(c.execution_order)
}

#[verifier::rlimit(100)]
#[verifier::spinoff_prover]
pub fn push_enc_ct(out: &mut Vec<u8>, c: &CompletedTransaction)
    ensures
        final(out)@ == old(out)@ + spec_enc_ct(*c),
{
    push_hdr(out, 4, 10);
    push_enc_bytes(out, &c.contract_address);
    push_enc_bytes(out, &c.contract_name);
    push_enc_bytes(out, &c.sender);
    push_enc_uint(out, c.nonce);
    push_enc_uint(out, c.gas_limit);
    push_enc_bytes(out, &c.function);
    push_enc_args(out, &c.arguments);
    push_enc_uint(out, c.return_code);
    push_enc_bytes(out, &c.return_value);
    push_enc_uint(out, c.execution_order);
    proof {
        assert(out@ =~= old(out)@ + spec_enc_ct(*c));
    }
}

/// The items of the ordered completed-transaction list.
pub open spec fn spec_enc_ct_items(s: Seq<CompletedTransaction>) -> Seq<u8>
    decreases s.len(),
{
    if s.len() == 0 {
        Seq::empty()
    } else {
        spec_enc_ct_items(s.drop_last()) + spec_enc_ct(s.last())
    }
}

/// The ordered completed-transaction list: an array of records.
pub open spec fn spec_enc_ct_list(s: Seq<CompletedTransaction>) -> Seq<u8> {
    spec_hdr(4, s.len() as u64) + spec_enc_ct_items(s)
}

pub fn encode_completed_list(v: &Vec<CompletedTransaction>) -> (r: Vec<u8>)
    ensures
        r@ == spec_enc_ct_list(v@),
{
    let mut out: Vec<u8> = Vec::new();
    push_hdr(&mut out, 4, v.len() as u64);
    let ghost mid = out@;
    let mut i: usize = 0;
    while i < v.len()
        invariant
            i <= v@.len(),
            out@ == mid + spec_enc_ct_items(v@.subrange(0, i as int)),
        decreases v@.len() - i,
    {
        push_enc_ct(&mut out, &v[i]);
        proof {
            assert(v@.subrange(0, i + 1).drop_last() =~= v@.subrange(0, i as int));
            assert(out@ =~= mid + spec_enc_ct_items(v@.subrange(0, i + 1)));
        }
        i += 1;
    }
    proof {
        assert(v@.subrange(0, v@.len() as int) =~= v@);
        assert(out@ =~= spec_enc_ct_list(v@));
    }
    out
}

/// The key/value items of a changeset, in stored (first-write) order.
pub open spec fn spec_enc_pair_items(s: Seq<Pair>) -> Seq<u8>
    decreases s.len(),
{
    if s.len() == 0 {
        Seq::empty()
    } else {
        spec_enc_pair_items(s.drop_last()) + spec_enc_bytes(s.last().key@) + spec_enc_bytes(
            s.last().value@,
        )
    }
}

/// A changeset: a map item of byte-string keys to byte-string values.
pub open spec fn spec_enc_changeset(s: Seq<Pair>) -> Seq<u8> {
    spec_hdr(5, s.len() as u64) + spec_enc_pair_items(s)
}

pub fn encode_pairs(v: &Vec<Pair>) -> (r: Vec<u8>)
    ensures
        r@ == spec_enc_changeset(v@),
{
    let mut out: Vec<u8> = Vec::new();
    push_hdr(&mut out, 5, v.len() as u64);
    let ghost mid = out@;
    let mut i: usize = 0;
    while i < v.len()
        invariant
            i <= v@.len(),
            out@ == mid + spec_enc_pair_items(v@.subrange(0, i as int)),
        decreases v@.len() - i,
    {
        push_enc_bytes(&mut out, &v[i].key);
        push_enc_bytes(&mut out, &v[i].value);
        proof {
            assert(v@.subrange(0, i + 1).drop_last() =~= v@.subrange(0, i as int));
            assert(out@ =~= mid + spec_enc_pair_items(v@.subrange(0, i + 1)));
        }
        i += 1;
    }
    proof {
        assert(v@.subrange(0, v@.len() as int) =~= v@);
        assert(out@ =~= spec_enc_changeset(v@));
    }
    out
}

} // verus!

// ---------------------------------------------------------------------------
// Decoding. Each decoder is canonical: it returns a value only when the bytes
// it consumed are exactly that value's encoding, so `Ok` results re-encode to
// the input (a requirement for using the serialized form as an identity).
// ---------------------------------------------------------------------------

verus! {

/// A span of a buffer splits at any interior point.
pub proof fn lemma_subrange_cat(b: Seq<u8>, i: int, j: int, k: int)
    requires
        0 <= i <= j <= k <= b.len(),
    ensures
        b.subrange(i, k) == b.subrange(i, j) + b.subrange(j, k),
{
    assert(b.subrange(i, k) =~= b.subrange(i, j) + b.subrange(j, k));
}

/// A one-byte header decomposes uniquely into major type and immediate value.
proof fn lemma_small_hdr_byte(maj: u8, n: u64)
    requires
        maj < 8,
        n < 24,
    ensures
        (((maj as u64) * 32 + n) as u8) >> 5 == maj,
        (((((maj as u64) * 32 + n) as u8) & 0x1f) as u64) == n,
{
    assert(maj < 8 && n < 24 ==> (((maj as u64) * 32 + n) as u8) >> 5 == maj && (((((maj as u64)
        * 32 + n) as u8) & 0x1f) as u64) == n) by (bit_vector);
}

/// The first byte of a canonical header carries the major type in its top
/// three bits and the value's width class in its low five.
proof fn lemma_hdr_shape(maj: u8, n: u64)
    requires
        maj < 8,
    ensures
        1 <= spec_hdr(maj, n).len() <= 9,
        spec_hdr(maj, n)[0] >> 5 == maj,
        n < 24 ==> spec_hdr(maj, n).len() == 1 && ((spec_hdr(maj, n)[0] & 0x1f) as u64) == n,
        24 <= n < 256 ==> spec_hdr(maj, n).len() == 2 && spec_hdr(maj, n)[0] & 0x1f == 24,
        256 <= n < 65536 ==> spec_hdr(maj, n).len() == 3 && spec_hdr(maj, n)[0] & 0x1f == 25,
        65536 <= n < 4294967296 ==> spec_hdr(maj, n).len() == 5 && spec_hdr(maj, n)[0] & 0x1f
            == 26,
        n >= 4294967296 ==> spec_hdr(maj, n).len() == 9 && spec_hdr(maj, n)[0] & 0x1f == 27,
{
    if n < 24 {
        lemma_small_hdr_byte(maj, n);
    } else if n < 256 {
        assert(maj < 8 ==> ((((maj as u64) * 32 + 24) as u8) >> 5 == maj && (((maj as u64) * 32
            + 24) as u8) & 0x1f == 24)) by (bit_vector);
    } else if n < 65536 {
        assert(maj < 8 ==> ((((maj as u64) * 32 + 25) as u8) >> 5 == maj && (((maj as u64) * 32
            + 25) as u8) & 0x1f == 25)) by (bit_vector);
    } else if n < 4294967296 {
        assert(maj < 8 ==> ((((maj as u64) * 32 + 26) as u8) >> 5 == maj && (((maj as u64) * 32
            + 26) as u8) & 0x1f == 26)) by (bit_vector);
    } else {
        assert(maj < 8 ==> ((((maj as u64) * 32 + 27) as u8) >> 5 == maj && (((maj as u64) * 32
            + 27) as u8) & 0x1f == 27)) by (bit_vector);
    }
}

/// Reads one item header at `pos`. The decoder and the encoding agree
/// exactly: on success the consumed bytes are the canonical header of the
/// returned major type and value, and wherever a canonical header sits at
/// `pos`, it is recognized and returned.
#[verifier::rlimit(80)]
pub fn dec_hdr(b: &Vec<u8>, pos: usize) -> (r: Result<(u8, u64, usize), ()>)
    ensures
        match r {
            Ok(h) => {
                &&& h.0 < 8
                &&& pos < h.2 <= b@.len()
                &&& b@.subrange(pos as int, h.2 as int) == spec_hdr(h.0, h.1)
            },
            Err(_) => true,
        },
        forall|maj: u8, n: u64|
            (maj < 8 && pos + spec_hdr(maj, n).len() <= b@.len() && b@.subrange(
                pos as int,
                pos + spec_hdr(maj, n).len(),
            ) == #[trigger] spec_hdr(maj, n)) ==> r == Ok::<(u8, u64, usize), ()>(
                (maj, n, (pos + spec_hdr(maj, n).len()) as usize),
            ),
{
    let total = b.len();
    if pos >= total {
        proof {
            assert forall|maj: u8, n: u64|
                (maj < 8 && pos + spec_hdr(maj, n).len() <= b@.len() && b@.subrange(
                    pos as int,
                    pos + spec_hdr(maj, n).len(),
                ) == #[trigger] spec_hdr(maj, n)) implies false by {
                lemma_hdr_shape(maj, n);
            }
        }
        return Err(());
    }
    let byte = b[pos];
    let major = byte >> 5;
    let low = byte & 0x1f;
    proof {
        assert(byte >> 5 < 8) by (bit_vector);
    }
    let res: Result<(u8, u64, usize), ()>;
    if low < 24 {
        let n = low as u64;
        proof {
            assert((((byte >> 5) as u64) * 32 + ((byte & 0x1f) as u64)) < 256 && (((((byte
                >> 5) as u64) * 32 + ((byte & 0x1f) as u64))) as u8) == byte) by (bit_vector);
            assert(spec_hdr(major, n) =~= seq![byte]);
            assert(b@.subrange(pos as int, pos + 1) =~= seq![byte]);
        }
        res = Ok((major, n, pos + 1));
    } else if low == 24 {
        if total - pos < 2 {
            res = Err(());
        } else {
            let b1 = b[pos + 1];
            let n = b1 as u64;
            if n < 24 {
                res = Err(());
            } else {
                proof {
                    let byte2 = byte;
                    assert(byte2 & 0x1f == 24 ==> ((((byte2 >> 5) as u64) * 32 + 24) as u8)
                        == byte2) by (bit_vector);
                    assert(spec_hdr(major, n) =~= seq![byte, b1]);
                    assert(b@.subrange(pos as int, pos + 2) =~= seq![byte, b1]);
                }
                res = Ok((major, n, pos + 2));
            }
        }
    } else if low == 25 {
        if total - pos < 3 {
            res = Err(());
        } else {
            let b1 = b[pos + 1];
            let b2 = b[pos + 2];
            let n = (b1 as u64) << 8 | (b2 as u64);
            if n < 256 {
                res = Err(());
            } else {
                proof {
                    let byte2 = byte;
                    assert(byte2 & 0x1f == 25 ==> ((((byte2 >> 5) as u64) * 32 + 25) as u8)
                        == byte2) by (bit_vector);
                    assert({
                        let m = (b1 as u64) << 8 | (b2 as u64);
                        m < 65536 && ((m >> 8) & 0xff) as u8 == b1 && (m & 0xff) as u8 == b2
                    }) by (bit_vector);
                    assert(spec_hdr(major, n) =~= seq![byte, b1, b2]);
                    assert(b@.subrange(pos as int, pos + 3) =~= seq![byte, b1, b2]);
                }
                res = Ok((major, n, pos + 3));
            }
        }
    } else if low == 26 {
        if total - pos < 5 {
            res = Err(());
        } else {
            let b1 = b[pos + 1];
            let b2 = b[pos + 2];
            let b3 = b[pos + 3];
            let b4 = b[pos + 4];
            let n = (b1 as u64) << 24 | (b2 as u64) << 16 | (b3 as u64) << 8 | (b4 as u64);
            if n < 65536 {
                res = Err(());
            } else {
                proof {
                    let byte2 = byte;
                    assert(byte2 & 0x1f == 26 ==> ((((byte2 >> 5) as u64) * 32 + 26) as u8)
                        == byte2) by (bit_vector);
                    assert({
                        let m = (b1 as u64) << 24 | (b2 as u64) << 16 | (b3 as u64) << 8 | (
                        b4 as u64);
                        m < 4294967296 && ((m >> 24) & 0xff) as u8 == b1 && ((m >> 16)
                            & 0xff) as u8 == b2 && ((m >> 8) & 0xff) as u8 == b3 && (m
                            & 0xff) as u8 == b4
                    }) by (bit_vector);
                    assert(spec_hdr(major, n) =~= seq![byte, b1, b2, b3, b4]);
                    assert(b@.subrange(pos as int, pos + 5) =~= seq![byte, b1, b2, b3, b4]);
                }
                res = Ok((major, n, pos + 5));
            }
        }
    } else if low == 27 {
        if total - pos < 9 {
            res = Err(());
        } else {
            let b1 = b[pos + 1];
            let b2 = b[pos + 2];
            let b3 = b[pos + 3];
            let b4 = b[pos + 4];
            let b5 = b[pos + 5];
            let b6 = b[pos + 6];
            let b7 = b[pos + 7];
            let b8 = b[pos + 8];
            let n = (b1 as u64) << 56 | (b2 as u64) << 48 | (b3 as u64) << 40 | (b4 as u64) << 32
                | (b5 as u64) << 24 | (b6 as u64) << 16 | (b7 as u64) << 8 | (b8 as u64);
            if n < 4294967296 {
                res = Err(());
            } else {
                proof {
                    let byte2 = byte;
                    assert(byte2 & 0x1f == 27 ==> ((((byte2 >> 5) as u64) * 32 + 27) as u8)
                        == byte2) by (bit_vector);
                    assert({
                        let m = (b1 as u64) << 56 | (b2 as u64) << 48 | (b3 as u64) << 40 | (
                        b4 as u64) << 32 | (b5 as u64) << 24 | (b6 as u64) << 16 | (b7 as u64)
                            << 8 | (b8 as u64);
                        ((m >> 56) & 0xff) as u8 == b1 && ((m >> 48) & 0xff) as u8 == b2 && ((m
                            >> 40) & 0xff) as u8 == b3 && ((m >> 32) & 0xff) as u8 == b4 && ((m
                            >> 24) & 0xff) as u8 == b5 && ((m >> 16) & 0xff) as u8 == b6 && ((m
                            >> 8) & 0xff) as u8 == b7 && (m & 0xff) as u8 == b8
                    }) by (bit_vector);
                    assert(spec_hdr(major, n) =~= seq![byte, b1, b2, b3, b4, b5, b6, b7, b8]);
                    assert(b@.subrange(pos as int, pos + 9) =~= seq![byte, b1, b2, b3, b4, b5, b6,
                        b7, b8]);
                }
                res = Ok((major, n, pos + 9));
            }
        }
    } else {
        res = Err(());
    }
    proof {
        assert forall|maj: u8, n2: u64|
            (maj < 8 && pos + spec_hdr(maj, n2).len() <= b@.len() && b@.subrange(
                pos as int,
                pos + spec_hdr(maj, n2).len(),
            ) == #[trigger] spec_hdr(maj, n2)) implies res == Ok::<(u8, u64, usize), ()>(
            (maj, n2, (pos + spec_hdr(maj, n2).len()) as usize),
        ) by {
            lemma_hdr_shape(maj, n2);
            let h = spec_hdr(maj, n2);
            assert(b@.subrange(pos as int, pos + h.len())[0] == b@[pos as int]);
            assert(byte == h[0]);
            assert(major == maj);
            if n2 < 24 {
                assert((byte & 0x1f) as u64 == n2);
            } else if n2 < 256 {
                assert(byte & 0x1f == 24);
                assert(b@.subrange(pos as int, pos + h.len())[1] == b@[pos + 1]);
                assert(b@[pos + 1] == n2 as u8);
                assert(24 <= n2 < 256 ==> ((n2 as u8) as u64) == n2) by (bit_vector);
            } else if n2 < 65536 {
                assert(byte & 0x1f == 25);
                assert(b@.subrange(pos as int, pos + h.len())[1] == b@[pos + 1]);
                assert(b@.subrange(pos as int, pos + h.len())[2] == b@[pos + 2]);
                assert(b@[pos + 1] == ((n2 >> 8) & 0xff) as u8);
                assert(b@[pos + 2] == (n2 & 0xff) as u8);
                assert(256 <= n2 < 65536 ==> (((((n2 >> 8) & 0xff) as u8) as u64) << 8 | (((n2
                    & 0xff) as u8) as u64)) == n2) by (bit_vector);
            } else if n2 < 4294967296 {
                assert(byte & 0x1f == 26);
                assert(b@.subrange(pos as int, pos + h.len())[1] == b@[pos + 1]);
                assert(b@.subrange(pos as int, pos + h.len())[2] == b@[pos + 2]);
                assert(b@.subrange(pos as int, pos + h.len())[3] == b@[pos + 3]);
                assert(b@.subrange(pos as int, pos + h.len())[4] == b@[pos + 4]);
                assert(b@[pos + 1] == ((n2 >> 24) & 0xff) as u8);
                assert(b@[pos + 2] == ((n2 >> 16) & 0xff) as u8);
                assert(b@[pos + 3] == ((n2 >> 8) & 0xff) as u8);
                assert(b@[pos + 4] == (n2 & 0xff) as u8);
                assert(65536 <= n2 < 4294967296 ==> (((((n2 >> 24) & 0xff) as u8) as u64) << 24 | (
                (((n2 >> 16) & 0xff) as u8) as u64) << 16 | ((((n2 >> 8) & 0xff) as u8) as u64)
                    << 8 | (((n2 & 0xff) as u8) as u64)) == n2) by (bit_vector);
            } else {
                assert(byte & 0x1f == 27);
                assert(h =~= seq![h[0]] + spec_be8(n2));
                assert(b@.subrange(pos as int, pos + h.len())[1] == b@[pos + 1]);
                assert(b@.subrange(pos as int, pos + h.len())[2] == b@[pos + 2]);
                assert(b@.subrange(pos as int, pos + h.len())[3] == b@[pos + 3]);
                assert(b@.subrange(pos as int, pos + h.len())[4] == b@[pos + 4]);
                assert(b@.subrange(pos as int, pos + h.len())[5] == b@[pos + 5]);
                assert(b@.subrange(pos as int, pos + h.len())[6] == b@[pos + 6]);
                assert(b@.subrange(pos as int, pos + h.len())[7] == b@[pos + 7]);
                assert(b@.subrange(pos as int, pos + h.len())[8] == b@[pos + 8]);
                assert(b@[pos + 1] == ((n2 >> 56) & 0xff) as u8);
                assert(b@[pos + 2] == ((n2 >> 48) & 0xff) as u8);
                assert(b@[pos + 3] == ((n2 >> 40) & 0xff) as u8);
                assert(b@[pos + 4] == ((n2 >> 32) & 0xff) as u8);
                assert(b@[pos + 5] == ((n2 >> 24) & 0xff) as u8);
                assert(b@[pos + 6] == ((n2 >> 16) & 0xff) as u8);
                assert(b@[pos + 7] == ((n2 >> 8) & 0xff) as u8);
                assert(b@[pos + 8] == (n2 & 0xff) as u8);
                assert(n2 >= 4294967296 ==> (((((n2 >> 56) & 0xff) as u8) as u64) << 56 | ((((n2
                    >> 48) & 0xff) as u8) as u64) << 48 | ((((n2 >> 40) & 0xff) as u8) as u64)
                    << 40 | ((((n2 >> 32) & 0xff) as u8) as u64) << 32 | ((((n2 >> 24)
                    & 0xff) as u8) as u64) << 24 | ((((n2 >> 16) & 0xff) as u8) as u64) << 16 | ((
                ((n2 >> 8) & 0xff) as u8) as u64) << 8 | (((n2 & 0xff) as u8) as u64)) == n2)
                    by (bit_vector);
            }
        }
    }
    res
}

} // verus!

verus! {

/// Reads one unsigned-integer item at `pos`. Wherever an unsigned item's
/// canonical encoding sits at `pos`, it is recognized and returned.
pub fn dec_uint(b: &Vec<u8>, pos: usize) -> (r: Result<(u64, usize), ()>)
    ensures
        match r {
            Ok(h) => {
                &&& pos < h.1 <= b@.len()
                &&& b@.subrange(pos as int, h.1 as int) == spec_enc_uint(h.0)
            },
            Err(_) => true,
        },
        forall|v: u64|
            (pos + spec_enc_uint(v).len() <= b@.len() && b@.subrange(
                pos as int,
                pos + spec_enc_uint(v).len(),
            ) == #[trigger] spec_enc_uint(v)) ==> r == Ok::<(u64, usize), ()>(
                (v, (pos + spec_enc_uint(v).len()) as usize),
            ),
{
    let res: Result<(u64, usize), ()> = match dec_hdr(b, pos) {
        Ok((major, n, end)) => {
            if major != 0 {
                Err(())
            } else {
                Ok((n, end))
            }
        },
        Err(_) => Err(()),
    };
    proof {
        assert forall|v: u64|
            (pos + spec_enc_uint(v).len() <= b@.len() && b@.subrange(
                pos as int,
                pos + spec_enc_uint(v).len(),
            ) == #[trigger] spec_enc_uint(v)) implies res == Ok::<(u64, usize), ()>(
            (v, (pos + spec_enc_uint(v).len()) as usize),
        ) by {
            assert(spec_enc_uint(v) == spec_hdr(0u8, v));
        }
    }
    res
}

/// Reads one byte-string item at `pos`. Wherever a byte string's canonical
/// encoding sits at `pos`, it is recognized and returned.
pub fn dec_bytes(b: &Vec<u8>, pos: usize) -> (r: Result<(Vec<u8>, usize), ()>)
    ensures
        match r {
            Ok((v, end)) => {
                &&& pos < end <= b@.len()
                &&& b@.subrange(pos as int, end as int) == spec_enc_bytes(v@)
            },
            Err(_) => true,
        },
        forall|v: Seq<u8>|
            (v.len() <= u64::MAX && pos + spec_enc_bytes(v).len() <= b@.len() && b@.subrange(
                pos as int,
                pos + spec_enc_bytes(v).len(),
            ) == #[trigger] spec_enc_bytes(v)) ==> (r matches Ok(h) && h.0@ == v && h.1 == pos
                + spec_enc_bytes(v).len()),
{
    let hdr = dec_hdr(b, pos);
    proof {
        assert forall|v: Seq<u8>|
            (v.len() <= u64::MAX && pos + spec_enc_bytes(v).len() <= b@.len() && b@.subrange(
                pos as int,
                pos + spec_enc_bytes(v).len(),
            ) == #[trigger] spec_enc_bytes(v)) implies hdr == Ok::<(u8, u64, usize), ()>(
            (2u8, v.len() as u64, (pos + spec_hdr(2u8, v.len() as u64).len()) as usize),
        ) by {
            assert(b@.subrange(pos as int, pos + spec_hdr(2u8, v.len() as u64).len()) =~= spec_hdr(
                2u8,
                v.len() as u64,
            ));
        }
    }
    let (major, n, mid) = match hdr {
        Ok(h) => h,
        Err(_) => {
            return Err(());
        },
    };
    if major != 2 {
        return Err(());
    }
    if n > (b.len() - mid) as u64 {
        return Err(());
    }
    let len = n as usize;
    let mut v: Vec<u8> = Vec::new();
    let mut j: usize = 0;
    while j < len
        invariant
            j <= len,
            b@.len() <= usize::MAX,
            mid + len <= b@.len(),
            v@ == b@.subrange(mid as int, mid + j),
        decreases len - j,
    {
        v.push(b[mid + j]);
        proof {
            assert(v@ =~= b@.subrange(mid as int, mid + j + 1));
        }
        j += 1;
    }
    let end = mid + len;
    proof {
        lemma_subrange_cat(b@, pos as int, mid as int, end as int);
        assert(b@.subrange(pos as int, end as int) == spec_enc_bytes(v@));
        assert forall|w: Seq<u8>|
            (w.len() <= u64::MAX && pos + spec_enc_bytes(w).len() <= b@.len() && b@.subrange(
                pos as int,
                pos + spec_enc_bytes(w).len(),
            ) == #[trigger] spec_enc_bytes(w)) implies v@ == w && end == pos + spec_enc_bytes(
            w,
        ).len() by {
            assert(b@.subrange(pos as int, pos + spec_hdr(2u8, w.len() as u64).len()) =~= spec_hdr(
                2u8,
                w.len() as u64,
            ));
            assert(n == w.len() as u64 && mid == pos + spec_hdr(2u8, w.len() as u64).len());
            assert forall|k: int| 0 <= k < w.len() implies v@[k] == w[k] by {
                assert(b@.subrange(pos as int, pos + spec_enc_bytes(w).len())[mid - pos + k]
                    == w[k]);
                assert(v@[k] == b@[mid + k]);
            }
            assert(v@ =~= w);
        }
    }
    Ok((v, end))
}

/// An item stream splits at any item boundary.
pub proof fn lemma_items_split(vs: Seq<Seq<u8>>, j: int)
    requires
        0 <= j <= vs.len(),
    ensures
        spec_enc_bytes_items(vs) == spec_enc_bytes_items(vs.subrange(0, j))
            + spec_enc_bytes_items(vs.subrange(j, vs.len() as int)),
    decreases vs.len(),
{
    if j == vs.len() {
        assert(vs.subrange(0, j) =~= vs);
        assert(vs.subrange(j, vs.len() as int).len() == 0);
        assert(spec_enc_bytes_items(vs) =~= spec_enc_bytes_items(vs.subrange(0, j))
            + spec_enc_bytes_items(vs.subrange(j, vs.len() as int)));
    } else {
        let t = vs.drop_last();
        lemma_items_split(t, j);
        assert(vs.subrange(0, j) =~= t.subrange(0, j));
        assert(vs.subrange(j, vs.len() as int).drop_last() =~= t.subrange(j, t.len() as int));
        assert(vs.subrange(j, vs.len() as int).last() == vs.last());
        assert(spec_enc_bytes_items(vs) =~= spec_enc_bytes_items(vs.subrange(0, j))
            + spec_enc_bytes_items(vs.subrange(j, vs.len() as int)));
    }
}

/// An array of byte strings, each short enough to carry a length header,
/// encoded at position `pos` of the buffer.
pub open spec fn spec_args_at(b: Seq<u8>, pos: int, vs: Seq<Seq<u8>>) -> bool {
    &&& vs.len() <= u64::MAX
    &&& (forall|i: int| 0 <= i < vs.len() ==> (#[trigger] vs[i]).len() <= u64::MAX)
    &&& pos + spec_enc_args(vs).len() <= b.len()
    &&& b.subrange(pos, pos + spec_enc_args(vs).len()) == spec_enc_args(vs)
}

/// Reads an array of byte strings at `pos`. Wherever such an array's
/// canonical encoding sits at `pos`, it is recognized and returned.
#[verifier::rlimit(100)]
pub fn dec_args(b: &Vec<u8>, pos: usize) -> (r: Result<(Vec<Vec<u8>>, usize), ()>)
    ensures
        match r {
            Ok((v, end)) => {
                &&& pos < end <= b@.len()
                &&& b@.subrange(pos as int, end as int) == spec_enc_args(arg_views(v@))
            },
            Err(_) => true,
        },
        forall|vs: Seq<Seq<u8>>|
            #[trigger] spec_args_at(b@, pos as int, vs) ==> (r matches Ok(h) && arg_views(h.0@)
                == vs && h.1 == pos + spec_enc_args(vs).len()),
{
    let hdr = dec_hdr(b, pos);
    proof {
        assert forall|vs: Seq<Seq<u8>>|
            #[trigger] spec_args_at(b@, pos as int, vs) implies hdr == Ok::<(u8, u64, usize), ()>(
            (4u8, vs.len() as u64, (pos + spec_hdr(4u8, vs.len() as u64).len()) as usize),
        ) by {
            assert(b@.subrange(pos as int, pos + spec_hdr(4u8, vs.len() as u64).len()) =~= spec_hdr(
                4u8,
                vs.len() as u64,
            ));
        }
    }
    let (major, k, mid) = match hdr {
        Ok(h) => h,
        Err(_) => {
            return Err(());
        },
    };
    if major != 4 {
        return Err(());
    }
    let mut v: Vec<Vec<u8>> = Vec::new();
    let mut j: u64 = 0;
    let mut p: usize = mid;
    proof {
        assert forall|vs: Seq<Seq<u8>>|
            #[trigger] spec_args_at(b@, pos as int, vs) implies arg_views(v@) == vs.subrange(
            0,
            0,
        ) by {
            assert(arg_views(v@) =~= vs.subrange(0, 0));
        }
    }
    while j < k
        invariant
            j <= k,
            pos < mid <= p <= b@.len(),
            v@.len() == j,
            b@.subrange(pos as int, mid as int) == spec_hdr(4, k),
            b@.subrange(mid as int, p as int) == spec_enc_bytes_items(arg_views(v@)),
            forall|vs: Seq<Seq<u8>>|
                #[trigger] spec_args_at(b@, pos as int, vs) ==> {
                    &&& k == vs.len()
                    &&& mid == pos + spec_hdr(4u8, vs.len() as u64).len()
                    &&& arg_views(v@) == vs.subrange(0, j as int)
                    &&& p == mid + spec_enc_bytes_items(vs.subrange(0, j as int)).len()
                },
        decreases k - j,
    {
        let item_res = dec_bytes(b, p);
        proof {
            assert forall|vs: Seq<Seq<u8>>|
                #[trigger] spec_args_at(b@, pos as int, vs) implies (item_res matches Ok(h)
                && h.0@ == vs[j as int] && h.1 == p + spec_enc_bytes(vs[j as int]).len()) by {
                let w = vs[j as int];
                let tail = vs.subrange(j as int, vs.len() as int);
                lemma_items_split(vs, j as int);
                lemma_items_split(tail, 1);
                assert(tail.subrange(0, 1).drop_last().len() == 0);
                assert(tail.subrange(0, 1).last() == w);
                assert(spec_enc_bytes_items(tail.subrange(0, 1).drop_last()) =~= Seq::<
                    u8,
                >::empty());
                assert(spec_enc_bytes_items(tail.subrange(0, 1)) =~= spec_enc_bytes(w));
                assert(spec_enc_args(vs) =~= spec_hdr(4u8, vs.len() as u64)
                    + spec_enc_bytes_items(vs.subrange(0, j as int)) + spec_enc_bytes(w)
                    + spec_enc_bytes_items(tail.subrange(1, tail.len() as int)));
                assert(p + spec_enc_bytes(w).len() <= pos + spec_enc_args(vs).len() <= b@.len());
                assert forall|kk: int|
                    0 <= kk < spec_enc_bytes(w).len() implies b@[p + kk] == spec_enc_bytes(
                    w,
                )[kk] by {
                    assert(b@.subrange(pos as int, pos + spec_enc_args(vs).len())[p - pos + kk]
                        == spec_enc_args(vs)[p - pos + kk]);
                }
                assert(b@.subrange(p as int, p + spec_enc_bytes(w).len()) =~= spec_enc_bytes(w));
            }
        }
        let (item, p2) = match item_res {
            Ok(h) => h,
            Err(_) => {
                return Err(());
            },
        };
        let ghost old_views = arg_views(v@);
        v.push(item);
        proof {
            assert(arg_views(v@).drop_last() =~= old_views);
            assert(arg_views(v@).last() == item@);
            lemma_subrange_cat(b@, mid as int, p as int, p2 as int);
            assert(b@.subrange(mid as int, p2 as int) == spec_enc_bytes_items(arg_views(v@)));
            assert forall|vs: Seq<Seq<u8>>|
                #[trigger] spec_args_at(b@, pos as int, vs) implies (arg_views(v@) == vs.subrange(
                0,
                j + 1,
            ) && p2 == mid + spec_enc_bytes_items(vs.subrange(0, j + 1)).len()) by {
                assert(vs.subrange(0, j + 1).drop_last() =~= vs.subrange(0, j as int));
                assert(vs.subrange(0, j + 1).last() == vs[j as int]);
                assert(arg_views(v@) =~= vs.subrange(0, j + 1));
            }
        }
        p = p2;
        j += 1;
    }
    proof {
        lemma_subrange_cat(b@, pos as int, mid as int, p as int);
        assert(arg_views(v@).len() == k);
        assert(b@.subrange(pos as int, p as int) == spec_enc_args(arg_views(v@)));
        assert forall|vs: Seq<Seq<u8>>|
            #[trigger] spec_args_at(b@, pos as int, vs) implies (arg_views(v@) == vs && p == pos
            + spec_enc_args(vs).len()) by {
            assert(vs.subrange(0, vs.len() as int) =~= vs);
        }
    }
    Ok((v, p))
}

/// Inside a region of the buffer equal to `whole`, a slice of `whole` at
/// offset `off` is found at `pos + off` of the buffer.
proof fn lemma_field_at(b: Seq<u8>, pos: int, whole: Seq<u8>, off: int, part: Seq<u8>)
    requires
        0 <= pos,
        pos + whole.len() <= b.len(),
        b.subrange(pos, pos + whole.len()) == whole,
        0 <= off,
        off + part.len() <= whole.len(),
        forall|k: int| 0 <= k < part.len() ==> whole[off + k] == part[k],
    ensures
        b.subrange(pos + off, pos + off + part.len()) == part,
{
    assert forall|k: int| 0 <= k < part.len() implies b[pos + off + k] == part[k] by {
        assert(b.subrange(pos, pos + whole.len())[off + k] == whole[off + k]);
    }
    assert(b.subrange(pos + off, pos + off + part.len()) =~= part);
}

/// The transaction's fields all fit their length headers, and its canonical
/// encoding sits at position `pos` of the buffer.
/// The transaction's byte-string fields and argument list all fit their
/// length headers.
pub open spec fn tx_bounded(t: Transaction) -> bool {
    &&& t.contract_address@.len() <= u64::MAX
    &&& t.contract_name@.len() <= u64::MAX
    &&& t.sender@.len() <= u64::MAX
    &&& t.function@.len() <= u64::MAX
    &&& t.arguments@.len() <= u64::MAX
    &&& (forall|i: int|
        0 <= i < t.arguments@.len() ==> (#[trigger] arg_views(t.arguments@)[i]).len()
            <= u64::MAX)
}

pub open spec fn spec_tx_at(b: Seq<u8>, pos: int, t: Transaction) -> bool {
    &&& 0 <= pos
    &&& tx_bounded(t)
    &&& pos + spec_enc_tx(t).len() <= b.len()
    &&& b.subrange(pos, pos + spec_enc_tx(t).len()) == spec_enc_tx(t)
}

/// Field-view agreement between two transactions.
pub open spec fn tx_views_eq(a: Transaction, t: Transaction) -> bool {
    &&& a.contract_address@ == t.contract_address@
    &&& a.contract_name@ == t.contract_name@
    &&& a.sender@ == t.sender@
    &&& a.nonce == t.nonce
    &&& a.gas_limit == t.gas_limit
    &&& a.function@ == t.function@
    &&& arg_views(a.arguments@) == arg_views(t.arguments@)
}

/// The seven shared fields, each within bounds, encoded consecutively at
/// position `pos` of the buffer.
pub open spec fn spec_fields7_at(b: Seq<u8>, pos: int, t: Transaction) -> bool {
    &&& 0 <= pos
    &&& tx_bounded(t)
    &&& pos + spec_enc_fields7(t).len() <= b.len()
    &&& b.subrange(pos, pos + spec_enc_fields7(t).len()) == spec_enc_fields7(t)
}

/// Where the seven shared fields sit consecutively, each field's encoding
/// sits at its fixed offset.
#[verifier::rlimit(100)]
#[verifier::spinoff_prover]
proof fn lemma_fields7_at(b: Seq<u8>, pos: int, t: Transaction)
    requires
        spec_fields7_at(b, pos, t),
    ensures
        ({
            let e1 = spec_enc_bytes(t.contract_address@);
            let e2 = spec_enc_bytes(t.contract_name@);
            let e3 = spec_enc_bytes(t.sender@);
            let e4 = spec_enc_uint(t.nonce);
            let e5 = spec_enc_uint(t.gas_limit);
            let e6 = spec_enc_bytes(t.function@);
            let e7 = spec_enc_args(arg_views(t.arguments@));
            let o1 = pos + e1.len();
            let o2 = o1 + e2.len();
            let o3 = o2 + e3.len();
            let o4 = o3 + e4.len();
            let o5 = o4 + e5.len();
            let o6 = o5 + e6.len();
            let o7 = o6 + e7.len();
            &&& b.subrange(pos, o1) == e1
            &&& b.subrange(o1, o2) == e2
            &&& b.subrange(o2, o3) == e3
            &&& b.subrange(o3, o4) == e4
            &&& b.subrange(o4, o5) == e5
            &&& b.subrange(o5, o6) == e6
            &&& b.subrange(o6, o7) == e7
            &&& o7 == pos + spec_enc_fields7(t).len()
        }),
{
    let w = spec_enc_fields7(t);
    let e1 = spec_enc_bytes(t.contract_address@);
    let e2 = spec_enc_bytes(t.contract_name@);
    let e3 = spec_enc_bytes(t.sender@);
    let e4 = spec_enc_uint(t.nonce);
    let e5 = spec_enc_uint(t.gas_limit);
    let e6 = spec_enc_bytes(t.function@);
    let e7 = spec_enc_args(arg_views(t.arguments@));
    let o1 = pos + e1.len();
    let o2 = o1 + e2.len();
    let o3 = o2 + e3.len();
    let o4 = o3 + e4.len();
    let o5 = o4 + e5.len();
    let o6 = o5 + e6.len();
    lemma_field_at(b, pos, w, 0, e1);
    lemma_field_at(b, pos, w, o1 - pos, e2);
    lemma_field_at(b, pos, w, o2 - pos, e3);
    lemma_field_at(b, pos, w, o3 - pos, e4);
    lemma_field_at(b, pos, w, o4 - pos, e5);
    lemma_field_at(b, pos, w, o5 - pos, e6);
    lemma_field_at(b, pos, w, o6 - pos, e7);
}

/// Reads the seven shared fields, encoded consecutively at `pos`. Wherever
/// such a run of field encodings sits at `pos`, it is recognized and
/// returned.
#[verifier::rlimit(100)]
#[verifier::spinoff_prover]
pub fn dec_fields7(b: &Vec<u8>, pos: usize) -> (r: Result<(Transaction, usize), ()>)
    ensures
        match r {
            Ok((t, end)) => {
                &&& pos < end <= b@.len()
                &&& b@.subrange(pos as int, end as int) == spec_enc_fields7(t)
            },
            Err(_) => true,
        },
        forall|t: Transaction|
            #[trigger] spec_fields7_at(b@, pos as int, t) ==> (r matches Ok(h) && tx_views_eq(
                h.0,
                t,
            ) && h.1 == pos + spec_enc_fields7(t).len()),
{
    let r1 = dec_bytes(b, pos);
    proof {
        assert forall|t: Transaction|
            #[trigger] spec_fields7_at(b@, pos as int, t) implies (r1 matches Ok(h) && h.0@
            == t.contract_address@ && h.1 == pos + spec_enc_bytes(t.contract_address@).len()) by {
            lemma_fields7_at(b@, pos as int, t);
        }
    }
    let (contract_address, p1) = match r1 {
        Ok(h) => h,
        Err(_) => {
            return Err(());
        },
    };
    let r2 = dec_bytes(b, p1);
    proof {
        assert forall|t: Transaction|
            #[trigger] spec_fields7_at(b@, pos as int, t) implies (r2 matches Ok(h) && h.0@
            == t.contract_name@ && h.1 == p1 + spec_enc_bytes(t.contract_name@).len()) by {
            lemma_fields7_at(b@, pos as int, t);
        }
    }
    let (contract_name, p2) = match r2 {
        Ok(h) => h,
        Err(_) => {
            return Err(());
        },
    };
    let r3 = dec_bytes(b, p2);
    proof {
        assert forall|t: Transaction|
            #[trigger] spec_fields7_at(b@, pos as int, t) implies (r3 matches Ok(h) && h.0@
            == t.sender@ && h.1 == p2 + spec_enc_bytes(t.sender@).len()) by {
            lemma_fields7_at(b@, pos as int, t);
        }
    }
    let (sender, p3) = match r3 {
        Ok(h) => h,
        Err(_) => {
            return Err(());
        },
    };
    let r4 = dec_uint(b, p3);
    proof {
        assert forall|t: Transaction|
            #[trigger] spec_fields7_at(b@, pos as int, t) implies r4 == Ok::<(u64, usize), ()>(
            (t.nonce, (p3 + spec_enc_uint(t.nonce).len()) as usize),
        ) by {
            lemma_fields7_at(b@, pos as int, t);
        }
    }
    let (nonce, p4) = match r4 {
        Ok(h) => h,
        Err(_) => {
            return Err(());
        },
    };
    let r5 = dec_uint(b, p4);
    proof {
        assert forall|t: Transaction|
            #[trigger] spec_fields7_at(b@, pos as int, t) implies r5 == Ok::<(u64, usize), ()>(
            (t.gas_limit, (p4 + spec_enc_uint(t.gas_limit).len()) as usize),
        ) by {
            lemma_fields7_at(b@, pos as int, t);
        }
    }
    let (gas_limit, p5) = match r5 {
        Ok(h) => h,
        Err(_) => {
            return Err(());
        },
    };
    let r6 = dec_bytes(b, p5);
    proof {
        assert forall|t: Transaction|
            #[trigger] spec_fields7_at(b@, pos as int, t) implies (r6 matches Ok(h) && h.0@
            == t.function@ && h.1 == p5 + spec_enc_bytes(t.function@).len()) by {
            lemma_fields7_at(b@, pos as int, t);
        }
    }
    let (function, p6) = match r6 {
        Ok(h) => h,
        Err(_) => {
            return Err(());
        },
    };
    let r7 = dec_args(b, p6);
    proof {
        assert forall|t: Transaction|
            #[trigger] spec_fields7_at(b@, pos as int, t) implies (r7 matches Ok(h) && arg_views(
            h.0@,
        ) == arg_views(t.arguments@) && h.1 == p6 + spec_enc_args(
            arg_views(t.arguments@),
        ).len()) by {
            lemma_fields7_at(b@, pos as int, t);
            assert(spec_args_at(b@, p6 as int, arg_views(t.arguments@)));
        }
    }
    let (arguments, p7) = match r7 {
        Ok(h) => h,
        Err(_) => {
            return Err(());
        },
    };
    let t = Transaction {
        contract_address,
        contract_name,
        sender,
        nonce,
        gas_limit,
        function,
        arguments,
    };
    proof {
        lemma_subrange_cat(b@, pos as int, p1 as int, p2 as int);
        lemma_subrange_cat(b@, pos as int, p2 as int, p3 as int);
        lemma_subrange_cat(b@, pos as int, p3 as int, p4 as int);
        lemma_subrange_cat(b@, pos as int, p4 as int, p5 as int);
        lemma_subrange_cat(b@, pos as int, p5 as int, p6 as int);
        lemma_subrange_cat(b@, pos as int, p6 as int, p7 as int);
        assert(b@.subrange(pos as int, p7 as int) =~= spec_enc_fields7(t));
    }
    Ok((t, p7))
}

/// Reads one transaction (an array of seven fields) at `pos`. Wherever a
/// transaction's canonical encoding sits at `pos`, it is recognized and
/// returned.
pub fn dec_tx(b: &Vec<u8>, pos: usize) -> (r: Result<(Transaction, usize), ()>)
    ensures
        match r {
            Ok((t, end)) => {
                &&& pos < end <= b@.len()
                &&& b@.subrange(pos as int, end as int) == spec_enc_tx(t)
            },
            Err(_) => true,
        },
        forall|t: Transaction|
            #[trigger] spec_tx_at(b@, pos as int, t) ==> (r matches Ok(h) && tx_views_eq(h.0, t)
                && h.1 == pos + spec_enc_tx(t).len()),
{
    let hdr = dec_hdr(b, pos);
    proof {
        assert forall|t: Transaction|
            #[trigger] spec_tx_at(b@, pos as int, t) implies hdr == Ok::<(u8, u64, usize), ()>(
            (4u8, 7u64, (pos + 1) as usize),
        ) by {
            assert(spec_hdr(4u8, 7u64).len() == 1);
            assert(b@.subrange(pos as int, pos + 1) =~= spec_hdr(4u8, 7u64));
        }
    }
    let (major, k, p0) = match hdr {
        Ok(h) => h,
        Err(_) => {
            return Err(());
        },
    };
    if major != 4 || k != 7 {
        return Err(());
    }
    let fields = dec_fields7(b, p0);
    proof {
        assert forall|t: Transaction|
            #[trigger] spec_tx_at(b@, pos as int, t) implies (fields matches Ok(h) && tx_views_eq(
            h.0,
            t,
        ) && h.1 == p0 + spec_enc_fields7(t).len()) by {
            lemma_field_at(b@, pos as int, spec_enc_tx(t), 1, spec_enc_fields7(t));
            assert(spec_fields7_at(b@, p0 as int, t));
        }
    }
    let (t, end) = match fields {
        Ok(h) => h,
        Err(_) => {
            return Err(());
        },
    };
    proof {
        lemma_subrange_cat(b@, pos as int, p0 as int, end as int);
        assert(b@.subrange(pos as int, end as int) =~= spec_enc_tx(t));
    }
    Ok((t, end))
}

/// The record's byte-string fields and argument list all fit their length
/// headers.
pub open spec fn ct_bounded(c: CompletedTransaction) -> bool {
    &&& tx_bounded(ct_head(c))
    &&& c.return_value@.len() <= u64::MAX
}

/// The record's canonical encoding sits at position `pos` of the buffer.
pub open spec fn spec_ct_at(b: Seq<u8>, pos: int, c: CompletedTransaction) -> bool {
    &&& 0 <= pos
    &&& ct_bounded(c)
    &&& pos + spec_enc_ct(c).len() <= b.len()
    &&& b.subrange(pos, pos + spec_enc_ct(c).len()) == spec_enc_ct(c)
}

/// Field-view agreement between two completed-transaction records.
pub open spec fn ct_views_eq(a: CompletedTransaction, c: CompletedTransaction) -> bool {
    &&& tx_views_eq(ct_head(a), ct_head(c))
    &&& a.return_code == c.return_code
    &&& a.return_value@ == c.return_value@
    &&& a.execution_order == c.execution_order
}

/// Where a record's canonical encoding sits, its head and tail components
/// sit at their fixed offsets.
#[verifier::rlimit(100)]
#[verifier::spinoff_prover]
proof fn lemma_ct_parts_at(b: Seq<u8>, pos: int, c: CompletedTransaction)
    requires
        spec_ct_at(b, pos, c),
    ensures
        ({
            let f = spec_enc_fields7(ct_head(c));
            let e8 = spec_enc_uint(c.return_code);
            let e9 = spec_enc_bytes(c.return_value@);
            let e10 = spec_enc_uint(c.execution_order);
            let o0 = pos + 1;
            let o7 = o0 + f.len();
            let o8 = o7 + e8.len();
            let o9 = o8 + e9.len();
            let o10 = o9 + e10.len();
            &&& b.subrange(pos, o0) == spec_hdr(4u8, 10u64)
            &&& b.subrange(o0, o7) == f
            &&& b.subrange(o7, o8) == e8
            &&& b.subrange(o8, o9) == e9
            &&& b.subrange(o9, o10) == e10
            &&& o10 == pos + spec_enc_ct(c).len()
        }),
{
    let w = spec_enc_ct(c);
    let f = spec_enc_fields7(ct_head(c));
    let e8 = spec_enc_uint(c.return_code);
    let e9 = spec_enc_bytes(c.return_value@);
    let e10 = spec_enc_uint(c.execution_order);
    assert(spec_hdr(4u8, 10u64).len() == 1);
    let o0 = pos + 1;
    let o7 = o0 + f.len();
    let o8 = o7 + e8.len();
    let o9 = o8 + e9.len();
    assert(b.subrange(pos, o0) =~= spec_hdr(4u8, 10u64));
    lemma_field_at(b, pos, w, 1, f);
    lemma_field_at(b, pos, w, o7 - pos, e8);
    lemma_field_at(b, pos, w, o8 - pos, e9);
    lemma_field_at(b, pos, w, o9 - pos, e10);
}

/// Reads one completed-transaction record (an array of ten fields) at `pos`.
/// Wherever a record's canonical encoding sits at `pos`, it is recognized
/// and returned.
#[verifier::rlimit(100)]
#[verifier::spinoff_prover]
pub fn dec_ct(b: &Vec<u8>, pos: usize) -> (r: Result<(CompletedTransaction, usize), ()>)
    ensures
        match r {
            Ok((c, end)) => {
                &&& pos < end <= b@.len()
                &&& b@.subrange(pos as int, end as int) == spec_enc_ct(c)
            },
            Err(_) => true,
        },
        forall|c: CompletedTransaction|
            #[trigger] spec_ct_at(b@, pos as int, c) ==> (r matches Ok(h) && ct_views_eq(h.0, c)
                && h.1 == pos + spec_enc_ct(c).len()),
{
    let hdr = dec_hdr(b, pos);
    proof {
        assert forall|c: CompletedTransaction|
            #[trigger] spec_ct_at(b@, pos as int, c) implies hdr == Ok::<(u8, u64, usize), ()>(
            (4u8, 10u64, (pos + 1) as usize),
        ) by {
            assert(spec_hdr(4u8, 10u64).len() == 1);
            assert(b@.subrange(pos as int, pos + 1) =~= spec_hdr(4u8, 10u64));
        }
    }
    let (major, k, p0) = match hdr {
        Ok(h) => h,
        Err(_) => {
            return Err(());
        },
    };
    if major != 4 || k != 10 {
        return Err(());
    }
    let fields = dec_fields7(b, p0);
    proof {
        assert forall|c: CompletedTransaction|
            #[trigger] spec_ct_at(b@, pos as int, c) implies (fields matches Ok(h) && tx_views_eq(
            h.0,
            ct_head(c),
        ) && h.1 == p0 + spec_enc_fields7(ct_head(c)).len()) by {
            lemma_ct_parts_at(b@, pos as int, c);
            assert(spec_fields7_at(b@, p0 as int, ct_head(c)));
        }
    }
    let (head, p7) = match fields {
        Ok(h) => h,
        Err(_) => {
            return Err(());
        },
    };
    let r8 = dec_uint(b, p7);
    proof {
        assert forall|c: CompletedTransaction|
            #[trigger] spec_ct_at(b@, pos as int, c) implies r8 == Ok::<(u64, usize), ()>(
            (c.return_code, (p7 + spec_enc_uint(c.return_code).len()) as usize),
        ) by {
            lemma_ct_parts_at(b@, pos as int, c);
        }
    }
    let (return_code, p8) = match r8 {
        Ok(h) => h,
        Err(_) => {
            return Err(());
        },
    };
    let r9 = dec_bytes(b, p8);
    proof {
        assert forall|c: CompletedTransaction|
            #[trigger] spec_ct_at(b@, pos as int, c) implies (r9 matches Ok(h) && h.0@
            == c.return_value@ && h.1 == p8 + spec_enc_bytes(c.return_value@).len()) by {
            lemma_ct_parts_at(b@, pos as int, c);
        }
    }
    let (return_value, p9) = match r9 {
        Ok(h) => h,
        Err(_) => {
            return Err(());
        },
    };
    let r10 = dec_uint(b, p9);
    proof {
        assert forall|c: CompletedTransaction|
            #[trigger] spec_ct_at(b@, pos as int, c) implies r10 == Ok::<(u64, usize), ()>(
            (c.execution_order, (p9 + spec_enc_uint(c.execution_order).len()) as usize),
        ) by {
            lemma_ct_parts_at(b@, pos as int, c);
        }
    }
    let (execution_order, p10) = match r10 {
        Ok(h) => h,
        Err(_) => {
            return Err(());
        },
    };
    let Transaction { contract_address, contract_name, sender, nonce, gas_limit, function, arguments } =
        head;
    let c = CompletedTransaction {
        contract_address,
        contract_name,
        sender,
        nonce,
        gas_limit,
        function,
        arguments,
        return_code,
        return_value,
        execution_order,
    };
    proof {
        lemma_subrange_cat(b@, pos as int, p0 as int, p7 as int);
        lemma_subrange_cat(b@, pos as int, p7 as int, p8 as int);
        lemma_subrange_cat(b@, pos as int, p8 as int, p9 as int);
        lemma_subrange_cat(b@, pos as int, p9 as int, p10 as int);
        assert(b@.subrange(pos as int, p10 as int) =~= spec_enc_ct(c));
    }
    Ok((c, p10))
}
} // verus!

verus! {

/// The items of an ordered transaction list.
pub open spec fn spec_enc_tx_items(s: Seq<Transaction>) -> Seq<u8>
    decreases s.len(),
{
    if s.len() == 0 {
        Seq::empty()
    } else {
        spec_enc_tx_items(s.drop_last()) + spec_enc_tx(s.last())
    }
}

/// An ordered transaction list, as a replay input carries it.
pub open spec fn spec_enc_tx_list(s: Seq<Transaction>) -> Seq<u8> {
    spec_hdr(4, s.len() as u64) + spec_enc_tx_items(s)
}

pub fn encode_transaction_list(v: &Vec<Transaction>) -> (r: Vec<u8>)
    ensures
        r@ == spec_enc_tx_list(v@),
{
    let mut out: Vec<u8> = Vec::new();
    push_hdr(&mut out, 4, v.len() as u64);
    let ghost mid = out@;
    let mut i: usize = 0;
    while i < v.len()
        invariant
            i <= v@.len(),
            out@ == mid + spec_enc_tx_items(v@.subrange(0, i as int)),
        decreases v@.len() - i,
    {
        let t = encode_transaction(&v[i]);
        let mut j: usize = 0;
        while j < t.len()
            invariant
                j <= t@.len(),
                out@ == mid + spec_enc_tx_items(v@.subrange(0, i as int)) + t@.subrange(
                    0,
                    j as int,
                ),
            decreases t@.len() - j,
        {
            out.push(t[j]);
            proof {
                assert(out@ =~= mid + spec_enc_tx_items(v@.subrange(0, i as int)) + t@.subrange(
                    0,
                    j + 1,
                ));
            }
            j += 1;
        }
        proof {
            assert(t@.subrange(0, t@.len() as int) =~= t@);
            assert(v@.subrange(0, i + 1).drop_last() =~= v@.subrange(0, i as int));
            assert(out@ =~= mid + spec_enc_tx_items(v@.subrange(0, i + 1)));
        }
        i += 1;
    }
    proof {
        assert(v@.subrange(0, v@.len() as int) =~= v@);
        assert(out@ =~= spec_enc_tx_list(v@));
    }
    out
}

/// Decodes a whole buffer as one transaction. `Ok` exactly when the buffer is
/// the canonical serialized form of the result, which is also the
/// transaction's queue identity; every whole-buffer canonical encoding is
/// recognized.
pub fn decode_transaction(b: &Vec<u8>) -> (r: Result<Transaction, ()>)
    ensures
        match r {
            Ok(t) => b@ == spec_enc_tx(t),
            Err(_) => true,
        },
        forall|t: Transaction|
            (#[trigger] spec_tx_at(b@, 0, t) && spec_enc_tx(t).len() == b@.len()) ==> (r matches
                Ok(h) && tx_views_eq(h, t)),
{
    let (t, end) = match dec_tx(b, 0) {
        Ok(h) => h,
        Err(_) => {
            return Err(());
        },
    };
    if end != b.len() {
        return Err(());
    }
    proof {
        assert(b@.subrange(0, b@.len() as int) =~= b@);
    }
    Ok(t)
}

/// A transaction item stream splits at any item boundary.
pub proof fn lemma_tx_items_split(vs: Seq<Transaction>, j: int)
    requires
        0 <= j <= vs.len(),
    ensures
        spec_enc_tx_items(vs) == spec_enc_tx_items(vs.subrange(0, j)) + spec_enc_tx_items(
            vs.subrange(j, vs.len() as int),
        ),
    decreases vs.len(),
{
    if j == vs.len() {
        assert(vs.subrange(0, j) =~= vs);
        assert(vs.subrange(j, vs.len() as int).len() == 0);
        assert(spec_enc_tx_items(vs) =~= spec_enc_tx_items(vs.subrange(0, j))
            + spec_enc_tx_items(vs.subrange(j, vs.len() as int)));
    } else {
        let t = vs.drop_last();
        lemma_tx_items_split(t, j);
        assert(vs.subrange(0, j) =~= t.subrange(0, j));
        assert(vs.subrange(j, vs.len() as int).drop_last() =~= t.subrange(j, t.len() as int));
        assert(vs.subrange(j, vs.len() as int).last() == vs.last());
        assert(spec_enc_tx_items(vs) =~= spec_enc_tx_items(vs.subrange(0, j))
            + spec_enc_tx_items(vs.subrange(j, vs.len() as int)));
    }
}

/// An ordered transaction list, each entry within bounds, filling the whole
/// buffer.
pub open spec fn spec_tx_list_at(b: Seq<u8>, vs: Seq<Transaction>) -> bool {
    &&& vs.len() <= u64::MAX
    &&& (forall|i: int| 0 <= i < vs.len() ==> tx_bounded(#[trigger] vs[i]))
    &&& b == spec_enc_tx_list(vs)
}

/// Decodes a whole buffer as an ordered transaction list (the replay input).
/// Every whole-buffer canonical encoding of a list is recognized, entry for
/// entry, in order.
#[verifier::rlimit(100)]
pub fn decode_transaction_list(b: &Vec<u8>) -> (r: Result<Vec<Transaction>, ()>)
    ensures
        match r {
            Ok(v) => b@ == spec_enc_tx_list(v@),
            Err(_) => true,
        },
        forall|vs: Seq<Transaction>|
            #[trigger] spec_tx_list_at(b@, vs) ==> (r matches Ok(h) && h@.len() == vs.len()
                && (forall|i: int| 0 <= i < vs.len() ==> tx_views_eq(#[trigger] h@[i], vs[i]))),
{
    let hdr = dec_hdr(b, 0);
    proof {
        assert forall|vs: Seq<Transaction>|
            #[trigger] spec_tx_list_at(b@, vs) implies hdr == Ok::<(u8, u64, usize), ()>(
            (4u8, vs.len() as u64, spec_hdr(4u8, vs.len() as u64).len() as usize),
        ) by {
            assert(b@.subrange(0, spec_hdr(4u8, vs.len() as u64).len() as int) =~= spec_hdr(
                4u8,
                vs.len() as u64,
            ));
        }
    }
    let (major, k, mid) = match hdr {
        Ok(h) => h,
        Err(_) => {
            return Err(());
        },
    };
    if major != 4 {
        return Err(());
    }
    let mut v: Vec<Transaction> = Vec::new();
    let mut j: u64 = 0;
    let mut p: usize = mid;
    proof {
        assert forall|vs: Seq<Transaction>|
            #[trigger] spec_tx_list_at(b@, vs) implies spec_enc_tx_items(
            vs.subrange(0, 0),
        ).len() == 0 by {
            assert(vs.subrange(0, 0).len() == 0);
        }
    }
    while j < k
        invariant
            j <= k,
            0 < mid <= p <= b@.len(),
            v@.len() == j,
            b@.subrange(0, mid as int) == spec_hdr(4, k),
            b@.subrange(mid as int, p as int) == spec_enc_tx_items(v@),
            forall|vs: Seq<Transaction>|
                #[trigger] spec_tx_list_at(b@, vs) ==> {
                    &&& k == vs.len()
                    &&& mid == spec_hdr(4u8, vs.len() as u64).len()
                    &&& (forall|i: int| 0 <= i < j ==> tx_views_eq(#[trigger] v@[i], vs[i]))
                    &&& p == mid + spec_enc_tx_items(vs.subrange(0, j as int)).len()
                },
        decreases k - j,
    {
        let item_res = dec_tx(b, p);
        proof {
            assert forall|vs: Seq<Transaction>|
                #[trigger] spec_tx_list_at(b@, vs) implies (item_res matches Ok(h) && tx_views_eq(
                h.0,
                vs[j as int],
            ) && h.1 == p + spec_enc_tx(vs[j as int]).len()) by {
                let w = vs[j as int];
                let tail = vs.subrange(j as int, vs.len() as int);
                lemma_tx_items_split(vs, j as int);
                lemma_tx_items_split(tail, 1);
                assert(tail.subrange(0, 1).drop_last().len() == 0);
                assert(tail.subrange(0, 1).last() == w);
                assert(spec_enc_tx_items(tail.subrange(0, 1).drop_last()) =~= Seq::<u8>::empty());
                assert(spec_enc_tx_items(tail.subrange(0, 1)) =~= spec_enc_tx(w));
                assert(spec_enc_tx_list(vs) =~= spec_hdr(4u8, vs.len() as u64)
                    + spec_enc_tx_items(vs.subrange(0, j as int)) + spec_enc_tx(w)
                    + spec_enc_tx_items(tail.subrange(1, tail.len() as int)));
                assert(p + spec_enc_tx(w).len() <= b@.len());
                assert forall|kk: int|
                    0 <= kk < spec_enc_tx(w).len() implies b@[p + kk] == spec_enc_tx(w)[kk] by {
                    assert(spec_enc_tx_list(vs)[p + kk] == spec_enc_tx(w)[kk]);
                }
                assert(b@.subrange(p as int, p + spec_enc_tx(w).len()) =~= spec_enc_tx(w));
                assert(spec_tx_at(b@, p as int, w));
            }
        }
        let (t, p2) = match item_res {
            Ok(h) => h,
            Err(_) => {
                return Err(());
            },
        };
        let ghost vs0 = v@;
        v.push(t);
        proof {
            assert(v@.drop_last() =~= vs0);
            lemma_subrange_cat(b@, mid as int, p as int, p2 as int);
            assert(b@.subrange(mid as int, p2 as int) == spec_enc_tx_items(v@));
            assert forall|vs: Seq<Transaction>|
                #[trigger] spec_tx_list_at(b@, vs) implies (p2 == mid + spec_enc_tx_items(
                vs.subrange(0, j + 1),
            ).len() && (forall|i: int| 0 <= i < j + 1 ==> tx_views_eq(#[trigger] v@[i], vs[i])))
                by {
                assert(vs.subrange(0, j + 1).drop_last() =~= vs.subrange(0, j as int));
                assert(vs.subrange(0, j + 1).last() == vs[j as int]);
                assert(tx_views_eq(v@[j as int], vs[j as int]));
                assert(spec_enc_tx(v@[j as int]) == spec_enc_tx(vs[j as int]));
            }
        }
        p = p2;
        j += 1;
    }
    if p != b.len() {
        proof {
            assert forall|vs: Seq<Transaction>| #[trigger] spec_tx_list_at(b@, vs) implies false by {
                assert(vs.subrange(0, vs.len() as int) =~= vs);
            }
        }
        return Err(());
    }
    proof {
        lemma_subrange_cat(b@, 0, mid as int, p as int);
        assert(b@.subrange(0, b@.len() as int) =~= b@);
        assert(v@.len() == k);
        assert forall|vs: Seq<Transaction>|
            #[trigger] spec_tx_list_at(b@, vs) implies v@.len() == vs.len() by {}
    }
    Ok(v)
}

/// A record item stream splits at any item boundary.
pub proof fn lemma_ct_items_split(vs: Seq<CompletedTransaction>, j: int)
    requires
        0 <= j <= vs.len(),
    ensures
        spec_enc_ct_items(vs) == spec_enc_ct_items(vs.subrange(0, j)) + spec_enc_ct_items(
            vs.subrange(j, vs.len() as int),
        ),
    decreases vs.len(),
{
    if j == vs.len() {
        assert(vs.subrange(0, j) =~= vs);
        assert(vs.subrange(j, vs.len() as int).len() == 0);
        assert(spec_enc_ct_items(vs) =~= spec_enc_ct_items(vs.subrange(0, j)) + spec_enc_ct_items(
            vs.subrange(j, vs.len() as int),
        ));
    } else {
        let t = vs.drop_last();
        lemma_ct_items_split(t, j);
        assert(vs.subrange(0, j) =~= t.subrange(0, j));
        assert(vs.subrange(j, vs.len() as int).drop_last() =~= t.subrange(j, t.len() as int));
        assert(vs.subrange(j, vs.len() as int).last() == vs.last());
        assert(spec_enc_ct_items(vs) =~= spec_enc_ct_items(vs.subrange(0, j)) + spec_enc_ct_items(
            vs.subrange(j, vs.len() as int),
        ));
    }
}

/// An ordered record list, each entry within bounds, filling the whole
/// buffer.
pub open spec fn spec_ct_list_at(b: Seq<u8>, vs: Seq<CompletedTransaction>) -> bool {
    &&& vs.len() <= u64::MAX
    &&& (forall|i: int| 0 <= i < vs.len() ==> ct_bounded(#[trigger] vs[i]))
    &&& b == spec_enc_ct_list(vs)
}

/// Decodes a whole buffer as the ordered completed-transaction list. Every
/// whole-buffer canonical encoding of a record list is recognized, record
/// for record, in order.
#[verifier::rlimit(100)]
#[verifier::spinoff_prover]
pub fn decode_completed_list(b: &Vec<u8>) -> (r: Result<Vec<CompletedTransaction>, ()>)
    ensures
        match r {
            Ok(v) => b@ == spec_enc_ct_list(v@),
            Err(_) => true,
        },
        forall|vs: Seq<CompletedTransaction>|
            #[trigger] spec_ct_list_at(b@, vs) ==> (r matches Ok(h) && h@.len() == vs.len() && (
            forall|i: int| 0 <= i < vs.len() ==> ct_views_eq(#[trigger] h@[i], vs[i]))),
{
    let hdr = dec_hdr(b, 0);
    proof {
        assert forall|vs: Seq<CompletedTransaction>|
            #[trigger] spec_ct_list_at(b@, vs) implies hdr == Ok::<(u8, u64, usize), ()>(
            (4u8, vs.len() as u64, spec_hdr(4u8, vs.len() as u64).len() as usize),
        ) by {
            assert(b@.subrange(0, spec_hdr(4u8, vs.len() as u64).len() as int) =~= spec_hdr(
                4u8,
                vs.len() as u64,
            ));
        }
    }
    let (major, k, mid) = match hdr {
        Ok(h) => h,
        Err(_) => {
            return Err(());
        },
    };
    if major != 4 {
        return Err(());
    }
    let mut v: Vec<CompletedTransaction> = Vec::new();
    let mut j: u64 = 0;
    let mut p: usize = mid;
    proof {
        assert forall|vs: Seq<CompletedTransaction>|
            #[trigger] spec_ct_list_at(b@, vs) implies spec_enc_ct_items(
            vs.subrange(0, 0),
        ).len() == 0 by {
            assert(vs.subrange(0, 0).len() == 0);
        }
    }
    while j < k
        invariant
            j <= k,
            0 < mid <= p <= b@.len(),
            v@.len() == j,
            b@.subrange(0, mid as int) == spec_hdr(4, k),
            b@.subrange(mid as int, p as int) == spec_enc_ct_items(v@),
            forall|vs: Seq<CompletedTransaction>|
                #[trigger] spec_ct_list_at(b@, vs) ==> {
                    &&& k == vs.len()
                    &&& mid == spec_hdr(4u8, vs.len() as u64).len()
                    &&& (forall|i: int| 0 <= i < j ==> ct_views_eq(#[trigger] v@[i], vs[i]))
                    &&& p == mid + spec_enc_ct_items(vs.subrange(0, j as int)).len()
                },
        decreases k - j,
    {
        let item_res = dec_ct(b, p);
        proof {
            assert forall|vs: Seq<CompletedTransaction>|
                #[trigger] spec_ct_list_at(b@, vs) implies (item_res matches Ok(h) && ct_views_eq(
                h.0,
                vs[j as int],
            ) && h.1 == p + spec_enc_ct(vs[j as int]).len()) by {
                let w = vs[j as int];
                let tail = vs.subrange(j as int, vs.len() as int);
                lemma_ct_items_split(vs, j as int);
                lemma_ct_items_split(tail, 1);
                assert(tail.subrange(0, 1).drop_last().len() == 0);
                assert(tail.subrange(0, 1).last() == w);
                assert(spec_enc_ct_items(tail.subrange(0, 1).drop_last()) =~= Seq::<u8>::empty());
                assert(spec_enc_ct_items(tail.subrange(0, 1)) =~= spec_enc_ct(w));
                assert(spec_enc_ct_list(vs) =~= spec_hdr(4u8, vs.len() as u64) + spec_enc_ct_items(
                    vs.subrange(0, j as int),
                ) + spec_enc_ct(w) + spec_enc_ct_items(tail.subrange(1, tail.len() as int)));
                assert(p + spec_enc_ct(w).len() <= b@.len());
                assert forall|kk: int|
                    0 <= kk < spec_enc_ct(w).len() implies b@[p + kk] == spec_enc_ct(w)[kk] by {
                    assert(spec_enc_ct_list(vs)[p + kk] == spec_enc_ct(w)[kk]);
                }
                assert(b@.subrange(p as int, p + spec_enc_ct(w).len()) =~= spec_enc_ct(w));
                assert(spec_ct_at(b@, p as int, w));
            }
        }
        let (c, p2) = match item_res {
            Ok(h) => h,
            Err(_) => {
                return Err(());
            },
        };
        let ghost vs0 = v@;
        v.push(c);
        proof {
            assert(v@.drop_last() =~= vs0);
            lemma_subrange_cat(b@, mid as int, p as int, p2 as int);
            assert(b@.subrange(mid as int, p2 as int) == spec_enc_ct_items(v@));
            assert forall|vs: Seq<CompletedTransaction>|
                #[trigger] spec_ct_list_at(b@, vs) implies (p2 == mid + spec_enc_ct_items(
                vs.subrange(0, j + 1),
            ).len() && (forall|i: int| 0 <= i < j + 1 ==> ct_views_eq(#[trigger] v@[i], vs[i])))
                by {
                assert(vs.subrange(0, j + 1).drop_last() =~= vs.subrange(0, j as int));
                assert(vs.subrange(0, j + 1).last() == vs[j as int]);
                assert(ct_views_eq(v@[j as int], vs[j as int]));
                assert(spec_enc_ct(v@[j as int]) == spec_enc_ct(vs[j as int]));
            }
        }
        p = p2;
        j += 1;
    }
    if p != b.len() {
        proof {
            assert forall|vs: Seq<CompletedTransaction>|
                #[trigger] spec_ct_list_at(b@, vs) implies false by {
                assert(vs.subrange(0, vs.len() as int) =~= vs);
            }
        }
        return Err(());
    }
    proof {
        lemma_subrange_cat(b@, 0, mid as int, p as int);
        assert(b@.subrange(0, b@.len() as int) =~= b@);
        assert(v@.len() == k);
    }
    Ok(v)
}

/// A key/value item stream splits at any item boundary.
pub proof fn lemma_pair_items_split(vs: Seq<Pair>, j: int)
    requires
        0 <= j <= vs.len(),
    ensures
        spec_enc_pair_items(vs) == spec_enc_pair_items(vs.subrange(0, j)) + spec_enc_pair_items(
            vs.subrange(j, vs.len() as int),
        ),
    decreases vs.len(),
{
    if j == vs.len() {
        assert(vs.subrange(0, j) =~= vs);
        assert(vs.subrange(j, vs.len() as int).len() == 0);
        assert(spec_enc_pair_items(vs) =~= spec_enc_pair_items(vs.subrange(0, j))
            + spec_enc_pair_items(vs.subrange(j, vs.len() as int)));
    } else {
        let t = vs.drop_last();
        lemma_pair_items_split(t, j);
        assert(vs.subrange(0, j) =~= t.subrange(0, j));
        assert(vs.subrange(j, vs.len() as int).drop_last() =~= t.subrange(j, t.len() as int));
        assert(vs.subrange(j, vs.len() as int).last() == vs.last());
        assert(spec_enc_pair_items(vs) =~= spec_enc_pair_items(vs.subrange(0, j))
            + spec_enc_pair_items(vs.subrange(j, vs.len() as int)));
    }
}

/// Pairwise view agreement of key/value lists.
pub open spec fn pairs_views_eq(a: Seq<Pair>, vs: Seq<Pair>) -> bool {
    &&& a.len() == vs.len()
    &&& (forall|i: int|
        0 <= i < vs.len() ==> (#[trigger] a[i]).key@ == vs[i].key@ && a[i].value@
            == vs[i].value@)
}

/// A changeset's key/value pairs, each within bounds, filling the whole
/// buffer.
pub open spec fn spec_pairs_at(b: Seq<u8>, vs: Seq<Pair>) -> bool {
    &&& vs.len() <= u64::MAX
    &&& (forall|i: int|
        0 <= i < vs.len() ==> (#[trigger] vs[i]).key@.len() <= u64::MAX && vs[i].value@.len()
            <= u64::MAX)
    &&& b == spec_enc_changeset(vs)
}

/// Where a changeset's encoding fills the buffer, pair `j`'s key and value
/// encodings sit at their fixed offsets.
#[verifier::rlimit(100)]
#[verifier::spinoff_prover]
proof fn lemma_pair_at(b: Seq<u8>, vs: Seq<Pair>, j: int, p: int)
    requires
        spec_pairs_at(b, vs),
        0 <= j < vs.len(),
        p == spec_hdr(5u8, vs.len() as u64).len() + spec_enc_pair_items(vs.subrange(0, j)).len(),
    ensures
        ({
            let ek = spec_enc_bytes(vs[j].key@);
            let ev = spec_enc_bytes(vs[j].value@);
            &&& p + ek.len() + ev.len() <= b.len()
            &&& b.subrange(p, p + ek.len()) == ek
            &&& b.subrange(p + ek.len(), p + ek.len() + ev.len()) == ev
            &&& spec_enc_pair_items(vs.subrange(0, j + 1)).len() == spec_enc_pair_items(
                vs.subrange(0, j),
            ).len() + ek.len() + ev.len()
        }),
{
    let w = vs[j];
    let ek = spec_enc_bytes(w.key@);
    let ev = spec_enc_bytes(w.value@);
    let tail = vs.subrange(j, vs.len() as int);
    lemma_pair_items_split(vs, j);
    lemma_pair_items_split(tail, 1);
    assert(tail.subrange(0, 1).drop_last().len() == 0);
    assert(tail.subrange(0, 1).last() == w);
    assert(spec_enc_pair_items(tail.subrange(0, 1).drop_last()) =~= Seq::<u8>::empty());
    assert(spec_enc_pair_items(tail.subrange(0, 1)) =~= ek + ev);
    assert(spec_enc_changeset(vs) =~= spec_hdr(5u8, vs.len() as u64) + spec_enc_pair_items(
        vs.subrange(0, j),
    ) + ek + ev + spec_enc_pair_items(tail.subrange(1, tail.len() as int)));
    assert forall|kk: int| 0 <= kk < ek.len() implies b[p + kk] == ek[kk] by {
        assert(spec_enc_changeset(vs)[p + kk] == ek[kk]);
    }
    assert(b.subrange(p, p + ek.len()) =~= ek);
    assert forall|kk: int| 0 <= kk < ev.len() implies b[p + ek.len() + kk] == ev[kk] by {
        assert(spec_enc_changeset(vs)[p + ek.len() + kk] == ev[kk]);
    }
    assert(b.subrange(p + ek.len(), p + ek.len() + ev.len()) =~= ev);
    assert(vs.subrange(0, j + 1).drop_last() =~= vs.subrange(0, j));
    assert(vs.subrange(0, j + 1).last() == w);
}

/// Decodes a whole buffer as a changeset's key/value pairs. Every
/// whole-buffer canonical encoding of a changeset is recognized, pair for
/// pair, in stored order.
#[verifier::rlimit(100)]
#[verifier::spinoff_prover]
pub fn decode_changeset_pairs(b: &Vec<u8>) -> (r: Result<Vec<Pair>, ()>)
    ensures
        match r {
            Ok(v) => b@ == spec_enc_changeset(v@),
            Err(_) => true,
        },
        forall|vs: Seq<Pair>|
            #[trigger] spec_pairs_at(b@, vs) ==> (r matches Ok(h) && pairs_views_eq(h@, vs)),
{
    let hdr = dec_hdr(b, 0);
    proof {
        assert forall|vs: Seq<Pair>|
            #[trigger] spec_pairs_at(b@, vs) implies hdr == Ok::<(u8, u64, usize), ()>(
            (5u8, vs.len() as u64, spec_hdr(5u8, vs.len() as u64).len() as usize),
        ) by {
            assert(b@.subrange(0, spec_hdr(5u8, vs.len() as u64).len() as int) =~= spec_hdr(
                5u8,
                vs.len() as u64,
            ));
        }
    }
    let (major, k, mid) = match hdr {
        Ok(h) => h,
        Err(_) => {
            return Err(());
        },
    };
    if major != 5 {
        return Err(());
    }
    let mut v: Vec<Pair> = Vec::new();
    let mut j: u64 = 0;
    let mut p: usize = mid;
    proof {
        assert forall|vs: Seq<Pair>|
            #[trigger] spec_pairs_at(b@, vs) implies spec_enc_pair_items(
            vs.subrange(0, 0),
        ).len() == 0 by {
            assert(vs.subrange(0, 0).len() == 0);
        }
    }
    while j < k
        invariant
            j <= k,
            0 < mid <= p <= b@.len(),
            v@.len() == j,
            b@.subrange(0, mid as int) == spec_hdr(5, k),
            b@.subrange(mid as int, p as int) == spec_enc_pair_items(v@),
            forall|vs: Seq<Pair>|
                #[trigger] spec_pairs_at(b@, vs) ==> {
                    &&& k == vs.len()
                    &&& mid == spec_hdr(5u8, vs.len() as u64).len()
                    &&& (forall|i: int|
                        0 <= i < j ==> (#[trigger] v@[i]).key@ == vs[i].key@ && v@[i].value@
                            == vs[i].value@)
                    &&& p == mid + spec_enc_pair_items(vs.subrange(0, j as int)).len()
                },
        decreases k - j,
    {
        let key_res = dec_bytes(b, p);
        proof {
            assert forall|vs: Seq<Pair>|
                #[trigger] spec_pairs_at(b@, vs) implies (key_res matches Ok(h) && h.0@
                == vs[j as int].key@ && h.1 == p + spec_enc_bytes(vs[j as int].key@).len()) by {
                lemma_pair_at(b@, vs, j as int, p as int);
            }
        }
        let (key, p2) = match key_res {
            Ok(h) => h,
            Err(_) => {
                return Err(());
            },
        };
        let value_res = dec_bytes(b, p2);
        proof {
            assert forall|vs: Seq<Pair>|
                #[trigger] spec_pairs_at(b@, vs) implies (value_res matches Ok(h) && h.0@
                == vs[j as int].value@ && h.1 == p2 + spec_enc_bytes(
                vs[j as int].value@,
            ).len()) by {
                lemma_pair_at(b@, vs, j as int, p as int);
            }
        }
        let (value, p3) = match value_res {
            Ok(h) => h,
            Err(_) => {
                return Err(());
            },
        };
        let ghost vs0 = v@;
        v.push(Pair { key, value });
        proof {
            assert(v@.drop_last() =~= vs0);
            lemma_subrange_cat(b@, p as int, p2 as int, p3 as int);
            lemma_subrange_cat(b@, mid as int, p as int, p3 as int);
            assert(b@.subrange(mid as int, p3 as int) == spec_enc_pair_items(v@));
            assert forall|vs: Seq<Pair>|
                #[trigger] spec_pairs_at(b@, vs) implies (p3 == mid + spec_enc_pair_items(
                vs.subrange(0, j + 1),
            ).len() && (forall|i: int|
                0 <= i < j + 1 ==> (#[trigger] v@[i]).key@ == vs[i].key@ && v@[i].value@
                    == vs[i].value@)) by {
                lemma_pair_at(b@, vs, j as int, p as int);
                assert(v@[j as int].key@ == vs[j as int].key@ && v@[j as int].value@
                    == vs[j as int].value@);
            }
        }
        p = p3;
        j += 1;
    }
    if p != b.len() {
        proof {
            assert forall|vs: Seq<Pair>| #[trigger] spec_pairs_at(b@, vs) implies false by {
                assert(vs.subrange(0, vs.len() as int) =~= vs);
            }
        }
        return Err(());
    }
    proof {
        lemma_subrange_cat(b@, 0, mid as int, p as int);
        assert(b@.subrange(0, b@.len() as int) =~= b@);
        assert(v@.len() == k);
    }
    Ok(v)
}

} // verus!
