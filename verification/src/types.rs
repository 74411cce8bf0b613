//! Data model: transactions, completed-transaction records, the per-block
//! environment, engine outcomes, and the fatal-error taxonomy.

use vstd::prelude::*;

verus! {

/// An immutable request to invoke `function` with `arguments` on the contract
/// named by `contract_name` / `contract_address`, from `sender`, with a gas
/// budget of `gas_limit`. Its identity for queue removal is its exact
/// serialized byte form.
pub struct Transaction {
    pub contract_address: Vec<u8>,
    pub contract_name: Vec<u8>,
    pub sender: Vec<u8>,
    pub nonce: u64,
    pub gas_limit: u64,
    pub function: Vec<u8>,
    pub arguments: Vec<Vec<u8>>,
}

/// The record emitted for one executed transaction: it echoes the
/// originating transaction's identifying fields and adds the engine's
/// return code and return value plus the zero-based `execution_order`
/// within the batch.
pub struct CompletedTransaction {
    pub contract_address: Vec<u8>,
    pub contract_name: Vec<u8>,
    pub sender: Vec<u8>,
    pub nonce: u64,
    pub gas_limit: u64,
    pub function: Vec<u8>,
    pub arguments: Vec<Vec<u8>>,
    pub return_code: u64,
    pub return_value: Vec<u8>,
    pub execution_order: u64,
}

/// Per-block context, supplied once and shared read-only across the batch.
pub struct Env {
    pub block_number: u64,
    pub timestamp: u64,
}

/// One key/value write.
pub struct Pair {
    pub key: Vec<u8>,
    pub value: Vec<u8>,
}

/// What the execution engine reports for one user-contract invocation:
/// a return code and value, how much of the gas budget is left
/// (`None` means the engine never had gas accounting, a fatal condition),
/// and the writes it produced against the two state namespaces.
pub struct EngineOutcome {
    pub return_code: u64,
    pub return_value: Vec<u8>,
    pub gas_remaining: Option<u64>,
    pub memory_writes: Vec<Pair>,
    pub storage_writes: Vec<Pair>,
}

/// Process-aborting faults. None of these may produce a result line;
/// per-transaction execution failures are not among them (those are
/// surfaced in-band as a `CompletedTransaction` with a non-zero
/// return code).
#[derive(PartialEq, Eq, Structural, Debug, Clone, Copy)]
pub enum FatalError {
    /// The engine reported no `gas_remaining` although gas accounting
    /// was requested.
    MissingGasAccounting,
    /// The engine reported more gas remaining than the transaction's
    /// gas limit, so the gas used would be negative.
    GasAccountingViolation,
    /// A stored balance value is not a fixed-width integer encoding.
    MalformedBalance,
    /// Bytes taken from the queue or from the replay input do not decode
    /// as a transaction.
    CorruptTransaction,
}

/// The views of a sequence of transaction arguments, one byte sequence
/// per argument.
pub open spec fn arg_views(args: Seq<Vec<u8>>) -> Seq<Seq<u8>> {
    args.map(|i: int, a: Vec<u8>| a@)
}

/// Field-wise agreement between a completed record and the transaction it
/// came from, together with the engine's result and the record's position.
pub open spec fn completes(
    ct: CompletedTransaction,
    tx: Transaction,
    return_code: u64,
    return_value: Seq<u8>,
    execution_order: u64,
) -> bool {
    &&& ct.contract_address@ == tx.contract_address@
    &&& ct.contract_name@ == tx.contract_name@
    &&& ct.sender@ == tx.sender@
    &&& ct.nonce == tx.nonce
    &&& ct.gas_limit == tx.gas_limit
    &&& ct.function@ == tx.function@
    &&& arg_views(ct.arguments@) == arg_views(tx.arguments@)
    &&& ct.return_code == return_code
    &&& ct.return_value@ == return_value
    &&& ct.execution_order == execution_order
}

/// Clones a byte vector; the copy's view equals the original's.
pub fn clone_bytes(v: &Vec<u8>) -> (r: Vec<u8>)
    ensures
        r@ == v@,
{
    let mut out: Vec<u8> = Vec::new();
    let mut i: usize = 0;
    while i < v.len()
        invariant
            i <= v.len(),
            out@ == v@.subrange(0, i as int),
        decreases v.len() - i,
    {
        out.push(v[i]);
        i += 1;
    }
    proof {
        assert(out@ =~= v@);
    }
    out
}

/// Clones a list of byte vectors, argument by argument.
pub fn clone_args(v: &Vec<Vec<u8>>) -> (r: Vec<Vec<u8>>)
    ensures
        arg_views(r@) == arg_views(v@),
{
    let mut out: Vec<Vec<u8>> = Vec::new();
    let mut i: usize = 0;
    while i < v.len()
        invariant
            i <= v.len(),
            out@.len() == i,
            forall|j: int| 0 <= j < i ==> out@[j]@ == v@[j]@,
        decreases v.len() - i,
    {
        out.push(clone_bytes(&v[i]));
        i += 1;
    }
    proof {
        assert(arg_views(out@) =~= arg_views(v@));
    }
    out
}

/// Byte-sequence equality, decided by scanning.
pub fn bytes_eq(a: &Vec<u8>, b: &Vec<u8>) -> (r: bool)
    ensures
        r == (a@ == b@),
{
    if a.len() != b.len() {
        proof {
            assert(a@.len() != b@.len());
        }
        return false;
    }
    let mut i: usize = 0;
    while i < a.len()
        invariant
            i <= a.len(),
            a@.len() == b@.len(),
            forall|j: int| 0 <= j < i ==> a@[j] == b@[j],
        decreases a.len() - i,
    {
        if a[i] != b[i] {
            return false;
        }
        i += 1;
    }
    proof {
        assert(a@ =~= b@);
    }
    true
}

} // verus!
