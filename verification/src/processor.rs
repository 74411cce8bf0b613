//! The block processor: classification of system- versus user-contract calls,
//! gas metering and fee charging around the execution engine, and the
//! sequential application of each transaction's writes to the batch's
//! changesets.

use vstd::prelude::*;
use crate::types::Transaction;
use crate::types::CompletedTransaction;
use crate::types::EngineOutcome;
use crate::types::Env;
use crate::types::FatalError;
use crate::types::Pair;
use crate::types::arg_views;
use crate::types::completes;
use crate::types::clone_bytes;
use crate::types::clone_args;
use crate::types::bytes_eq;
use crate::changeset::Changeset;
use crate::cbor::spec_be8;
use crate::cbor::spec_be8_val;
use crate::cbor::lemma_be8_round_trip;

verus! {

/// The contract name that addresses the system contracts ("system" in ASCII).
pub open spec fn spec_system_name() -> Seq<u8> {
    seq![115u8, 121u8, 115u8, 116u8, 101u8, 109u8]
}

/// The function name of the fee-charging system operation
/// ("charge_gas_fee" in ASCII).
pub open spec fn spec_charge_name() -> Seq<u8> {
    seq![99u8, 104u8, 97u8, 114u8, 103u8, 101u8, 95u8, 103u8, 97u8, 115u8, 95u8, 102u8, 101u8,
        101u8]
}

/// The closed set of system operations.
#[derive(PartialEq, Eq, Structural, Debug, Clone, Copy)]
pub enum SystemOp {
    /// Debit a named account's balance (arguments: the account, then the
    /// amount as eight big-endian bytes).
    ChargeGasFee,
    /// A system-targeted transaction whose function is no defined system
    /// operation; it completes with a failure code and no writes.
    Unsupported,
}

/// What a transaction targets: a system operation (dispatched directly, no
/// gas metering) or a user contract (run by the engine under a gas budget).
#[derive(PartialEq, Eq, Structural, Debug, Clone, Copy)]
pub enum Call {
    System(SystemOp),
    User,
}

/// The deterministic, side-effect-free classification of a transaction.
pub open spec fn spec_classify(t: Transaction) -> Call {
    if t.contract_name@ != spec_system_name() {
        Call::User
    } else if t.function@ == spec_charge_name() {
        Call::System(SystemOp::ChargeGasFee)
    } else {
        Call::System(SystemOp::Unsupported)
    }
}

fn system_name_bytes() -> (r: Vec<u8>)
    ensures
        r@ == spec_system_name(),
{
    let mut v: Vec<u8> = Vec::new();
    v.push(115);
    v.push(121);
    v.push(115);
    v.push(116);
    v.push(101);
    v.push(109);
    proof {
        assert(v@ =~= spec_system_name());
    }
    v
}

fn charge_name_bytes() -> (r: Vec<u8>)
    ensures
        r@ == spec_charge_name(),
{
    let mut v: Vec<u8> = Vec::new();
    v.push(99);
    v.push(104);
    v.push(97);
    v.push(114);
    v.push(103);
    v.push(101);
    v.push(95);
    v.push(103);
    v.push(97);
    v.push(115);
    v.push(95);
    v.push(102);
    v.push(101);
    v.push(101);
    proof {
        assert(v@ =~= spec_charge_name());
    }
    v
}

/// Decides whether a transaction addresses the system contracts.
pub fn is_system_contract(t: &Transaction) -> (r: bool)
    ensures
        r == (spec_classify(*t) is System),
{
    let name = system_name_bytes();
    bytes_eq(&t.contract_name, &name)
}

/// Classifies a transaction, returning the tagged call variant that the
/// processor dispatches on.
pub fn classify(t: &Transaction) -> (r: Call)
    ensures
        r == spec_classify(*t),
{
    let name = system_name_bytes();
    if !bytes_eq(&t.contract_name, &name) {
        return Call::User;
    }
    let charge = charge_name_bytes();
    if bytes_eq(&t.function, &charge) {
        Call::System(SystemOp::ChargeGasFee)
    } else {
        Call::System(SystemOp::Unsupported)
    }
}

/// The key under which an account's balance lives in the memory namespace:
/// a one-byte balance tag, then the account bytes.
pub open spec fn spec_balance_key(account: Seq<u8>) -> Seq<u8> {
    seq![1u8] + account
}

/// Builds the balance key for an account.
pub fn balance_key(account: &Vec<u8>) -> (r: Vec<u8>)
    ensures
        r@ == spec_balance_key(account@),
{
    let mut v: Vec<u8> = Vec::new();
    v.push(1);
    let mut i: usize = 0;
    while i < account.len()
        invariant
            i <= account@.len(),
            v@ == seq![1u8] + account@.subrange(0, i as int),
        decreases account@.len() - i,
    {
        v.push(account[i]);
        proof {
            assert(v@ =~= seq![1u8] + account@.subrange(0, i + 1));
        }
        i += 1;
    }
    proof {
        assert(account@.subrange(0, account@.len() as int) =~= account@);
    }
    v
}

/// A debit saturates at zero: an account cannot owe a negative balance.
pub open spec fn spec_debit(balance: u64, fee: u64) -> u64 {
    if fee <= balance {
        (balance - fee) as u64
    } else {
        0
    }
}

/// The balance an account holds at this point of the batch: the changeset's
/// value if the batch has written it, else the pre-batch snapshot value.
pub open spec fn spec_effective_balance(
    m: Map<Seq<u8>, Seq<u8>>,
    account: Seq<u8>,
    snapshot: u64,
) -> u64 {
    if m.contains_key(spec_balance_key(account)) {
        spec_be8_val(m[spec_balance_key(account)])
    } else {
        snapshot
    }
}

/// A recorded balance, if any, is a fixed-width integer; anything else is
/// state corruption and a fatal fault.
pub open spec fn spec_balance_ok(m: Map<Seq<u8>, Seq<u8>>, account: Seq<u8>) -> bool {
    m.contains_key(spec_balance_key(account)) ==> m[spec_balance_key(account)].len() == 8
}

/// Reads an unsigned integer from its fixed-width big-endian bytes.
pub fn u64_from_be(b: &Vec<u8>) -> (r: u64)
    requires
        b@.len() == 8,
    ensures
        r == spec_be8_val(b@),
{
    (b[0] as u64) << 56 | (b[1] as u64) << 48 | (b[2] as u64) << 40 | (b[3] as u64) << 32 | (
    b[4] as u64) << 24 | (b[5] as u64) << 16 | (b[6] as u64) << 8 | (b[7] as u64)
}

/// Writes an unsigned integer as fixed-width big-endian bytes.
pub fn u64_to_be(x: u64) -> (r: Vec<u8>)
    ensures
        r@ == spec_be8(x),
{
    let mut v: Vec<u8> = Vec::new();
    v.push(((x >> 56) & 0xff) as u8);
    v.push(((x >> 48) & 0xff) as u8);
    v.push(((x >> 40) & 0xff) as u8);
    v.push(((x >> 32) & 0xff) as u8);
    v.push(((x >> 24) & 0xff) as u8);
    v.push(((x >> 16) & 0xff) as u8);
    v.push(((x >> 8) & 0xff) as u8);
    v.push((x & 0xff) as u8);
    proof {
        assert(v@ =~= spec_be8(x));
    }
    v
}

/// Folds a stream of writes into a mapping, in order, last write winning.
pub open spec fn spec_apply_pairs(m: Map<Seq<u8>, Seq<u8>>, s: Seq<Pair>) -> Map<Seq<u8>, Seq<u8>>
    decreases s.len(),
{
    if s.len() == 0 {
        m
    } else {
        spec_apply_pairs(m, s.drop_last()).insert(s.last().key@, s.last().value@)
    }
}

/// The same fold with every key namespaced by the block number, as the
/// storage changeset keeps it.
pub open spec fn spec_apply_ns_pairs(
    m: Map<Seq<u8>, Seq<u8>>,
    block: u64,
    s: Seq<Pair>,
) -> Map<Seq<u8>, Seq<u8>>
    decreases s.len(),
{
    if s.len() == 0 {
        m
    } else {
        spec_apply_ns_pairs(m, block, s.drop_last()).insert(
            spec_be8(block) + s.last().key@,
            s.last().value@,
        )
    }
}

/// Last write wins: a key's final value after a write stream is the value of
/// the last write that named it, whatever earlier writes said.
pub proof fn lemma_last_write_wins(m: Map<Seq<u8>, Seq<u8>>, s: Seq<Pair>, i: int)
    requires
        0 <= i < s.len(),
        forall|j: int| i < j < s.len() ==> (#[trigger] s[j]).key@ != s[i].key@,
    ensures
        spec_apply_pairs(m, s).contains_key(s[i].key@),
        spec_apply_pairs(m, s)[s[i].key@] == s[i].value@,
    decreases s.len(),
{
    if i == s.len() - 1 {
    } else {
        let t = s.drop_last();
        assert(t[i] == s[i]);
        assert forall|j: int| i < j < t.len() implies (#[trigger] t[j]).key@ != t[i].key@ by {
            assert(t[j] == s[j]);
        }
        lemma_last_write_wins(m, t, i);
        assert(s.last().key@ != s[i].key@);
    }
}

/// A key no write names keeps exactly its prior binding.
pub proof fn lemma_apply_pairs_absent(m: Map<Seq<u8>, Seq<u8>>, s: Seq<Pair>, k: Seq<u8>)
    requires
        forall|j: int| 0 <= j < s.len() ==> (#[trigger] s[j]).key@ != k,
    ensures
        spec_apply_pairs(m, s).contains_key(k) == m.contains_key(k),
        m.contains_key(k) ==> spec_apply_pairs(m, s)[k] == m[k],
    decreases s.len(),
{
    if s.len() > 0 {
        let t = s.drop_last();
        assert forall|j: int| 0 <= j < t.len() implies (#[trigger] t[j]).key@ != k by {
            assert(t[j] == s[j]);
        }
        lemma_apply_pairs_absent(m, t, k);
        assert(s.last().key@ != k);
    }
}

/// Applies a write stream to a changeset, in order.
pub fn apply_writes(cs: &mut Changeset, writes: &Vec<Pair>)
    requires
        old(cs).wf(),
    ensures
        final(cs).wf(),
        final(cs)@ == spec_apply_pairs(old(cs)@, writes@),
{
    let mut i: usize = 0;
    while i < writes.len()
        invariant
            i <= writes@.len(),
            cs.wf(),
            cs@ == spec_apply_pairs(old(cs)@, writes@.subrange(0, i as int)),
        decreases writes@.len() - i,
    {
        let k = clone_bytes(&writes[i].key);
        let v = clone_bytes(&writes[i].value);
        cs.set(k, v);
        proof {
            assert(writes@.subrange(0, i + 1).drop_last() =~= writes@.subrange(0, i as int));
            assert(cs@ == spec_apply_pairs(old(cs)@, writes@.subrange(0, i + 1)));
        }
        i += 1;
    }
    proof {
        assert(writes@.subrange(0, writes@.len() as int) =~= writes@);
    }
}

/// Applies a write stream to the storage changeset, each key prefixed with
/// the block number's fixed-width encoding (the per-block key namespace).
pub fn apply_storage_writes(cs: &mut Changeset, block: u64, writes: &Vec<Pair>)
    requires
        old(cs).wf(),
    ensures
        final(cs).wf(),
        final(cs)@ == spec_apply_ns_pairs(old(cs)@, block, writes@),
{
    let mut i: usize = 0;
    while i < writes.len()
        invariant
            i <= writes@.len(),
            cs.wf(),
            cs@ == spec_apply_ns_pairs(old(cs)@, block, writes@.subrange(0, i as int)),
        decreases writes@.len() - i,
    {
        let mut k = u64_to_be(block);
        let ghost prefix = k@;
        let key = &writes[i].key;
        let mut j: usize = 0;
        while j < key.len()
            invariant
                j <= key@.len(),
                k@ == prefix + key@.subrange(0, j as int),
            decreases key@.len() - j,
        {
            k.push(key[j]);
            proof {
                assert(k@ =~= prefix + key@.subrange(0, j + 1));
            }
            j += 1;
        }
        proof {
            assert(key@.subrange(0, key@.len() as int) =~= key@);
        }
        let v = clone_bytes(&writes[i].value);
        cs.set(k, v);
        proof {
            assert(writes@.subrange(0, i + 1).drop_last() =~= writes@.subrange(0, i as int));
            assert(cs@ == spec_apply_ns_pairs(old(cs)@, block, writes@.subrange(0, i + 1)));
        }
        i += 1;
    }
    proof {
        assert(writes@.subrange(0, writes@.len() as int) =~= writes@);
    }
}

/// Debits `amount` from `account` in the memory changeset, reading the
/// current balance changeset-first (then the caller-supplied pre-batch
/// snapshot value). The new balance is itself a changeset write, so the fee
/// debit travels with the batch's result.
fn charge_fee(mem: &mut Changeset, account: &Vec<u8>, amount: u64, snapshot: u64) -> (r: Result<
    (),
    FatalError,
>)
    requires
        old(mem).wf(),
    ensures
        final(mem).wf(),
        r is Ok <==> spec_balance_ok(old(mem)@, account@),
        r is Err ==> r == Err::<(), FatalError>(FatalError::MalformedBalance) && *final(mem)
            == *old(mem),
        r is Ok ==> final(mem)@ == old(mem)@.insert(
            spec_balance_key(account@),
            spec_be8(spec_debit(spec_effective_balance(old(mem)@, account@, snapshot), amount)),
        ),
        // The recorded balance reads back exactly, so a later charge against
        // the same account sees the running balance, not the snapshot.
        r is Ok ==> spec_effective_balance(final(mem)@, account@, snapshot) == spec_debit(
            spec_effective_balance(old(mem)@, account@, snapshot),
            amount,
        ),
{
    proof {
        lemma_be8_round_trip(
            spec_debit(spec_effective_balance(old(mem)@, account@, snapshot), amount),
        );
    }
    let key = balance_key(account);
    let balance: u64;
    match mem.get(&key) {
        Some(v) => {
            if v.len() != 8 {
                return Err(FatalError::MalformedBalance);
            }
            balance = u64_from_be(v);
        },
        None => {
            balance = snapshot;
        },
    }
    let new_balance = if amount <= balance {
        balance - amount
    } else {
        0
    };
    let value = u64_to_be(new_balance);
    mem.set(key, value);
    Ok(())
}

} // verus!

verus! {

/// The fee-charge operation takes exactly an account and an eight-byte
/// big-endian amount.
pub open spec fn spec_charge_args_ok(args: Seq<Seq<u8>>) -> bool {
    args.len() == 2 && args[1].len() == 8
}

/// What a system call does to the memory changeset: the fee-charge operation
/// debits its named account; every other case leaves the mapping untouched.
/// No gas field of the transaction enters this function.
pub open spec fn spec_system_mem_effect(
    m: Map<Seq<u8>, Seq<u8>>,
    t: Transaction,
    snapshot: u64,
) -> Map<Seq<u8>, Seq<u8>> {
    if spec_classify(t) == Call::System(SystemOp::ChargeGasFee) && spec_charge_args_ok(
        arg_views(t.arguments@),
    ) {
        let account = arg_views(t.arguments@)[0];
        let amount = spec_be8_val(arg_views(t.arguments@)[1]);
        m.insert(
            spec_balance_key(account),
            spec_be8(spec_debit(spec_effective_balance(m, account, snapshot), amount)),
        )
    } else {
        m
    }
}

/// The return code a system call completes with: success for a well-formed
/// fee charge, a distinct failure code for bad arguments or an unknown
/// system function (both per-transaction outcomes, not faults).
pub open spec fn spec_system_return_code(t: Transaction) -> u64 {
    if spec_classify(t) == Call::System(SystemOp::ChargeGasFee) {
        if spec_charge_args_ok(arg_views(t.arguments@)) {
            0
        } else {
            2
        }
    } else {
        1
    }
}

/// A system call aborts the batch only when it must read a corrupt stored
/// balance.
pub open spec fn spec_system_fatal(m: Map<Seq<u8>, Seq<u8>>, t: Transaction) -> bool {
    &&& spec_classify(t) == Call::System(SystemOp::ChargeGasFee)
    &&& spec_charge_args_ok(arg_views(t.arguments@))
    &&& !spec_balance_ok(m, arg_views(t.arguments@)[0])
}

/// The memory changeset after one user-contract transaction: the engine's
/// writes in order, then the unconditional fee debit against the sender.
pub open spec fn spec_user_mem_effect(
    m: Map<Seq<u8>, Seq<u8>>,
    t: Transaction,
    writes: Seq<Pair>,
    fee: u64,
    snapshot: u64,
) -> Map<Seq<u8>, Seq<u8>> {
    let m1 = spec_apply_pairs(m, writes);
    m1.insert(
        spec_balance_key(t.sender@),
        spec_be8(spec_debit(spec_effective_balance(m1, t.sender@, snapshot), fee)),
    )
}

/// Every record's execution order is its position in the batch's output list.
pub open spec fn orders_sequential(s: Seq<CompletedTransaction>) -> bool {
    forall|i: int| 0 <= i < s.len() ==> (#[trigger] s[i]).execution_order == i
}

/// One batch in progress: the shared environment, the ordered list of
/// completed-transaction records, and the two changesets every transaction
/// writes through.
pub struct BlockBuilder {
    env: Env,
    completed: Vec<CompletedTransaction>,
    memory: Changeset,
    storage: Changeset,
}

impl BlockBuilder {
    /// The batch's shared environment.
    pub closed spec fn env_spec(&self) -> Env {
        self.env
    }

    /// The ordered completed-transaction records so far.
    pub closed spec fn completed(&self) -> Seq<CompletedTransaction> {
        self.completed@
    }

    /// The memory changeset as a value (its entry order matters to the
    /// serialized form).
    pub closed spec fn memory_cs(&self) -> Changeset {
        self.memory
    }

    /// The storage changeset as a value.
    pub closed spec fn storage_cs(&self) -> Changeset {
        self.storage
    }

    /// The memory changeset's mapping.
    pub open spec fn memory(&self) -> Map<Seq<u8>, Seq<u8>> {
        self.memory_cs()@
    }

    /// The storage changeset's mapping.
    pub open spec fn storage(&self) -> Map<Seq<u8>, Seq<u8>> {
        self.storage_cs()@
    }

    /// The batch invariant: both changesets well formed, and execution
    /// orders exactly the record positions.
    pub open spec fn wf(&self) -> bool {
        &&& self.memory_cs().wf()
        &&& self.storage_cs().wf()
        &&& orders_sequential(self.completed())
    }

    /// Starts a batch: empty record list, two empty changesets, one
    /// environment shared for the whole batch.
    pub fn new(env: Env) -> (r: BlockBuilder)
        ensures
            r.wf(),
            r.env_spec() == env,
            r.completed() == Seq::<CompletedTransaction>::empty(),
            r.memory() == Map::<Seq<u8>, Seq<u8>>::empty(),
            r.storage() == Map::<Seq<u8>, Seq<u8>>::empty(),
            r.memory_cs().entries_seq() == Seq::<Pair>::empty(),
            r.storage_cs().entries_seq() == Seq::<Pair>::empty(),
    {
        let r = BlockBuilder {
            env,
            completed: Vec::new(),
            memory: Changeset::new(),
            storage: Changeset::new(),
        };
        proof {
            assert(r.completed() =~= Seq::<CompletedTransaction>::empty());
        }
        r
    }

    /// Borrows the record list, for serialization.
    pub fn completed_ref(&self) -> (r: &Vec<CompletedTransaction>)
        ensures
            r@ == self.completed(),
    {
        &self.completed
    }

    /// Borrows the memory changeset.
    pub fn memory_ref(&self) -> (r: &Changeset)
        ensures
            *r == self.memory_cs(),
    {
        &self.memory
    }

    /// Borrows the storage changeset.
    pub fn storage_ref(&self) -> (r: &Changeset)
        ensures
            *r == self.storage_cs(),
    {
        &self.storage
    }

    /// Borrows the environment.
    pub fn env_ref(&self) -> (r: &Env)
        ensures
            *r == self.env_spec(),
    {
        &self.env
    }

    /// Hands the batch's outcome to the caller: the ordered records and the
    /// two changesets.
    pub fn finish(self) -> (r: (Vec<CompletedTransaction>, Changeset, Changeset))
        ensures
            r.0@ == self.completed(),
            r.1 == self.memory_cs(),
            r.2 == self.storage_cs(),
    {
        (self.completed, self.memory, self.storage)
    }

    /// Appends the record for one finished transaction, echoing the
    /// transaction's fields and stamping the next execution order.
    fn push_completed(&mut self, tx: &Transaction, return_code: u64, return_value: Vec<u8>)
        requires
            old(self).wf(),
        ensures
            final(self).wf(),
            final(self).env_spec() == old(self).env_spec(),
            final(self).memory_cs() == old(self).memory_cs(),
            final(self).storage_cs() == old(self).storage_cs(),
            final(self).completed().len() == old(self).completed().len() + 1,
            final(self).completed().subrange(0, old(self).completed().len() as int) == old(
                self,
            ).completed(),
            completes(
                final(self).completed().last(),
                *tx,
                return_code,
                return_value@,
                old(self).completed().len() as u64,
            ),
    {
        let order = self.completed.len() as u64;
        let ct = CompletedTransaction {
            contract_address: clone_bytes(&tx.contract_address),
            contract_name: clone_bytes(&tx.contract_name),
            sender: clone_bytes(&tx.sender),
            nonce: tx.nonce,
            gas_limit: tx.gas_limit,
            function: clone_bytes(&tx.function),
            arguments: clone_args(&tx.arguments),
            return_code,
            return_value,
            execution_order: order,
        };
        self.completed.push(ct);
        proof {
            assert(self.completed@.subrange(0, old(self).completed().len() as int) =~= old(
                self,
            ).completed());
        }
    }

    /// Runs one user-contract transaction's outcome through gas accounting
    /// and the changesets. The engine's writes land first; then the fee
    /// (`gas_limit - gas_remaining`) is charged to the sender whatever the
    /// call's own return code was — charging is unconditional on success or
    /// failure of the call itself. Absent or negative gas accounting is
    /// fatal; so is a stored balance that is not a fixed-width integer,
    /// which this library treats as state corruption under the fatal tier
    /// (the batch aborts rather than charge against an unreadable balance).
    /// On every fatal fault the batch is left untouched and no record is
    /// appended.
    pub fn apply_user(
        &mut self,
        tx: &Transaction,
        outcome: EngineOutcome,
        sender_snapshot_balance: u64,
    ) -> (r: Result<(), FatalError>)
        requires
            old(self).wf(),
            spec_classify(*tx) is User,
        ensures
            final(self).wf(),
            final(self).env_spec() == old(self).env_spec(),
            r is Err ==> *final(self) == *old(self),
            r == Err::<(), FatalError>(FatalError::MissingGasAccounting) <==> outcome.gas_remaining
                is None,
            r == Err::<(), FatalError>(FatalError::GasAccountingViolation) <==> (
            outcome.gas_remaining matches Some(g) && g > tx.gas_limit),
            r == Err::<(), FatalError>(FatalError::MalformedBalance) <==> (outcome.gas_remaining
                matches Some(g) && g <= tx.gas_limit && !spec_balance_ok(
                spec_apply_pairs(old(self).memory(), outcome.memory_writes@),
                tx.sender@,
            )),
            r is Ok <==> (outcome.gas_remaining matches Some(g) && g <= tx.gas_limit
                && spec_balance_ok(
                spec_apply_pairs(old(self).memory(), outcome.memory_writes@),
                tx.sender@,
            )),
            r is Ok ==> (outcome.gas_remaining matches Some(g) && {
                &&& final(self).memory() == spec_user_mem_effect(
                    old(self).memory(),
                    *tx,
                    outcome.memory_writes@,
                    (tx.gas_limit - g) as u64,
                    sender_snapshot_balance,
                )
                &&& final(self).memory().contains_key(spec_balance_key(tx.sender@))
                &&& final(self).storage() == spec_apply_ns_pairs(
                    old(self).storage(),
                    old(self).env_spec().block_number,
                    outcome.storage_writes@,
                )
                &&& final(self).completed().len() == old(self).completed().len() + 1
                &&& final(self).completed().subrange(0, old(self).completed().len() as int) == old(
                    self,
                ).completed()
                &&& completes(
                    final(self).completed().last(),
                    *tx,
                    outcome.return_code,
                    outcome.return_value@,
                    old(self).completed().len() as u64,
                )
            }),
    {
        let g = match outcome.gas_remaining {
            Some(g) => g,
            None => {
                return Err(FatalError::MissingGasAccounting);
            },
        };
        if g > tx.gas_limit {
            return Err(FatalError::GasAccountingViolation);
        }
        let fee = tx.gas_limit - g;
        let balkey = balance_key(&tx.sender);
        let ghost m1 = spec_apply_pairs(old(self).memory(), outcome.memory_writes@);

        // The balance that the fee charge will read lives either in the
        // engine's own writes (the last one naming the balance key) or in
        // the changeset as it stands; check its shape before mutating
        // anything, so a fatal fault leaves the batch untouched.
        let writes = &outcome.memory_writes;
        let mut found: bool = false;
        let mut idx: usize = 0;
        let mut i: usize = 0;
        while i < writes.len()
            invariant
                i <= writes@.len(),
                balkey@ == spec_balance_key(tx.sender@),
                found ==> idx < i && writes@[idx as int].key@ == balkey@,
                found ==> forall|j: int|
                    idx < j < i ==> (#[trigger] writes@[j]).key@ != balkey@,
                !found ==> forall|j: int| 0 <= j < i ==> (#[trigger] writes@[j]).key@ != balkey@,
            decreases writes@.len() - i,
        {
            if bytes_eq(&writes[i].key, &balkey) {
                found = true;
                idx = i;
            }
            i += 1;
        }
        if found {
            proof {
                lemma_last_write_wins(old(self).memory(), writes@, idx as int);
            }
            if writes[idx].value.len() != 8 {
                return Err(FatalError::MalformedBalance);
            }
        } else {
            proof {
                lemma_apply_pairs_absent(old(self).memory(), writes@, balkey@);
            }
            match self.memory.get(&balkey) {
                Some(v) => {
                    if v.len() != 8 {
                        return Err(FatalError::MalformedBalance);
                    }
                },
                None => {},
            }
        }
        proof {
            assert(spec_balance_ok(m1, tx.sender@));
        }
        apply_writes(&mut self.memory, &outcome.memory_writes);
        match charge_fee(&mut self.memory, &tx.sender, fee, sender_snapshot_balance) {
            Ok(()) => {},
            Err(e) => {
                proof {
                    assert(false);
                }
                return Err(e);
            },
        }
        apply_storage_writes(&mut self.storage, self.env.block_number, &outcome.storage_writes);
        self.push_completed(tx, outcome.return_code, outcome.return_value);
        Ok(())
    }

    /// Dispatches one system-contract transaction directly to its handler:
    /// no gas metering and no router fee charge. A malformed operation
    /// completes with a failure code in-band; only a corrupt stored balance
    /// aborts the batch, leaving it untouched.
    pub fn apply_system(&mut self, tx: &Transaction, account_snapshot_balance: u64) -> (r: Result<
        (),
        FatalError,
    >)
        requires
            old(self).wf(),
            spec_classify(*tx) is System,
        ensures
            final(self).wf(),
            final(self).env_spec() == old(self).env_spec(),
            r is Err ==> *final(self) == *old(self) && r == Err::<(), FatalError>(
                FatalError::MalformedBalance,
            ),
            r is Err <==> spec_system_fatal(old(self).memory(), *tx),
            r is Ok ==> {
                &&& final(self).memory() == spec_system_mem_effect(
                    old(self).memory(),
                    *tx,
                    account_snapshot_balance,
                )
                &&& final(self).storage_cs() == old(self).storage_cs()
                &&& final(self).completed().len() == old(self).completed().len() + 1
                &&& final(self).completed().subrange(0, old(self).completed().len() as int) == old(
                    self,
                ).completed()
                &&& completes(
                    final(self).completed().last(),
                    *tx,
                    spec_system_return_code(*tx),
                    Seq::<u8>::empty(),
                    old(self).completed().len() as u64,
                )
            },
    {
        match classify(tx) {
            Call::User => {
                proof {
                    assert(false);
                }
                Err(FatalError::MalformedBalance)
            },
            Call::System(SystemOp::Unsupported) => {
                self.push_completed(tx, 1, Vec::new());
                Ok(())
            },
            Call::System(SystemOp::ChargeGasFee) => {
                if tx.arguments.len() != 2 {
                    self.push_completed(tx, 2, Vec::new());
                    return Ok(());
                }
                proof {
                    assert(arg_views(tx.arguments@)[1] == tx.arguments@[1]@);
                    assert(arg_views(tx.arguments@)[0] == tx.arguments@[0]@);
                }
                if tx.arguments[1].len() != 8 {
                    self.push_completed(tx, 2, Vec::new());
                    return Ok(());
                }
                let account = clone_bytes(&tx.arguments[0]);
                let amount = u64_from_be(&tx.arguments[1]);
                match charge_fee(&mut self.memory, &account, amount, account_snapshot_balance) {
                    Ok(()) => {
                        self.push_completed(tx, 0, Vec::new());
                        Ok(())
                    },
                    Err(e) => Err(e),
                }
            },
        }
    }
}

} // verus!

verus! {

/// Balance keys of distinct accounts are distinct.
pub proof fn lemma_balance_key_injective(a: Seq<u8>, b: Seq<u8>)
    requires
        spec_balance_key(a) == spec_balance_key(b),
    ensures
        a == b,
{
    assert(a =~= spec_balance_key(a).subrange(1, spec_balance_key(a).len() as int));
    assert(b =~= spec_balance_key(b).subrange(1, spec_balance_key(b).len() as int));
}

/// One record per consumed transaction, in consumption order: in a
/// well-formed batch the record at position `i` carries execution order `i`,
/// so the orders are exactly `0..n-1`.
pub proof fn lemma_orders_are_positions(b: BlockBuilder)
    requires
        b.wf(),
    ensures
        forall|i: int|
            0 <= i < b.completed().len() ==> (#[trigger] b.completed()[i]).execution_order == i,
{
}

/// Fee metering is bypassed for system calls: their effect and return code
/// depend only on the target and arguments, never on the gas fields, so two
/// system transactions that differ only in gas data behave identically.
pub proof fn lemma_system_effect_ignores_gas(
    m: Map<Seq<u8>, Seq<u8>>,
    t1: Transaction,
    t2: Transaction,
    snapshot: u64,
)
    requires
        spec_classify(t1) is System,
        t1.contract_name@ == t2.contract_name@,
        t1.function@ == t2.function@,
        arg_views(t1.arguments@) == arg_views(t2.arguments@),
    ensures
        spec_classify(t2) == spec_classify(t1),
        spec_system_mem_effect(m, t1, snapshot) == spec_system_mem_effect(m, t2, snapshot),
        spec_system_return_code(t1) == spec_system_return_code(t2),
{
}

/// A system call produces no router fee-charge write: unless the operation
/// itself names the sender's account, the sender's balance entry after the
/// call is exactly what it was before.
pub proof fn lemma_system_no_router_fee(m: Map<Seq<u8>, Seq<u8>>, t: Transaction, snapshot: u64)
    requires
        spec_classify(t) is System,
        !(spec_classify(t) == Call::System(SystemOp::ChargeGasFee) && spec_charge_args_ok(
            arg_views(t.arguments@),
        ) && arg_views(t.arguments@)[0] == t.sender@),
    ensures
        spec_system_mem_effect(m, t, snapshot).contains_key(spec_balance_key(t.sender@))
            == m.contains_key(spec_balance_key(t.sender@)),
        m.contains_key(spec_balance_key(t.sender@)) ==> spec_system_mem_effect(m, t, snapshot)[
            spec_balance_key(t.sender@)
        ] == m[spec_balance_key(t.sender@)],
{
    if spec_classify(t) == Call::System(SystemOp::ChargeGasFee) && spec_charge_args_ok(
        arg_views(t.arguments@),
    ) {
        let account = arg_views(t.arguments@)[0];
        if spec_balance_key(account) == spec_balance_key(t.sender@) {
            lemma_balance_key_injective(account, t.sender@);
        }
    }
}

/// Every user-contract transaction leaves a fee-charge write for its sender:
/// after a successful application the memory changeset binds the sender's
/// balance key to the debited balance, computed as `gas_limit` minus
/// `gas_remaining`.
pub proof fn lemma_user_fee_write(
    m: Map<Seq<u8>, Seq<u8>>,
    t: Transaction,
    writes: Seq<Pair>,
    fee: u64,
    snapshot: u64,
)
    ensures
        spec_user_mem_effect(m, t, writes, fee, snapshot).contains_key(
            spec_balance_key(t.sender@),
        ),
        spec_user_mem_effect(m, t, writes, fee, snapshot)[spec_balance_key(t.sender@)] == spec_be8(
            spec_debit(
                spec_effective_balance(spec_apply_pairs(m, writes), t.sender@, snapshot),
                fee,
            ),
        ),
{
}

} // verus!
