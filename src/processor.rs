use crate::fixed_decimal::{decimal_text, format_spec, push_decimal, FixedDecimal, MAX_RAW};
use crate::transaction::{PaymentsTransaction, PayloadModel, TransactionModel, TransactionPayload};
use std::collections::HashMap;
use vstd::prelude::*;
use vstd::string::*;

verus! {

broadcast use vstd::std_specs::hash::group_hash_axioms;

/// Why a [PaymentsProcessor] rejected a transaction.
#[derive(Debug, Clone, Copy, PartialEq, Eq, Structural)]
pub enum ProcessTransactionError {
    NoAvailableFunds,
    AssociatedTransactionNoFound,
    TransactionCouldNotBeDisputed,
    TransactionCouldNotBeResolved,
    TransactionCouldNotBeChargedBack,
    TransactionAlreadyDisputed,
    UndisputedTransactionCannotBeResolved,
    UndisputedTransactionCannotBeChargedBack,
    ClientNotFound,
    AccountFrozen,
}

/// Where a recorded deposit or withdrawal stands in the dispute lifecycle.
#[derive(Debug, Clone, Copy, PartialEq, Eq, Structural)]
pub enum TransactionState {
    Executed,
    UnderDispute,
    Resolved,
    ChargedBack,
}

/// A client's ledger, with amounts as numbers (underlying integers of
/// [FixedDecimal]).
pub struct ClientModel {
    pub available: nat,
    pub held: nat,
    pub locked: bool,
    pub transactions: Map<u32, (PayloadModel, TransactionState)>,
}

/// The ledger of a client that has no record yet.
pub open spec fn empty_client() -> ClientModel {
    ClientModel { available: 0, held: 0, locked: false, transactions: Map::empty() }
}

/// The ledger of client `id` in `m`, or an empty one.
pub open spec fn client_or_empty(m: Map<u16, ClientModel>, id: u16) -> ClientModel {
    if m.contains_key(id) {
        m[id]
    } else {
        empty_client()
    }
}

/// The withdrawal amount that transaction `tx` of client `id` holds, provided it is
/// in state `state`; otherwise the error that says why not.
pub open spec fn withdrawal_in_state(
    m: Map<u16, ClientModel>,
    id: u16,
    tx: u32,
    state: TransactionState,
    not_withdrawal: ProcessTransactionError,
    wrong_state: ProcessTransactionError,
) -> Result<nat, ProcessTransactionError> {
    if !m.contains_key(id) {
        Err(ProcessTransactionError::ClientNotFound)
    } else if !m[id].transactions.contains_key(tx) {
        Err(ProcessTransactionError::AssociatedTransactionNoFound)
    } else {
        match m[id].transactions[tx].0 {
            PayloadModel::Withdrawal(a) => if m[id].transactions[tx].1 == state {
                Ok(a)
            } else {
                Err(wrong_state)
            },
            _ => Err(not_withdrawal),
        }
    }
}

/// The amount that a dispute of `tx` of client `id` would hold, or why it is rejected.
pub open spec fn dispute_amount(m: Map<u16, ClientModel>, id: u16, tx: u32) -> Result<
    nat,
    ProcessTransactionError,
> {
    withdrawal_in_state(
        m,
        id,
        tx,
        TransactionState::Executed,
        ProcessTransactionError::TransactionCouldNotBeDisputed,
        ProcessTransactionError::TransactionAlreadyDisputed,
    )
}

/// The amount that a resolve of `tx` of client `id` would release, or why it is
/// rejected.
pub open spec fn resolve_amount(m: Map<u16, ClientModel>, id: u16, tx: u32) -> Result<
    nat,
    ProcessTransactionError,
> {
    withdrawal_in_state(
        m,
        id,
        tx,
        TransactionState::UnderDispute,
        ProcessTransactionError::TransactionCouldNotBeResolved,
        ProcessTransactionError::UndisputedTransactionCannotBeResolved,
    )
}

/// The amount that a chargeback of `tx` of client `id` would drop, or why it is
/// rejected.
pub open spec fn chargeback_amount(m: Map<u16, ClientModel>, id: u16, tx: u32) -> Result<
    nat,
    ProcessTransactionError,
> {
    withdrawal_in_state(
        m,
        id,
        tx,
        TransactionState::UnderDispute,
        ProcessTransactionError::TransactionCouldNotBeChargedBack,
        ProcessTransactionError::UndisputedTransactionCannotBeChargedBack,
    )
}

/// `c` with new balances, lock and one transaction entry set.
pub open spec fn updated_client(
    c: ClientModel,
    available: nat,
    held: nat,
    locked: bool,
    tx: u32,
    entry: (PayloadModel, TransactionState),
) -> ClientModel {
    ClientModel { available, held, locked, transactions: c.transactions.insert(tx, entry) }
}

/// The ledgers after transaction `t` is applied to `m`, and whether it was accepted.
/// A rejected transaction leaves the ledgers as they were.
pub open spec fn process_spec(m: Map<u16, ClientModel>, t: TransactionModel) -> (
    Map<u16, ClientModel>,
    Result<(), ProcessTransactionError>,
) {
    let id = t.client;
    match t.payload {
        PayloadModel::Deposit(a) => {
            let c = client_or_empty(m, id);
            (
                m.insert(
                    id,
                    updated_client(
                        c,
                        c.available + a,
                        c.held,
                        c.locked,
                        t.tx,
                        (PayloadModel::Deposit(a), TransactionState::Executed),
                    ),
                ),
                Ok(()),
            )
        },
        PayloadModel::Withdrawal(a) => if !m.contains_key(id) {
            (m, Err(ProcessTransactionError::ClientNotFound))
        } else if m[id].locked {
            (m, Err(ProcessTransactionError::AccountFrozen))
        } else if m[id].available < a {
            (m, Err(ProcessTransactionError::NoAvailableFunds))
        } else {
            let c = m[id];
            (
                m.insert(
                    id,
                    updated_client(
                        c,
                        (c.available - a) as nat,
                        c.held,
                        c.locked,
                        t.tx,
                        (PayloadModel::Withdrawal(a), TransactionState::Executed),
                    ),
                ),
                Ok(()),
            )
        },
        PayloadModel::Dispute => match dispute_amount(m, id, t.tx) {
            Err(e) => (m, Err(e)),
            Ok(a) => {
                let c = m[id];
                (
                    m.insert(
                        id,
                        updated_client(
                            c,
                            c.available,
                            c.held + a,
                            c.locked,
                            t.tx,
                            (PayloadModel::Withdrawal(a), TransactionState::UnderDispute),
                        ),
                    ),
                    Ok(()),
                )
            },
        },
        PayloadModel::Resolve => match resolve_amount(m, id, t.tx) {
            Err(e) => (m, Err(e)),
            Ok(a) => {
                let c = m[id];
                (
                    m.insert(
                        id,
                        updated_client(
                            c,
                            c.available + a,
                            (c.held - a) as nat,
                            c.locked,
                            t.tx,
                            (PayloadModel::Withdrawal(a), TransactionState::Resolved),
                        ),
                    ),
                    Ok(()),
                )
            },
        },
        PayloadModel::ChargeBack => match chargeback_amount(m, id, t.tx) {
            Err(e) => (m, Err(e)),
            Ok(a) => {
                let c = m[id];
                (
                    m.insert(
                        id,
                        updated_client(
                            c,
                            c.available,
                            (c.held - a) as nat,
                            true,
                            t.tx,
                            (PayloadModel::Withdrawal(a), TransactionState::ChargedBack),
                        ),
                    ),
                    Ok(()),
                )
            },
        },
    }
}

/// Whether applying `t` to `m` keeps to the input's guarantees: a deposit or a
/// withdrawal that would be recorded does not reuse a transaction number of its
/// client, a deposit keeps `available + held` in range, and so does a dispute that
/// would be accepted. Any other input is a corrupt stream, on which processing
/// aborts.
pub open spec fn admissible(m: Map<u16, ClientModel>, t: TransactionModel) -> bool {
    let id = t.client;
    match t.payload {
        PayloadModel::Deposit(a) => {
            let c = client_or_empty(m, id);
            &&& !c.transactions.contains_key(t.tx)
            &&& c.available + c.held + a <= MAX_RAW
        },
        PayloadModel::Withdrawal(_) => (m.contains_key(id) && !m[id].locked) ==> !m[id].transactions.contains_key(
            t.tx,
        ),
        PayloadModel::Dispute => dispute_amount(m, id, t.tx) matches Ok(a) ==> m[id].available
            + m[id].held + a <= MAX_RAW,
        _ => true,
    }
}

/// The kinds of amounts that a ledger's entries are summed by.
pub enum Tally {
    /// Every deposit.
    Deposited,
    /// Every withdrawal.
    Withdrawn,
    /// Withdrawals under dispute.
    Disputed,
    /// Withdrawals whose dispute was resolved.
    Resolved,
}

/// What entry `e` adds to tally `t`.
pub open spec fn tally_of(e: (PayloadModel, TransactionState), t: Tally) -> nat {
    match e.0 {
        PayloadModel::Deposit(a) => match t {
            Tally::Deposited => a,
            _ => 0,
        },
        PayloadModel::Withdrawal(a) => match t {
            Tally::Withdrawn => a,
            Tally::Disputed => if e.1 == TransactionState::UnderDispute {
                a
            } else {
                0
            },
            Tally::Resolved => if e.1 == TransactionState::Resolved {
                a
            } else {
                0
            },
            _ => 0,
        },
        _ => 0,
    }
}

/// The sum of tally `t` over the entries of `txs`.
pub open spec fn total_of(txs: Map<u32, (PayloadModel, TransactionState)>, t: Tally) -> nat
    decreases txs.dom().len(),
    when txs.dom().finite()
    via total_of_decreases
{
    if txs.dom().len() == 0 {
        0
    } else {
        let k = txs.dom().choose();
        tally_of(txs[k], t) + total_of(txs.remove(k), t)
    }
}

#[via_fn]
proof fn total_of_decreases(txs: Map<u32, (PayloadModel, TransactionState)>, t: Tally) {
    if txs.dom().len() != 0 {
        if !exists|a: u32| txs.dom().contains(a) {
            assert(txs.dom() =~= Set::empty());
        }
        let k = txs.dom().choose();
        assert(txs.remove(k).dom() =~= txs.dom().remove(k));
    }
}

/// The invariants of a client's ledger: its entries are deposits and withdrawals,
/// `held` is the sum of the withdrawals under dispute, `available` is the deposits
/// less the withdrawals plus those whose dispute was resolved, and
/// `available + held` is in range.
pub open spec fn client_wf(c: ClientModel) -> bool {
    &&& c.transactions.dom().finite()
    &&& forall|k: u32| #[trigger]
        c.transactions.contains_key(k) ==> (c.transactions[k].0 is Deposit
            || c.transactions[k].0 is Withdrawal)
    &&& c.held == total_of(c.transactions, Tally::Disputed)
    &&& c.available + total_of(c.transactions, Tally::Withdrawn) == total_of(
        c.transactions,
        Tally::Deposited,
    ) + total_of(c.transactions, Tally::Resolved)
    &&& c.available + c.held <= MAX_RAW
}

proof fn lemma_total_remove(txs: Map<u32, (PayloadModel, TransactionState)>, t: Tally, k: u32)
    requires
        txs.dom().finite(),
        txs.dom().contains(k),
    ensures
        total_of(txs, t) == tally_of(txs[k], t) + total_of(txs.remove(k), t),
    decreases txs.dom().len(),
{
    assert(txs.remove(k).dom() =~= txs.dom().remove(k));
    let c = txs.dom().choose();
    assert(txs.dom().contains(c));
    if c != k {
        assert(txs.remove(c).dom() =~= txs.dom().remove(c));
        lemma_total_remove(txs.remove(c), t, k);
        assert(txs.remove(k).dom().contains(c));
        lemma_total_remove(txs.remove(k), t, c);
        assert(txs.remove(c).remove(k) =~= txs.remove(k).remove(c));
    }
}

proof fn lemma_total_insert(
    txs: Map<u32, (PayloadModel, TransactionState)>,
    k: u32,
    v: (PayloadModel, TransactionState),
)
    requires
        txs.dom().finite(),
    ensures
        forall|t: Tally|
            #[trigger] total_of(txs.insert(k, v), t) + (if txs.dom().contains(k) {
                tally_of(txs[k], t)
            } else {
                0
            }) == total_of(txs, t) + tally_of(v, t),
{
    let n = txs.insert(k, v);
    assert(n.remove(k) =~= txs.remove(k));
    assert forall|t: Tally| #[trigger]
        total_of(n, t) + (if txs.dom().contains(k) {
            tally_of(txs[k], t)
        } else {
            0
        }) == total_of(txs, t) + tally_of(v, t) by {
        lemma_total_remove(n, t, k);
        if txs.dom().contains(k) {
            lemma_total_remove(txs, t, k);
        } else {
            assert(txs.remove(k) =~= txs);
        }
    }
}

/// `true` or `false`.
pub open spec fn bool_text(b: bool) -> Seq<char> {
    if b {
        "true"@
    } else {
        "false"@
    }
}

/// The summary line of client `id`: `{id},{available},{held},{total},{locked}`.
pub open spec fn client_line(id: u16, c: ClientModel) -> Seq<char> {
    decimal_text(id as nat) + ","@ + format_spec(c.available) + ","@ + format_spec(c.held) + ","@
        + format_spec(c.available + c.held) + ","@ + bool_text(c.locked) + "\n"@
}

/// The summary lines of the clients of `m` whose number is below `n`, in ascending
/// order of number.
pub open spec fn lines_below(m: Map<u16, ClientModel>, n: nat) -> Seq<char>
    decreases n,
{
    if n == 0 {
        seq![]
    } else {
        lines_below(m, (n - 1) as nat) + if m.contains_key((n - 1) as u16) {
            client_line((n - 1) as u16, m[(n - 1) as u16])
        } else {
            seq![]
        }
    }
}

/// The summary of `m`: a header line, then a line per client in ascending order of
/// client number.
pub open spec fn summary_spec(m: Map<u16, ClientModel>) -> Seq<char> {
    "client,available,held,total,locked\n"@ + lines_below(m, 65536)
}

struct ClientState {
    available: FixedDecimal,
    held: FixedDecimal,
    locked: bool,
    transactions: HashMap<u32, (TransactionPayload, TransactionState)>,
}

impl ClientState {
    spec fn model(&self) -> ClientModel {
        ClientModel {
            available: self.available@,
            held: self.held@,
            locked: self.locked,
            transactions: self.transactions@.map_values(
                |e: (TransactionPayload, TransactionState)| (e.0@, e.1),
            ),
        }
    }

    fn new() -> (r: ClientState)
        ensures
            r.model() == empty_client(),
    {
        let r = ClientState {
            available: FixedDecimal::default(),
            held: FixedDecimal::default(),
            locked: false,
            transactions: HashMap::new(),
        };
        assert(r.model().transactions =~= Map::empty());
        r
    }
}

/// Keeps a ledger per client and applies transactions to it.
pub struct PaymentsProcessor {
    data: HashMap<u16, ClientState>,
}

impl View for PaymentsProcessor {
    type V = Map<u16, ClientModel>;

    closed spec fn view(&self) -> Map<u16, ClientModel> {
        self.data@.map_values(|c: ClientState| c.model())
    }
}

fn get_withdrawal_amount_or_err(tx: &TransactionPayload, er: ProcessTransactionError) -> (r: Result<
    FixedDecimal,
    ProcessTransactionError,
>)
    ensures
        match tx {
            TransactionPayload::Withdrawal(a) => r == Ok::<FixedDecimal, ProcessTransactionError>(*a),
            _ => r == Err::<FixedDecimal, ProcessTransactionError>(er),
        },
{
    match tx {
        TransactionPayload::Withdrawal(amount) => Ok(*amount),
        _ => Err(er),
    }
}

fn find_transaction(clientstate: &ClientState, tx_id: u32) -> (r: Result<
    (TransactionPayload, TransactionState),
    ProcessTransactionError,
>)
    ensures
        match r {
            Ok(e) => clientstate.transactions@.contains_key(tx_id) && e == clientstate.transactions@[tx_id],
            Err(e) => !clientstate.transactions@.contains_key(tx_id) && e
                == ProcessTransactionError::AssociatedTransactionNoFound,
        },
{
    match clientstate.transactions.get(&tx_id) {
        Some(e) => Ok(*e),
        None => Err(ProcessTransactionError::AssociatedTransactionNoFound),
    }
}

impl PaymentsProcessor {
    /// The invariants of every client's ledger hold.
    pub closed spec fn wf(&self) -> bool {
        forall|id: u16| #[trigger] self@.contains_key(id) ==> client_wf(self@[id])
    }

    /// A processor without clients.
    pub fn new() -> (r: PaymentsProcessor)
        ensures
            r.wf(),
            r@ == Map::<u16, ClientModel>::empty(),
    {
        let r = PaymentsProcessor { data: HashMap::new() };
        assert(r@ =~= Map::<u16, ClientModel>::empty());
        r
    }

    fn find_client(&self, cl: u16) -> (r: Result<&ClientState, ProcessTransactionError>)
        ensures
            match r {
                Ok(c) => self.data@.contains_key(cl) && *c == self.data@[cl],
                Err(e) => !self.data@.contains_key(cl) && e == ProcessTransactionError::ClientNotFound,
            },
    {
        match self.data.get(&cl) {
            Some(entry) => Ok(entry),
            None => Err(ProcessTransactionError::ClientNotFound),
        }
    }

    /// Puts the ledger `entry` of client `cl` back, with one transaction entry set.
    fn store(
        &mut self,
        cl: u16,
        mut entry: ClientState,
        tx_id: u32,
        record: (TransactionPayload, TransactionState),
    )
        ensures
            final(self)@ == old(self)@.insert(
                cl,
                updated_client(
                    entry.model(),
                    entry.available@,
                    entry.held@,
                    entry.locked,
                    tx_id,
                    (record.0@, record.1),
                ),
            ),
    {
        let ghost before = entry.model();
        entry.transactions.insert(tx_id, record);
        let ghost after = entry.model();
        assert(after.transactions =~= before.transactions.insert(tx_id, (record.0@, record.1)));
        self.data.insert(cl, entry);
        assert(self@ =~= old(self)@.insert(cl, after));
    }
    fn process_deposit(&mut self, cl: u16, tx_id: u32, amount: FixedDecimal) -> (r: Result<
        (),
        ProcessTransactionError,
    >)
        requires
            old(self).wf(),
            admissible(
                old(self)@,
                TransactionModel { client: cl, tx: tx_id, payload: PayloadModel::Deposit(amount@) },
            ),
        ensures
            final(self).wf(),
            (final(self)@, r) == process_spec(
                old(self)@,
                TransactionModel { client: cl, tx: tx_id, payload: PayloadModel::Deposit(amount@) },
            ),
    {
        let ghost m = self@;
        let mut entry = match self.data.remove(&cl) {
            Some(c) => c,
            None => ClientState::new(),
        };
        let ghost c = client_or_empty(m, cl);
        assert(entry.model() == c);
        proof {
            broadcast use crate::fixed_decimal::lemma_fixed_decimal_bounded;

        }
        entry.available = entry.available.checked_add(amount).unwrap();
        let record = (TransactionPayload::Deposit(amount), TransactionState::Executed);
        self.store(cl, entry, tx_id, record);
        proof {
            lemma_total_insert(c.transactions, tx_id, (record.0@, record.1));
            assert(self.wf()) by {
                assert forall|id: u16| #[trigger] self@.contains_key(id) implies client_wf(
                    self@[id],
                ) by {
                    if id != cl {
                        assert(m.contains_key(id));
                    }
                }
            }
        }
        Ok(())
    }

    fn process_withdrawal(&mut self, cl: u16, tx_id: u32, amount: FixedDecimal) -> (r: Result<
        (),
        ProcessTransactionError,
    >)
        requires
            old(self).wf(),
            admissible(
                old(self)@,
                TransactionModel {
                    client: cl,
                    tx: tx_id,
                    payload: PayloadModel::Withdrawal(amount@),
                },
            ),
        ensures
            final(self).wf(),
            (final(self)@, r) == process_spec(
                old(self)@,
                TransactionModel {
                    client: cl,
                    tx: tx_id,
                    payload: PayloadModel::Withdrawal(amount@),
                },
            ),
    {
        let ghost m = self@;
        let entry = self.find_client(cl)?;
        if entry.locked {
            return Err(ProcessTransactionError::AccountFrozen);
        }
        let new_available = match entry.available.checked_sub(amount) {
            Some(v) => v,
            None => {
                return Err(ProcessTransactionError::NoAvailableFunds);
            },
        };
        let mut entry = self.data.remove(&cl).unwrap();
        let ghost c = entry.model();
        assert(c == m[cl]);
        entry.available = new_available;
        let record = (TransactionPayload::Withdrawal(amount), TransactionState::Executed);
        self.store(cl, entry, tx_id, record);
        proof {
            lemma_total_insert(c.transactions, tx_id, (record.0@, record.1));
            assert(self.wf()) by {
                assert forall|id: u16| #[trigger] self@.contains_key(id) implies client_wf(
                    self@[id],
                ) by {
                    if id != cl {
                        assert(m.contains_key(id));
                    }
                }
            }
        }
        Ok(())
    }

    fn process_dispute(&mut self, cl: u16, tx_id: u32) -> (r: Result<(), ProcessTransactionError>)
        requires
            old(self).wf(),
            admissible(
                old(self)@,
                TransactionModel { client: cl, tx: tx_id, payload: PayloadModel::Dispute },
            ),
        ensures
            final(self).wf(),
            (final(self)@, r) == process_spec(
                old(self)@,
                TransactionModel { client: cl, tx: tx_id, payload: PayloadModel::Dispute },
            ),
    {
        let ghost m = self@;
        let entry = self.find_client(cl)?;
        let (payload, state) = find_transaction(entry, tx_id)?;
        let amount = get_withdrawal_amount_or_err(
            &payload,
            ProcessTransactionError::TransactionCouldNotBeDisputed,
        )?;
        if state != TransactionState::Executed {
            return Err(ProcessTransactionError::TransactionAlreadyDisputed);
        }
        proof {
            broadcast use crate::fixed_decimal::lemma_fixed_decimal_bounded;

        }
        let new_held = entry.held.checked_add(amount).unwrap();
        let mut entry = self.data.remove(&cl).unwrap();
        let ghost c = entry.model();
        assert(c == m[cl]);
        entry.held = new_held;
        let record = (payload, TransactionState::UnderDispute);
        self.store(cl, entry, tx_id, record);
        proof {
            lemma_total_insert(c.transactions, tx_id, (record.0@, record.1));
            assert(self.wf()) by {
                assert forall|id: u16| #[trigger] self@.contains_key(id) implies client_wf(
                    self@[id],
                ) by {
                    if id != cl {
                        assert(m.contains_key(id));
                    }
                }
            }
        }
        Ok(())
    }

    fn process_resolve(&mut self, cl: u16, tx_id: u32) -> (r: Result<(), ProcessTransactionError>)
        requires
            old(self).wf(),
        ensures
            final(self).wf(),
            (final(self)@, r) == process_spec(
                old(self)@,
                TransactionModel { client: cl, tx: tx_id, payload: PayloadModel::Resolve },
            ),
    {
        let ghost m = self@;
        let entry = self.find_client(cl)?;
        let (payload, state) = find_transaction(entry, tx_id)?;
        let amount = get_withdrawal_amount_or_err(
            &payload,
            ProcessTransactionError::TransactionCouldNotBeResolved,
        )?;
        if state != TransactionState::UnderDispute {
            return Err(ProcessTransactionError::UndisputedTransactionCannotBeResolved);
        }
        let ghost c = m[cl];
        proof {
            broadcast use crate::fixed_decimal::lemma_fixed_decimal_bounded;

            assert(c.transactions.contains_key(tx_id));
            lemma_total_remove(c.transactions, Tally::Disputed, tx_id);
        }
        let new_held = entry.held.checked_sub(amount).unwrap();
        let new_available = entry.available.checked_add(amount).unwrap();
        let mut entry = self.data.remove(&cl).unwrap();
        assert(entry.model() == c);
        entry.held = new_held;
        entry.available = new_available;
        let record = (payload, TransactionState::Resolved);
        self.store(cl, entry, tx_id, record);
        proof {
            lemma_total_insert(c.transactions, tx_id, (record.0@, record.1));
            assert(self.wf()) by {
                assert forall|id: u16| #[trigger] self@.contains_key(id) implies client_wf(
                    self@[id],
                ) by {
                    if id != cl {
                        assert(m.contains_key(id));
                    }
                }
            }
        }
        Ok(())
    }

    fn process_chargeback(&mut self, cl: u16, tx_id: u32) -> (r: Result<
        (),
        ProcessTransactionError,
    >)
        requires
            old(self).wf(),
        ensures
            final(self).wf(),
            (final(self)@, r) == process_spec(
                old(self)@,
                TransactionModel { client: cl, tx: tx_id, payload: PayloadModel::ChargeBack },
            ),
    {
        let ghost m = self@;
        let entry = self.find_client(cl)?;
        let (payload, state) = find_transaction(entry, tx_id)?;
        let amount = get_withdrawal_amount_or_err(
            &payload,
            ProcessTransactionError::TransactionCouldNotBeChargedBack,
        )?;
        if state != TransactionState::UnderDispute {
            return Err(ProcessTransactionError::UndisputedTransactionCannotBeChargedBack);
        }
        let ghost c = m[cl];
        proof {
            assert(c.transactions.contains_key(tx_id));
            lemma_total_remove(c.transactions, Tally::Disputed, tx_id);
        }
        let new_held = entry.held.checked_sub(amount).unwrap();
        let mut entry = self.data.remove(&cl).unwrap();
        assert(entry.model() == c);
        entry.held = new_held;
        entry.locked = true;
        let record = (payload, TransactionState::ChargedBack);
        self.store(cl, entry, tx_id, record);
        proof {
            lemma_total_insert(c.transactions, tx_id, (record.0@, record.1));
            assert(self.wf()) by {
                assert forall|id: u16| #[trigger] self@.contains_key(id) implies client_wf(
                    self@[id],
                ) by {
                    if id != cl {
                        assert(m.contains_key(id));
                    }
                }
            }
        }
        Ok(())
    }
    /// Applies `tx` to the ledgers. A deposit creates its client's ledger when there
    /// is none; a withdrawal, dispute, resolve or chargeback needs one, and a rejected
    /// transaction changes nothing.
    pub fn process_transaction(&mut self, tx: PaymentsTransaction) -> (r: Result<
        (),
        ProcessTransactionError,
    >)
        requires
            old(self).wf(),
            admissible(old(self)@, tx@),
        ensures
            final(self).wf(),
            (final(self)@, r) == process_spec(old(self)@, tx@),
    {
        match tx.payload {
            TransactionPayload::Deposit(amount) => self.process_deposit(tx.client, tx.tx, amount),
            TransactionPayload::Withdrawal(amount) => self.process_withdrawal(
                tx.client,
                tx.tx,
                amount,
            ),
            TransactionPayload::Dispute => self.process_dispute(tx.client, tx.tx),
            TransactionPayload::Resolve => self.process_resolve(tx.client, tx.tx),
            TransactionPayload::ChargeBack => self.process_chargeback(tx.client, tx.tx),
        }
    }

    /// Whether `tx` keeps to the input's guarantees, so that it can be processed: see
    /// [admissible].
    pub fn is_admissible(&self, tx: &PaymentsTransaction) -> (r: bool)
        requires
            self.wf(),
        ensures
            r == admissible(self@, tx@),
    {
        let ghost m = self@;
        proof {
            broadcast use crate::fixed_decimal::lemma_fixed_decimal_bounded;

        }
        match tx.payload {
            TransactionPayload::Deposit(amount) => match self.data.get(&tx.client) {
                None => true,
                Some(c) => {
                    assert(m.contains_key(tx.client));
                    let fresh = !c.transactions.contains_key(&tx.tx);
                    match c.available.checked_add(c.held) {
                        None => false,
                        Some(total) => fresh && total.checked_add(amount).is_some(),
                    }
                },
            },
            TransactionPayload::Withdrawal(_) => match self.data.get(&tx.client) {
                None => true,
                Some(c) => {
                    assert(m.contains_key(tx.client));
                    c.locked || !c.transactions.contains_key(&tx.tx)
                },
            },
            TransactionPayload::Dispute => match self.data.get(&tx.client) {
                None => true,
                Some(c) => {
                    assert(m.contains_key(tx.client));
                    match c.transactions.get(&tx.tx) {
                        Some((TransactionPayload::Withdrawal(amount), TransactionState::Executed)) => {
                            match c.available.checked_add(c.held) {
                                None => false,
                                Some(total) => total.checked_add(*amount).is_some(),
                            }
                        },
                        _ => true,
                    }
                },
            },
            _ => true,
        }
    }

    /// The summary: the header `client,available,held,total,locked`, then a line
    /// `{client},{available},{held},{total},{locked}` per client in ascending order of
    /// client number, each line ended by a line feed.
    pub fn to_string(&self) -> (r: String)
        requires
            self.wf(),
        ensures
            r@ == summary_spec(self@),
    {
        let mut out = String::new();
        out.append("client,available,held,total,locked\n");
        let mut id: u32 = 0;
        while id < 65536
            invariant
                id <= 65536,
                self.wf(),
                out@ == "client,available,held,total,locked\n"@ + lines_below(self@, id as nat),
            decreases 65536 - id,
        {
            let ghost before = out@;
            match self.data.get(&(id as u16)) {
                Some(c) => {
                    assert(self@.contains_key(id as u16));
                    append_line(&mut out, id as u16, c);
                },
                None => {},
            }
            assert(out@ =~= "client,available,held,total,locked\n"@ + lines_below(
                self@,
                (id + 1) as nat,
            ));
            id = id + 1;
        }
        out
    }
}

fn append_line(out: &mut String, id: u16, c: &ClientState)
    requires
        client_wf(c.model()),
    ensures
        final(out)@ == old(out)@ + client_line(id, c.model()),
{
    proof {
        broadcast use crate::fixed_decimal::lemma_fixed_decimal_bounded;

    }
    let total = c.available.checked_add(c.held).unwrap();
    push_decimal(out, id as u64);
    out.append(",");
    out.append(&c.available.to_string());
    out.append(",");
    out.append(&c.held.to_string());
    out.append(",");
    out.append(&total.to_string());
    out.append(",");
    if c.locked {
        out.append("true");
    } else {
        out.append("false");
    }
    out.append("\n");
    assert(final(out)@ =~= old(out)@ + client_line(id, c.model()));
}

impl Default for PaymentsProcessor {
    fn default() -> (r: PaymentsProcessor)
        ensures
            r.wf(),
            r@ == Map::<u16, ClientModel>::empty(),
    {
        PaymentsProcessor::new()
    }
}

/// Whatever transactions were accepted, every client's `available + held` is in
/// range, `held` is the sum of the withdrawals under dispute, and the total
/// `available + held` is the sum of the deposits less the withdrawals, plus the
/// withdrawals under dispute, plus the withdrawals whose dispute was resolved. So
/// while no dispute of the client was resolved, the total is the deposits less the
/// withdrawals plus the withdrawals under dispute.
pub proof fn lemma_ledger_balances(p: PaymentsProcessor, id: u16)
    requires
        p.wf(),
        p@.contains_key(id),
    ensures
        ({
            let c = p@[id];
            let txs = c.transactions;
            &&& c.available + c.held <= MAX_RAW
            &&& c.held == total_of(txs, Tally::Disputed)
            &&& c.available + c.held + total_of(txs, Tally::Withdrawn) == total_of(
                txs,
                Tally::Deposited,
            ) + total_of(txs, Tally::Disputed) + total_of(txs, Tally::Resolved)
            &&& total_of(txs, Tally::Resolved) == 0 ==> c.available + c.held + total_of(
                txs,
                Tally::Withdrawn,
            ) == total_of(txs, Tally::Deposited) + total_of(txs, Tally::Disputed)
        }),
{
}


/// The ledgers after the transactions `h` are applied in order to a processor without
/// clients.
pub open spec fn apply_all(h: Seq<TransactionModel>) -> Map<u16, ClientModel>
    decreases h.len(),
{
    if h.len() == 0 {
        Map::empty()
    } else {
        process_spec(apply_all(h.drop_last()), h.last()).0
    }
}

/// Every transaction of `h` keeps to the input's guarantees in the ledgers it meets.
pub open spec fn admissible_history(h: Seq<TransactionModel>) -> bool {
    forall|i: int| 0 <= i < h.len() ==> #[trigger] admissible(apply_all(h.take(i)), h[i])
}

/// What transaction `t`, applied to the ledgers `m`, adds to tally `tl` of its client's
/// accepted events: an accepted deposit its amount to the deposits, an accepted
/// withdrawal its amount to the withdrawals, an accepted resolve the released amount
/// to the resolved withdrawals.
pub open spec fn event_tally(m: Map<u16, ClientModel>, t: TransactionModel, tl: Tally) -> nat {
    if process_spec(m, t).1 is Err {
        0
    } else {
        match t.payload {
            PayloadModel::Deposit(a) => if tl is Deposited {
                a
            } else {
                0
            },
            PayloadModel::Withdrawal(a) => if tl is Withdrawn {
                a
            } else {
                0
            },
            PayloadModel::Resolve => if tl is Resolved {
                resolve_amount(m, t.client, t.tx)->Ok_0
            } else {
                0
            },
            _ => 0,
        }
    }
}

/// The sum of tally `tl` over the accepted events of client `id` in the history `h`.
pub open spec fn history_total(h: Seq<TransactionModel>, id: u16, tl: Tally) -> nat
    decreases h.len(),
{
    if h.len() == 0 {
        0
    } else {
        history_total(h.drop_last(), id, tl) + if h.last().client == id {
            event_tally(apply_all(h.drop_last()), h.last(), tl)
        } else {
            0
        }
    }
}

/// The tallies of deposits, withdrawals and resolved withdrawals of client `id`'s
/// entries in `m` grow by what `t` adds to them.
pub open spec fn tallies_follow(
    m: Map<u16, ClientModel>,
    m2: Map<u16, ClientModel>,
    t: TransactionModel,
    id: u16,
) -> bool {
    let before = client_or_empty(m, id).transactions;
    let after = client_or_empty(m2, id).transactions;
    let own = t.client == id;
    &&& total_of(after, Tally::Deposited) == total_of(before, Tally::Deposited) + if own {
        event_tally(m, t, Tally::Deposited)
    } else {
        0
    }
    &&& total_of(after, Tally::Withdrawn) == total_of(before, Tally::Withdrawn) + if own {
        event_tally(m, t, Tally::Withdrawn)
    } else {
        0
    }
    &&& total_of(after, Tally::Resolved) == total_of(before, Tally::Resolved) + if own {
        event_tally(m, t, Tally::Resolved)
    } else {
        0
    }
}

/// Every client of `m` satisfies [client_wf].
pub open spec fn all_wf(m: Map<u16, ClientModel>) -> bool {
    forall|id: u16| #[trigger] m.contains_key(id) ==> client_wf(m[id])
}

proof fn lemma_empty_client_wf()
    ensures
        client_wf(empty_client()),
        forall|tl: Tally| #[trigger] total_of(empty_client().transactions, tl) == 0,
{
    let e = empty_client().transactions;
    assert(e.dom() =~= Set::empty());
    assert forall|tl: Tally| #[trigger] total_of(e, tl) == 0 by {
        assert(e.dom().len() == 0);
    }
}

/// One transaction keeps every ledger's invariants and moves its client's tallies by
/// what it adds to them.
proof fn lemma_apply_step(m: Map<u16, ClientModel>, t: TransactionModel, id: u16)
    requires
        all_wf(m),
        admissible(m, t),
    ensures
        all_wf(process_spec(m, t).0),
        tallies_follow(m, process_spec(m, t).0, t, id),
{
    let m2 = process_spec(m, t).0;
    let cl = t.client;
    lemma_empty_client_wf();
    let c = client_or_empty(m, cl);
    assert(client_wf(c));
    if process_spec(m, t).1 is Ok {
        let c2 = m2[cl];
        let entry = c2.transactions[t.tx];
        assert(c2.transactions == c.transactions.insert(t.tx, entry));
        lemma_total_insert(c.transactions, t.tx, entry);
        match t.payload {
            PayloadModel::Resolve => {
                lemma_total_remove(c.transactions, Tally::Disputed, t.tx);
            },
            PayloadModel::ChargeBack => {
                lemma_total_remove(c.transactions, Tally::Disputed, t.tx);
            },
            _ => {},
        }
        assert(client_wf(c2));
        assert forall|i: u16| #[trigger] m2.contains_key(i) implies client_wf(m2[i]) by {
            if i != cl {
                assert(m.contains_key(i));
            }
        }
        if id != cl {
            assert(client_or_empty(m2, id) == client_or_empty(m, id));
        }
    }
}

proof fn lemma_history_invariant(h: Seq<TransactionModel>)
    requires
        admissible_history(h),
    ensures
        all_wf(apply_all(h)),
        forall|id: u16|
            {
                let txs = #[trigger] client_or_empty(apply_all(h), id).transactions;
                &&& total_of(txs, Tally::Deposited) == history_total(h, id, Tally::Deposited)
                &&& total_of(txs, Tally::Withdrawn) == history_total(h, id, Tally::Withdrawn)
                &&& total_of(txs, Tally::Resolved) == history_total(h, id, Tally::Resolved)
            },
    decreases h.len(),
{
    lemma_empty_client_wf();
    if h.len() == 0 {
        assert forall|id: u16| #[trigger] client_or_empty(apply_all(h), id) == empty_client() by {}
    } else {
        let p = h.drop_last();
        assert forall|i: int| 0 <= i < p.len() implies #[trigger] admissible(
            apply_all(p.take(i)),
            p[i],
        ) by {
            assert(p.take(i) =~= h.take(i));
            assert(admissible(apply_all(h.take(i)), h[i]));
        }
        lemma_history_invariant(p);
        assert(h.take(p.len() as int) =~= p);
        assert(admissible(apply_all(h.take(p.len() as int)), h[p.len() as int]));
        assert forall|id: u16|
            {
                let txs = #[trigger] client_or_empty(apply_all(h), id).transactions;
                &&& total_of(txs, Tally::Deposited) == history_total(h, id, Tally::Deposited)
                &&& total_of(txs, Tally::Withdrawn) == history_total(h, id, Tally::Withdrawn)
                &&& total_of(txs, Tally::Resolved) == history_total(h, id, Tally::Resolved)
            } by {
            lemma_apply_step(apply_all(p), h.last(), id);
        }
        lemma_apply_step(apply_all(p), h.last(), h.last().client);
    }
}

/// Over any history of calls that keeps to the input's guarantees, starting from a
/// processor without clients: every client's `available + held` stays in range, and
/// equals the client's accepted deposits, less its accepted withdrawals, plus what is
/// held for disputed withdrawals, plus the withdrawals released by accepted resolves.
pub proof fn lemma_history_balances(h: Seq<TransactionModel>, id: u16)
    requires
        admissible_history(h),
        apply_all(h).contains_key(id),
    ensures
        ({
            let c = apply_all(h)[id];
            &&& c.available + c.held <= MAX_RAW
            &&& c.available + c.held + history_total(h, id, Tally::Withdrawn) == history_total(
                h,
                id,
                Tally::Deposited,
            ) + c.held + history_total(h, id, Tally::Resolved)
        }),
{
    lemma_history_invariant(h);
    assert(client_or_empty(apply_all(h), id) == apply_all(h)[id]);
}

} // verus!
