//! The ledger engine: folds each client's transaction history into one
//! account summary.
//!
//! Per client, the engine replays that client's deposits and withdrawals in
//! input order. For each transaction id it applies the base effect, then any
//! dispute attached to the id, then — only once a matching dispute exists —
//! any resolve and any chargeback attached to it. Resolve and chargeback are
//! applied independently of each other when both are present; that literal
//! behaviour is part of the contract.

use std::collections::HashMap;
use vstd::prelude::*;

use crate::types::{
    Account, ClassifiedTransactions, ClassifiedView, Transaction, TransactionError,
    TransactionType, MAX_AMOUNT_UNITS,
};

verus! {

broadcast use vstd::std_specs::hash::group_hash_axioms;

/// The running balances of one account while its history is folded.
pub struct LedgerState {
    pub available: int,
    pub held: int,
    pub total: int,
    pub locked: bool,
}

impl LedgerState {
    /// Every fold starts from an empty, unlocked account.
    pub open spec fn initial() -> LedgerState {
        LedgerState { available: 0, held: 0, total: 0, locked: false }
    }

    /// The balance-sheet invariant, kept by every fold step.
    pub open spec fn balanced(self) -> bool {
        self.total == self.available + self.held
    }

    /// All three balances lie within `bound` of zero.
    pub open spec fn within(self, bound: int) -> bool {
        &&& -bound <= self.available <= bound
        &&& -bound <= self.held <= bound
        &&& -bound <= self.total <= bound
    }
}

/// Base effect of a deposit or withdrawal of `a` units. A withdrawal that
/// exceeds the available balance is a no-op, not an error.
pub open spec fn apply_base(st: LedgerState, kind: TransactionType, a: int) -> LedgerState {
    match kind {
        TransactionType::Deposit => LedgerState {
            available: st.available + a,
            total: st.total + a,
            ..st
        },
        TransactionType::Withdrawal => if a <= st.available {
            LedgerState { available: st.available - a, total: st.total - a, ..st }
        } else {
            st
        },
        _ => st,
    }
}

/// Dispute lifecycle for transaction `tx` of amount `a`, after its base
/// effect. Nothing happens unless a dispute row for `tx` by the same client
/// exists; then the hold is applied, a matching resolve (if any) reverses the
/// hold, and a matching chargeback (if any) removes the amount from held and
/// total and locks the account. Resolve and chargeback fire independently.
pub open spec fn apply_dispute_chain(
    st: LedgerState,
    client: u16,
    tx: u32,
    a: int,
    disputes: Map<u32, Transaction>,
    resolves: Map<u32, Transaction>,
    chargebacks: Map<u32, Transaction>,
) -> LedgerState {
    if disputes.contains_key(tx) && disputes[tx].client == client {
        let held_st = LedgerState { available: st.available - a, held: st.held + a, ..st };
        let resolved_st = if resolves.contains_key(tx) && resolves[tx].client == client {
            LedgerState {
                available: held_st.available + a,
                held: held_st.held - a,
                ..held_st
            }
        } else {
            held_st
        };
        if chargebacks.contains_key(tx) && chargebacks[tx].client == client {
            LedgerState {
                held: resolved_st.held - a,
                total: resolved_st.total - a,
                locked: true,
                ..resolved_st
            }
        } else {
            resolved_st
        }
    } else {
        st
    }
}

/// One fold step: the base effect of the transaction behind `tx`, then its
/// dispute lifecycle. Meaningful only when `txmap` holds `tx` with an amount.
pub open spec fn apply_transaction(
    st: LedgerState,
    client: u16,
    tx: u32,
    txmap: Map<u32, Transaction>,
    disputes: Map<u32, Transaction>,
    resolves: Map<u32, Transaction>,
    chargebacks: Map<u32, Transaction>,
) -> LedgerState {
    let t = txmap[tx];
    let a = t.amount->Some_0 as int;
    apply_dispute_chain(apply_base(st, t.kind, a), client, tx, a, disputes, resolves, chargebacks)
}

/// Every id of a history is indexed and carries an amount; exactly the
/// condition under which the engine does not fail.
pub open spec fn history_ok(txs: Seq<u32>, txmap: Map<u32, Transaction>) -> bool {
    forall|i: int|
        0 <= i < txs.len() ==> txmap.contains_key(#[trigger] txs[i]) && txmap[txs[i]].amount is Some
}

/// The state a client's whole history folds to, from the initial state.
pub open spec fn fold_history(
    client: u16,
    txs: Seq<u32>,
    txmap: Map<u32, Transaction>,
    disputes: Map<u32, Transaction>,
    resolves: Map<u32, Transaction>,
    chargebacks: Map<u32, Transaction>,
) -> LedgerState
    decreases txs.len(),
{
    if txs.len() == 0 {
        LedgerState::initial()
    } else {
        apply_transaction(
            fold_history(client, txs.drop_last(), txmap, disputes, resolves, chargebacks),
            client,
            txs.last(),
            txmap,
            disputes,
            resolves,
            chargebacks,
        )
    }
}

/// Every client's history in the classified view can be folded.
pub open spec fn all_histories_ok(cv: ClassifiedView) -> bool {
    forall|i: int|
        0 <= i < cv.clients.len() ==> history_ok(
            cv.client_txs[#[trigger] cv.clients[i]],
            cv.transactions,
        )
}

/// The account the engine owes a client under a classified view.
pub open spec fn client_account(cv: ClassifiedView, client: u16) -> Account {
    let st = fold_history(
        client,
        cv.client_txs[client],
        cv.transactions,
        cv.disputes,
        cv.resolves,
        cv.chargebacks,
    );
    Account {
        client,
        available: st.available as i128,
        held: st.held as i128,
        total: st.total as i128,
        locked: st.locked,
    }
}

/// A fold over amounts within range stays within `3 * MAX_AMOUNT_UNITS`
/// per step, so balances always fit an `i128`.
pub proof fn lemma_fold_bounds(
    client: u16,
    txs: Seq<u32>,
    txmap: Map<u32, Transaction>,
    disputes: Map<u32, Transaction>,
    resolves: Map<u32, Transaction>,
    chargebacks: Map<u32, Transaction>,
)
    requires
        forall|k: u32| txmap.contains_key(k) ==> (#[trigger] txmap[k]).amount_ok(),
        history_ok(txs, txmap),
    ensures
        fold_history(client, txs, txmap, disputes, resolves, chargebacks).within(
            3 * MAX_AMOUNT_UNITS * txs.len(),
        ),
    decreases txs.len(),
{
    if txs.len() > 0 {
        let prefix = txs.drop_last();
        assert(history_ok(prefix, txmap)) by {
            assert(forall|i: int| 0 <= i < prefix.len() ==> prefix[i] == txs[i]);
        }
        lemma_fold_bounds(client, prefix, txmap, disputes, resolves, chargebacks);
        let a = txmap[txs.last()].amount->Some_0 as int;
        assert(0 <= a <= MAX_AMOUNT_UNITS);
        assert(3 * MAX_AMOUNT_UNITS * txs.len() == 3 * MAX_AMOUNT_UNITS * prefix.len() + 3
            * MAX_AMOUNT_UNITS) by (nonlinear_arith)
            requires prefix.len() == txs.len() - 1;
    }
}

/// The balance-sheet invariant `total == available + held` holds after every fold step, not
/// just at the end: every prefix of a history folds to a balanced state.
pub proof fn lemma_fold_balanced(
    client: u16,
    txs: Seq<u32>,
    txmap: Map<u32, Transaction>,
    disputes: Map<u32, Transaction>,
    resolves: Map<u32, Transaction>,
    chargebacks: Map<u32, Transaction>,
)
    ensures
        forall|i: int|
            0 <= i <= txs.len() ==> (#[trigger] fold_history(
                client,
                txs.take(i),
                txmap,
                disputes,
                resolves,
                chargebacks,
            )).balanced(),
    decreases txs.len(),
{
    if txs.len() > 0 {
        lemma_fold_balanced(client, txs.drop_last(), txmap, disputes, resolves, chargebacks);
        assert forall|i: int| 0 <= i <= txs.len() implies (#[trigger] fold_history(
            client,
            txs.take(i),
            txmap,
            disputes,
            resolves,
            chargebacks,
        )).balanced() by {
            if i < txs.len() {
                assert(txs.take(i) =~= txs.drop_last().take(i));
                assert(fold_history(
                    client,
                    txs.drop_last().take(i),
                    txmap,
                    disputes,
                    resolves,
                    chargebacks,
                ).balanced());
            } else {
                assert(txs.take(i) =~= txs);
                assert(txs.drop_last() =~= txs.drop_last().take(txs.len() - 1));
                assert(fold_history(
                    client,
                    txs.drop_last().take(txs.len() - 1),
                    txmap,
                    disputes,
                    resolves,
                    chargebacks,
                ).balanced());
                assert(fold_history(
                    client,
                    txs.drop_last(),
                    txmap,
                    disputes,
                    resolves,
                    chargebacks,
                ).balanced());
            }
        }
    } else {
        assert(txs.take(0) =~= txs);
    }
}

/// A withdrawal whose amount exceeds the available balance leaves all three
/// balances and the lock unchanged: insufficient funds is a no-op, not an
/// error. The proviso is that no matching dispute row targets the same
/// transaction id — a dispute's hold fires even when the withdrawal it
/// references was skipped.
pub proof fn lemma_insufficient_withdrawal_is_noop(
    st: LedgerState,
    client: u16,
    tx: u32,
    txmap: Map<u32, Transaction>,
    disputes: Map<u32, Transaction>,
    resolves: Map<u32, Transaction>,
    chargebacks: Map<u32, Transaction>,
)
    requires
        txmap.contains_key(tx),
        txmap[tx].kind is Withdrawal,
        txmap[tx].amount is Some,
        st.available < txmap[tx].amount->Some_0,
        !(disputes.contains_key(tx) && disputes[tx].client == client),
    ensures
        apply_transaction(st, client, tx, txmap, disputes, resolves, chargebacks) == st,
{
}

/// A dispute row is inert for a client when it names a different client, and
/// for any client whose history never references its transaction id: the fold
/// is the same as if the row had never been recorded. In particular a dispute
/// referencing a transaction of a different client moves no balances on
/// either side.
pub proof fn lemma_foreign_dispute_ignored(
    client: u16,
    txs: Seq<u32>,
    txmap: Map<u32, Transaction>,
    disputes: Map<u32, Transaction>,
    resolves: Map<u32, Transaction>,
    chargebacks: Map<u32, Transaction>,
    tx: u32,
)
    requires
        disputes.contains_key(tx),
        disputes[tx].client != client || !txs.contains(tx),
    ensures
        fold_history(client, txs, txmap, disputes, resolves, chargebacks) == fold_history(
            client,
            txs,
            txmap,
            disputes.remove(tx),
            resolves,
            chargebacks,
        ),
    decreases txs.len(),
{
    if txs.len() > 0 {
        let prefix = txs.drop_last();
        if !txs.contains(tx) {
            assert(!prefix.contains(tx)) by {
                if prefix.contains(tx) {
                    let j = choose|j: int| 0 <= j < prefix.len() && prefix[j] == tx;
                    assert(txs[j] == tx);
                }
            }
            assert(txs.last() != tx) by {
                assert(txs[txs.len() - 1] == txs.last());
            }
        }
        lemma_foreign_dispute_ignored(
            client,
            prefix,
            txmap,
            disputes,
            resolves,
            chargebacks,
            tx,
        );
    }
}

/// Once a matching dispute row exists for a transaction id, a matching
/// resolve and a matching chargeback apply their adjustments independently of
/// each other: with all three rows present, the hold, its reversal and the
/// chargeback all fire in one step, leaving available unchanged, draining the
/// held amount, reducing total, and locking the account. No explicit dispute
/// state gates resolve or chargeback; only the presence of the dispute row
/// does.
pub proof fn lemma_resolve_and_chargeback_fire_independently(
    st: LedgerState,
    client: u16,
    tx: u32,
    a: int,
    disputes: Map<u32, Transaction>,
    resolves: Map<u32, Transaction>,
    chargebacks: Map<u32, Transaction>,
)
    requires
        disputes.contains_key(tx) && disputes[tx].client == client,
        resolves.contains_key(tx) && resolves[tx].client == client,
        chargebacks.contains_key(tx) && chargebacks[tx].client == client,
    ensures
        apply_dispute_chain(st, client, tx, a, disputes, resolves, chargebacks) == (LedgerState {
            available: st.available,
            held: st.held - a,
            total: st.total - a,
            locked: true,
        }),
{
}

/// The engine is a pure function of the classified indices: any two account
/// lists that satisfy `process_transactions`' postcondition against the same
/// classified view are identical, so re-running the engine reproduces its
/// output exactly.
pub proof fn lemma_rerun_identical(
    cv: ClassifiedView,
    accounts1: Seq<Account>,
    accounts2: Seq<Account>,
)
    requires
        accounts1.len() == cv.clients.len(),
        forall|i: int|
            0 <= i < accounts1.len() ==> accounts1[i] == client_account(cv, cv.clients[i]),
        accounts2.len() == cv.clients.len(),
        forall|i: int|
            0 <= i < accounts2.len() ==> accounts2[i] == client_account(cv, cv.clients[i]),
    ensures
        accounts1 == accounts2,
{
    assert(accounts1 =~= accounts2);
}

/// Fold every classified client history into one account summary.
///
/// Either every history folds and one account per client comes back, in the
/// order the clients were first seen, or the classifier's invariant was
/// violated — a referenced transaction or its amount missing from the index —
/// and the whole run fails with `TransactionProcessingFailed`.
pub fn process_transactions(classified: &ClassifiedTransactions) -> (r: Result<
    Vec<Account>,
    TransactionError,
>)
    requires
        classified@.wf(),
    ensures
        r is Ok <==> all_histories_ok(classified@),
        r is Err ==> r->Err_0 is TransactionProcessingFailed,
        r is Ok ==> {
            let accounts = r->Ok_0@;
            &&& accounts.len() == classified@.clients.len()
            &&& forall|i: int|
                0 <= i < accounts.len() ==> accounts[i] == client_account(
                    classified@,
                    classified@.clients[i],
                )
            &&& forall|i: int| 0 <= i < accounts.len() ==> (#[trigger] accounts[i]).balanced()
        },
{
    let ghost cv = classified@;
    let mut accounts: Vec<Account> = Vec::new();
    let n = classified.clients.len();
    let mut i: usize = 0;
    while i < n
        invariant
            cv == classified@,
            cv.wf(),
            n == cv.clients.len(),
            i <= n,
            accounts@.len() == i,
            forall|j: int|
                0 <= j < i as int ==> accounts@[j] == client_account(cv, cv.clients[j]),
            forall|j: int|
                0 <= j < i as int ==> (#[trigger] accounts@[j]).balanced(),
            forall|j: int|
                0 <= j < i as int ==> history_ok(
                    cv.client_txs[#[trigger] cv.clients[j]],
                    cv.transactions,
                ),
        decreases n - i,
    {
        let client = classified.clients[i];
        proof {
            assert(cv.clients.contains(client));
            assert(cv.clients.to_set().contains(client));
            assert(cv.client_txs.dom().contains(client));
        }
        let txs_opt = classified.client_txs.get(&client);
        proof {
            assert(txs_opt is Some);
        }
        let txs = txs_opt.unwrap();
        let ghost htxs = cv.client_txs[client];
        proof {
            assert(txs@ == htxs);
        }
        let mut available: i128 = 0;
        let mut held: i128 = 0;
        let mut total: i128 = 0;
        let mut locked: bool = false;
        let m = txs.len();
        let mut k: usize = 0;
        proof {
            assert(txs@.take(0) =~= Seq::<u32>::empty());
        }
        while k < m
            invariant
                cv == classified@,
                cv.wf(),
                (i as int) < cv.clients.len(),
                client == cv.clients[i as int],
                htxs == cv.client_txs[client],
                txs@ == htxs,
                m == htxs.len(),
                k <= m,
                history_ok(htxs.take(k as int), cv.transactions),
                (LedgerState {
                    available: available as int,
                    held: held as int,
                    total: total as int,
                    locked,
                }) == fold_history(
                    client,
                    htxs.take(k as int),
                    cv.transactions,
                    cv.disputes,
                    cv.resolves,
                    cv.chargebacks,
                ),
            decreases m - k,
        {
            let tx = txs[k];
            let ghost prefix = htxs.take(k as int);
            let ghost st = fold_history(
                client,
                prefix,
                cv.transactions,
                cv.disputes,
                cv.resolves,
                cv.chargebacks,
            );
            let t = match classified.transactions.get(&tx) {
                Some(t) => t,
                None => {
                    proof {
                        assert(!cv.transactions.contains_key(tx));
                        assert(htxs[k as int] == tx);
                        assert(!history_ok(htxs, cv.transactions));
                        assert(!all_histories_ok(cv)) by {
                            assert(cv.client_txs[cv.clients[i as int]] == htxs);
                        }
                    }
                    return Err(
                        TransactionError::TransactionProcessingFailed(
                            "Invalid transaction in transaction map".to_owned(),
                        ),
                    );
                },
            };
            proof {
                assert(*t == cv.transactions[tx]);
            }
            let a = match t.amount {
                Some(a) => a,
                None => {
                    proof {
                        assert(htxs[k as int] == tx);
                        assert(!history_ok(htxs, cv.transactions));
                        assert(!all_histories_ok(cv)) by {
                            assert(cv.client_txs[cv.clients[i as int]] == htxs);
                        }
                    }
                    return Err(
                        TransactionError::TransactionProcessingFailed(
                            "Error in parsing transaction amount".to_owned(),
                        ),
                    );
                },
            };
            proof {
                lemma_fold_bounds(
                    client,
                    prefix,
                    cv.transactions,
                    cv.disputes,
                    cv.resolves,
                    cv.chargebacks,
                );
                assert(st.within(3 * MAX_AMOUNT_UNITS * (k as int)));
                assert(a <= MAX_AMOUNT_UNITS);
            }
            let ai = a as i128;
            match t.kind {
                TransactionType::Deposit => {
                    available = available + ai;
                    total = total + ai;
                },
                TransactionType::Withdrawal => {
                    if ai <= available {
                        available = available - ai;
                        total = total - ai;
                    }
                },
                _ => {},
            }
            let disputed = match classified.disputes.get(&tx) {
                Some(d) => d.client == client,
                None => false,
            };
            if disputed {
                held = held + ai;
                available = available - ai;
                let resolved = match classified.resolves.get(&tx) {
                    Some(rt) => rt.client == client,
                    None => false,
                };
                if resolved {
                    held = held - ai;
                    available = available + ai;
                }
                let charged = match classified.chargebacks.get(&tx) {
                    Some(ct) => ct.client == client,
                    None => false,
                };
                if charged {
                    held = held - ai;
                    total = total - ai;
                    locked = true;
                }
            }
            proof {
                let next = htxs.take(k as int + 1);
                assert(next.drop_last() =~= prefix);
                assert(next.last() == tx);
                assert(history_ok(next, cv.transactions)) by {
                    assert(forall|j: int| 0 <= j < next.len() ==> next[j] == htxs[j]);
                }
                assert(fold_history(
                    client,
                    next,
                    cv.transactions,
                    cv.disputes,
                    cv.resolves,
                    cv.chargebacks,
                ) == apply_transaction(
                    st,
                    client,
                    tx,
                    cv.transactions,
                    cv.disputes,
                    cv.resolves,
                    cv.chargebacks,
                ));
            }
            k = k + 1;
        }
        proof {
            assert(htxs.take(m as int) =~= htxs);
            lemma_fold_balanced(
                client,
                htxs,
                cv.transactions,
                cv.disputes,
                cv.resolves,
                cv.chargebacks,
            );
            assert(fold_history(
                client,
                htxs.take(htxs.len() as int),
                cv.transactions,
                cv.disputes,
                cv.resolves,
                cv.chargebacks,
            ).balanced());
        }
        let account = Account { client, available, held, total, locked };
        accounts.push(account);
        i = i + 1;
    }
    proof {
        assert(all_histories_ok(cv));
    }
    Ok(accounts)
}

} // verus!

