//! The data model: transaction records, account summaries, and the error
//! taxonomy shared by the parser and the ledger engine.
//!
//! Monetary values are fixed-point decimals: an amount or a balance counts
//! ten-thousandths of a currency unit, so `15000` stands for `1.5000`.
//! Amounts are capped at [`MAX_AMOUNT_UNITS`] so that folding any number of
//! transactions that fits in memory can never overflow an `i128` balance.

use std::collections::HashMap;
use vstd::prelude::*;

verus! {

/// Number of fixed-point units in one whole currency unit (4 decimal places).
pub const AMOUNT_SCALE: u64 = 10_000;

/// Largest accepted transaction amount, in fixed-point units.
///
/// A row whose amount exceeds this bound is rejected as malformed. The bound
/// keeps every balance a ledger fold can produce well inside `i128`: each
/// fold step moves a balance by at most three amounts, and the number of
/// steps is at most `usize::MAX`.
pub const MAX_AMOUNT_UNITS: u64 = 1_000_000_000_000_000_000;

/// The kind of an input row.
#[derive(Clone, Copy)]
pub enum TransactionType {
    Deposit,
    Withdrawal,
    Dispute,
    Resolve,
    Chargeback,
}

/// One decoded input row.
///
/// `tx` identifies a deposit or withdrawal; dispute, resolve and chargeback
/// rows reuse the `tx` of the transaction they reference and carry no amount.
#[derive(Clone, Copy)]
pub struct Transaction {
    pub kind: TransactionType,
    pub client: u16,
    pub tx: u32,
    pub amount: Option<u64>,
}

impl Transaction {
    /// The amount, when present, lies within the representable range.
    pub open spec fn amount_ok(self) -> bool {
        self.amount is Some ==> self.amount->Some_0 <= MAX_AMOUNT_UNITS
    }
}

/// The final state of one client's account, in fixed-point units.
pub struct Account {
    pub client: u16,
    pub available: i128,
    pub held: i128,
    pub total: i128,
    pub locked: bool,
}

impl Account {
    /// The fundamental balance-sheet invariant.
    pub open spec fn balanced(self) -> bool {
        self.total == self.available + self.held
    }
}

/// Everything that can end a run. Every error is fatal: no partial account
/// list is ever returned next to one of these.
#[derive(Debug)]
pub enum TransactionError {
    /// The command line could not be understood (boundary layer only).
    InvalidCommand(String),
    /// No input path was supplied (boundary layer only).
    ArgumentMissing(String),
    /// A row failed to decode; the whole ingestion is abandoned.
    InvalidTransactionRecord(String),
    /// The input stream could not be opened (boundary layer only).
    FileReadingError(String),
    /// A classifier invariant did not hold while folding: a referenced
    /// transaction or its amount was missing from the index.
    TransactionProcessingFailed(String),
    /// Catch-all for conditions not otherwise classified.
    UnknownError(String),
}

/// The mathematical content of the classifier's output.
pub struct ClassifiedView {
    /// Every client that owns a deposit or withdrawal, in first-seen order.
    pub clients: Seq<u16>,
    /// Per client, the ids of its deposits and withdrawals, in input order.
    pub client_txs: Map<u16, Seq<u32>>,
    /// Deposit/withdrawal records by id; a repeated id keeps the latest row.
    pub transactions: Map<u32, Transaction>,
    /// Latest dispute row per referenced transaction id.
    pub disputes: Map<u32, Transaction>,
    /// Latest resolve row per referenced transaction id.
    pub resolves: Map<u32, Transaction>,
    /// Latest chargeback row per referenced transaction id.
    pub chargebacks: Map<u32, Transaction>,
}

impl ClassifiedView {
    pub open spec fn empty() -> ClassifiedView {
        ClassifiedView {
            clients: Seq::empty(),
            client_txs: Map::empty(),
            transactions: Map::empty(),
            disputes: Map::empty(),
            resolves: Map::empty(),
            chargebacks: Map::empty(),
        }
    }

    /// The invariant the classifier establishes and the ledger engine needs:
    /// the client list and the per-client index agree, no client appears
    /// twice, and every stored amount is representable.
    pub open spec fn wf(self) -> bool {
        &&& self.clients.no_duplicates()
        &&& self.client_txs.dom() == self.clients.to_set()
        &&& forall|k: u32|
            self.transactions.contains_key(k) ==> (#[trigger] self.transactions[k]).amount_ok()
    }
}

/// The five index structures the classifier hands to the ledger engine.
///
/// Lookups by client or transaction id are hash-map lookups; `clients` keeps
/// the first-seen order of clients so that the engine's output is a pure
/// function of the classified input.
pub struct ClassifiedTransactions {
    pub clients: Vec<u16>,
    pub client_txs: HashMap<u16, Vec<u32>>,
    pub transactions: HashMap<u32, Transaction>,
    pub disputes: HashMap<u32, Transaction>,
    pub resolves: HashMap<u32, Transaction>,
    pub chargebacks: HashMap<u32, Transaction>,
}

impl View for ClassifiedTransactions {
    type V = ClassifiedView;

    open spec fn view(&self) -> ClassifiedView {
        ClassifiedView {
            clients: self.clients@,
            client_txs: Map::new(
                |c: u16| self.client_txs@.contains_key(c),
                |c: u16| self.client_txs@[c]@,
            ),
            transactions: self.transactions@,
            disputes: self.disputes@,
            resolves: self.resolves@,
            chargebacks: self.chargebacks@,
        }
    }
}

} // verus!
