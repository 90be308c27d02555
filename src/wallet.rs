use vstd::prelude::*;

verus! {

/// The direction of a balance change.
#[derive(Clone, Copy, Debug, PartialEq, Eq, Structural)]
pub enum TransactionType {
    Credit,
    Debit,
}

/// Errors of the wallet and of its persistence.
#[derive(Clone, Copy, Debug, PartialEq, Eq, Structural)]
pub enum WalletError {
    /// The amount was not strictly positive.
    InvalidAmount,
    /// A debit asked for more than the balance, which it carries.
    InsufficientFunds { balance: i64 },
    /// No saved wallet exists yet.
    NotFound,
    /// Saved content exists but does not describe a valid wallet.
    CorruptData,
    /// Reading or writing the saved wallet failed.
    IoError,
}

/// One recorded balance change. `amount` is the magnitude moved, in minor
/// units; `balance_after` is the balance once the change was applied.
#[derive(Debug)]
pub struct Transaction {
    pub transaction_type: TransactionType,
    pub amount: i64,
    pub timestamp: i64,
    pub description: String,
    pub balance_after: i64,
}

/// The value a [`Transaction`] stands for, with its text as characters.
pub struct TransactionView {
    pub transaction_type: TransactionType,
    pub amount: i64,
    pub timestamp: i64,
    pub description: Seq<char>,
    pub balance_after: i64,
}

impl View for Transaction {
    type V = TransactionView;

    open spec fn view(&self) -> TransactionView {
        TransactionView {
            transaction_type: self.transaction_type,
            amount: self.amount,
            timestamp: self.timestamp,
            description: self.description@,
            balance_after: self.balance_after,
        }
    }
}

/// A named wallet: its balance in minor units and its transaction log,
/// oldest first.
#[derive(Debug)]
pub struct Wallet {
    pub name: String,
    pub balance: i64,
    pub transactions: Vec<Transaction>,
}

/// The value a [`Wallet`] stands for.
pub struct WalletView {
    pub name: Seq<char>,
    pub balance: i64,
    pub transactions: Seq<TransactionView>,
}

impl View for Wallet {
    type V = WalletView;

    open spec fn view(&self) -> WalletView {
        WalletView {
            name: self.name@,
            balance: self.balance,
            transactions: log_view(self.transactions@),
        }
    }
}

/// The values that a sequence of transactions stands for.
pub open spec fn log_view(v: Seq<Transaction>) -> Seq<TransactionView> {
    v.map_values(|t: Transaction| t@)
}

/// The sum of the amounts of the transactions of kind `kind` in `log`.
pub open spec fn total_of(log: Seq<TransactionView>, kind: TransactionType) -> int
    decreases log.len(),
{
    if log.len() == 0 {
        0
    } else {
        total_of(log.drop_last(), kind) + if log.last().transaction_type == kind {
            log.last().amount as int
        } else {
            0
        }
    }
}

/// The change that `t` makes to the balance.
pub open spec fn signed_amount(t: TransactionView) -> int {
    match t.transaction_type {
        TransactionType::Credit => t.amount as int,
        TransactionType::Debit => -(t.amount as int),
    }
}

/// The balance recorded by the last entry of `log`, or 0 for an empty log.
pub open spec fn last_balance(log: Seq<TransactionView>) -> int {
    if log.len() == 0 {
        0
    } else {
        log.last().balance_after as int
    }
}

/// The balance before entry `i` of `log` was applied.
pub open spec fn balance_before(log: Seq<TransactionView>, i: int) -> int {
    if i == 0 {
        0
    } else {
        log[i - 1].balance_after as int
    }
}

/// Each entry moves a positive amount, records the balance it leads to from
/// the entry before it, never leaves the balance negative, and is no older
/// than the entry before it.
pub open spec fn log_valid(log: Seq<TransactionView>) -> bool {
    forall|i: int|
        0 <= i < log.len() ==> {
            &&& #[trigger] log[i].amount > 0
            &&& log[i].balance_after as int == balance_before(log, i) + signed_amount(log[i])
            &&& log[i].balance_after >= 0
            &&& i > 0 ==> log[i - 1].timestamp <= log[i].timestamp
        }
}

/// A valid wallet: a valid log whose last entry records the balance.
pub open spec fn wallet_valid(w: WalletView) -> bool {
    &&& log_valid(w.transactions)
    &&& w.balance as int == last_balance(w.transactions)
}

/// The timestamp given to a new entry: the clock reading, unless the clock
/// reads earlier than the last entry, which keeps the log in order.
pub open spec fn next_timestamp(log: Seq<TransactionView>, now: i64) -> i64 {
    if log.len() > 0 && now < log.last().timestamp {
        log.last().timestamp
    } else {
        now
    }
}

/// The entry that a successful operation of kind `kind` appends.
pub open spec fn new_entry(
    w: WalletView,
    kind: TransactionType,
    amount: i64,
    now: i64,
    description: Seq<char>,
    balance_after: i64,
) -> TransactionView {
    TransactionView {
        transaction_type: kind,
        amount,
        timestamp: next_timestamp(w.transactions, now),
        description,
        balance_after,
    }
}

/// `w` after a successful operation that appends `entry` and leaves `balance`.
pub open spec fn applied(w: WalletView, entry: TransactionView) -> WalletView {
    WalletView {
        name: w.name,
        balance: entry.balance_after,
        transactions: w.transactions.push(entry),
    }
}

proof fn lemma_total_push(log: Seq<TransactionView>, t: TransactionView, kind: TransactionType)
    ensures
        total_of(log.push(t), kind) == total_of(log, kind) + if t.transaction_type == kind {
            t.amount as int
        } else {
            0
        },
{
    assert(log.push(t).drop_last() =~= log);
}

/// In a valid log, the balance recorded by the last entry (0 when there is
/// none) is the sum of the credited amounts less the sum of the debited ones.
pub proof fn lemma_log_balance(log: Seq<TransactionView>)
    requires
        log_valid(log),
    ensures
        last_balance(log) == total_of(log, TransactionType::Credit) - total_of(
            log,
            TransactionType::Debit,
        ),
    decreases log.len(),
{
    if log.len() > 0 {
        let prefix = log.drop_last();
        assert forall|i: int| 0 <= i < prefix.len() implies {
            &&& #[trigger] prefix[i].amount > 0
            &&& prefix[i].balance_after as int == balance_before(prefix, i) + signed_amount(
                prefix[i],
            )
            &&& prefix[i].balance_after >= 0
            &&& i > 0 ==> prefix[i - 1].timestamp <= prefix[i].timestamp
        } by {
            assert(log[i].amount > 0);
        }
        lemma_log_balance(prefix);
        assert(log[log.len() - 1].amount > 0);
        assert(log =~= prefix.push(log.last()));
        lemma_total_push(prefix, log.last(), TransactionType::Credit);
        lemma_total_push(prefix, log.last(), TransactionType::Debit);
    }
}

/// In every valid wallet, and so after any sequence of successful credits
/// and debits from a new or loaded wallet, the balance is the sum of the
/// credited amounts less the sum of the debited ones, and it equals the
/// balance recorded by the last entry of the log (0 when the log is empty).
/// It is never negative.
pub proof fn lemma_balance_matches_log(w: WalletView)
    requires
        wallet_valid(w),
    ensures
        w.balance as int == total_of(w.transactions, TransactionType::Credit) - total_of(
            w.transactions,
            TransactionType::Debit,
        ),
        w.balance as int == last_balance(w.transactions),
        w.balance >= 0,
{
    lemma_log_balance(w.transactions);
    if w.transactions.len() > 0 {
        let k = w.transactions.len() - 1;
        assert(w.transactions[k].amount > 0);
    }
}

proof fn lemma_append_valid(log: Seq<TransactionView>, t: TransactionView)
    requires
        log_valid(log),
        t.amount > 0,
        t.balance_after as int == last_balance(log) + signed_amount(t),
        t.balance_after >= 0,
        log.len() > 0 ==> log.last().timestamp <= t.timestamp,
    ensures
        log_valid(log.push(t)),
{
    let l2 = log.push(t);
    assert forall|i: int| 0 <= i < l2.len() implies {
        &&& #[trigger] l2[i].amount > 0
        &&& l2[i].balance_after as int == balance_before(l2, i) + signed_amount(l2[i])
        &&& l2[i].balance_after >= 0
        &&& i > 0 ==> l2[i - 1].timestamp <= l2[i].timestamp
    } by {
        if i < log.len() {
            assert(log[i].amount > 0);
            if i > 0 {
                assert(l2[i - 1] == log[i - 1]);
            }
        }
    }
}

/// Relies on chrono's `From<SystemTime> for DateTime<Utc>` and
/// `DateTime::timestamp_millis`: the system clock in milliseconds since the
/// Unix epoch, negative for a clock set before it. Nothing is known of its
/// value.
#[verifier::external_body]
fn now_millis() -> (r: i64) {
    chrono::DateTime::<chrono::Utc>::from(std::time::SystemTime::now()).timestamp_millis()
}

impl Wallet {
    /// The mathematical wallet this value stands for is valid.
    pub open spec fn wf(&self) -> bool {
        wallet_valid(self@)
    }

    /// A wallet named `name` with balance 0 and an empty log.
    pub fn new(name: String) -> (r: Wallet)
        ensures
            r@.name == name@,
            r@.balance == 0,
            r@.transactions == Seq::<TransactionView>::empty(),
            r.wf(),
    {
        let r = Wallet { name, balance: 0, transactions: Vec::new() };
        assert(r@.transactions =~= Seq::<TransactionView>::empty());
        r
    }

    /// Credits `amount` with the clock reading `now` as its timestamp (kept no
    /// earlier than the last entry's). A non-positive amount is refused with
    /// `InvalidAmount` and changes nothing.
    pub fn credit_at(&mut self, amount: i64, description: String, now: i64) -> (r: Result<
        (),
        WalletError,
    >)
        requires
            old(self).wf(),
            amount > 0 ==> old(self).balance + amount <= i64::MAX,
        ensures
            final(self).wf(),
            final(self)@.balance as int == total_of(final(self)@.transactions, TransactionType::Credit)
                - total_of(final(self)@.transactions, TransactionType::Debit),
            final(self)@.balance as int == last_balance(final(self)@.transactions),
            amount <= 0 ==> r == Err::<(), WalletError>(WalletError::InvalidAmount) && final(self)@ == old(self)@,
            amount > 0 ==> r == Ok::<(), WalletError>(()) && final(self)@ == applied(
                old(self)@,
                new_entry(
                    old(self)@,
                    TransactionType::Credit,
                    amount,
                    now,
                    description@,
                    (old(self).balance + amount) as i64,
                ),
            ),
    {
        proof {
            lemma_balance_matches_log(self@);
        }
        if amount <= 0 {
            return Err(WalletError::InvalidAmount);
        }
        let timestamp = self.next_timestamp(now);
        let balance_after = self.balance + amount;
        let ghost before = self@;
        let t = Transaction {
            transaction_type: TransactionType::Credit,
            amount,
            timestamp,
            description,
            balance_after,
        };
        proof {
            lemma_balance_matches_log(before);
            lemma_append_valid(before.transactions, t@);
        }
        self.balance = balance_after;
        self.transactions.push(t);
        assert(self@.transactions =~= before.transactions.push(t@));
        proof {
            lemma_balance_matches_log(self@);
        }
        Ok(())
    }

    /// Debits `amount` with the clock reading `now` as its timestamp (kept no
    /// earlier than the last entry's). A non-positive amount is refused with
    /// `InvalidAmount`, an amount above the balance with `InsufficientFunds`
    /// carrying the balance; either changes nothing.
    pub fn debit_at(&mut self, amount: i64, description: String, now: i64) -> (r: Result<
        (),
        WalletError,
    >)
        requires
            old(self).wf(),
        ensures
            final(self).wf(),
            final(self)@.balance as int == total_of(final(self)@.transactions, TransactionType::Credit)
                - total_of(final(self)@.transactions, TransactionType::Debit),
            final(self)@.balance as int == last_balance(final(self)@.transactions),
            amount <= 0 ==> r == Err::<(), WalletError>(WalletError::InvalidAmount) && final(self)@ == old(self)@,
            amount > old(self).balance && amount > 0 ==> r == Err::<(), WalletError>(
                WalletError::InsufficientFunds { balance: old(self).balance },
            ) && final(self)@ == old(self)@,
            0 < amount <= old(self).balance ==> r == Ok::<(), WalletError>(()) && final(self)@
                == applied(
                old(self)@,
                new_entry(
                    old(self)@,
                    TransactionType::Debit,
                    amount,
                    now,
                    description@,
                    (old(self).balance - amount) as i64,
                ),
            ),
    {
        proof {
            lemma_balance_matches_log(self@);
        }
        if amount <= 0 {
            return Err(WalletError::InvalidAmount);
        }
        if amount > self.balance {
            return Err(WalletError::InsufficientFunds { balance: self.balance });
        }
        let timestamp = self.next_timestamp(now);
        let balance_after = self.balance - amount;
        let ghost before = self@;
        let t = Transaction {
            transaction_type: TransactionType::Debit,
            amount,
            timestamp,
            description,
            balance_after,
        };
        proof {
            lemma_balance_matches_log(before);
            lemma_append_valid(before.transactions, t@);
        }
        self.balance = balance_after;
        self.transactions.push(t);
        assert(self@.transactions =~= before.transactions.push(t@));
        proof {
            lemma_balance_matches_log(self@);
        }
        Ok(())
    }

    /// Credits `amount`, stamped with the current time. A non-positive amount
    /// is refused with `InvalidAmount` and changes nothing; otherwise the
    /// balance grows by `amount` and one credit entry recording it is appended.
    pub fn credit(&mut self, amount: i64, description: String) -> (r: Result<(), WalletError>)
        requires
            old(self).wf(),
            amount > 0 ==> old(self).balance + amount <= i64::MAX,
        ensures
            final(self).wf(),
            final(self)@.balance as int == total_of(final(self)@.transactions, TransactionType::Credit)
                - total_of(final(self)@.transactions, TransactionType::Debit),
            final(self)@.balance as int == last_balance(final(self)@.transactions),
            amount <= 0 ==> r == Err::<(), WalletError>(WalletError::InvalidAmount) && final(self)@ == old(self)@,
            amount > 0 ==> r == Ok::<(), WalletError>(()) && exists|now: i64|
                final(self)@ == applied(
                    old(self)@,
                    #[trigger] new_entry(
                        old(self)@,
                        TransactionType::Credit,
                        amount,
                        now,
                        description@,
                        (old(self).balance + amount) as i64,
                    ),
                ),
    {
        if amount <= 0 {
            proof {
                lemma_balance_matches_log(self@);
            }
            return Err(WalletError::InvalidAmount);
        }
        let now = now_millis();
        self.credit_at(amount, description, now)
    }

    /// Debits `amount`, stamped with the current time. A non-positive amount
    /// is refused with `InvalidAmount`, an amount above the balance with
    /// `InsufficientFunds` carrying the balance; either changes nothing.
    /// Otherwise the balance drops by exactly `amount` and one debit entry
    /// recording it is appended.
    pub fn debit(&mut self, amount: i64, description: String) -> (r: Result<(), WalletError>)
        requires
            old(self).wf(),
        ensures
            final(self).wf(),
            final(self)@.balance as int == total_of(final(self)@.transactions, TransactionType::Credit)
                - total_of(final(self)@.transactions, TransactionType::Debit),
            final(self)@.balance as int == last_balance(final(self)@.transactions),
            amount <= 0 ==> r == Err::<(), WalletError>(WalletError::InvalidAmount) && final(self)@ == old(self)@,
            amount > old(self).balance && amount > 0 ==> r == Err::<(), WalletError>(
                WalletError::InsufficientFunds { balance: old(self).balance },
            ) && final(self)@ == old(self)@,
            0 < amount <= old(self).balance ==> r == Ok::<(), WalletError>(()) && exists|now: i64|
                final(self)@ == applied(
                    old(self)@,
                    #[trigger] new_entry(
                        old(self)@,
                        TransactionType::Debit,
                        amount,
                        now,
                        description@,
                        (old(self).balance - amount) as i64,
                    ),
                ),
    {
        if amount <= 0 || amount > self.balance {
            return self.debit_at(amount, description, 0);
        }
        let now = now_millis();
        self.debit_at(amount, description, now)
    }

    fn next_timestamp(&self, now: i64) -> (r: i64)
        ensures
            r == next_timestamp(self@.transactions, now),
    {
        let n = self.transactions.len();
        if n > 0 && now < self.transactions[n - 1].timestamp {
            self.transactions[n - 1].timestamp
        } else {
            now
        }
    }

    /// The current balance, in minor units.
    pub fn get_balance(&self) -> (r: i64)
        ensures
            r == self@.balance,
    {
        self.balance
    }

    /// The transaction log, oldest first.
    pub fn get_transactions(&self) -> (r: &Vec<Transaction>)
        ensures
            log_view(r@) == self@.transactions,
    {
        &self.transactions
    }
}

} // verus!
