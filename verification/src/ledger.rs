//! The ledger: an account owning an append-only transaction history,
//! with balance and statement derived from that history alone.
//!
//! The balance is never stored; it is the fold of the sequence,
//! `sum of credits - sum of debits`, and every prefix of the history keeps
//! it non-negative. A withdrawal that would break that invariant is
//! rejected without any side effect.

use crate::amount::{
    amt_val, amt_wf, dec_add, dec_lt, dec_sub, diff_exact, lemma_amt_val_bounded,
    lemma_mul_cancel, lemma_pow10_pos, lemma_unit_bound_antitone, lemma_unit_bound_pos,
    lemma_val_at_scale, pow10, rescale_up, scale_max, sum_exact, unit_bound, unit_of, Amount,
    MAX_MANTISSA, MAX_SCALE,
};
use crate::clock::{now_timestamp, Timestamp};
use vstd::prelude::*;

verus! {

/// Whether a transaction raises or lowers the balance.
#[derive(Clone, Copy, Debug, PartialEq)]
pub enum TransactionType {
    Debit,
    Credit,
}

/// The one error the ledger can report: a withdrawal larger than the
/// balance it was asked against.
#[derive(Debug, PartialEq)]
pub enum Error {
    InsufficientBalance,
}

impl Error {
    /// The text under which an operation is declined.
    pub fn message(&self) -> (m: &'static str)
        ensures
            m@ == "operation declined: unsufficient balance"@,
    {
        "operation declined: unsufficient balance"
    }
}

/// One immutable entry of the account's history.
#[derive(Clone, Copy, Debug)]
pub struct Transaction {
    pub timestamp: Timestamp,
    pub transaction_type: TransactionType,
    pub amount: Amount,
}

/// One line of a statement: a transaction and the balance just after it.
#[derive(Clone, Copy, Debug)]
pub struct StatementLine {
    pub timestamp: Timestamp,
    pub transaction_type: TransactionType,
    pub amount: Amount,
    pub balance: Amount,
}

/// A point-in-time view of the whole history with running balances.
#[derive(Debug)]
pub struct BankStatement {
    pub date_created: Timestamp,
    pub lines: Vec<StatementLine>,
}

/// The account: the append-only transaction log, and nothing else.
#[derive(Debug)]
pub struct BankAccount {
    transactions: Vec<Transaction>,
}

impl View for BankAccount {
    type V = Seq<Transaction>;

    closed spec fn view(&self) -> Seq<Transaction> {
        self.transactions@
    }
}

impl Default for BankAccount {
    /// The same fresh account `new` returns.
    fn default() -> (account: BankAccount)
        ensures
            account.wf(),
            account@ =~= Seq::<Transaction>::empty(),
    {
        BankAccount::new()
    }
}

/// What a transaction does to the balance, in `10^-28` units.
pub open spec fn tx_delta(t: Transaction) -> int {
    match t.transaction_type {
        TransactionType::Credit => amt_val(t.amount),
        TransactionType::Debit => -amt_val(t.amount),
    }
}

/// The balance carried by a history: the fold of all its deltas.
pub open spec fn balance_of(s: Seq<Transaction>) -> int
    decreases s.len(),
{
    if s.len() == 0 {
        0
    } else {
        balance_of(s.drop_last()) + tx_delta(s.last())
    }
}

/// The coarsest scale granularity a history has seen.
pub open spec fn max_scale(s: Seq<Transaction>) -> u32
    decreases s.len(),
{
    if s.len() == 0 {
        0
    } else {
        scale_max(max_scale(s.drop_last()), s.last().amount.scale)
    }
}

/// Whether a history could have accepted `t` as its next transaction: the
/// amount is a positive representable decimal, a debit never exceeds the
/// balance before it, and the balance stays representable at the scales in
/// play.
pub open spec fn tx_ok(s: Seq<Transaction>, t: Transaction) -> bool {
    &&& amt_wf(t.amount)
    &&& amt_val(t.amount) > 0
    &&& match t.transaction_type {
        TransactionType::Credit => balance_of(s) + amt_val(t.amount) <= unit_bound(
            scale_max(max_scale(s), t.amount.scale),
        ),
        TransactionType::Debit => {
            &&& amt_val(t.amount) <= balance_of(s)
            &&& balance_of(s) <= unit_bound(scale_max(max_scale(s), t.amount.scale))
        },
    }
}

/// The account invariant: every transaction was admissible when appended.
pub open spec fn txs_wf(s: Seq<Transaction>) -> bool {
    forall|i: int| 0 <= i < s.len() ==> tx_ok(s.take(i), #[trigger] s[i])
}

/// What a deposit asks of the caller: a positive representable amount whose
/// addition leaves the balance representable.
pub open spec fn can_deposit(s: Seq<Transaction>, a: Amount) -> bool {
    &&& amt_wf(a)
    &&& amt_val(a) > 0
    &&& balance_of(s) + amt_val(a) <= unit_bound(scale_max(max_scale(s), a.scale))
}

/// What a withdrawal asks of the caller: a positive representable amount;
/// and, where it could succeed, a balance representable at the common scale.
pub open spec fn can_withdraw(s: Seq<Transaction>, a: Amount) -> bool {
    &&& amt_wf(a)
    &&& amt_val(a) > 0
    &&& (amt_val(a) <= balance_of(s) ==> balance_of(s) <= unit_bound(
        scale_max(max_scale(s), a.scale),
    ))
}

/// Whether statement line `i` faithfully renders transaction `i`.
pub open spec fn line_matches(l: StatementLine, s: Seq<Transaction>, i: int) -> bool {
    &&& l.timestamp == s[i].timestamp
    &&& l.transaction_type == s[i].transaction_type
    &&& l.amount == s[i].amount
    &&& amt_wf(l.balance)
    &&& amt_val(l.balance) == balance_of(s.take(i + 1))
}

/// Whether a statement's lines render a history line for line, running
/// balances included.
pub open spec fn statement_matches(lines: Seq<StatementLine>, s: Seq<Transaction>) -> bool {
    &&& lines.len() == s.len()
    &&& forall|i: int| 0 <= i < s.len() ==> line_matches(#[trigger] lines[i], s, i)
}

/// Prefixes of a history are unchanged by appending to it.
proof fn lemma_take_push(s: Seq<Transaction>, t: Transaction, i: int)
    requires
        0 <= i <= s.len(),
    ensures
        s.push(t).take(i) == s.take(i),
{
    assert(s.push(t).take(i) =~= s.take(i));
}

/// One step of the fold: balance and coarsest scale of `take(i + 1)`.
proof fn lemma_fold_unfold(s: Seq<Transaction>, i: int)
    requires
        0 <= i < s.len(),
    ensures
        balance_of(s.take(i + 1)) == balance_of(s.take(i)) + tx_delta(s[i]),
        max_scale(s.take(i + 1)) == scale_max(max_scale(s.take(i)), s[i].amount.scale),
{
    assert(s.take(i + 1).drop_last() =~= s.take(i));
    assert(s.take(i + 1).last() == s[i]);
}

/// Appending an admissible transaction preserves the account invariant.
proof fn lemma_txs_wf_push(s: Seq<Transaction>, t: Transaction)
    requires
        txs_wf(s),
        tx_ok(s, t),
    ensures
        txs_wf(s.push(t)),
        balance_of(s.push(t)) == balance_of(s) + tx_delta(t),
        max_scale(s.push(t)) == scale_max(max_scale(s), t.amount.scale),
{
    let p = s.push(t);
    assert(p.drop_last() =~= s);
    assert(p.last() == t);
    assert forall|i: int| 0 <= i < p.len() implies tx_ok(p.take(i), #[trigger] p[i]) by {
        lemma_take_push(s, t, i);
        if i < s.len() {
            assert(p[i] == s[i]);
            assert(tx_ok(s.take(i), s[i]));
        } else {
            assert(p[i] == t);
            assert(s.take(i) =~= s);
        }
    }
}

/// Every scale a well-formed history has seen is a representable one.
proof fn lemma_max_scale_le(s: Seq<Transaction>, i: int)
    requires
        txs_wf(s),
        0 <= i <= s.len(),
    ensures
        max_scale(s.take(i)) <= 28,
    decreases i,
{
    if i > 0 {
        lemma_max_scale_le(s, i - 1);
        lemma_fold_unfold(s, i - 1);
        assert(tx_ok(s.take(i - 1), s[i - 1]));
    } else {
        assert(s.take(0).len() == 0);
    }
}

/// The sum of the credited amounts in a history, in `10^-28` units.
pub open spec fn credit_total(s: Seq<Transaction>) -> int
    decreases s.len(),
{
    if s.len() == 0 {
        0
    } else {
        credit_total(s.drop_last()) + if s.last().transaction_type == TransactionType::Credit {
            amt_val(s.last().amount)
        } else {
            0
        }
    }
}

/// The sum of the debited amounts in a history, in `10^-28` units.
pub open spec fn debit_total(s: Seq<Transaction>) -> int
    decreases s.len(),
{
    if s.len() == 0 {
        0
    } else {
        debit_total(s.drop_last()) + if s.last().transaction_type == TransactionType::Debit {
            amt_val(s.last().amount)
        } else {
            0
        }
    }
}

/// Law: the balance is the sum of all credits less the sum of all debits.
pub proof fn lemma_balance_split(s: Seq<Transaction>)
    ensures
        balance_of(s) == credit_total(s) - debit_total(s),
    decreases s.len(),
{
    if s.len() > 0 {
        lemma_balance_split(s.drop_last());
    }
}

/// Law: under the account invariant, the balance after every prefix of the
/// history — its credits less its debits — is non-negative; no sequence of
/// accepted operations overdraws.
pub proof fn lemma_prefix_balance_nonneg(s: Seq<Transaction>, i: int)
    requires
        txs_wf(s),
        0 <= i <= s.len(),
    ensures
        balance_of(s.take(i)) >= 0,
        credit_total(s.take(i)) - debit_total(s.take(i)) >= 0,
    decreases i,
{
    lemma_balance_split(s.take(i));
    if i > 0 {
        lemma_prefix_balance_nonneg(s, i - 1);
        lemma_fold_unfold(s, i - 1);
        assert(tx_ok(s.take(i - 1), s[i - 1]));
    } else {
        assert(s.take(0).len() == 0);
    }
}

/// Law: the balance a history folds to does not depend on the order in
/// which two transactions were appended.
pub proof fn lemma_append_order_irrelevant(s: Seq<Transaction>, a: Transaction, b: Transaction)
    ensures
        balance_of(s.push(a).push(b)) == balance_of(s.push(b).push(a)),
{
    assert(s.push(a).push(b).drop_last() =~= s.push(a));
    assert(s.push(b).push(a).drop_last() =~= s.push(b));
    assert(s.push(a).drop_last() =~= s);
    assert(s.push(b).drop_last() =~= s);
    assert(s.push(a).push(b).last() == b);
    assert(s.push(b).push(a).last() == a);
    assert(s.push(a).last() == a);
    assert(s.push(b).last() == b);
    assert(balance_of(s.push(a)) == balance_of(s) + tx_delta(a));
    assert(balance_of(s.push(b)) == balance_of(s) + tx_delta(b));
    assert(balance_of(s.push(a).push(b)) == balance_of(s.push(a)) + tx_delta(b));
    assert(balance_of(s.push(b).push(a)) == balance_of(s.push(b)) + tx_delta(a));
}

/// The sum of all amounts in a history, in `10^-28` units.
pub open spec fn amount_total(s: Seq<Transaction>) -> int
    decreases s.len(),
{
    if s.len() == 0 {
        0
    } else {
        amount_total(s.drop_last()) + amt_val(s.last().amount)
    }
}

/// Law: a history of deposits alone carries a balance equal to the exact
/// sum of the deposited amounts, however the deposits were grouped.
pub proof fn lemma_deposits_sum(s: Seq<Transaction>)
    requires
        forall|i: int| 0 <= i < s.len() ==> #[trigger] s[i].transaction_type
            == TransactionType::Credit,
    ensures
        balance_of(s) == amount_total(s),
    decreases s.len(),
{
    if s.len() > 0 {
        let n = s.len() as int;
        lemma_deposits_sum(s.drop_last());
        assert(s.last() == s[n - 1]);
        assert(forall|i: int| 0 <= i < n - 1 ==> #[trigger] s.drop_last()[i] == s[i]);
    }
}

/// Law: in a faithful statement of a non-empty history, the last line's
/// running balance is the account's full balance.
pub proof fn lemma_last_line_balance(lines: Seq<StatementLine>, s: Seq<Transaction>)
    requires
        statement_matches(lines, s),
        s.len() > 0,
    ensures
        amt_val(lines.last().balance) == balance_of(s),
{
    let n = s.len() as int;
    assert(line_matches(lines[n - 1], s, n - 1));
    assert(s.take(n) =~= s);
}

/// The facts the balance fold needs at step `i`: the wrapped decimal
/// addition or subtraction is exact, and the result stays within the
/// invariant of the next prefix.
proof fn lemma_fold_step(s: Seq<Transaction>, i: int, b: Amount)
    requires
        txs_wf(s),
        0 <= i < s.len(),
        amt_wf(b),
        amt_val(b) == balance_of(s.take(i)),
        b.scale <= max_scale(s.take(i)),
    ensures
        amt_wf(s[i].amount),
        scale_max(b.scale, s[i].amount.scale) <= max_scale(s.take(i + 1)),
        max_scale(s.take(i + 1)) <= 28,
        s[i].transaction_type == TransactionType::Credit ==> sum_exact(b, s[i].amount)
            && amt_val(b) + amt_val(s[i].amount) == balance_of(s.take(i + 1)),
        s[i].transaction_type == TransactionType::Debit ==> diff_exact(b, s[i].amount)
            && amt_val(b) - amt_val(s[i].amount) == balance_of(s.take(i + 1)),
{
    assert(tx_ok(s.take(i), s[i]));
    let t = s[i];
    lemma_fold_unfold(s, i);
    let coarse = max_scale(s.take(i + 1));
    let mine = scale_max(b.scale, t.amount.scale);
    lemma_max_scale_le(s, i + 1);
    assert(mine <= coarse <= 28);
    lemma_prefix_balance_nonneg(s, i);
    lemma_unit_bound_pos(mine);
    lemma_unit_bound_antitone(mine, coarse);
    assert(unit_bound(coarse) <= unit_bound(mine));
    lemma_amt_val_bounded(t.amount);
    assert(t.amount.scale <= mine);
    lemma_unit_bound_antitone(t.amount.scale, mine);
    assert(amt_val(t.amount) <= unit_bound(mine));
    let bal = balance_of(s.take(i));
    assert(bal >= 0);
    match t.transaction_type {
        TransactionType::Credit => {
            assert(bal + amt_val(t.amount) <= unit_bound(coarse));
            assert(0 <= bal <= unit_bound(mine));
            assert(0 <= bal + amt_val(t.amount) <= unit_bound(mine));
            assert(sum_exact(b, t.amount));
        },
        TransactionType::Debit => {
            assert(bal <= unit_bound(coarse));
            assert(0 <= amt_val(t.amount) <= bal <= unit_bound(mine));
            assert(0 <= bal - amt_val(t.amount) <= unit_bound(mine));
            assert(diff_exact(b, t.amount));
        },
    }
}

/// Law: a deposit appended to an all-credit history brings the balance to
/// the exact sum of every deposited amount, the new one included.
pub proof fn lemma_deposit_sums_all(s: Seq<Transaction>, t: Transaction)
    requires
        forall|i: int| 0 <= i < s.len() ==> #[trigger] s[i].transaction_type
            == TransactionType::Credit,
        t.transaction_type == TransactionType::Credit,
    ensures
        balance_of(s.push(t)) == amount_total(s) + amt_val(t.amount),
        amount_total(s.push(t)) == amount_total(s) + amt_val(t.amount),
{
    let p = s.push(t);
    assert forall|i: int| 0 <= i < p.len() implies #[trigger] p[i].transaction_type
        == TransactionType::Credit by {
        if i < s.len() {
            assert(p[i] == s[i]);
        } else {
            assert(p[i] == t);
        }
    }
    lemma_deposits_sum(p);
    assert(p.drop_last() =~= s);
    assert(p.last() == t);
}

/// The bound of `can_deposit`, decided by mantissas at the common scale.
proof fn lemma_deposit_bound_equiv(bal: Amount, a: Amount, target: u32)
    requires
        amt_wf(bal),
        amt_wf(a),
        bal.mantissa >= 0,
        a.mantissa > 0,
        bal.scale <= target,
        a.scale <= target,
        target <= 28,
    ensures
        (amt_val(bal) + amt_val(a) <= unit_bound(target)) <==> (bal.mantissa * pow10(
            (target - bal.scale) as nat,
        ) + a.mantissa * pow10((target - a.scale) as nat) <= MAX_MANTISSA),
        bal.mantissa * pow10((target - bal.scale) as nat) >= 0,
        a.mantissa * pow10((target - a.scale) as nat) > 0,
{
    let u = pow10((28 - target) as nat);
    let mb = bal.mantissa * pow10((target - bal.scale) as nat);
    let ma = a.mantissa * pow10((target - a.scale) as nat);
    lemma_val_at_scale(bal, target);
    lemma_val_at_scale(a, target);
    lemma_pow10_pos((28 - target) as nat);
    lemma_pow10_pos((target - bal.scale) as nat);
    lemma_pow10_pos((target - a.scale) as nat);
    assert(mb >= 0 && ma > 0) by (nonlinear_arith)
        requires
            bal.mantissa >= 0,
            a.mantissa > 0,
            pow10((target - bal.scale) as nat) >= 1,
            pow10((target - a.scale) as nat) >= 1,
            mb == bal.mantissa * pow10((target - bal.scale) as nat),
            ma == a.mantissa * pow10((target - a.scale) as nat),
    ;
    assert((mb + ma) * u == mb * u + ma * u) by (nonlinear_arith);
    lemma_mul_cancel(mb + ma, MAX_MANTISSA as int, u);
}

/// The bound of `can_withdraw`, decided by the balance's mantissa at the
/// common scale.
proof fn lemma_balance_bound_equiv(bal: Amount, target: u32)
    requires
        amt_wf(bal),
        bal.mantissa >= 0,
        bal.scale <= target <= 28,
    ensures
        (amt_val(bal) <= unit_bound(target)) <==> (bal.mantissa * pow10(
            (target - bal.scale) as nat,
        ) <= MAX_MANTISSA),
        bal.mantissa * pow10((target - bal.scale) as nat) >= 0,
{
    let u = pow10((28 - target) as nat);
    let mb = bal.mantissa * pow10((target - bal.scale) as nat);
    lemma_val_at_scale(bal, target);
    lemma_pow10_pos((28 - target) as nat);
    lemma_pow10_pos((target - bal.scale) as nat);
    assert(mb >= 0) by (nonlinear_arith)
        requires
            bal.mantissa >= 0,
            pow10((target - bal.scale) as nat) >= 1,
            mb == bal.mantissa * pow10((target - bal.scale) as nat),
    ;
    lemma_mul_cancel(mb, MAX_MANTISSA as int, u);
}

impl BankAccount {
    /// The account invariant, over the history the account owns.
    pub open spec fn wf(&self) -> bool {
        txs_wf(self@)
    }

    /// A fresh account: no transactions, balance zero.
    pub fn new() -> (account: BankAccount)
        ensures
            account.wf(),
            account@ =~= Seq::<Transaction>::empty(),
            balance_of(account@) == 0,
    {
        BankAccount { transactions: Vec::new() }
    }

    /// The balance the history carries, derived by folding the whole
    /// sequence; nothing is cached.
    pub fn get_balance(&self) -> (balance: Amount)
        requires
            self.wf(),
        ensures
            amt_wf(balance),
            amt_val(balance) == balance_of(self@),
            balance.scale <= max_scale(self@),
    {
        let mut balance = Amount::new(0, 0);
        let n = self.transactions.len();
        assert(self@.take(0).len() == 0);
        for i in 0..n
            invariant
                txs_wf(self@),
                n == self@.len(),
                amt_wf(balance),
                amt_val(balance) == balance_of(self@.take(i as int)),
                balance.scale <= max_scale(self@.take(i as int)),
        {
            let t = self.transactions[i];
            proof {
                lemma_fold_step(self@, i as int, balance);
            }
            balance = match t.transaction_type {
                TransactionType::Credit => dec_add(balance, t.amount),
                TransactionType::Debit => dec_sub(balance, t.amount),
            };
        }
        proof {
            assert(self@.take(n as int) =~= self@);
        }
        balance
    }

    /// The coarsest scale in the history, derived by folding the sequence.
    fn coarsest_scale(&self) -> (s: u32)
        ensures
            s == max_scale(self@),
    {
        let mut s: u32 = 0;
        let n = self.transactions.len();
        assert(self@.take(0).len() == 0);
        for i in 0..n
            invariant
                n == self@.len(),
                s == max_scale(self@.take(i as int)),
        {
            let t = self.transactions[i];
            proof {
                lemma_fold_unfold(self@, i as int);
            }
            if t.amount.scale > s {
                s = t.amount.scale;
            }
        }
        proof {
            assert(self@.take(n as int) =~= self@);
        }
        s
    }

    /// Whether `deposit(amount)` is admissible now: decides `can_deposit`
    /// exactly, so that an unverified caller can test before calling.
    pub fn can_accept_deposit(&self, amount: &Amount) -> (r: bool)
        requires
            self.wf(),
        ensures
            r == can_deposit(self@, *amount),
    {
        if !(amount.scale <= MAX_SCALE && -MAX_MANTISSA <= amount.mantissa && amount.mantissa
            <= MAX_MANTISSA) {
            return false;
        }
        proof {
            lemma_pow10_pos((28 - amount.scale) as nat);
            lemma_mul_cancel(0, amount.mantissa as int, unit_of(amount.scale));
        }
        if amount.mantissa <= 0 {
            return false;
        }
        let balance = self.get_balance();
        let ms = self.coarsest_scale();
        let target = if amount.scale >= ms {
            amount.scale
        } else {
            ms
        };
        proof {
            let n = self@.len() as int;
            assert(self@.take(n) =~= self@);
            lemma_max_scale_le(self@, n);
            lemma_prefix_balance_nonneg(self@, n);
            lemma_pow10_pos((28 - balance.scale) as nat);
            lemma_mul_cancel(0, balance.mantissa as int, unit_of(balance.scale));
            lemma_deposit_bound_equiv(balance, *amount, target);
        }
        let rescaled_balance = match rescale_up(balance.mantissa, target - balance.scale) {
            Some(x) => x,
            None => {
                return false;
            },
        };
        let rescaled_amount = match rescale_up(amount.mantissa, target - amount.scale) {
            Some(x) => x,
            None => {
                return false;
            },
        };
        rescaled_balance + rescaled_amount <= MAX_MANTISSA
    }

    /// Whether `withdraw(amount)` is admissible now — not whether it will
    /// succeed: decides `can_withdraw` exactly, so that an unverified
    /// caller can test before calling.
    pub fn can_accept_withdrawal(&self, amount: &Amount) -> (r: bool)
        requires
            self.wf(),
        ensures
            r == can_withdraw(self@, *amount),
    {
        if !(amount.scale <= MAX_SCALE && -MAX_MANTISSA <= amount.mantissa && amount.mantissa
            <= MAX_MANTISSA) {
            return false;
        }
        proof {
            lemma_pow10_pos((28 - amount.scale) as nat);
            lemma_mul_cancel(0, amount.mantissa as int, unit_of(amount.scale));
        }
        if amount.mantissa <= 0 {
            return false;
        }
        let balance = self.get_balance();
        if dec_lt(&balance, amount) {
            return true;
        }
        let ms = self.coarsest_scale();
        let target = if amount.scale >= ms {
            amount.scale
        } else {
            ms
        };
        proof {
            let n = self@.len() as int;
            assert(self@.take(n) =~= self@);
            lemma_max_scale_le(self@, n);
            lemma_prefix_balance_nonneg(self@, n);
            lemma_pow10_pos((28 - balance.scale) as nat);
            lemma_mul_cancel(0, balance.mantissa as int, unit_of(balance.scale));
            lemma_balance_bound_equiv(balance, target);
        }
        match rescale_up(balance.mantissa, target - balance.scale) {
            Some(_) => true,
            None => false,
        }
    }

    /// Appends a credit of `amount` at the current time and returns the new
    /// derived balance.
    pub fn deposit(&mut self, amount: Amount) -> (balance: Amount)
        requires
            old(self).wf(),
            can_deposit(old(self)@, amount),
        ensures
            final(self).wf(),
            final(self)@.len() == old(self)@.len() + 1,
            forall|i: int| 0 <= i < old(self)@.len() ==> final(self)@[i] == old(self)@[i],
            final(self)@.last().transaction_type == TransactionType::Credit,
            final(self)@.last().amount == amount,
            balance_of(final(self)@) == balance_of(old(self)@) + amt_val(amount),
            max_scale(final(self)@) == scale_max(max_scale(old(self)@), amount.scale),
            amt_wf(balance),
            amt_val(balance) == balance_of(final(self)@),
            forall|k: int| 0 <= k <= final(self)@.len() ==> balance_of(
                #[trigger] final(self)@.take(k),
            ) >= 0,
    {
        let timestamp = now_timestamp();
        let tx = Transaction { timestamp, transaction_type: TransactionType::Credit, amount };
        proof {
            lemma_prefix_balance_nonneg(old(self)@, old(self)@.len() as int);
            assert(old(self)@.take(old(self)@.len() as int) =~= old(self)@);
            lemma_txs_wf_push(old(self)@, tx);
        }
        self.transactions.push(tx);
        proof {
            assert forall|k: int| 0 <= k <= self@.len() implies balance_of(
                #[trigger] self@.take(k),
            ) >= 0 by {
                lemma_prefix_balance_nonneg(self@, k);
            }
        }
        self.get_balance()
    }

    /// Withdraws `amount` where the balance covers it, appending a debit at
    /// the current time; declines it otherwise, leaving the history
    /// untouched.
    pub fn withdraw(&mut self, amount: Amount) -> (r: Result<Amount, Error>)
        requires
            old(self).wf(),
            can_withdraw(old(self)@, amount),
        ensures
            final(self).wf(),
            r is Err <==> amt_val(amount) > balance_of(old(self)@),
            r is Err ==> final(self)@ == old(self)@ && r == Err::<Amount, Error>(
                Error::InsufficientBalance,
            ),
            r is Ok ==> {
                &&& final(self)@.len() == old(self)@.len() + 1
                &&& forall|i: int| 0 <= i < old(self)@.len() ==> final(self)@[i] == old(self)@[i]
                &&& final(self)@.last().transaction_type == TransactionType::Debit
                &&& final(self)@.last().amount == amount
                &&& balance_of(final(self)@) == balance_of(old(self)@) - amt_val(amount)
                &&& max_scale(final(self)@) == scale_max(max_scale(old(self)@), amount.scale)
                &&& amt_wf(r.unwrap())
                &&& amt_val(r.unwrap()) == balance_of(final(self)@)
                &&& balance_of(final(self)@) >= 0
            },
            forall|k: int| 0 <= k <= final(self)@.len() ==> balance_of(
                #[trigger] final(self)@.take(k),
            ) >= 0,
    {
        let balance = self.get_balance();
        if dec_lt(&balance, &amount) {
            proof {
                assert forall|k: int| 0 <= k <= self@.len() implies balance_of(
                    #[trigger] self@.take(k),
                ) >= 0 by {
                    lemma_prefix_balance_nonneg(self@, k);
                }
            }
            return Err(Error::InsufficientBalance);
        }
        let timestamp = now_timestamp();
        let tx = Transaction { timestamp, transaction_type: TransactionType::Debit, amount };
        proof {
            lemma_prefix_balance_nonneg(old(self)@, old(self)@.len() as int);
            assert(old(self)@.take(old(self)@.len() as int) =~= old(self)@);
            lemma_txs_wf_push(old(self)@, tx);
        }
        self.transactions.push(tx);
        proof {
            assert forall|k: int| 0 <= k <= self@.len() implies balance_of(
                #[trigger] self@.take(k),
            ) >= 0 by {
                lemma_prefix_balance_nonneg(self@, k);
            }
        }
        Ok(self.get_balance())
    }

    /// Replays the whole history into a statement: one line per
    /// transaction, in append order, each carrying the running balance
    /// after it.
    pub fn get_statement(&self) -> (statement: BankStatement)
        requires
            self.wf(),
        ensures
            statement.lines@.len() == self@.len(),
            statement_matches(statement.lines@, self@),
    {
        let date_created = now_timestamp();
        let mut lines: Vec<StatementLine> = Vec::new();
        let mut balance = Amount::new(0, 0);
        let n = self.transactions.len();
        assert(self@.take(0).len() == 0);
        for i in 0..n
            invariant
                txs_wf(self@),
                n == self@.len(),
                lines@.len() == i,
                forall|j: int| 0 <= j < i ==> line_matches(#[trigger] lines@[j], self@, j),
                amt_wf(balance),
                amt_val(balance) == balance_of(self@.take(i as int)),
                balance.scale <= max_scale(self@.take(i as int)),
        {
            let t = self.transactions[i];
            proof {
                lemma_fold_step(self@, i as int, balance);
            }
            balance = match t.transaction_type {
                TransactionType::Credit => dec_add(balance, t.amount),
                TransactionType::Debit => dec_sub(balance, t.amount),
            };
            lines.push(
                StatementLine {
                    timestamp: t.timestamp,
                    transaction_type: t.transaction_type,
                    amount: t.amount,
                    balance,
                },
            );
        }
        BankStatement { date_created, lines }
    }
}

} // verus!
