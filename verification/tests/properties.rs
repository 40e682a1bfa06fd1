use tdd_banking::{Amount, BankAccount, Error, TransactionType};

#[test]
fn deposits_with_mixed_scales_sum_exactly() {
    let mut account = BankAccount::new();
    let _ = account.deposit(Amount::new(10000, 2)); // 100.00
    let _ = account.deposit(Amount::new(5, 1)); // 0.5
    let balance = account.deposit(Amount::new(1, 0)); // 1
    // 100.00 + 0.5 + 1 = 101.50, whatever the scales
    assert_eq!(balance, Amount::new(10150, 2));
    assert_eq!(balance, Amount::new(1015, 1));
}

#[test]
fn withdrawing_the_exact_balance_succeeds() {
    let mut account = BankAccount::new();
    let _ = account.deposit(Amount::new(10000, 2));
    let balance = account
        .withdraw(Amount::new(10000, 2))
        .expect("withdrawing the full balance must succeed");
    assert_eq!(balance, Amount::new(0, 0));
}

#[test]
fn withdrawing_one_cent_over_the_balance_fails() {
    let mut account = BankAccount::new();
    let _ = account.deposit(Amount::new(10000, 2)); // 100.00
    let result = account.withdraw(Amount::new(10001, 2)); // 100.01
    assert_eq!(result.err().unwrap(), Error::InsufficientBalance);
    assert_eq!(account.get_balance(), Amount::new(10000, 2));
}

#[test]
fn failed_withdrawal_on_fresh_account_leaves_zero_balance() {
    let mut account = BankAccount::new();
    let result = account.withdraw(Amount::new(10000, 2)); // 100.00
    assert_eq!(result.err().unwrap(), Error::InsufficientBalance);
    assert_eq!(account.get_balance(), Amount::new(0, 0));
}

#[test]
fn rejected_withdrawals_repeat_the_error_and_leave_no_trace() {
    let mut account = BankAccount::new();
    let _ = account.deposit(Amount::new(5000, 2)); // 50.00
    let first = account.withdraw(Amount::new(10000, 2));
    let second = account.withdraw(Amount::new(10000, 2));
    assert_eq!(first.err().unwrap(), Error::InsufficientBalance);
    assert_eq!(second.err().unwrap(), Error::InsufficientBalance);
    // rejected withdrawals never show up in the statement
    assert_eq!(account.get_statement().lines.len(), 1);
    assert_eq!(account.get_balance(), Amount::new(5000, 2));
}

#[test]
fn statement_carries_one_running_balance_per_transaction() {
    let mut account = BankAccount::new();
    let _ = account.deposit(Amount::new(20000, 2)); // 200.00
    let _ = account.deposit(Amount::new(5000, 2)); // 50.00
    let last = account
        .withdraw(Amount::new(10000, 2)) // 100.00
        .expect("balance covers the withdrawal");
    let statement = account.get_statement();
    assert_eq!(statement.lines.len(), 3);
    assert_eq!(statement.lines[0].balance, Amount::new(20000, 2));
    assert_eq!(statement.lines[1].balance, Amount::new(25000, 2));
    assert_eq!(statement.lines[2].balance, Amount::new(15000, 2));
    assert_eq!(statement.lines[2].transaction_type, TransactionType::Debit);
    // the last line's balance is the value the last successful call returned
    assert_eq!(statement.lines[2].balance, last);
}

#[test]
fn deposit_order_does_not_change_the_balance() {
    let mut first = BankAccount::new();
    let _ = first.deposit(Amount::new(725, 2));
    let _ = first.deposit(Amount::new(3, 0));
    let a = first.deposit(Amount::new(40, 1));

    let mut second = BankAccount::new();
    let _ = second.deposit(Amount::new(40, 1));
    let _ = second.deposit(Amount::new(3, 0));
    let b = second.deposit(Amount::new(725, 2));

    assert_eq!(a, b);
    assert_eq!(a, Amount::new(1425, 2)); // 7.25 + 3 + 4.0 = 14.25
}

#[test]
fn running_balances_never_go_negative() {
    let mut account = BankAccount::new();
    let _ = account.deposit(Amount::new(1000, 2));
    let _ = account.withdraw(Amount::new(999, 2));
    let _ = account.deposit(Amount::new(1, 2));
    let _ = account.withdraw(Amount::new(2, 2));
    let zero = Amount::new(0, 0);
    for line in account.get_statement().lines.iter() {
        assert!(line.balance == zero || line.balance.is_positive());
    }
}

#[test]
fn amounts_compare_by_value_across_scales() {
    assert_eq!(Amount::new(0, 2), Amount::new(0, 0));
    assert_eq!(Amount::new(100, 2), Amount::new(1, 0));
    assert_ne!(Amount::new(101, 2), Amount::new(1, 0));
    assert_ne!(Amount::new(1, 2), Amount::new(1, 0));
}

#[test]
fn declined_operation_message() {
    assert_eq!(
        Error::InsufficientBalance.message(),
        "operation declined: unsufficient balance"
    );
}

#[test]
fn deposit_guard_decides_the_precondition() {
    let mut account = BankAccount::new();
    assert!(account.can_accept_deposit(&Amount::new(10000, 2)));
    assert!(!account.can_accept_deposit(&Amount::new(0, 0)));
    assert!(!account.can_accept_deposit(&Amount::new(-5, 1)));
    // a balance carrying the finest digit: a coarse deposit whose rescaled
    // mantissa leaves the 96-bit range is refused, not silently rounded
    let finest = Amount { mantissa: 1, scale: 28 };
    assert!(account.can_accept_deposit(&finest));
    let _ = account.deposit(finest);
    assert!(!account.can_accept_deposit(&Amount::new(10, 0)));
    assert!(account.can_accept_deposit(&finest));
}

#[test]
fn deposit_guard_refuses_exceeding_the_largest_mantissa() {
    let mut account = BankAccount::new();
    let max = Amount {
        mantissa: 79228162514264337593543950335,
        scale: 28,
    };
    assert!(account.can_accept_deposit(&max));
    let _ = account.deposit(max);
    assert!(!account.can_accept_deposit(&Amount { mantissa: 1, scale: 28 }));
}

#[test]
fn withdrawal_guard_decides_the_precondition() {
    let mut account = BankAccount::new();
    // admissible though it will be declined: the guard is about exactness,
    // not about funds
    assert!(account.can_accept_withdrawal(&Amount::new(10000, 2)));
    assert!(!account.can_accept_withdrawal(&Amount::new(0, 2)));
    assert!(!account.can_accept_withdrawal(&Amount::new(-1, 0)));
    let big = Amount {
        mantissa: 79228162514264337593543950335,
        scale: 0,
    };
    let _ = account.deposit(big);
    assert!(account.can_accept_withdrawal(&Amount::new(5, 0)));
    // covered by the balance, but the balance has no exact image at the
    // finer scale the subtraction would need
    assert!(!account.can_accept_withdrawal(&Amount { mantissa: 1, scale: 28 }));
}

#[test]
fn amount_positivity() {
    assert!(Amount::new(1, 28).is_positive());
    assert!(!Amount::new(0, 0).is_positive());
    assert!(!Amount::new(-1, 2).is_positive());
}
