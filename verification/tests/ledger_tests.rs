use tdd_banking::{Amount, BankAccount, Error, TransactionType};

#[test]
fn given_account_when_amount_deposited_then_new_balance_equals_amount() {
    // Arrange
    let amount = Amount::new(10000, 2); // 100.00
    let mut bank_account = BankAccount::new();

    // Act
    let new_balance = bank_account.deposit(amount);

    // Assert
    assert_eq!(new_balance, Amount::new(10000, 2));
}

#[test]
fn given_account_with_balance_when_amount_deposited_then_new_balance_increased_by_amount() {
    // Arrange
    let amount = Amount::new(10000, 2); // 100.00
    let mut bank_account = BankAccount::new();
    let _ = bank_account.deposit(amount);

    // Act
    let new_balance = bank_account.deposit(amount);

    // Assert
    assert_eq!(new_balance, Amount::new(20000, 2));
}

#[test]
fn given_account_when_withdrawal_reduces_balance_below_zero_then_insuficient_balance_error() {
    // Arrange
    let amount = Amount::new(10000, 2); // 100.00
    let mut bank_account = BankAccount::new();

    // Act
    let result = bank_account.withdraw(amount);

    // Assert
    assert_eq!(result.err().unwrap(), Error::InsufficientBalance);
}

#[test]
fn given_account_when_withdraw_amount_then_balance_decreases_by_amount() {
    // Arrange
    let amount = Amount::new(10000, 2); // 100.00
    let mut bank_account = BankAccount::new();
    let _ = bank_account.deposit(amount);

    // Act
    let new_balance = bank_account.withdraw(amount).expect("failed to withdraw");

    // Assert
    assert_eq!(new_balance, Amount::new(0, 0));
}

#[test]
fn given_account_with_zero_transactions_when_get_statement_then_return_empty_statement() {
    // Arrange
    let bank_account = BankAccount::new();

    // Act
    let statement = bank_account.get_statement();

    // Assert
    assert_eq!(
        statement.lines.len(),
        0,
        "given a new bank account, the bank statement is empty"
    );
}

#[test]
fn given_account_with_transactions_when_get_statement_then_return_statement_with_transactions() {
    // Arrange
    let mut bank_account = BankAccount::new();
    let _ = bank_account.deposit(Amount::new(20000, 2));
    let _ = bank_account.withdraw(Amount::new(20000, 2));

    // Act
    let statement = bank_account.get_statement();

    // Assert
    assert_eq!(
        statement.lines.len(),
        2,
        "the bank statement contains 2 transactions"
    );
    assert_eq!(
        statement.lines[0].amount,
        Amount::new(20000, 2),
        "bank statement line 1 amount is 200.00"
    );
    assert_eq!(
        statement.lines[0].transaction_type,
        TransactionType::Credit,
        "bank statement line 1 transaction is 'Credit'"
    );
    assert_eq!(
        statement.lines[0].balance,
        Amount::new(20000, 2),
        "bank statement line 1 balance is 200.00"
    );
    assert_eq!(
        statement.lines[1].amount,
        Amount::new(20000, 2),
        "bank statement line 2 amount is 200.00"
    );
    assert_eq!(
        statement.lines[1].transaction_type,
        TransactionType::Debit,
        "bank statement line 2 transaction is 'Debit'"
    );
    assert_eq!(
        statement.lines[1].balance,
        Amount::new(0, 0),
        "bank statement line 2 balance is 0.00"
    );
}
