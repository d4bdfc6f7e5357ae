use ledger_core::types::Account;

#[test]
fn it_works() {
    assert_eq!(1, 1)
}

#[test]
fn account_fields() {
    let a = Account { balance: 5, nonce: 1 };
    assert_eq!(a.balance, 5);
    assert_eq!(a.nonce, 1);
}
