use open_stylus::erc6909::{Address, Erc20Error, Erc6909, Event};
use open_stylus::wide::U256;

fn addr(n: u128) -> Address {
    Address { hi: 0, lo: n }
}

fn amount(n: u128) -> U256 {
    U256 { hi: 0, lo: n }
}

#[test]
fn test_new_ledger_is_empty() {
    let l = Erc6909::new();
    assert_eq!(l.balanceOf(addr(1), amount(7)), amount(0));
    assert_eq!(l.allowance(addr(1), addr(2), amount(7)), amount(0));
    assert!(!l.isOperator(addr(1), addr(2)));
    assert_eq!(l.events().len(), 0);
}

#[test]
fn test_mint_adds_and_logs() {
    let mut l = Erc6909::new();
    assert_eq!(l.mint(addr(9), addr(1), amount(7), amount(100)), Ok(true));
    assert_eq!(l.mint(addr(9), addr(1), amount(7), amount(5)), Ok(true));
    assert_eq!(l.balanceOf(addr(1), amount(7)), amount(105));
    assert_eq!(l.balanceOf(addr(1), amount(8)), amount(0));
    assert_eq!(l.balanceOf(addr(2), amount(7)), amount(0));
    assert_eq!(l.events().len(), 2);
    assert!(matches!(l.events()[0], Event::Transfer { caller, from, to, id, amount: a }
        if caller == addr(9) && from == Address::zero() && to == addr(1) && id == amount(7) && a == amount(100)));
}

#[test]
fn test_mint_then_burn_restores() {
    let mut l = Erc6909::new();
    assert_eq!(l.mint(addr(9), addr(3), amount(2), amount(11)), Ok(true));
    let before = l.balanceOf(addr(3), amount(2));
    assert_eq!(l.mint(addr(9), addr(3), amount(2), U256 { hi: 170141183460469231731687303715884105728, lo: 3 }), Ok(true));
    assert_eq!(l.burn(addr(9), addr(3), amount(2), U256 { hi: 170141183460469231731687303715884105728, lo: 3 }), Ok(true));
    assert_eq!(l.balanceOf(addr(3), amount(2)), before);
}

#[test]
fn test_approve_sets_allowance() {
    let mut l = Erc6909::new();
    assert_eq!(l.approve(addr(1), addr(2), amount(3), amount(77)), Ok(true));
    assert_eq!(l.allowance(addr(1), addr(2), amount(3)), amount(77));
    assert_eq!(l.allowance(addr(2), addr(1), amount(3)), amount(0));
    assert_eq!(l.allowance(addr(1), addr(2), amount(4)), amount(0));
    assert_eq!(l.approve(addr(1), addr(2), amount(3), amount(5)), Ok(true));
    assert_eq!(l.allowance(addr(1), addr(2), amount(3)), amount(5));
    assert!(matches!(l.events()[1], Event::Approval { owner, spender, id, amount: a }
        if owner == addr(1) && spender == addr(2) && id == amount(3) && a == amount(5)));
}

#[test]
fn test_set_operator() {
    let mut l = Erc6909::new();
    assert!(matches!(l.setOperator(addr(1), addr(2), true), Ok(true)));
    assert!(l.isOperator(addr(1), addr(2)));
    assert!(!l.isOperator(addr(2), addr(1)));
    assert!(matches!(l.setOperator(addr(1), addr(2), false), Ok(true)));
    assert!(!l.isOperator(addr(1), addr(2)));
    assert!(matches!(l.events()[0], Event::OperatorSet { owner, operator, approved }
        if owner == addr(1) && operator == addr(2) && approved));
}

#[test]
fn test_supports_interface() {
    assert!(Erc6909::supports_interface(0x01ffc9a7));
    assert!(Erc6909::supports_interface(0x0f632fb3));
    assert!(!Erc6909::supports_interface(0));
    assert!(!Erc6909::supports_interface(0xffffffff));
}

#[test]
fn test_addresses_differ_in_high_bits() {
    let mut l = Erc6909::new();
    let a = Address { hi: 1, lo: 5 };
    let b = Address { hi: 2, lo: 5 };
    assert_eq!(l.mint(addr(9), a, amount(1), amount(10)), Ok(true));
    assert_eq!(l.balanceOf(b, amount(1)), amount(0));
    assert_eq!(l.balanceOf(a, amount(1)), amount(10));
}

#[test]
fn test_burn_subtracts() {
    let mut l = Erc6909::new();
    assert_eq!(l.mint(addr(9), addr(1), amount(7), amount(70)), Ok(true));
    assert_eq!(l.burn(addr(9), addr(1), amount(7), amount(30)), Ok(true));
    assert_eq!(l.balanceOf(addr(1), amount(7)), amount(40));
    assert!(matches!(l.events()[1], Event::Transfer { caller, from, to, id, amount: a }
        if caller == addr(9) && from == addr(1) && to == Address::zero() && id == amount(7) && a == amount(30)));
}

#[test]
fn test_burn_beyond_balance_fails() {
    let mut l = Erc6909::new();
    assert_eq!(l.mint(addr(9), addr(1), amount(7), amount(40)), Ok(true));
    assert_eq!(l.burn(addr(9), addr(1), amount(7), amount(41)), Err(Vec::new()));
    assert_eq!(l.balanceOf(addr(1), amount(7)), amount(40));
    assert_eq!(l.events().len(), 1);
}

#[test]
fn test_mint_up_to_the_largest_amount() {
    let mut l = Erc6909::new();
    let max = U256 { hi: u128::MAX, lo: u128::MAX };
    assert_eq!(l.mint(addr(9), addr(1), amount(1), max), Ok(true));
    assert_eq!(l.balanceOf(addr(1), amount(1)), max);
}

#[test]
fn test_transfer_moves_tokens() {
    let mut l = Erc6909::new();
    assert_eq!(l.mint(addr(1), addr(10), amount(1), amount(5)), Ok(true));
    assert_eq!(l.transfer(addr(10), addr(11), amount(1), amount(3)), Ok(true));
    assert_eq!(l.balanceOf(addr(10), amount(1)), amount(2));
    assert_eq!(l.balanceOf(addr(11), amount(1)), amount(3));
    assert!(matches!(l.events()[1], Event::Transfer { caller, from, to, id, amount: a }
        if caller == addr(10) && from == addr(10) && to == addr(11) && id == amount(1) && a == amount(3)));
}

#[test]
fn test_transfer_to_self_keeps_balance() {
    let mut l = Erc6909::new();
    assert_eq!(l.mint(addr(1), addr(10), amount(1), amount(5)), Ok(true));
    assert_eq!(l.transfer(addr(10), addr(10), amount(1), amount(5)), Ok(true));
    assert_eq!(l.balanceOf(addr(10), amount(1)), amount(5));
}

#[test]
fn test_transfer_beyond_balance_fails() {
    let mut l = Erc6909::new();
    assert_eq!(l.mint(addr(1), addr(10), amount(1), amount(5)), Ok(true));
    assert_eq!(l.transfer(addr(10), addr(11), amount(1), amount(6)), Err(Vec::new()));
    assert_eq!(l.balanceOf(addr(10), amount(1)), amount(5));
    assert_eq!(l.balanceOf(addr(11), amount(1)), amount(0));
    assert_eq!(l.events().len(), 1);
}

#[test]
fn test_transfer_from_by_owner() {
    let mut l = Erc6909::new();
    assert_eq!(l.mint(addr(9), addr(1), amount(4), amount(50)), Ok(true));
    assert!(matches!(l.transfer_from(addr(1), addr(1), addr(2), amount(4), amount(20)), Ok(true)));
    assert_eq!(l.balanceOf(addr(1), amount(4)), amount(30));
    assert_eq!(l.balanceOf(addr(2), amount(4)), amount(20));
    assert!(matches!(l.events()[1], Event::Transfer { caller, from, to, id, amount: a }
        if caller == addr(1) && from == addr(1) && to == addr(2) && id == amount(4) && a == amount(20)));
}

#[test]
fn test_transfer_from_spends_allowance() {
    let mut l = Erc6909::new();
    assert_eq!(l.mint(addr(9), addr(1), amount(4), amount(50)), Ok(true));
    assert_eq!(l.approve(addr(1), addr(5), amount(4), amount(25)), Ok(true));
    assert!(matches!(l.transfer_from(addr(5), addr(1), addr(2), amount(4), amount(20)), Ok(true)));
    assert_eq!(l.balanceOf(addr(1), amount(4)), amount(30));
    assert_eq!(l.balanceOf(addr(2), amount(4)), amount(20));
    assert_eq!(l.allowance(addr(1), addr(5), amount(4)), amount(5));
    assert!(matches!(l.transfer_from(addr(5), addr(1), addr(2), amount(4), amount(6)),
        Err(Erc20Error::InsufficientAllowance { owner, spender, have, want })
        if owner == addr(1) && spender == addr(5) && have == amount(5) && want == amount(6)));
    assert_eq!(l.balanceOf(addr(1), amount(4)), amount(30));
    assert_eq!(l.events().len(), 3);
}

#[test]
fn test_transfer_from_unlimited_allowance_stays() {
    let mut l = Erc6909::new();
    let max = U256 { hi: u128::MAX, lo: u128::MAX };
    assert_eq!(l.mint(addr(9), addr(1), amount(4), amount(50)), Ok(true));
    assert_eq!(l.approve(addr(1), addr(5), amount(4), max), Ok(true));
    assert!(matches!(l.transfer_from(addr(5), addr(1), addr(2), amount(4), amount(20)), Ok(true)));
    assert_eq!(l.allowance(addr(1), addr(5), amount(4)), max);
}

#[test]
fn test_transfer_from_by_operator() {
    let mut l = Erc6909::new();
    assert_eq!(l.mint(addr(9), addr(1), amount(4), amount(50)), Ok(true));
    assert!(matches!(l.setOperator(addr(1), addr(6), true), Ok(true)));
    assert!(matches!(l.transfer_from(addr(6), addr(1), addr(2), amount(4), amount(50)), Ok(true)));
    assert_eq!(l.balanceOf(addr(1), amount(4)), amount(0));
    assert_eq!(l.balanceOf(addr(2), amount(4)), amount(50));
    assert_eq!(l.allowance(addr(1), addr(6), amount(4)), amount(0));
}

#[test]
fn test_transfer_from_beyond_balance_fails() {
    let mut l = Erc6909::new();
    assert_eq!(l.mint(addr(9), addr(1), amount(4), amount(10)), Ok(true));
    assert!(matches!(l.transfer_from(addr(1), addr(1), addr(2), amount(4), amount(11)),
        Err(Erc20Error::InsufficientBalance { from, have, want })
        if from == addr(1) && have == amount(10) && want == amount(11)));
    assert_eq!(l.balanceOf(addr(1), amount(4)), amount(10));
    assert_eq!(l.balanceOf(addr(2), amount(4)), amount(0));
    assert_eq!(l.events().len(), 1);
}

#[test]
fn test_transfer_from_without_allowance_fails() {
    let mut l = Erc6909::new();
    assert_eq!(l.mint(addr(9), addr(1), amount(4), amount(10)), Ok(true));
    assert!(matches!(l.transfer_from(addr(5), addr(1), addr(2), amount(4), amount(1)),
        Err(Erc20Error::InsufficientAllowance { .. })));
    assert_eq!(l.balanceOf(addr(1), amount(4)), amount(10));
}
