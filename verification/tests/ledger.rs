use mock_token::MockToken;

const USER: &[u8] = b"GUSER";
const PAIR: &[u8] = b"CPAIR";
const OTHER: &[u8] = b"GOTHER";

#[test]
fn missing_holder_reads_zero() {
    let t = MockToken::new();
    assert_eq!(t.balance(USER), 0);
}

#[test]
fn mint_credits_holder() {
    let mut t = MockToken::new();
    t.mint(USER, 1_000_000_000);
    assert_eq!(t.balance(USER), 1_000_000_000);
    assert_eq!(t.balance(PAIR), 0);
    t.mint(USER, 5);
    assert_eq!(t.balance(USER), 1_000_000_005);
}

#[test]
fn mint_then_transfer_all_to_pair() {
    let mut t = MockToken::new();
    t.mint(USER, 4_000_000_000);
    t.transfer(USER, PAIR, 4_000_000_000);
    assert_eq!(t.balance(USER), 0);
    assert_eq!(t.balance(PAIR), 4_000_000_000);
}

#[test]
fn transfer_moves_amount_and_keeps_others() {
    let mut t = MockToken::new();
    t.mint(USER, 100);
    t.mint(OTHER, 7);
    t.transfer(USER, PAIR, 40);
    assert_eq!(t.balance(USER), 60);
    assert_eq!(t.balance(PAIR), 40);
    assert_eq!(t.balance(OTHER), 7);
    assert_eq!(t.balance(USER) + t.balance(PAIR) + t.balance(OTHER), 107);
}

#[test]
fn transfer_may_overdraw() {
    let mut t = MockToken::new();
    t.mint(USER, 10);
    t.transfer(USER, PAIR, 25);
    assert_eq!(t.balance(USER), -15);
    assert_eq!(t.balance(PAIR), 25);
}

#[test]
fn self_transfer_credits_holder() {
    let mut t = MockToken::new();
    t.mint(USER, 100);
    t.transfer(USER, USER, 30);
    assert_eq!(t.balance(USER), 130);
}

#[test]
fn transfer_round_trip_restores_balances() {
    let mut t = MockToken::new();
    t.mint(USER, 100);
    t.mint(PAIR, 3);
    t.transfer(USER, PAIR, 60);
    t.transfer(PAIR, USER, 60);
    assert_eq!(t.balance(USER), 100);
    assert_eq!(t.balance(PAIR), 3);
}

#[test]
fn zero_transfer_keeps_balances() {
    let mut t = MockToken::new();
    t.mint(USER, 9);
    t.transfer(USER, PAIR, 0);
    t.transfer(USER, USER, 0);
    assert_eq!(t.balance(USER), 9);
    assert_eq!(t.balance(PAIR), 0);
}

#[test]
fn transfers_chain() {
    let mut t = MockToken::new();
    t.mint(USER, 50);
    t.transfer(USER, OTHER, 20);
    t.transfer(OTHER, PAIR, 20);
    assert_eq!(t.balance(USER), 30);
    assert_eq!(t.balance(OTHER), 0);
    assert_eq!(t.balance(PAIR), 20);
}

#[test]
fn mints_commute_and_add_up() {
    let mut a = MockToken::new();
    a.mint(USER, 3);
    a.mint(PAIR, 4);
    a.mint(USER, 5);
    let mut b = MockToken::new();
    b.mint(PAIR, 4);
    b.mint(USER, 8);
    assert_eq!(a.balance(USER), b.balance(USER));
    assert_eq!(a.balance(PAIR), b.balance(PAIR));
    assert_eq!(a.balance(USER), 8);
}

#[test]
fn set_balance_replaces_record() {
    let mut t = MockToken::new();
    t.set_balance(USER, 42);
    assert_eq!(t.balance(USER), 42);
    t.set_balance(USER, -1);
    assert_eq!(t.balance(USER), -1);
    assert_eq!(t.balance(PAIR), 0);
}

#[test]
fn holders_differ_by_every_byte() {
    let mut t = MockToken::new();
    t.mint(b"GA", 1);
    t.mint(b"GB", 2);
    t.mint(b"G", 4);
    t.mint(b"GAA", 8);
    assert_eq!(t.balance(b"GA"), 1);
    assert_eq!(t.balance(b"GB"), 2);
    assert_eq!(t.balance(b"G"), 4);
    assert_eq!(t.balance(b"GAA"), 8);
    assert_eq!(t.balance(b""), 0);
}

#[test]
fn extreme_amounts() {
    let mut t = MockToken::new();
    t.mint(USER, i128::MAX);
    assert_eq!(t.balance(USER), i128::MAX);
    t.transfer(USER, PAIR, i128::MAX);
    assert_eq!(t.balance(USER), 0);
    assert_eq!(t.balance(PAIR), i128::MAX);
}
