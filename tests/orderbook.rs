use long_arithmetic::orderbook::{BalanceChange, Currency, OrderBook, Side, Trade};
use long_arithmetic::orderbook::Currency::{UAH, USD};

fn change(user_id: u64, value: i64, currency: Currency) -> BalanceChange {
    BalanceChange { user_id, value, currency }
}

#[test]
fn orderbook_matching_sequence() {
    let orders = [
        (1, 10, 25, true),
        (5, 10, 35, true),
        (2, 50, 30, false),
        (3, 10, 32, false),
        (7, 10, 35, false),
        (4, 5, 3, false),
        (6, 100, 15, true),
    ];
    let mut book = OrderBook::new(Currency::UAH, Currency::USD);
    let mut all = Vec::new();
    for (user_id, amount, price, is_seller) in orders {
        let side = if is_seller { Side::Seller } else { Side::Buyer };
        all.extend(book.new_order(Trade::from(user_id, amount, price), side));
    }
    assert_eq!(
        all,
        vec![
            change(2, -10, UAH),
            change(1, 10, UAH),
            change(1, -300, USD),
            change(2, 300, USD),
            change(7, -10, UAH),
            change(5, 10, UAH),
            change(5, -350, USD),
            change(7, 350, USD),
            change(3, -10, UAH),
            change(6, 10, UAH),
            change(6, -320, USD),
            change(3, 320, USD),
            change(2, -40, UAH),
            change(6, 40, UAH),
            change(6, -1200, USD),
            change(2, 1200, USD),
        ]
    );
}

#[test]
fn orderbook_no_cross_no_changes() {
    let mut book = OrderBook::new(Currency::UAH, Currency::USD);
    assert!(book.new_order(Trade::from(1, 10, 50), Side::Seller).is_empty());
    assert!(book.new_order(Trade::from(2, 10, 49), Side::Buyer).is_empty());
    assert_eq!(book.sells.len(), 1);
    assert_eq!(book.buys.len(), 1);
}

#[test]
fn orderbook_partial_fill_keeps_rest() {
    let mut book = OrderBook::new(Currency::UAH, Currency::USD);
    book.new_order(Trade::from(1, 30, 10), Side::Seller);
    let changes = book.new_order(Trade::from(2, 10, 12), Side::Buyer);
    assert_eq!(changes.len(), 4);
    assert_eq!(changes[3], change(2, 120, Currency::USD));
    assert_eq!(book.sells, vec![Trade::from(1, 20, 10)]);
    assert!(book.buys.is_empty());
}
