use order_match::book::Book;
use order_match::engine::{cross, take, Engine, Mode};
use order_match::order::{Order, Side, Trade};

fn order(id: u64, side: Side, quantity: u32, price: u32) -> Order {
    Order { id, side, price, quantity }
}

#[test]
fn scenario_full_fill() {
    let mut e = Engine::new(Mode::TwoSided);
    let t1 = e.submit(order(1, Side::Sell, 5, 100));
    assert!(t1.is_empty());
    let t2 = e.submit(order(2, Side::Buy, 5, 100));
    assert_eq!(t2.len(), 1);
    assert_eq!(
        t2[0],
        Trade { buyer_order_id: 2, seller_order_id: 1, price: 100, quantity: 5 }
    );
    assert!(e.book.bids.is_empty());
    assert!(e.book.asks.is_empty());
}

#[test]
fn scenario_partial_fill_across_two_asks() {
    let mut e = Engine::new(Mode::TwoSided);
    assert!(e.submit(order(1, Side::Sell, 3, 100)).is_empty());
    assert!(e.submit(order(2, Side::Sell, 5, 100)).is_empty());
    let trades = e.submit(order(3, Side::Buy, 6, 100));
    assert_eq!(trades.len(), 2);
    assert_eq!(
        trades[0],
        Trade { buyer_order_id: 3, seller_order_id: 1, price: 100, quantity: 3 }
    );
    assert_eq!(
        trades[1],
        Trade { buyer_order_id: 3, seller_order_id: 2, price: 100, quantity: 3 }
    );
    assert!(e.book.bids.is_empty());
    assert_eq!(e.book.asks.len(), 1);
    assert_eq!(e.book.asks[0].id, 2);
    assert_eq!(e.book.asks[0].quantity, 2);
}

#[test]
fn scenario_no_overlap_both_rest() {
    let mut e = Engine::new(Mode::TwoSided);
    assert!(e.submit(order(1, Side::Buy, 5, 90)).is_empty());
    assert!(e.submit(order(2, Side::Sell, 5, 100)).is_empty());
    assert!(e.trades.is_empty());
    assert_eq!(e.book.bids.len(), 1);
    assert_eq!(e.book.bids[0].id, 1);
    assert_eq!(e.book.bids[0].quantity, 5);
    assert_eq!(e.book.asks.len(), 1);
    assert_eq!(e.book.asks[0].id, 2);
    assert_eq!(e.book.asks[0].quantity, 5);
}

#[test]
fn scenario_single_sided_discards_remainder() {
    let mut e = Engine::new(Mode::SingleSided);
    assert!(e.submit(order(1, Side::Sell, 2, 50)).is_empty());
    let trades = e.submit(order(2, Side::Buy, 5, 100));
    assert_eq!(trades.len(), 1);
    assert_eq!(
        trades[0],
        Trade { buyer_order_id: 2, seller_order_id: 1, price: 50, quantity: 2 }
    );
    assert!(e.book.asks.is_empty());
    assert!(e.book.bids.is_empty());
}

#[test]
fn trade_strikes_at_ask_price() {
    let mut e = Engine::new(Mode::TwoSided);
    assert!(e.submit(order(1, Side::Sell, 4, 95)).is_empty());
    let trades = e.submit(order(2, Side::Buy, 4, 105));
    assert_eq!(trades.len(), 1);
    assert_eq!(trades[0].price, 95);
}

#[test]
fn time_priority_equal_price_fifo() {
    let mut e = Engine::new(Mode::TwoSided);
    assert!(e.submit(order(10, Side::Sell, 4, 100)).is_empty());
    assert!(e.submit(order(11, Side::Sell, 4, 100)).is_empty());
    let trades = e.submit(order(12, Side::Buy, 5, 100));
    assert_eq!(trades.len(), 2);
    assert_eq!(trades[0].seller_order_id, 10);
    assert_eq!(trades[0].quantity, 4);
    assert_eq!(trades[1].seller_order_id, 11);
    assert_eq!(trades[1].quantity, 1);
    assert_eq!(e.book.asks.len(), 1);
    assert_eq!(e.book.asks[0].id, 11);
    assert_eq!(e.book.asks[0].quantity, 3);
}

#[test]
fn best_bid_is_highest_price() {
    let mut e = Engine::new(Mode::TwoSided);
    assert!(e.submit(order(1, Side::Buy, 1, 90)).is_empty());
    assert!(e.submit(order(2, Side::Buy, 1, 110)).is_empty());
    assert!(e.submit(order(3, Side::Buy, 1, 100)).is_empty());
    let best = e.book.peek_best(Side::Buy).unwrap();
    assert_eq!(best.id, 2);
    let trades = e.submit(order(4, Side::Sell, 1, 100));
    assert_eq!(trades.len(), 1);
    assert_eq!(trades[0].buyer_order_id, 2);
    assert_eq!(trades[0].price, 100);
}

#[test]
fn best_ask_is_lowest_price() {
    let mut e = Engine::new(Mode::TwoSided);
    assert!(e.submit(order(1, Side::Sell, 1, 110)).is_empty());
    assert!(e.submit(order(2, Side::Sell, 1, 90)).is_empty());
    let best = e.book.peek_best(Side::Sell).unwrap();
    assert_eq!(best.id, 2);
    let trades = e.submit(order(3, Side::Buy, 1, 95));
    assert_eq!(trades.len(), 1);
    assert_eq!(trades[0].seller_order_id, 2);
    assert_eq!(trades[0].price, 90);
}

#[test]
fn settlement_is_idempotent() {
    let mut e = Engine::new(Mode::TwoSided);
    assert!(e.submit(order(1, Side::Sell, 3, 100)).is_empty());
    assert!(e.submit(order(2, Side::Buy, 8, 100)).len() == 1);
    let again = cross(&mut e.book);
    assert!(again.is_empty());
    assert_eq!(e.book.bids.len(), 1);
    assert_eq!(e.book.bids[0].quantity, 5);
}

#[test]
fn no_cross_after_settlement() {
    let mut e = Engine::new(Mode::TwoSided);
    let orders = [
        order(1, Side::Buy, 5, 101),
        order(2, Side::Sell, 2, 99),
        order(3, Side::Sell, 9, 103),
        order(4, Side::Buy, 4, 102),
        order(5, Side::Sell, 6, 102),
    ];
    for o in orders {
        e.submit(o);
        let best_bid = e.book.peek_best(Side::Buy);
        let best_ask = e.book.peek_best(Side::Sell);
        if let (Some(b), Some(a)) = (best_bid, best_ask) {
            assert!(a.price > b.price);
        }
    }
}

#[test]
fn conservation_on_a_run() {
    let mut e = Engine::new(Mode::TwoSided);
    let orders = [
        order(1, Side::Buy, 5, 101),
        order(2, Side::Sell, 2, 99),
        order(3, Side::Sell, 9, 103),
        order(4, Side::Buy, 4, 103),
        order(5, Side::Sell, 6, 100),
    ];
    let mut submitted_buy: u64 = 0;
    let mut submitted_sell: u64 = 0;
    for o in orders {
        match o.side {
            Side::Buy => submitted_buy += o.quantity as u64,
            Side::Sell => submitted_sell += o.quantity as u64,
        }
        e.submit(o);
        let resting_bid: u64 = e.book.bids.iter().map(|x| x.quantity as u64).sum();
        let resting_ask: u64 = e.book.asks.iter().map(|x| x.quantity as u64).sum();
        let filled: u64 = e.trades.iter().map(|t| t.quantity as u64).sum();
        assert_eq!(resting_bid + filled, submitted_buy);
        assert_eq!(resting_ask + filled, submitted_sell);
    }
}

#[test]
fn taker_walks_the_asks_in_price_order() {
    let mut book = Book::new();
    book.insert(order(1, Side::Sell, 2, 105));
    book.insert(order(2, Side::Sell, 3, 95));
    let trades = take(&mut book, order(9, Side::Buy, 4, 100));
    assert_eq!(trades.len(), 1);
    assert_eq!(
        trades[0],
        Trade { buyer_order_id: 9, seller_order_id: 2, price: 95, quantity: 3 }
    );
    assert_eq!(book.asks.len(), 1);
    assert_eq!(book.asks[0].id, 1);
}

#[test]
fn remove_head_discards_best() {
    let mut book = Book::new();
    book.insert(order(1, Side::Sell, 2, 105));
    book.insert(order(2, Side::Sell, 3, 95));
    book.remove_head(Side::Sell);
    assert_eq!(book.asks.len(), 1);
    assert_eq!(book.asks[0].id, 1);
    assert!(book.peek_best(Side::Buy).is_none());
}
