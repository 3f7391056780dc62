use orderbook_rust::orderbook::BookError;
use orderbook_rust::orderbook::OrderBook;
use orderbook_rust::orderbook::OrderSide;

#[test]
fn test_only_bids() {
    let mut book = OrderBook::new();
    let mut id: u64 = 1;
    for price in 10..1000u32 {
        book.add_order(id, price, 10, OrderSide::Buy).unwrap();
        id += 1;
    }
    assert_eq!(book.best_bid(), Some(999));
    assert_eq!(book.best_ask(), None);
    let (bids, asks, levels, orders) = book.meta();
    assert_eq!(bids, 990);
    assert_eq!(asks, 0);
    assert_eq!(levels, 990);
    assert_eq!(orders, 990);
    for price in 10..1000u32 {
        assert_eq!(book.level_at(OrderSide::Buy, price), Some((10, 1)));
    }
}

#[test]
fn test_only_asks() {
    let mut book = OrderBook::new();
    let mut id: u64 = 1;
    for price in 10..1000u32 {
        book.add_order(id, price, 10, OrderSide::Sell).unwrap();
        id += 1;
    }
    assert_eq!(book.best_ask(), Some(10));
    assert_eq!(book.best_bid(), None);
    let (bids, asks, _, _) = book.meta();
    assert_eq!(bids, 0);
    assert_eq!(asks, 990);
}

#[test]
fn test_simple_non_crossing_add() {
    let mut book = OrderBook::new();
    book.add_order(1, 10, 10, OrderSide::Sell).unwrap();
    book.add_order(2, 11, 10, OrderSide::Sell).unwrap();
    book.add_order(3, 9, 10, OrderSide::Buy).unwrap();
    assert_eq!(book.best_bid(), Some(9));
    assert_eq!(book.best_ask(), Some(10));
    assert_eq!(book.spread(), Some(1));
    assert_eq!(book.meta(), (1, 2, 3, 3));
}

#[test]
fn test_partial_execute_then_delete() {
    let mut book = OrderBook::new();
    book.add_order(1, 100, 10, OrderSide::Buy).unwrap();
    book.execute_order(1, 3).unwrap();
    assert_eq!(book.level_at(OrderSide::Buy, 100), Some((7, 1)));
    assert_eq!(book.order_residual(1), Some(7));
    book.delete_order(1).unwrap();
    assert_eq!(book.level_at(OrderSide::Buy, 100), None);
    assert_eq!(book.best_bid(), None);
    assert_eq!(book.meta(), (0, 0, 0, 0));
}

#[test]
fn test_replace() {
    let mut book = OrderBook::new();
    book.add_order(1, 100, 10, OrderSide::Buy).unwrap();
    book.replace_order(1, 2, 101, 5).unwrap();
    assert_eq!(book.order_residual(1), None);
    assert_eq!(book.order_residual(2), Some(5));
    assert_eq!(book.level_at(OrderSide::Buy, 100), None);
    assert_eq!(book.level_at(OrderSide::Buy, 101), Some((5, 1)));
    assert_eq!(book.best_bid(), Some(101));
    let (bids, _, _, _) = book.meta();
    assert_eq!(bids, 1);
}

#[test]
fn test_level_collapse() {
    let mut book = OrderBook::new();
    book.add_order(1, 50, 4, OrderSide::Sell).unwrap();
    book.add_order(2, 50, 5, OrderSide::Sell).unwrap();
    book.add_order(3, 50, 6, OrderSide::Sell).unwrap();
    assert_eq!(book.level_at(OrderSide::Sell, 50), Some((15, 3)));
    book.execute_order(1, 4).unwrap();
    book.execute_order(2, 5).unwrap();
    book.execute_order(3, 6).unwrap();
    assert_eq!(book.level_at(OrderSide::Sell, 50), None);
    assert_eq!(book.best_ask(), None);
    assert_eq!(book.meta(), (0, 0, 0, 0));
}

#[test]
fn test_depth_and_volume_aggregation() {
    let mut book = OrderBook::new();
    for id in 1..=5u64 {
        book.add_order(id, 10, 5, OrderSide::Sell).unwrap();
    }
    assert_eq!(book.level_at(OrderSide::Sell, 10), Some((25, 5)));
    book.cancel_order(2, 5).unwrap();
    assert_eq!(book.level_at(OrderSide::Sell, 10), Some((20, 4)));
    book.execute_order(3, 2).unwrap();
    assert_eq!(book.level_at(OrderSide::Sell, 10), Some((18, 4)));
}

#[test]
fn test_crossed_book_spread_is_none() {
    let mut book = OrderBook::new();
    book.add_order(1, 100, 10, OrderSide::Buy).unwrap();
    book.add_order(2, 50, 10, OrderSide::Sell).unwrap();
    assert_eq!(book.best_bid(), Some(100));
    assert_eq!(book.best_ask(), Some(50));
    assert_eq!(book.spread(), None);
}

#[test]
fn test_spread_requires_both_sides() {
    let mut book = OrderBook::new();
    assert_eq!(book.spread(), None);
    book.add_order(1, 100, 10, OrderSide::Buy).unwrap();
    assert_eq!(book.spread(), None);
    book.add_order(2, 103, 10, OrderSide::Sell).unwrap();
    assert_eq!(book.spread(), Some(3));
}

fn observables(book: &OrderBook, prices: &[u32]) -> Vec<Option<(u32, usize)>> {
    let mut out = Vec::new();
    for &p in prices {
        out.push(book.level_at(OrderSide::Buy, p));
        out.push(book.level_at(OrderSide::Sell, p));
    }
    out
}

#[test]
fn test_add_delete_inverse_scenario() {
    let prices: Vec<u32> = (95..106).collect();
    let mut a = OrderBook::new();
    let mut b = OrderBook::new();
    for book in [&mut a, &mut b] {
        book.add_order(1, 100, 10, OrderSide::Buy).unwrap();
        book.add_order(2, 101, 4, OrderSide::Sell).unwrap();
        book.add_order(3, 101, 6, OrderSide::Sell).unwrap();
    }
    // a new level is born and dies again
    a.add_order(50, 99, 7, OrderSide::Buy).unwrap();
    a.delete_order(50).unwrap();
    // an existing level swells and shrinks back
    a.add_order(51, 101, 3, OrderSide::Sell).unwrap();
    a.delete_order(51).unwrap();
    assert_eq!(observables(&a, &prices), observables(&b, &prices));
    assert_eq!(a.best_bid(), b.best_bid());
    assert_eq!(a.best_ask(), b.best_ask());
    let (ab, aa, al, _) = a.meta();
    let (bb, ba, bl, _) = b.meta();
    assert_eq!((ab, aa, al), (bb, ba, bl));
}

#[test]
fn test_replace_decomposition_scenario() {
    let prices: Vec<u32> = (95..106).collect();
    let mut a = OrderBook::new();
    let mut b = OrderBook::new();
    for book in [&mut a, &mut b] {
        book.add_order(1, 100, 10, OrderSide::Buy).unwrap();
        book.add_order(2, 104, 5, OrderSide::Sell).unwrap();
    }
    a.replace_order(1, 3, 102, 8).unwrap();
    b.delete_order(1).unwrap();
    b.add_order(3, 102, 8, OrderSide::Buy).unwrap();
    assert_eq!(observables(&a, &prices), observables(&b, &prices));
    assert_eq!(a.best_bid(), b.best_bid());
    assert_eq!(a.order_residual(3), b.order_residual(3));
    assert_eq!(a.meta(), b.meta());
}

#[test]
fn test_execute_associative_scenario() {
    let mut a = OrderBook::new();
    let mut b = OrderBook::new();
    for book in [&mut a, &mut b] {
        book.add_order(1, 100, 10, OrderSide::Buy).unwrap();
        book.add_order(2, 100, 3, OrderSide::Buy).unwrap();
    }
    a.execute_order(1, 2).unwrap();
    a.execute_order(1, 3).unwrap();
    b.execute_order(1, 5).unwrap();
    assert_eq!(a.level_at(OrderSide::Buy, 100), b.level_at(OrderSide::Buy, 100));
    assert_eq!(a.order_residual(1), b.order_residual(1));
    assert_eq!(a.meta(), b.meta());
}

#[test]
fn test_cancel_execute_equivalence_scenario() {
    let mut a = OrderBook::new();
    let mut b = OrderBook::new();
    for book in [&mut a, &mut b] {
        book.add_order(1, 70, 9, OrderSide::Sell).unwrap();
    }
    a.cancel_order(1, 4).unwrap();
    b.execute_order(1, 4).unwrap();
    assert_eq!(a.level_at(OrderSide::Sell, 70), b.level_at(OrderSide::Sell, 70));
    assert_eq!(a.order_residual(1), b.order_residual(1));
    assert_eq!(a.meta(), b.meta());
}

#[test]
fn test_full_execution_kills_order() {
    let mut book = OrderBook::new();
    book.add_order(1, 100, 10, OrderSide::Buy).unwrap();
    book.add_order(2, 100, 5, OrderSide::Buy).unwrap();
    book.execute_order(1, 10).unwrap();
    // the level survives with the second order alone
    assert_eq!(book.order_residual(1), None);
    assert_eq!(book.level_at(OrderSide::Buy, 100), Some((5, 1)));
    // a dead id cannot be touched again
    assert_eq!(book.execute_order(1, 1), Err(BookError::UnknownOrder));
}

#[test]
fn test_unknown_order_errors() {
    let mut book = OrderBook::new();
    assert_eq!(book.execute_order(7, 1), Err(BookError::UnknownOrder));
    assert_eq!(book.cancel_order(7, 1), Err(BookError::UnknownOrder));
    assert_eq!(book.delete_order(7), Err(BookError::UnknownOrder));
    assert_eq!(book.replace_order(7, 8, 10, 1), Err(BookError::UnknownOrder));
}

#[test]
fn test_duplicate_order_error() {
    let mut book = OrderBook::new();
    book.add_order(1, 100, 10, OrderSide::Buy).unwrap();
    assert_eq!(book.add_order(1, 101, 5, OrderSide::Buy), Err(BookError::DuplicateOrder));
    // the failed add changed nothing
    assert_eq!(book.level_at(OrderSide::Buy, 101), None);
    book.add_order(2, 90, 2, OrderSide::Buy).unwrap();
    assert_eq!(book.replace_order(1, 2, 95, 4), Err(BookError::DuplicateOrder));
}

#[test]
fn test_zero_volume_error() {
    let mut book = OrderBook::new();
    assert_eq!(book.add_order(1, 100, 0, OrderSide::Buy), Err(BookError::ZeroVolume));
    book.add_order(1, 100, 10, OrderSide::Buy).unwrap();
    assert_eq!(book.replace_order(1, 2, 101, 0), Err(BookError::ZeroVolume));
}

#[test]
fn test_volume_exceeds_residual_error() {
    let mut book = OrderBook::new();
    book.add_order(1, 100, 10, OrderSide::Buy).unwrap();
    assert_eq!(book.execute_order(1, 11), Err(BookError::VolumeExceedsResidual));
    assert_eq!(book.cancel_order(1, 11), Err(BookError::VolumeExceedsResidual));
    // the order is untouched
    assert_eq!(book.order_residual(1), Some(10));
}

#[test]
fn test_volume_overflow_error() {
    let mut book = OrderBook::new();
    book.add_order(1, 10, u32::MAX, OrderSide::Sell).unwrap();
    assert_eq!(book.add_order(2, 10, 1, OrderSide::Sell), Err(BookError::VolumeOverflow));
    // a different price is fine
    book.add_order(2, 11, 1, OrderSide::Sell).unwrap();
    assert_eq!(book.replace_order(2, 3, 10, 1), Err(BookError::VolumeOverflow));
}

#[test]
fn test_replace_can_reuse_old_id() {
    let mut book = OrderBook::new();
    book.add_order(1, 100, 10, OrderSide::Sell).unwrap();
    book.replace_order(1, 1, 99, 6).unwrap();
    assert_eq!(book.order_residual(1), Some(6));
    assert_eq!(book.level_at(OrderSide::Sell, 99), Some((6, 1)));
    assert_eq!(book.level_at(OrderSide::Sell, 100), None);
}

#[test]
fn test_ladder_order_is_kept() {
    let mut book = OrderBook::new();
    // arrivals out of price order still land sorted
    book.add_order(1, 30, 1, OrderSide::Buy).unwrap();
    book.add_order(2, 10, 1, OrderSide::Buy).unwrap();
    book.add_order(3, 20, 1, OrderSide::Buy).unwrap();
    book.add_order(4, 25, 1, OrderSide::Buy).unwrap();
    assert_eq!(book.best_bid(), Some(30));
    book.delete_order(1).unwrap();
    assert_eq!(book.best_bid(), Some(25));
    book.delete_order(4).unwrap();
    assert_eq!(book.best_bid(), Some(20));
    book.delete_order(3).unwrap();
    assert_eq!(book.best_bid(), Some(10));
}
