use trading_core::ascending::{lower_bound, Key};
use trading_core::asset::CashAsset;
use trading_core::order::{Order, OrderErr, OrderSide};
use trading_core::order_book::{OrderBook, OrderBookError};
use trading_core::order_queue::{OrderIndex, OrderQueue, OrderQueueError};
use trading_core::timestamp::Timestamp;

fn limit(side: OrderSide, limit_price: u64, quantity: u64) -> Order {
    Order::LimitOrder { side, quantity, limit_price }
}

fn order_book() -> OrderBook {
    let mut book: OrderBook = OrderBook::new();
    let limit_orders: Vec<Order> = vec![
        Order::LimitOrder { side: OrderSide::Buy, limit_price: 690, quantity: 35 },
        Order::LimitOrder { side: OrderSide::Buy, limit_price: 685, quantity: 30 },
        Order::LimitOrder { side: OrderSide::Buy, limit_price: 690, quantity: 15 },
        Order::LimitOrder { side: OrderSide::Sell, limit_price: 700, quantity: 10 },
        Order::LimitOrder { side: OrderSide::Sell, limit_price: 705, quantity: 25 },
        Order::LimitOrder { side: OrderSide::Sell, limit_price: 700, quantity: 30 },
    ];
    for order in limit_orders {
        assert_eq!(book.insert_limit_order(order), Ok(()));
    }
    book
}

#[test]
fn test_insert_limit_order() {
    let book: OrderBook = order_book();
    assert_eq!(book.buy_orders().len(), 3);
    assert_eq!(book.sell_orders().len(), 3);
    assert_eq!(book.buy_orders().get_by_limit_price(690).len(), 2);
    assert_eq!(book.buy_orders().get_by_limit_price(685).len(), 1);
    assert_eq!(book.sell_orders().get_by_limit_price(700).len(), 2);
    assert_eq!(book.sell_orders().get_by_limit_price(705).len(), 1);
}

#[test]
fn test_market_price() {
    let book: OrderBook = order_book();
    assert_eq!(book.best_buy_price().unwrap(), 690);
    assert_eq!(book.best_sell_price().unwrap(), 700);
}

#[test]
fn market_price_is_the_best_of_the_same_side() {
    let book = order_book();
    assert_eq!(book.market_price(OrderSide::Buy), Some(690));
    assert_eq!(book.market_price(OrderSide::Sell), Some(700));
}

#[test]
fn empty_book_has_no_best_price() {
    let book = OrderBook::new();
    assert_eq!(book.best_buy_price(), None);
    assert_eq!(book.best_sell_price(), None);
    assert_eq!(book.market_price(OrderSide::Buy), None);
    assert_eq!(book.market_price(OrderSide::Sell), None);
    assert_eq!(book.id_counter(), 0);
    assert!(book.buy_orders().is_empty());
    assert!(book.sell_orders().is_empty());
}

#[test]
fn best_buy_price_is_the_maximum_of_the_bids() {
    let mut book = OrderBook::new();
    for price in [5u64, 9, 3, 9, 7] {
        assert_eq!(book.insert_limit_order(limit(OrderSide::Buy, price, 1)), Ok(()));
    }
    assert_eq!(book.best_buy_price(), Some(9));
    // a lower bid does not move the best price
    assert_eq!(book.insert_limit_order(limit(OrderSide::Buy, 8, 1)), Ok(()));
    assert_eq!(book.best_buy_price(), Some(9));
    assert_eq!(book.best_sell_price(), None);
}

#[test]
fn best_sell_price_is_the_minimum_of_the_asks() {
    let mut book = OrderBook::new();
    for price in [5u64, 9, 3, 9, 7] {
        assert_eq!(book.insert_limit_order(limit(OrderSide::Sell, price, 1)), Ok(()));
    }
    assert_eq!(book.best_sell_price(), Some(3));
    assert_eq!(book.best_buy_price(), None);
}

#[test]
fn counter_counts_the_accepted_orders() {
    let mut book = OrderBook::new();
    assert_eq!(book.insert_limit_order(limit(OrderSide::Buy, 10, 1)), Ok(()));
    assert_eq!(book.id_counter(), 1);
    assert_eq!(
        book.insert_limit_order(limit(OrderSide::Buy, 10, 0)),
        Err(OrderBookError::Invalid(OrderErr::InvalidQuantity))
    );
    assert_eq!(book.id_counter(), 1);
    assert_eq!(book.insert_limit_order(limit(OrderSide::Sell, 11, 2)), Ok(()));
    assert_eq!(book.id_counter(), 2);
    assert_eq!(
        book.insert_limit_order(Order::MarketOrder { side: OrderSide::Sell, quantity: 4 }),
        Err(OrderBookError::Rejected(OrderQueueError::NotALimitOrder))
    );
    assert_eq!(book.id_counter(), 2);
    assert_eq!(book.buy_orders().len() + book.sell_orders().len(), 2);
}

#[test]
fn ids_are_given_in_order_of_arrival() {
    let book = order_book();
    let bids = book.buy_orders().entries();
    let mut bid_ids: Vec<u64> = bids.iter().map(|e| e.0.order_id).collect();
    bid_ids.sort();
    assert_eq!(bid_ids, vec![0, 1, 2]);
    let asks = book.sell_orders().entries();
    let mut ask_ids: Vec<u64> = asks.iter().map(|e| e.0.order_id).collect();
    ask_ids.sort();
    assert_eq!(ask_ids, vec![3, 4, 5]);
    assert_eq!(book.id_counter(), 6);
}

#[test]
fn fifo_at_a_price_level() {
    let mut book = OrderBook::new();
    assert_eq!(book.insert_limit_order(limit(OrderSide::Buy, 100, 1)), Ok(()));
    assert_eq!(book.insert_limit_order(limit(OrderSide::Buy, 100, 2)), Ok(()));
    let at_100 = book.buy_orders().get_by_limit_price(100);
    assert_eq!(at_100.len(), 2);
    assert_eq!(*at_100[0].1, limit(OrderSide::Buy, 100, 1));
    assert_eq!(*at_100[1].1, limit(OrderSide::Buy, 100, 2));
    assert!(at_100[0].0 < at_100[1].0);
}

#[test]
fn fifo_holds_when_the_clock_steps_back() {
    let mut book = OrderBook::new();
    let late = Timestamp::new(2024, 1, 2, 9, 31, 0, 0);
    let early = Timestamp::new(2024, 1, 2, 9, 30, 0, 0);
    assert_eq!(book.insert_limit_order_at(limit(OrderSide::Sell, 50, 1), late), Ok(()));
    assert_eq!(book.insert_limit_order_at(limit(OrderSide::Sell, 50, 2), early), Ok(()));
    assert_eq!(book.insert_limit_order_at(limit(OrderSide::Sell, 50, 3), late), Ok(()));
    let at_50 = book.sell_orders().get_by_limit_price(50);
    let quantities: Vec<u64> = at_50
        .iter()
        .map(|e| match e.1 {
            Order::LimitOrder { quantity, .. } => *quantity,
            Order::MarketOrder { quantity, .. } => *quantity,
        })
        .collect();
    assert_eq!(quantities, vec![1, 2, 3]);
    // the second order keeps the stamp of the first: at a price stamps never go down
    assert_eq!(at_50[0].0.timestamp, late);
    assert_eq!(at_50[1].0.timestamp, late);
    assert_eq!(at_50[2].0.timestamp, late);
}

#[test]
fn validation_failures_leave_the_book_empty() {
    let mut book = OrderBook::new();
    assert_eq!(
        book.insert_limit_order(limit(OrderSide::Buy, 100, 0)),
        Err(OrderBookError::Invalid(OrderErr::InvalidQuantity))
    );
    assert_eq!(
        book.insert_limit_order(limit(OrderSide::Buy, 0, 1)),
        Err(OrderBookError::Invalid(OrderErr::InvalidPrice))
    );
    assert!(book.buy_orders().is_empty());
    assert!(book.sell_orders().is_empty());
    assert_eq!(book.id_counter(), 0);
}

#[test]
fn validate_checks_quantity_before_price() {
    assert_eq!(limit(OrderSide::Buy, 1, 1).validate(), Ok(()));
    assert_eq!(limit(OrderSide::Sell, 0, 0).validate(), Err(OrderErr::InvalidQuantity));
    assert_eq!(limit(OrderSide::Sell, 0, 7).validate(), Err(OrderErr::InvalidPrice));
    assert_eq!(limit(OrderSide::Sell, 7, 0).validate(), Err(OrderErr::InvalidQuantity));
    let market = Order::MarketOrder { side: OrderSide::Buy, quantity: 3 };
    assert_eq!(market.validate(), Ok(()));
    let empty_market = Order::MarketOrder { side: OrderSide::Buy, quantity: 0 };
    assert_eq!(empty_market.validate(), Err(OrderErr::InvalidQuantity));
}

#[test]
fn side_is_read_from_either_shape() {
    assert_eq!(limit(OrderSide::Sell, 1, 1).side(), OrderSide::Sell);
    assert_eq!(Order::MarketOrder { side: OrderSide::Buy, quantity: 3 }.side(), OrderSide::Buy);
}

#[test]
fn queue_refuses_a_held_id_before_it_looks_at_the_order() {
    let mut queue = OrderQueue::new();
    assert_eq!(queue.insert(7, limit(OrderSide::Buy, 10, 1)), Ok(()));
    assert_eq!(queue.insert(7, limit(OrderSide::Buy, 11, 1)), Err(OrderQueueError::OrderIdExists));
    assert_eq!(
        queue.insert(7, Order::MarketOrder { side: OrderSide::Buy, quantity: 1 }),
        Err(OrderQueueError::OrderIdExists)
    );
    assert_eq!(
        queue.insert(8, Order::MarketOrder { side: OrderSide::Buy, quantity: 1 }),
        Err(OrderQueueError::NotALimitOrder)
    );
    assert_eq!(queue.len(), 1);
}

#[test]
fn queue_keeps_its_entries_in_ascending_key_order() {
    let mut queue = OrderQueue::new();
    let t0 = Timestamp::new(2024, 3, 1, 12, 0, 0, 0);
    let t1 = Timestamp::new(2024, 3, 1, 12, 0, 1, 0);
    assert_eq!(queue.insert_at(4, limit(OrderSide::Buy, 30, 1), t0), Ok(()));
    assert_eq!(queue.insert_at(2, limit(OrderSide::Buy, 10, 1), t1), Ok(()));
    assert_eq!(queue.insert_at(9, limit(OrderSide::Buy, 20, 1), t1), Ok(()));
    assert_eq!(queue.insert_at(1, limit(OrderSide::Buy, 20, 1), t1), Ok(()));
    let keys: Vec<OrderIndex> = queue.entries().iter().map(|e| e.0).collect();
    assert_eq!(
        keys,
        vec![
            OrderIndex::new(10, t1, 2),
            OrderIndex::new(20, t1, 1),
            OrderIndex::new(20, t1, 9),
            OrderIndex::new(30, t0, 4),
        ]
    );
    assert_eq!(queue.first_key_value().map(|kv| *kv.0), Some(OrderIndex::new(10, t1, 2)));
    assert_eq!(queue.last_key_value().map(|kv| *kv.0), Some(OrderIndex::new(30, t0, 4)));
    for pair in keys.windows(2) {
        assert!(pair[0] < pair[1]);
        assert_eq!(pair[0].cmp(&pair[1]), std::cmp::Ordering::Less);
    }
}

#[test]
fn queue_finds_an_entry_by_its_id() {
    let mut queue = OrderQueue::new();
    let t = Timestamp::new(2024, 3, 1, 12, 0, 0, 0);
    assert_eq!(queue.insert_at(4, limit(OrderSide::Sell, 30, 5), t), Ok(()));
    assert_eq!(queue.insert_at(2, limit(OrderSide::Sell, 10, 6), t), Ok(()));
    let found = queue.get_by_order_id(4).unwrap();
    assert_eq!(*found.0, OrderIndex::new(30, t, 4));
    assert_eq!(*found.1, limit(OrderSide::Sell, 30, 5));
    assert!(queue.get_by_order_id(3).is_none());
    assert!(queue.get_by_limit_price(20).is_empty());
}

#[test]
fn empty_queue_has_no_first_or_last() {
    let queue = OrderQueue::new();
    assert!(queue.first_key_value().is_none());
    assert!(queue.last_key_value().is_none());
    assert_eq!(queue.len(), 0);
    assert!(queue.entries().is_empty());
}

#[test]
fn keys_order_by_price_then_stamp_then_id() {
    let t0 = Timestamp::new(2024, 3, 1, 12, 0, 0, 0);
    let t1 = Timestamp::new(2024, 3, 1, 12, 0, 0, 1);
    assert!(OrderIndex::new(1, t1, 9).is_before(&OrderIndex::new(2, t0, 0)));
    assert!(OrderIndex::new(1, t0, 9).is_before(&OrderIndex::new(1, t1, 0)));
    assert!(OrderIndex::new(1, t0, 0).is_before(&OrderIndex::new(1, t0, 1)));
    assert!(!OrderIndex::new(1, t0, 1).is_before(&OrderIndex::new(1, t0, 1)));
    assert_eq!(
        OrderIndex::new(1, t0, 1).partial_cmp(&OrderIndex::new(1, t0, 1)),
        Some(std::cmp::Ordering::Equal)
    );
    assert_eq!(
        OrderIndex::new(2, t0, 1).partial_cmp(&OrderIndex::new(1, t1, 5)),
        Some(std::cmp::Ordering::Greater)
    );
}

#[test]
fn stamps_order_field_by_field() {
    let base = Timestamp::new(2024, 3, 1, 12, 30, 30, 500);
    assert!(Timestamp::new(2023, 12, 31, 23, 59, 59, 999).is_before(&base));
    assert!(Timestamp::new(2024, 2, 28, 23, 59, 59, 999).is_before(&base));
    assert!(Timestamp::new(2024, 3, 1, 12, 30, 30, 499).is_before(&base));
    assert!(!base.is_before(&base));
    assert!(base.is_before(&Timestamp::new(2024, 3, 1, 12, 30, 31, 0)));
    assert!(Timestamp::earliest().is_before(&base));
    assert_eq!(base.later(&Timestamp::midnight(2024, 3, 2)), Timestamp::midnight(2024, 3, 2));
    assert_eq!(base.later(&Timestamp::midnight(2024, 3, 1)), base);
    assert_eq!(Timestamp::midnight(2024, 3, 2), Timestamp::new(2024, 3, 2, 0, 0, 0, 0));
    assert!(Timestamp::midnight(2024, 3, 1) < base);
}

#[test]
fn price_levels_are_found_among_many() {
    let mut book = OrderBook::new();
    let mut expected: Vec<Vec<u64>> = vec![Vec::new(); 8];
    let mut seed: u64 = 12345;
    for n in 0..200u64 {
        seed = seed.wrapping_mul(6364136223846793005).wrapping_add(1442695040888963407);
        let price = 1 + (seed >> 33) % 7;
        let now = Timestamp::new(2024, 1, 1, 0, 0, ((seed >> 20) % 60) as u32, 0);
        assert_eq!(
            book.insert_limit_order_at(limit(OrderSide::Buy, price, n + 1), now),
            Ok(())
        );
        expected[price as usize].push(n);
    }
    for price in 0..8u64 {
        let level = book.buy_orders().get_by_limit_price(price);
        let ids: Vec<u64> = level.iter().map(|e| e.0.order_id).collect();
        assert_eq!(ids, expected[price as usize], "level {}", price);
        for e in level.iter() {
            assert_eq!(e.0.limit_price, price);
            assert_eq!(*e.1, limit(OrderSide::Buy, price, e.0.order_id + 1));
        }
    }
    assert!(book.buy_orders().get_by_limit_price(u64::MAX).is_empty());
    assert_eq!(book.best_buy_price(), Some(7));
    let all = book.buy_orders().entries();
    assert_eq!(all.len(), 200);
    for pair in all.windows(2) {
        assert!(pair[0].0 < pair[1].0);
    }
}

#[test]
fn a_queue_is_cloned_with_its_entries() {
    let mut queue = OrderQueue::new();
    let t = Timestamp::new(2024, 3, 1, 12, 0, 0, 0);
    assert_eq!(queue.insert_at(4, limit(OrderSide::Sell, 30, 5), t), Ok(()));
    let mut copy = queue.clone();
    assert_eq!(copy.entries(), queue.entries());
    assert_eq!(copy.insert_at(5, limit(OrderSide::Sell, 30, 6), Timestamp::earliest()), Ok(()));
    assert_eq!(copy.len(), 2);
    assert_eq!(queue.len(), 1);
    // the copy holds the stamps of its level too
    assert_eq!(copy.entries()[1].0.timestamp, t);
}

#[test]
fn the_clock_stamps_an_order_of_the_present() {
    let mut queue = OrderQueue::new();
    assert_eq!(queue.insert(1, limit(OrderSide::Buy, 10, 1)), Ok(()));
    let stamp = queue.first_key_value().unwrap().0.timestamp;
    assert!(stamp.year >= 1970);
    assert!((1..=12).contains(&stamp.month));
    assert!((1..=31).contains(&stamp.day));
    assert!(stamp.hour < 24 && stamp.minute < 60 && stamp.second < 60);
    assert!(!stamp.is_before(&Timestamp::new(1970, 1, 1, 0, 0, 0, 0)));
}

#[test]
fn cash_is_known_by_its_currency() {
    let cash = CashAsset { currency: "USD".to_string() };
    assert_eq!(cash.currency, "USD");
    assert_eq!(cash.clone(), cash);
}

#[test]
fn the_stamp_of_another_price_does_not_hold_the_clock_back() {
    let mut queue = OrderQueue::new();
    let late = Timestamp::new(2024, 1, 2, 9, 31, 0, 0);
    let early = Timestamp::new(2024, 1, 2, 9, 30, 0, 0);
    let between = Timestamp::new(2024, 1, 2, 9, 30, 30, 0);
    assert_eq!(queue.insert_at(1, limit(OrderSide::Buy, 200, 1), late), Ok(()));
    assert_eq!(queue.insert_at(2, limit(OrderSide::Buy, 100, 1), early), Ok(()));
    assert_eq!(queue.first_key_value().map(|kv| *kv.0), Some(OrderIndex::new(100, early, 2)));
    // a higher price with a later stamp, and a lower price with an earlier one
    assert_eq!(queue.insert_at(3, limit(OrderSide::Buy, 150, 1), between), Ok(()));
    assert_eq!(queue.insert_at(4, limit(OrderSide::Buy, u64::MAX, 1), early), Ok(()));
    assert_eq!(queue.insert_at(5, limit(OrderSide::Buy, 150, 1), early), Ok(()));
    let keys: Vec<OrderIndex> = queue.entries().iter().map(|e| e.0).collect();
    assert_eq!(
        keys,
        vec![
            OrderIndex::new(100, early, 2),
            OrderIndex::new(150, between, 3),
            OrderIndex::new(150, between, 5),
            OrderIndex::new(200, late, 1),
            OrderIndex::new(u64::MAX, early, 4),
        ]
    );
}

#[test]
fn the_book_stamps_with_the_clock_where_the_level_allows() {
    let mut book = OrderBook::new();
    let late = Timestamp::new(2024, 1, 2, 9, 31, 0, 0);
    let early = Timestamp::new(2024, 1, 2, 9, 30, 0, 0);
    assert_eq!(book.insert_limit_order_at(limit(OrderSide::Buy, 200, 1), late), Ok(()));
    assert_eq!(book.insert_limit_order_at(limit(OrderSide::Buy, 100, 1), early), Ok(()));
    assert_eq!(book.insert_limit_order_at(limit(OrderSide::Sell, 300, 1), early), Ok(()));
    assert_eq!(book.buy_orders().get_by_limit_price(100)[0].0.timestamp, early);
    assert_eq!(book.buy_orders().get_by_limit_price(200)[0].0.timestamp, late);
    assert_eq!(book.sell_orders().get_by_limit_price(300)[0].0.timestamp, early);
}

#[test]
fn the_best_bid_never_drops_through_an_insertion() {
    let mut book = OrderBook::new();
    let mut best: Option<u64> = None;
    for price in [40u64, 10, 40, 55, 54, 1, 90, 90, 3] {
        assert_eq!(book.insert_limit_order(limit(OrderSide::Buy, price, 2)), Ok(()));
        let expected = price.max(best.unwrap_or(0));
        assert_eq!(book.best_buy_price(), Some(expected));
        best = Some(expected);
    }
    assert_eq!(book.best_sell_price(), None);
}

#[test]
fn the_best_ask_never_rises_through_an_insertion() {
    let mut book = OrderBook::new();
    let mut best: Option<u64> = None;
    for price in [40u64, 70, 40, 35, 36, 90, 2, 2, 3] {
        assert_eq!(book.insert_limit_order(limit(OrderSide::Sell, price, 2)), Ok(()));
        let expected = price.min(best.unwrap_or(u64::MAX));
        assert_eq!(book.best_sell_price(), Some(expected));
        best = Some(expected);
    }
    assert_eq!(book.best_buy_price(), None);
}

#[test]
fn the_ids_in_the_book_are_those_below_the_counter() {
    let mut book = OrderBook::new();
    let orders = [
        limit(OrderSide::Buy, 10, 1),
        limit(OrderSide::Sell, 12, 0),
        limit(OrderSide::Sell, 12, 1),
        Order::MarketOrder { side: OrderSide::Buy, quantity: 1 },
        limit(OrderSide::Buy, 0, 1),
        limit(OrderSide::Buy, 11, 1),
        limit(OrderSide::Sell, 13, 1),
    ];
    let mut succeeded = 0u64;
    for order in orders {
        if book.insert_limit_order(order).is_ok() {
            succeeded += 1;
        }
        assert_eq!(book.id_counter(), succeeded);
        let mut ids: Vec<u64> = book
            .buy_orders()
            .entries()
            .iter()
            .chain(book.sell_orders().entries().iter())
            .map(|e| e.0.order_id)
            .collect();
        ids.sort();
        assert_eq!(ids, (0..succeeded).collect::<Vec<u64>>());
    }
    assert_eq!(succeeded, 4);
}

#[test]
fn bisection_finds_the_place_of_a_key() {
    let stamps: Vec<(Timestamp, u8)> = (1..=9u32)
        .map(|day| (Timestamp::midnight(2024, 5, 2 * day), day as u8))
        .collect();
    assert_eq!(lower_bound(&stamps, &Timestamp::midnight(2024, 5, 1)), 0);
    assert_eq!(lower_bound(&stamps, &Timestamp::midnight(2024, 5, 2)), 0);
    assert_eq!(lower_bound(&stamps, &Timestamp::midnight(2024, 5, 3)), 1);
    assert_eq!(lower_bound(&stamps, &Timestamp::midnight(2024, 5, 10)), 4);
    assert_eq!(lower_bound(&stamps, &Timestamp::midnight(2024, 5, 18)), 8);
    assert_eq!(lower_bound(&stamps, &Timestamp::midnight(2024, 5, 19)), 9);
    let none: Vec<(OrderIndex, u8)> = Vec::new();
    let key = OrderIndex::new(1, Timestamp::earliest(), 0);
    assert_eq!(lower_bound(&none, &key), 0);
    assert!(key.key_is_before(&OrderIndex::new(1, Timestamp::earliest(), 1)));
    assert!(!Timestamp::midnight(2024, 5, 2).key_is_before(&Timestamp::midnight(2024, 5, 2)));
}
