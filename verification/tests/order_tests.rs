use market_game::error::ErrorType;
use market_game::order::Order;
use market_game::order::OrderMode;
use market_game::order::OrderPlacement;
use market_game::order::OrderSide;

fn make(side: OrderSide, mode: OrderMode, asset: u128) -> Order {
    Order::stamped(1, 10, 2, asset, side, 5, mode, 99).unwrap()
}

#[test]
fn stamped_keeps_every_field() {
    let o = Order::stamped(7, 8, 9, 10, OrderSide::Sell, 11, OrderMode::Limit(12), 13).unwrap();
    assert_eq!(o.id, 7);
    assert_eq!(o.created_at, 8);
    assert_eq!(o.portfolio, 9);
    assert_eq!(o.asset, 10);
    assert_eq!(o.side, OrderSide::Sell);
    assert_eq!(o.quantity, 11);
    assert_eq!(o.mode, OrderMode::Limit(12));
    assert_eq!(o.expires, 13);
}

#[test]
fn zero_quantity_is_rejected() {
    assert_eq!(
        Order::stamped(1, 1, 1, 1, OrderSide::Buy, 0, OrderMode::Limit(1), 1),
        Err(ErrorType::QuantityCantBeZero)
    );
    assert_eq!(
        Order::new(1, 1, OrderSide::Buy, 0, OrderMode::Limit(0), 1),
        Err(ErrorType::QuantityCantBeZero)
    );
    assert_eq!(Order::new(1, 1, OrderSide::Buy, 0, OrderMode::Best, 1), Err(ErrorType::QuantityCantBeZero));
}

#[test]
fn zero_limit_is_rejected() {
    assert_eq!(
        Order::stamped(1, 1, 1, 1, OrderSide::Buy, 3, OrderMode::Limit(0), 1),
        Err(ErrorType::LimitCantBeZero)
    );
    assert_eq!(Order::new(1, 1, OrderSide::Sell, 3, OrderMode::Limit(0), 1), Err(ErrorType::LimitCantBeZero));
}

#[test]
fn new_order_carries_what_it_was_given() {
    let o = Order::new(3, 4, OrderSide::Buy, 5, OrderMode::Limit(6), 7).unwrap();
    assert_eq!(o.portfolio, 3);
    assert_eq!(o.asset, 4);
    assert_eq!(o.side, OrderSide::Buy);
    assert_eq!(o.quantity, 5);
    assert_eq!(o.mode, OrderMode::Limit(6));
    assert_eq!(o.expires, 7);
    let best = Order::new(3, 4, OrderSide::Sell, 1, OrderMode::Best, 7).unwrap();
    assert_eq!(best.mode, OrderMode::Best);
}

#[test]
fn new_orders_carry_random_identifiers() {
    let mask: u128 = 0x0000_0000_0000_f000_c000_0000_0000_0000;
    let marks: u128 = 0x0000_0000_0000_4000_8000_0000_0000_0000;
    let a = Order::new(3, 4, OrderSide::Buy, 5, OrderMode::Limit(6), 7).unwrap();
    let b = Order::new(3, 4, OrderSide::Buy, 5, OrderMode::Limit(6), 7).unwrap();
    assert_eq!(a.id & mask, marks);
    assert_eq!(b.id & mask, marks);
    assert_ne!(a.id, 0);
    assert!(a.created_at > 0);
    assert!(a.created_at <= b.created_at + 1_000_000_000);
}

#[test]
fn placement_becomes_an_order() {
    let placement = OrderPlacement { quantity: 2, mode: OrderMode::Limit(3) };
    let o = placement.into_order(8, 9, OrderSide::Sell, 10).unwrap();
    assert_eq!((o.portfolio, o.asset, o.side, o.quantity, o.mode, o.expires), (8, 9, OrderSide::Sell, 2, OrderMode::Limit(3), 10));
    let nothing = OrderPlacement { quantity: 0, mode: OrderMode::Best };
    assert_eq!(nothing.into_order(8, 9, OrderSide::Sell, 10), Err(ErrorType::QuantityCantBeZero));
}

#[test]
fn get_limit_of_each_mode() {
    assert_eq!(OrderMode::Limit(4).get_limit(), Ok(4));
    assert_eq!(OrderMode::Best.get_limit(), Err(ErrorType::NoLimitForBestOrder));
}

#[test]
fn matching_needs_the_same_asset_and_opposite_sides() {
    let sell = make(OrderSide::Sell, OrderMode::Limit(3), 1);
    let buy = make(OrderSide::Buy, OrderMode::Limit(3), 1);
    let buy_elsewhere = make(OrderSide::Buy, OrderMode::Limit(3), 2);
    assert!(sell.matches(&buy));
    assert!(buy.matches(&sell));
    assert!(!sell.matches(&buy_elsewhere));
    assert!(!sell.matches(&sell));
    assert!(!buy.matches(&buy));
}

#[test]
fn matching_by_mode() {
    let best_sell = make(OrderSide::Sell, OrderMode::Best, 1);
    let best_buy = make(OrderSide::Buy, OrderMode::Best, 1);
    let sell_3 = make(OrderSide::Sell, OrderMode::Limit(3), 1);
    let buy_2 = make(OrderSide::Buy, OrderMode::Limit(2), 1);
    let buy_3 = make(OrderSide::Buy, OrderMode::Limit(3), 1);
    let buy_4 = make(OrderSide::Buy, OrderMode::Limit(4), 1);
    assert!(best_sell.matches(&buy_2));
    assert!(buy_2.matches(&best_sell));
    assert!(best_buy.matches(&sell_3));
    assert!(!best_sell.matches(&best_buy));
    assert!(!best_buy.matches(&best_sell));
    assert!(!sell_3.matches(&buy_2));
    assert!(!buy_2.matches(&sell_3));
    assert!(sell_3.matches(&buy_3));
    assert!(buy_3.matches(&sell_3));
    assert!(sell_3.matches(&buy_4));
    assert!(buy_4.matches(&sell_3));
}

#[test]
fn split_gives_two_parts_of_the_same_order() {
    let o = Order::stamped(7, 8, 9, 10, OrderSide::Sell, 11, OrderMode::Limit(12), 13).unwrap();
    let (left, right) = o.split(4).unwrap();
    assert_eq!(left.quantity, 4);
    assert_eq!(right.quantity, 7);
    for part in [left, right] {
        assert_eq!(part.id, 7);
        assert_eq!(part.created_at, 8);
        assert_eq!(part.portfolio, 9);
        assert_eq!(part.asset, 10);
        assert_eq!(part.side, OrderSide::Sell);
        assert_eq!(part.mode, OrderMode::Limit(12));
        assert_eq!(part.expires, 13);
    }
}

#[test]
fn split_needs_a_quantity_strictly_inside() {
    let o = make(OrderSide::Buy, OrderMode::Limit(1), 1);
    assert_eq!(o.split(0), Err(ErrorType::CantSplitOrder));
    assert_eq!(o.split(5), Err(ErrorType::CantSplitOrder));
    assert_eq!(o.split(6), Err(ErrorType::CantSplitOrder));
    assert!(o.split(1).is_ok());
    assert!(o.split(4).is_ok());
}
