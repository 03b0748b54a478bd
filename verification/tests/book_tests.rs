use market_game::book::quantity_total;
use market_game::book::Book;
use market_game::error::ErrorType;
use market_game::order::Order;
use market_game::order::OrderMode;
use market_game::order::OrderSide;

const A: u128 = 100;

fn order(id: u128, at: u128, side: OrderSide, quantity: usize, mode: OrderMode) -> Order {
    Order::stamped(id, at, 1, A, side, quantity, mode, 0).unwrap()
}

fn ids(orders: &Vec<Order>) -> Vec<u128> {
    orders.iter().map(|o| o.id).collect()
}

#[test]
fn new_book_is_empty() {
    let book = Book::new(A);
    assert_eq!(book.asset_id, A);
    assert!(book.sell_orders.is_empty());
    assert!(book.buy_orders.is_empty());
}

#[test]
fn sells_rest_lowest_price_first() {
    let mut book = Book::new(A);
    for (id, price) in [(1, 5), (2, 3), (3, 4), (4, 1), (5, 9)] {
        assert_eq!(book.add_order(order(id, id, OrderSide::Sell, 1, OrderMode::Limit(price))), Ok(()));
    }
    assert_eq!(ids(&book.sell_orders), vec![4, 2, 3, 1, 5]);
    assert!(book.buy_orders.is_empty());
}

#[test]
fn buys_rest_highest_price_first() {
    let mut book = Book::new(A);
    for (id, price) in [(1, 5), (2, 3), (3, 4), (4, 1), (5, 9)] {
        assert_eq!(book.add_order(order(id, id, OrderSide::Buy, 1, OrderMode::Limit(price))), Ok(()));
    }
    assert_eq!(ids(&book.buy_orders), vec![5, 1, 3, 2, 4]);
    assert!(book.sell_orders.is_empty());
}

#[test]
fn equal_prices_rest_earliest_first() {
    let mut book = Book::new(A);
    assert_eq!(book.add_order(order(1, 30, OrderSide::Sell, 1, OrderMode::Limit(2))), Ok(()));
    assert_eq!(book.add_order(order(2, 10, OrderSide::Sell, 1, OrderMode::Limit(2))), Ok(()));
    assert_eq!(book.add_order(order(3, 20, OrderSide::Sell, 1, OrderMode::Limit(2))), Ok(()));
    assert_eq!(book.add_order(order(4, 20, OrderSide::Sell, 1, OrderMode::Limit(2))), Ok(()));
    assert_eq!(ids(&book.sell_orders), vec![2, 3, 4, 1]);
    assert_eq!(book.add_order(order(5, 30, OrderSide::Buy, 1, OrderMode::Limit(2))), Ok(()));
    assert_eq!(book.add_order(order(6, 10, OrderSide::Buy, 1, OrderMode::Limit(2))), Ok(()));
    assert_eq!(book.add_order(order(7, 20, OrderSide::Buy, 1, OrderMode::Limit(3))), Ok(()));
    assert_eq!(ids(&book.buy_orders), vec![7, 6, 5]);
}

#[test]
fn best_order_does_not_rest() {
    let mut book = Book::new(A);
    assert_eq!(
        book.add_order(order(1, 1, OrderSide::Sell, 1, OrderMode::Best)),
        Err(ErrorType::NotEnoughMatchingOrdersToImmediatelyFillBestOrder)
    );
    assert_eq!(
        book.add_order(order(2, 1, OrderSide::Buy, 1, OrderMode::Best)),
        Err(ErrorType::NotEnoughMatchingOrdersToImmediatelyFillBestOrder)
    );
    assert!(book.sell_orders.is_empty());
    assert!(book.buy_orders.is_empty());
}

#[test]
fn remove_takes_the_order_from_its_side() {
    let mut book = Book::new(A);
    book.add_order(order(1, 1, OrderSide::Sell, 1, OrderMode::Limit(1))).unwrap();
    book.add_order(order(2, 2, OrderSide::Sell, 1, OrderMode::Limit(2))).unwrap();
    book.add_order(order(3, 3, OrderSide::Buy, 1, OrderMode::Limit(1))).unwrap();
    book.remove_order(1);
    assert_eq!(ids(&book.sell_orders), vec![2]);
    assert_eq!(ids(&book.buy_orders), vec![3]);
    book.remove_order(3);
    assert_eq!(ids(&book.sell_orders), vec![2]);
    assert!(book.buy_orders.is_empty());
}

#[test]
fn remove_of_an_absent_order_changes_nothing() {
    let mut book = Book::new(A);
    book.add_order(order(1, 1, OrderSide::Sell, 1, OrderMode::Limit(1))).unwrap();
    book.add_order(order(3, 3, OrderSide::Buy, 1, OrderMode::Limit(1))).unwrap();
    book.remove_order(42);
    assert_eq!(ids(&book.sell_orders), vec![1]);
    assert_eq!(ids(&book.buy_orders), vec![3]);
}

#[test]
fn get_order_finds_by_id() {
    let mut book = Book::new(A);
    book.add_order(order(1, 1, OrderSide::Sell, 4, OrderMode::Limit(1))).unwrap();
    book.add_order(order(3, 3, OrderSide::Buy, 6, OrderMode::Limit(1))).unwrap();
    assert_eq!(book.get_order(1).map(|o| o.quantity), Ok(4));
    assert_eq!(book.get_order(3).map(|o| o.quantity), Ok(6));
    assert_eq!(book.get_order(2).map(|o| o.quantity), Err(ErrorType::OrderNotFound(2)));
}

#[test]
fn candidates_stop_when_the_quantity_is_reached() {
    let mut book = Book::new(A);
    book.add_order(order(1, 1, OrderSide::Sell, 4, OrderMode::Limit(1))).unwrap();
    book.add_order(order(2, 2, OrderSide::Sell, 4, OrderMode::Limit(2))).unwrap();
    book.add_order(order(3, 3, OrderSide::Sell, 4, OrderMode::Limit(3))).unwrap();
    let wants_5 = order(9, 9, OrderSide::Buy, 5, OrderMode::Limit(10));
    assert_eq!(ids(&book.find_best_candidates_to_fill(&wants_5)), vec![1, 2]);
    let wants_4 = order(9, 9, OrderSide::Buy, 4, OrderMode::Limit(10));
    assert_eq!(ids(&book.find_best_candidates_to_fill(&wants_4)), vec![1]);
    let wants_8 = order(9, 9, OrderSide::Buy, 8, OrderMode::Limit(10));
    assert_eq!(ids(&book.find_best_candidates_to_fill(&wants_8)), vec![1, 2]);
    let wants_100 = order(9, 9, OrderSide::Buy, 100, OrderMode::Best);
    assert_eq!(ids(&book.find_best_candidates_to_fill(&wants_100)), vec![1, 2, 3]);
}

#[test]
fn candidates_stop_at_the_first_order_that_does_not_match() {
    let mut book = Book::new(A);
    book.add_order(order(1, 1, OrderSide::Sell, 4, OrderMode::Limit(1))).unwrap();
    book.add_order(order(2, 2, OrderSide::Sell, 4, OrderMode::Limit(5))).unwrap();
    book.add_order(order(3, 3, OrderSide::Buy, 4, OrderMode::Limit(3))).unwrap();
    let buy = order(9, 9, OrderSide::Buy, 100, OrderMode::Limit(4));
    assert_eq!(ids(&book.find_best_candidates_to_fill(&buy)), vec![1]);
    let cheap_buy = order(9, 9, OrderSide::Buy, 100, OrderMode::Limit(0 + 1));
    assert_eq!(ids(&book.find_best_candidates_to_fill(&cheap_buy)), vec![1]);
    let sell = order(9, 9, OrderSide::Sell, 1, OrderMode::Limit(3));
    assert_eq!(ids(&book.find_best_candidates_to_fill(&sell)), vec![3]);
    let dear_sell = order(9, 9, OrderSide::Sell, 1, OrderMode::Limit(4));
    assert!(book.find_best_candidates_to_fill(&dear_sell).is_empty());
}

#[test]
fn quantities_add_up() {
    let orders = vec![
        order(1, 1, OrderSide::Sell, 4, OrderMode::Limit(1)),
        order(2, 1, OrderSide::Sell, usize::MAX, OrderMode::Limit(1)),
        order(3, 1, OrderSide::Sell, 6, OrderMode::Limit(1)),
    ];
    assert_eq!(quantity_total(&orders), usize::MAX as u128 + 10);
    assert_eq!(quantity_total(&Vec::new()), 0);
}
