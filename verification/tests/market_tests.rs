use market_game::book::Book;
use market_game::error::ErrorType;
use market_game::game::Game;
use market_game::game::PublicOrder;
use market_game::market::Market;
use market_game::order::Order;
use market_game::order::OrderMode;
use market_game::order::OrderSide;

const ALICE: u128 = 1;
const BOB: u128 = 2;
const A: u128 = 100;
const B: u128 = 200;

fn market() -> Market {
    let mut game = Game::new();
    game.register_portfolio(ALICE, 1000).unwrap();
    game.register_portfolio(BOB, 1000).unwrap();
    game.register_asset(A, "A".to_string()).unwrap();
    game.register_asset(B, "B".to_string()).unwrap();
    game.set_asset_amount(ALICE, A, 100);
    game.set_asset_amount(BOB, A, 100);
    game.engine.market
}

fn order(id: u128, portfolio: u128, side: OrderSide, quantity: usize, mode: OrderMode) -> Order {
    Order::stamped(id, id, portfolio, A, side, quantity, mode, 0).unwrap()
}

fn coins(m: &Market, p: u128) -> (usize, usize) {
    let c = &m.portfolios.get(&p).unwrap().coins;
    (c.total_amount(), c.locked_amount())
}

fn units(m: &Market, p: u128, a: u128) -> (usize, usize) {
    let c = m.portfolios.get(&p).unwrap().assets.get(&a).unwrap();
    (c.total_amount(), c.locked_amount())
}

#[test]
fn new_market_is_empty() {
    let m = Market::new();
    assert_eq!(m.bank_account, 0);
    assert!(m.portfolios.is_empty());
    assert!(m.assets.is_empty());
    assert!(m.books.is_empty());
}

#[test]
fn lookups_name_what_is_missing() {
    let m = market();
    assert_eq!(m.get_portfolio(ALICE).map(|p| p.id), Ok(ALICE));
    assert_eq!(m.get_portfolio(9).map(|p| p.id), Err(ErrorType::PortfolioNotFound(9)));
    assert_eq!(m.get_order_book(A).map(|b| b.asset_id), Ok(A));
    assert_eq!(m.get_order_book(9).map(|b| b.asset_id), Err(ErrorType::AssetNotFound(9)));
    assert_eq!(m.get_asset(&B).map(|a| a.name.clone()), Ok("B".to_string()));
    assert_eq!(m.get_asset(&9).map(|a| a.id), Err(ErrorType::AssetNotFound(9)));
}

#[test]
fn supplies_are_the_sums_over_the_portfolios() {
    let mut m = market();
    assert_eq!(m.coin_supply(), 2000);
    assert_eq!(m.asset_supply(A), 200);
    assert_eq!(m.asset_supply(B), 0);
    assert_eq!(m.asset_supply(12345), 0);
    m.bill_fee(ALICE, 7).unwrap();
    assert_eq!(m.coin_supply(), 1993);
    assert_eq!(m.bank_account, 7);
}

#[test]
fn bill_fee_takes_free_coins_only() {
    let mut m = market();
    assert_eq!(m.add_order(order(1, ALICE, OrderSide::Buy, 10, OrderMode::Limit(99)), true), Ok(()));
    assert_eq!(coins(&m, ALICE), (1000, 990));
    assert_eq!(m.bill_fee(ALICE, 11), Err(ErrorType::InsufficientFreeAmount));
    assert_eq!(m.bill_fee(ALICE, 10), Ok(()));
    assert_eq!(coins(&m, ALICE), (990, 990));
    assert_eq!(m.bank_account, 10);
    assert_eq!(m.bill_fee(77, 1), Err(ErrorType::PortfolioNotFound(77)));
}

#[test]
fn transfer_coins_from_free_and_from_locked() {
    let mut m = market();
    assert_eq!(m.transfer_coins(ALICE, BOB, 300, false), Ok(()));
    assert_eq!(coins(&m, ALICE), (700, 0));
    assert_eq!(coins(&m, BOB), (1300, 0));
    assert_eq!(m.transfer_coins(ALICE, BOB, 1, true), Err(ErrorType::InsufficientLockedAmount));
    assert_eq!(m.transfer_coins(ALICE, BOB, 701, false), Err(ErrorType::InsufficientFreeAmount));
    assert_eq!(m.transfer_coins(9, ALICE, 1, false), Err(ErrorType::PortfolioNotFound(9)));
    assert_eq!(m.add_order(order(1, BOB, OrderSide::Buy, 10, OrderMode::Limit(5)), true), Ok(()));
    assert_eq!(coins(&m, BOB), (1300, 50));
    assert_eq!(m.transfer_coins(BOB, ALICE, 20, true), Ok(()));
    assert_eq!(coins(&m, BOB), (1280, 30));
    assert_eq!(coins(&m, ALICE), (720, 0));
}

#[test]
fn transfer_asset_from_free_and_from_locked() {
    let mut m = market();
    assert_eq!(m.transfer_asset(ALICE, BOB, A, 30, false), Ok(()));
    assert_eq!(units(&m, ALICE, A), (70, 0));
    assert_eq!(units(&m, BOB, A), (130, 0));
    assert_eq!(m.transfer_asset(ALICE, BOB, A, 1, true), Err(ErrorType::InsufficientLockedAmount));
    assert_eq!(m.transfer_asset(ALICE, BOB, A, 71, false), Err(ErrorType::InsufficientFreeAmount));
    assert_eq!(m.transfer_asset(ALICE, BOB, 9, 1, false), Err(ErrorType::AssetNotFound(9)));
    assert_eq!(m.transfer_asset(9, BOB, A, 1, false), Err(ErrorType::PortfolioNotFound(9)));
    assert_eq!(m.transfer_asset(ALICE, ALICE, A, 5, false), Ok(()));
    assert_eq!(units(&m, ALICE, A), (70, 0));
}

#[test]
fn transfer_to_an_unknown_portfolio_fails_after_the_giver_paid() {
    let mut m = market();
    assert_eq!(m.transfer_asset(ALICE, 9, A, 1, false), Err(ErrorType::PortfolioNotFound(9)));
    assert_eq!(m.transfer_coins(ALICE, 9, 1, false), Err(ErrorType::PortfolioNotFound(9)));
}

#[test]
fn exchange_moves_units_one_way_and_coins_the_other() {
    let mut m = market();
    assert_eq!(m.exchange(ALICE, BOB, A, 4, 25, false, false), Ok(()));
    assert_eq!(units(&m, ALICE, A), (104, 0));
    assert_eq!(units(&m, BOB, A), (96, 0));
    assert_eq!(coins(&m, ALICE), (900, 0));
    assert_eq!(coins(&m, BOB), (1100, 0));
    assert_eq!(m.exchange(ALICE, BOB, A, 2, usize::MAX, false, false), Err(ErrorType::InsufficientFreeAmount));
    assert_eq!(m.exchange(ALICE, BOB, A, 2, usize::MAX, true, false), Err(ErrorType::InsufficientLockedAmount));
}

#[test]
fn add_order_locks_what_the_order_needs() {
    let mut m = market();
    assert_eq!(m.add_order(order(1, ALICE, OrderSide::Sell, 10, OrderMode::Limit(3)), true), Ok(()));
    assert_eq!(units(&m, ALICE, A), (100, 10));
    assert_eq!(coins(&m, ALICE), (1000, 0));
    assert_eq!(m.add_order(order(2, ALICE, OrderSide::Buy, 10, OrderMode::Limit(3)), true), Ok(()));
    assert_eq!(coins(&m, ALICE), (1000, 30));
    assert_eq!(m.add_order(order(3, ALICE, OrderSide::Buy, 10, OrderMode::Limit(1)), false), Ok(()));
    assert_eq!(coins(&m, ALICE), (1000, 30));
    let book = m.get_order_book(A).unwrap();
    assert_eq!(book.sell_orders.len(), 1);
    assert_eq!(book.buy_orders.len(), 2);
}

#[test]
fn add_order_fails_for_each_cause() {
    let mut m = market();
    assert_eq!(
        m.add_order(order(1, ALICE, OrderSide::Sell, 1, OrderMode::Best), true),
        Err(ErrorType::CantLockAmountForBestOrder)
    );
    assert_eq!(
        m.add_order(order(1, ALICE, OrderSide::Buy, 1, OrderMode::Best), true),
        Err(ErrorType::CantLockAmountForBestOrder)
    );
    assert_eq!(
        m.add_order(order(1, ALICE, OrderSide::Buy, 1, OrderMode::Best), false),
        Err(ErrorType::NotEnoughMatchingOrdersToImmediatelyFillBestOrder)
    );
    assert_eq!(
        m.add_order(order(1, 9, OrderSide::Buy, 1, OrderMode::Limit(1)), true),
        Err(ErrorType::PortfolioNotFound(9))
    );
    assert_eq!(
        m.add_order(order(1, ALICE, OrderSide::Sell, 101, OrderMode::Limit(1)), true),
        Err(ErrorType::InsufficientFreeAmount)
    );
    assert_eq!(
        m.add_order(order(1, ALICE, OrderSide::Buy, 1001, OrderMode::Limit(1)), true),
        Err(ErrorType::InsufficientFreeAmount)
    );
    let elsewhere = Order::stamped(1, 1, ALICE, 9, OrderSide::Sell, 1, OrderMode::Limit(1), 0).unwrap();
    assert_eq!(m.add_order(elsewhere, true), Err(ErrorType::AssetNotFound(9)));
    let elsewhere_buy = Order::stamped(1, 1, ALICE, 9, OrderSide::Buy, 1, OrderMode::Limit(1), 0).unwrap();
    assert_eq!(m.add_order(elsewhere_buy, false), Err(ErrorType::AssetNotFound(9)));
}

#[test]
fn remove_order_needs_the_book() {
    let mut m = market();
    m.add_order(order(1, ALICE, OrderSide::Sell, 10, OrderMode::Limit(3)), true).unwrap();
    assert_eq!(m.remove_order(9, 1), Err(ErrorType::AssetNotFound(9)));
    assert_eq!(m.remove_order(A, 2), Ok(()));
    assert_eq!(m.get_order_book(A).unwrap().sell_orders.len(), 1);
    assert_eq!(m.remove_order(A, 1), Ok(()));
    assert!(m.get_order_book(A).unwrap().sell_orders.is_empty());
    // the lock stays: removing is not cancelling
    assert_eq!(units(&m, ALICE, A), (100, 10));
}

#[test]
fn cancel_releases_the_lock() {
    let mut m = market();
    m.add_order(order(1, ALICE, OrderSide::Sell, 10, OrderMode::Limit(3)), true).unwrap();
    m.add_order(order(2, ALICE, OrderSide::Buy, 10, OrderMode::Limit(3)), true).unwrap();
    assert_eq!(m.cancel_order(ALICE, 1, A), Ok(()));
    assert_eq!(units(&m, ALICE, A), (100, 0));
    assert_eq!(coins(&m, ALICE), (1000, 30));
    assert_eq!(m.cancel_order(ALICE, 2, A), Ok(()));
    assert_eq!(coins(&m, ALICE), (1000, 0));
    assert_eq!(m.cancel_order(ALICE, 2, A), Err(ErrorType::OrderNotFound(2)));
}

#[test]
fn cancel_fails_for_each_cause() {
    let mut m = market();
    m.add_order(order(1, ALICE, OrderSide::Sell, 10, OrderMode::Limit(3)), true).unwrap();
    assert_eq!(m.cancel_order(ALICE, 1, 9), Err(ErrorType::AssetNotFound(9)));
    assert_eq!(m.cancel_order(ALICE, 5, A), Err(ErrorType::OrderNotFound(5)));
    assert_eq!(m.cancel_order(BOB, 1, A), Err(ErrorType::OrderNotFound(1)));
    // an order that no lock was taken for
    m.add_order(order(2, BOB, OrderSide::Buy, 10, OrderMode::Limit(3)), false).unwrap();
    assert_eq!(m.cancel_order(BOB, 2, A), Err(ErrorType::InsufficientLockedAmount));
    // an order that rests in the book of another asset than its own
    let mut stray = Book::new(B);
    stray.sell_orders.push(order(3, ALICE, OrderSide::Sell, 1, OrderMode::Limit(1)));
    stray.buy_orders.push(order(4, ALICE, OrderSide::Buy, 1, OrderMode::Best));
    m.books.insert(B, stray);
    assert_eq!(m.cancel_order(ALICE, 3, B), Err(ErrorType::InvalidAssetId));
}

#[test]
fn cancel_of_a_resting_best_order_is_an_invalid_state() {
    let mut m = market();
    let mut broken = Book::new(A);
    broken.buy_orders.push(order(4, ALICE, OrderSide::Buy, 1, OrderMode::Best));
    m.books.insert(A, broken);
    assert_eq!(m.cancel_order(ALICE, 4, A), Err(ErrorType::InvalidState));
}

#[test]
fn process_trade_pays_the_incoming_limit() {
    let mut m = market();
    let resting = order(1, ALICE, OrderSide::Sell, 10, OrderMode::Limit(3));
    m.add_order(resting, true).unwrap();
    let incoming = order(2, BOB, OrderSide::Buy, 10, OrderMode::Limit(7));
    assert_eq!(m.process_trade(incoming, vec![resting]), Ok(()));
    assert_eq!(units(&m, ALICE, A), (90, 0));
    assert_eq!(units(&m, BOB, A), (110, 0));
    assert_eq!(coins(&m, ALICE), (1070, 0));
    assert_eq!(coins(&m, BOB), (930, 0));
    assert!(m.get_order_book(A).unwrap().sell_orders.is_empty());
}

#[test]
fn process_trade_of_two_best_orders_has_no_price() {
    let mut m = market();
    let other = order(1, ALICE, OrderSide::Sell, 1, OrderMode::Best);
    let incoming = order(2, BOB, OrderSide::Buy, 1, OrderMode::Best);
    assert_eq!(m.process_trade(incoming, vec![other]), Err(ErrorType::NoLimitForBestOrder));
}

#[test]
fn fill_order_needs_the_book_of_the_asset() {
    let mut m = market();
    let elsewhere = Order::stamped(1, 1, ALICE, 9, OrderSide::Sell, 1, OrderMode::Limit(1), 0).unwrap();
    assert_eq!(m.fill_order(elsewhere), Err(ErrorType::AssetNotFound(9)));
}

#[test]
fn fill_order_takes_resting_orders_best_first() {
    let mut m = market();
    m.fill_order(order(1, ALICE, OrderSide::Sell, 5, OrderMode::Limit(4))).unwrap();
    m.fill_order(order(2, ALICE, OrderSide::Sell, 5, OrderMode::Limit(2))).unwrap();
    m.fill_order(order(3, ALICE, OrderSide::Sell, 5, OrderMode::Limit(3))).unwrap();
    assert_eq!(units(&m, ALICE, A), (100, 15));
    m.fill_order(order(4, BOB, OrderSide::Buy, 7, OrderMode::Best)).unwrap();
    // 5 units at 2, then 2 units at 3
    assert_eq!(coins(&m, BOB), (1000 - 16, 0));
    assert_eq!(coins(&m, ALICE), (1016, 0));
    assert_eq!(units(&m, ALICE, A), (93, 8));
    let book = m.get_order_book(A).unwrap();
    let left: Vec<(u128, usize)> = book.sell_orders.iter().map(|o| (o.id, o.quantity)).collect();
    assert_eq!(left, vec![(3, 3), (1, 5)]);
}

#[test]
fn clone_is_a_snapshot() {
    let mut m = market();
    let snapshot = m.clone();
    m.fill_order(order(1, ALICE, OrderSide::Sell, 5, OrderMode::Limit(4))).unwrap();
    m.bill_fee(ALICE, 3).unwrap();
    assert_eq!(snapshot.bank_account, 0);
    assert_eq!(coins(&snapshot, ALICE), (1000, 0));
    assert_eq!(units(&snapshot, ALICE, A), (100, 0));
    assert!(snapshot.get_order_book(A).unwrap().sell_orders.is_empty());
    assert_eq!(snapshot.get_asset(&A).unwrap().name, "A");
}

#[test]
fn portfolios_get_a_balance_of_every_asset() {
    let mut game = Game::new();
    assert_eq!(game.register_asset(A, "A".to_string()), Ok(A));
    assert_eq!(game.register_portfolio(ALICE, 10), Ok(ALICE));
    assert_eq!(game.register_asset(B, "B".to_string()), Ok(B));
    assert_eq!(game.register_portfolio(BOB, 20), Ok(BOB));
    for p in [ALICE, BOB] {
        let portfolio = game.engine.market.get_portfolio(p).unwrap();
        assert_eq!(portfolio.id, p);
        let mut keys: Vec<u128> = portfolio.assets.keys().copied().collect();
        keys.sort();
        assert_eq!(keys, vec![A, B]);
        assert_eq!(portfolio.get_asset_account(A).map(|a| a.total_amount()), Ok(0));
        assert_eq!(portfolio.get_asset_account(B).map(|a| a.locked_amount()), Ok(0));
        assert_eq!(portfolio.get_asset_account(9).map(|a| a.locked_amount()), Err(ErrorType::AssetNotFound(9)));
    }
    assert_eq!(game.engine.market.get_portfolio(BOB).unwrap().coins.total_amount(), 20);
    assert_eq!(game.engine.market.get_order_book(B).unwrap().asset_id, B);
    assert_eq!(game.engine.market.get_asset(&B).unwrap().id, B);
}

#[test]
fn taken_identifiers_are_refused() {
    let mut game = Game::new();
    assert_eq!(game.register_asset(A, "A".to_string()), Ok(A));
    assert_eq!(game.register_portfolio(ALICE, 10), Ok(ALICE));
    assert_eq!(game.register_portfolio(ALICE, 99), Err(ErrorType::InvalidState));
    assert_eq!(game.register_asset(A, "again".to_string()), Err(ErrorType::InvalidState));
    assert_eq!(game.engine.market.get_portfolio(ALICE).unwrap().coins.total_amount(), 10);
    assert_eq!(game.engine.market.get_asset(&A).unwrap().name, "A");
    assert_eq!(game.engine.market.portfolios.len(), 1);
}

#[test]
fn more_coins_than_can_be_counted_are_refused() {
    let mut game = Game::new();
    assert_eq!(game.register_portfolio(ALICE, usize::MAX - 5), Ok(ALICE));
    assert_eq!(game.register_portfolio(BOB, 6), Err(ErrorType::InvalidState));
    assert_eq!(game.register_portfolio(BOB, 5), Ok(BOB));
    assert_eq!(game.engine.market.coin_supply(), usize::MAX);
}

#[test]
fn created_portfolios_and_assets_are_found_under_what_is_returned() {
    let mut game = Game::new();
    let a = game.create_asset("gold".to_string()).unwrap();
    let p = game.create_portfolio(12).unwrap();
    let mask: u128 = 0x0000_0000_0000_f000_c000_0000_0000_0000;
    let marks: u128 = 0x0000_0000_0000_4000_8000_0000_0000_0000;
    assert_eq!(a & mask, marks);
    assert_eq!(p & mask, marks);
    assert_eq!(game.engine.market.get_asset(&a).unwrap().name, "gold");
    assert_eq!(game.engine.market.get_asset(&a).unwrap().id, a);
    assert_eq!(game.engine.market.get_order_book(a).unwrap().asset_id, a);
    let portfolio = game.engine.market.get_portfolio(p).unwrap();
    assert_eq!(portfolio.id, p);
    assert_eq!(portfolio.coins.total_amount(), 12);
    assert_eq!(portfolio.get_asset_account(a).map(|x| x.total_amount()), Ok(0));
    game.set_asset_amount(p, a, 3);
    game.set_asset_amount(p, a, 4);
    assert_eq!(game.engine.market.get_portfolio(p).unwrap().get_asset_account(a).map(|x| x.total_amount()), Ok(7));
}

#[test]
fn public_books_hide_the_owner() {
    let mut game = Game::new();
    game.register_portfolio(ALICE, 1000).unwrap();
    game.register_asset(A, "A".to_string()).unwrap();
    game.register_asset(B, "B".to_string()).unwrap();
    game.set_asset_amount(ALICE, A, 100);
    game.engine.market.fill_order(order(1, ALICE, OrderSide::Sell, 5, OrderMode::Limit(4))).unwrap();
    game.engine.market.fill_order(order(2, ALICE, OrderSide::Sell, 6, OrderMode::Limit(3))).unwrap();
    game.engine.market.fill_order(order(3, ALICE, OrderSide::Buy, 7, OrderMode::Limit(2))).unwrap();
    let book = game.get_public_book_for(A).unwrap();
    assert_eq!(book.asset.id, A);
    assert_eq!(book.asset.name, "A");
    assert_eq!(
        book.sell,
        vec![
            PublicOrder { asset: A, mode: OrderMode::Limit(3), side: OrderSide::Sell, quantity: 6 },
            PublicOrder { asset: A, mode: OrderMode::Limit(4), side: OrderSide::Sell, quantity: 5 },
        ]
    );
    assert_eq!(
        book.buy,
        vec![PublicOrder { asset: A, mode: OrderMode::Limit(2), side: OrderSide::Buy, quantity: 7 }]
    );
    assert_eq!(game.get_public_book_for(9).map(|b| b.asset.id), Err(ErrorType::AssetNotFound(9)));
    let mut all = game.get_public_books().unwrap();
    all.sort_by_key(|b| b.asset.id);
    assert_eq!(all.len(), 2);
    assert_eq!(all[0].asset.id, A);
    assert_eq!(all[0].sell.len(), 2);
    assert_eq!(all[0].buy.len(), 1);
    assert_eq!(all[1].asset.id, B);
    assert!(all[1].sell.is_empty() && all[1].buy.is_empty());
}

#[test]
fn public_books_fail_for_an_asset_without_a_book() {
    let mut game = Game::new();
    game.register_asset(A, "A".to_string()).unwrap();
    game.engine.market.books.remove(&A);
    assert_eq!(game.get_public_books().map(|b| b.len()), Err(ErrorType::AssetNotFound(A)));
    assert_eq!(game.get_public_book_for(A).map(|b| b.asset.id), Err(ErrorType::AssetNotFound(A)));
}

#[test]
fn public_order_copies_all_but_the_owner() {
    let o = Order::stamped(1, 2, 3, 4, OrderSide::Buy, 5, OrderMode::Limit(6), 7).unwrap();
    assert_eq!(
        PublicOrder::from(&o),
        PublicOrder { asset: 4, mode: OrderMode::Limit(6), side: OrderSide::Buy, quantity: 5 }
    );
}

fn snapshot(m: &Market) -> (usize, Vec<(usize, usize)>, Vec<(usize, usize)>, Vec<u128>, Vec<u128>) {
    let book = m.get_order_book(A).unwrap();
    (
        m.bank_account,
        vec![coins(m, ALICE), coins(m, BOB)],
        vec![units(m, ALICE, A), units(m, BOB, A), units(m, ALICE, B), units(m, BOB, B)],
        book.sell_orders.iter().map(|o| o.id).collect(),
        book.buy_orders.iter().map(|o| o.id).collect(),
    )
}

#[test]
fn fill_order_without_a_book_changes_nothing() {
    let mut m = market();
    m.add_order(order(1, ALICE, OrderSide::Sell, 10, OrderMode::Limit(3)), true).unwrap();
    m.bill_fee(BOB, 5).unwrap();
    let before = snapshot(&m);
    let elsewhere = Order::stamped(2, 2, ALICE, 9, OrderSide::Buy, 1, OrderMode::Limit(1), 0).unwrap();
    assert_eq!(m.fill_order(elsewhere), Err(ErrorType::AssetNotFound(9)));
    assert_eq!(snapshot(&m), before);
}

#[test]
fn add_order_that_cannot_lock_changes_nothing() {
    let mut m = market();
    m.add_order(order(1, ALICE, OrderSide::Sell, 10, OrderMode::Limit(3)), true).unwrap();
    let before = snapshot(&m);
    assert_eq!(
        m.add_order(order(2, ALICE, OrderSide::Sell, 91, OrderMode::Limit(1)), true),
        Err(ErrorType::InsufficientFreeAmount)
    );
    assert_eq!(
        m.add_order(order(3, ALICE, OrderSide::Buy, 1001, OrderMode::Limit(1)), true),
        Err(ErrorType::InsufficientFreeAmount)
    );
    assert_eq!(
        m.add_order(order(4, ALICE, OrderSide::Buy, 1, OrderMode::Best), true),
        Err(ErrorType::CantLockAmountForBestOrder)
    );
    assert_eq!(
        m.add_order(order(5, ALICE, OrderSide::Sell, 1, OrderMode::Best), true),
        Err(ErrorType::CantLockAmountForBestOrder)
    );
    assert_eq!(
        m.add_order(order(6, 9, OrderSide::Sell, 1, OrderMode::Limit(1)), true),
        Err(ErrorType::PortfolioNotFound(9))
    );
    assert_eq!(snapshot(&m), before);
}

#[test]
fn transfer_that_cannot_be_drawn_changes_nothing() {
    let mut m = market();
    m.add_order(order(1, ALICE, OrderSide::Buy, 10, OrderMode::Limit(3)), true).unwrap();
    m.add_order(order(2, ALICE, OrderSide::Sell, 10, OrderMode::Limit(3)), true).unwrap();
    let before = snapshot(&m);
    assert_eq!(m.transfer_coins(ALICE, BOB, 971, false), Err(ErrorType::InsufficientFreeAmount));
    assert_eq!(m.transfer_coins(ALICE, BOB, 31, true), Err(ErrorType::InsufficientLockedAmount));
    assert_eq!(m.transfer_asset(ALICE, BOB, A, 91, false), Err(ErrorType::InsufficientFreeAmount));
    assert_eq!(m.transfer_asset(ALICE, BOB, A, 11, true), Err(ErrorType::InsufficientLockedAmount));
    assert_eq!(m.transfer_asset(9, BOB, A, 1, true), Err(ErrorType::PortfolioNotFound(9)));
    assert_eq!(snapshot(&m), before);
}

#[test]
fn failed_transfer_to_nobody_leaves_the_giver_without_what_it_gave() {
    let mut m = market();
    assert_eq!(m.transfer_coins(ALICE, 9, 7, false), Err(ErrorType::PortfolioNotFound(9)));
    assert_eq!(coins(&m, ALICE), (993, 0));
    assert_eq!(m.transfer_asset(ALICE, 9, A, 4, false), Err(ErrorType::PortfolioNotFound(9)));
    assert_eq!(units(&m, ALICE, A), (96, 0));
    assert_eq!(coins(&m, BOB), (1000, 0));
}

#[test]
fn failed_fill_leaves_what_went_through() {
    let mut m = market();
    m.fill_order(order(1, ALICE, OrderSide::Sell, 5, OrderMode::Limit(1))).unwrap();
    m.fill_order(order(2, ALICE, OrderSide::Sell, 5, OrderMode::Limit(400))).unwrap();
    // the first trade goes through, the second is more than its coins
    assert_eq!(
        m.fill_order(order(3, BOB, OrderSide::Buy, 10, OrderMode::Best)),
        Err(ErrorType::InsufficientFreeAmount)
    );
    assert_eq!(coins(&m, BOB), (995, 0));
    assert_eq!(coins(&m, ALICE), (1005, 0));
    // the units of the second trade were handed over before the coins failed
    assert_eq!(units(&m, BOB, A), (110, 0));
    assert_eq!(units(&m, ALICE, A), (90, 0));
    let book = m.get_order_book(A).unwrap();
    let left: Vec<u128> = book.sell_orders.iter().map(|o| o.id).collect();
    assert_eq!(left, vec![2]);
    assert!(book.buy_orders.is_empty());
}
