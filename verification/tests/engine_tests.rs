use market_game::engine::Event;
use market_game::error::ErrorType;
use market_game::game::Game;
use market_game::order::Order;
use market_game::order::OrderMode;
use market_game::order::OrderSide;

const ALICE: u128 = 1;
const BOB: u128 = 2;
const A: u128 = 100;

fn setup() -> Game {
    let mut game = Game::new();
    assert_eq!(game.register_portfolio(ALICE, 1000), Ok(ALICE));
    assert_eq!(game.register_portfolio(BOB, 1000), Ok(BOB));
    assert_eq!(game.register_asset(A, "A".to_string()), Ok(A));
    game.set_asset_amount(ALICE, A, 100);
    game.set_asset_amount(BOB, A, 100);
    game
}

fn order(id: u128, at: u128, portfolio: u128, side: OrderSide, quantity: usize, mode: OrderMode) -> Order {
    Order::stamped(id, at, portfolio, A, side, quantity, mode, at + 86_400_000_000_000).unwrap()
}

fn price(o: &Order) -> usize {
    match o.mode {
        OrderMode::Limit(l) => l,
        OrderMode::Best => panic!("no limit"),
    }
}

fn coins(game: &Game, p: u128) -> (usize, usize, usize) {
    let c = &game.engine.market.portfolios.get(&p).unwrap().coins;
    (c.total_amount(), c.locked_amount(), c.get_free_amount())
}

fn units(game: &Game, p: u128) -> (usize, usize, usize) {
    let a = game.engine.market.portfolios.get(&p).unwrap().assets.get(&A).unwrap();
    (a.total_amount(), a.locked_amount(), a.get_free_amount())
}

fn after_resting_buy() -> Game {
    let mut game = setup();
    let buy = order(11, 1, ALICE, OrderSide::Buy, 10, OrderMode::Limit(1));
    assert_eq!(game.engine.process(Event::Order(buy)), Ok(()));
    game
}

fn after_crossing_sell() -> Game {
    let mut game = after_resting_buy();
    let sell = order(12, 2, BOB, OrderSide::Sell, 5, OrderMode::Best);
    assert_eq!(game.engine.process(Event::Order(sell)), Ok(()));
    game
}

#[test]
fn setup_gives_each_portfolio_its_coins_and_units() {
    let game = setup();
    assert_eq!(coins(&game, ALICE), (1000, 0, 1000));
    assert_eq!(coins(&game, BOB), (1000, 0, 1000));
    assert_eq!(units(&game, ALICE), (100, 0, 100));
    assert_eq!(units(&game, BOB), (100, 0, 100));
    assert_eq!(game.engine.market.bank_account, 0);
    let book = game.engine.market.books.get(&A).unwrap();
    assert_eq!(book.asset_id, A);
    assert!(book.sell_orders.is_empty());
    assert!(book.buy_orders.is_empty());
    assert_eq!(game.engine.market.assets.get(&A).unwrap().name, "A");
}

#[test]
fn buy_with_a_limit_rests_and_locks_coins() {
    let game = after_resting_buy();
    assert_eq!(coins(&game, ALICE), (999, 10, 989));
    assert_eq!(game.engine.market.bank_account, 1);
    let book = game.engine.market.books.get(&A).unwrap();
    assert!(book.sell_orders.is_empty());
    assert_eq!(book.buy_orders.len(), 1);
    assert_eq!(book.buy_orders[0].mode, OrderMode::Limit(1));
    assert_eq!(book.buy_orders[0].quantity, 10);
    assert_eq!(book.buy_orders[0].portfolio, ALICE);
    assert_eq!(coins(&game, BOB), (1000, 0, 1000));
    assert_eq!(units(&game, ALICE), (100, 0, 100));
}

#[test]
fn sell_at_best_trades_with_the_resting_buy() {
    let game = after_crossing_sell();
    assert_eq!(coins(&game, ALICE), (994, 5, 989));
    assert_eq!(units(&game, ALICE), (105, 0, 105));
    assert_eq!(coins(&game, BOB), (1004, 0, 1004));
    assert_eq!(units(&game, BOB), (95, 0, 95));
    assert_eq!(game.engine.market.bank_account, 2);
    let book = game.engine.market.books.get(&A).unwrap();
    assert!(book.sell_orders.is_empty());
    assert_eq!(book.buy_orders.len(), 1);
    assert_eq!(book.buy_orders[0].id, 11);
    assert_eq!(book.buy_orders[0].mode, OrderMode::Limit(1));
    assert_eq!(book.buy_orders[0].quantity, 5);
}

#[test]
fn cancel_releases_what_is_left() {
    let mut game = after_crossing_sell();
    assert_eq!(game.engine.process(Event::CancelOrder(ALICE, 11, A)), Ok(()));
    let book = game.engine.market.books.get(&A).unwrap();
    assert!(book.sell_orders.is_empty());
    assert!(book.buy_orders.is_empty());
    assert_eq!(coins(&game, ALICE), (993, 0, 993));
    assert_eq!(game.engine.market.bank_account, 3);
    assert_eq!(units(&game, ALICE), (105, 0, 105));
}

#[test]
fn best_order_on_an_empty_book_is_rejected() {
    let mut game = setup();
    let sell = order(13, 3, ALICE, OrderSide::Sell, 1, OrderMode::Best);
    assert_eq!(
        game.engine.process(Event::Order(sell)),
        Err(ErrorType::NotEnoughMatchingOrdersToImmediatelyFillBestOrder)
    );
    assert_eq!(game.engine.market.bank_account, 0);
    assert_eq!(coins(&game, ALICE), (1000, 0, 1000));
    assert_eq!(units(&game, ALICE), (100, 0, 100));
    assert_eq!(coins(&game, BOB), (1000, 0, 1000));
    let book = game.engine.market.books.get(&A).unwrap();
    assert!(book.sell_orders.is_empty());
    assert!(book.buy_orders.is_empty());
}

#[test]
fn oversized_resting_order_is_split_and_rests_again() {
    let mut game = setup();
    let sell = order(21, 1, ALICE, OrderSide::Sell, 10, OrderMode::Limit(2));
    assert_eq!(game.engine.process(Event::Order(sell)), Ok(()));
    assert_eq!(units(&game, ALICE), (100, 10, 90));
    let buy = order(22, 2, BOB, OrderSide::Buy, 3, OrderMode::Limit(2));
    assert_eq!(game.engine.process(Event::Order(buy)), Ok(()));
    // 3 units at 2 coins each
    assert_eq!(units(&game, ALICE), (97, 7, 90));
    assert_eq!(units(&game, BOB), (103, 0, 103));
    assert_eq!(coins(&game, ALICE), (1000 - 1 + 6, 0, 1005));
    assert_eq!(coins(&game, BOB), (1000 - 1 - 6, 0, 993));
    assert_eq!(game.engine.market.bank_account, 2);
    let book = game.engine.market.books.get(&A).unwrap();
    assert!(book.buy_orders.is_empty());
    assert_eq!(book.sell_orders.len(), 1);
    assert_eq!(book.sell_orders[0].id, 21);
    assert_eq!(book.sell_orders[0].portfolio, ALICE);
    assert_eq!(book.sell_orders[0].mode, OrderMode::Limit(2));
    assert_eq!(book.sell_orders[0].quantity, 7);
    assert_eq!(book.sell_orders[0].created_at, 1);
}

#[test]
fn incoming_larger_than_liquidity_rests_with_its_lock() {
    let mut game = setup();
    let sell = order(31, 1, ALICE, OrderSide::Sell, 4, OrderMode::Limit(2));
    assert_eq!(game.engine.process(Event::Order(sell)), Ok(()));
    let buy = order(32, 2, BOB, OrderSide::Buy, 10, OrderMode::Limit(3));
    assert_eq!(game.engine.process(Event::Order(buy)), Ok(()));
    // 4 units trade at the incoming limit of 3; 6 units rest and lock 18 coins
    assert_eq!(units(&game, ALICE), (96, 0, 96));
    assert_eq!(units(&game, BOB), (104, 0, 104));
    assert_eq!(coins(&game, ALICE), (999 + 12, 0, 1011));
    assert_eq!(coins(&game, BOB), (999 - 12, 18, 987 - 18));
    let book = game.engine.market.books.get(&A).unwrap();
    assert!(book.sell_orders.is_empty());
    assert_eq!(book.buy_orders.len(), 1);
    assert_eq!(book.buy_orders[0].id, 32);
    assert_eq!(book.buy_orders[0].quantity, 6);
}

#[test]
fn best_order_does_not_fill_partly_and_rest() {
    let mut game = setup();
    let sell = order(41, 1, ALICE, OrderSide::Sell, 4, OrderMode::Limit(2));
    assert_eq!(game.engine.process(Event::Order(sell)), Ok(()));
    let buy = order(42, 2, BOB, OrderSide::Buy, 10, OrderMode::Best);
    assert_eq!(
        game.engine.process(Event::Order(buy)),
        Err(ErrorType::NotEnoughMatchingOrdersToImmediatelyFillBestOrder)
    );
    // all of it is undone, the fee too
    assert_eq!(game.engine.market.bank_account, 1);
    assert_eq!(units(&game, ALICE), (100, 4, 96));
    assert_eq!(coins(&game, BOB), (1000, 0, 1000));
    assert_eq!(units(&game, BOB), (100, 0, 100));
    let book = game.engine.market.books.get(&A).unwrap();
    assert_eq!(book.sell_orders.len(), 1);
    assert_eq!(book.sell_orders[0].quantity, 4);
}

#[test]
fn exact_fill_over_several_resting_orders() {
    let mut game = setup();
    let low = order(51, 1, ALICE, OrderSide::Sell, 3, OrderMode::Limit(2));
    let high = order(52, 2, ALICE, OrderSide::Sell, 2, OrderMode::Limit(4));
    assert_eq!(game.engine.process(Event::Order(high)), Ok(()));
    assert_eq!(game.engine.process(Event::Order(low)), Ok(()));
    let buy = order(53, 3, BOB, OrderSide::Buy, 5, OrderMode::Limit(4));
    assert_eq!(game.engine.process(Event::Order(buy)), Ok(()));
    // both trade at the incoming limit of 4
    assert_eq!(units(&game, ALICE), (95, 0, 95));
    assert_eq!(units(&game, BOB), (105, 0, 105));
    assert_eq!(coins(&game, ALICE), (998 + 20, 0, 1018));
    assert_eq!(coins(&game, BOB), (999 - 20, 0, 979));
    assert_eq!(game.engine.market.bank_account, 3);
    let book = game.engine.market.books.get(&A).unwrap();
    assert!(book.sell_orders.is_empty());
    assert!(book.buy_orders.is_empty());
}

#[test]
fn failing_event_leaves_the_market_as_it_was() {
    let mut game = after_resting_buy();
    let before_bank = game.engine.market.bank_account;
    let before_p1 = coins(&game, ALICE);
    let before_p2 = coins(&game, BOB);
    // BOB offers more units than it has free
    let poor = order(61, 5, BOB, OrderSide::Sell, 500, OrderMode::Limit(1));
    assert_eq!(game.engine.process(Event::Order(poor)), Err(ErrorType::InsufficientFreeAmount));
    assert_eq!(game.engine.market.bank_account, before_bank);
    assert_eq!(coins(&game, ALICE), before_p1);
    assert_eq!(coins(&game, BOB), before_p2);
    assert_eq!(units(&game, ALICE), (100, 0, 100));
    assert_eq!(units(&game, BOB), (100, 0, 100));
    let book = game.engine.market.books.get(&A).unwrap();
    assert_eq!(book.buy_orders.len(), 1);
    assert_eq!(book.buy_orders[0].quantity, 10);
    assert!(book.sell_orders.is_empty());
}

#[test]
fn cancel_after_place_costs_two_fees_and_nothing_else() {
    let mut game = setup();
    let buy = order(71, 1, ALICE, OrderSide::Buy, 7, OrderMode::Limit(3));
    assert_eq!(game.engine.process(Event::Order(buy)), Ok(()));
    assert_eq!(coins(&game, ALICE), (999, 21, 978));
    assert_eq!(game.engine.process(Event::CancelOrder(ALICE, 71, A)), Ok(()));
    assert_eq!(coins(&game, ALICE), (998, 0, 998));
    assert_eq!(units(&game, ALICE), (100, 0, 100));
    assert_eq!(game.engine.market.bank_account, 2);
    let sell = order(72, 2, ALICE, OrderSide::Sell, 9, OrderMode::Limit(3));
    assert_eq!(game.engine.process(Event::Order(sell)), Ok(()));
    assert_eq!(units(&game, ALICE), (100, 9, 91));
    assert_eq!(game.engine.process(Event::CancelOrder(ALICE, 72, A)), Ok(()));
    assert_eq!(units(&game, ALICE), (100, 0, 100));
    assert_eq!(coins(&game, ALICE), (996, 0, 996));
    assert_eq!(game.engine.market.bank_account, 4);
    let book = game.engine.market.books.get(&A).unwrap();
    assert!(book.sell_orders.is_empty());
    assert!(book.buy_orders.is_empty());
}

#[test]
fn cancel_by_another_portfolio_is_refused() {
    let mut game = after_resting_buy();
    assert_eq!(game.engine.process(Event::CancelOrder(BOB, 11, A)), Err(ErrorType::OrderNotFound(11)));
    assert_eq!(coins(&game, BOB), (1000, 0, 1000));
    assert_eq!(coins(&game, ALICE), (999, 10, 989));
    assert_eq!(game.engine.market.bank_account, 1);
    assert_eq!(game.engine.market.books.get(&A).unwrap().buy_orders.len(), 1);
}

#[test]
fn events_fail_with_the_error_of_their_cause() {
    let mut game = setup();
    let unknown_portfolio = order(81, 1, 999, OrderSide::Buy, 1, OrderMode::Limit(1));
    assert_eq!(
        game.engine.process(Event::Order(unknown_portfolio)),
        Err(ErrorType::PortfolioNotFound(999))
    );
    let unknown_asset =
        Order::stamped(82, 1, ALICE, 12345, OrderSide::Buy, 1, OrderMode::Limit(1), 2).unwrap();
    assert_eq!(game.engine.process(Event::Order(unknown_asset)), Err(ErrorType::AssetNotFound(12345)));
    assert_eq!(game.engine.process(Event::CancelOrder(ALICE, 83, A)), Err(ErrorType::OrderNotFound(83)));
    assert_eq!(game.engine.process(Event::CancelOrder(ALICE, 83, 777)), Err(ErrorType::AssetNotFound(777)));
    let too_dear = order(84, 1, ALICE, OrderSide::Buy, 100, OrderMode::Limit(10));
    assert_eq!(game.engine.process(Event::Order(too_dear)), Err(ErrorType::InsufficientFreeAmount));
    let beyond_counting = order(85, 1, ALICE, OrderSide::Buy, usize::MAX, OrderMode::Limit(2));
    assert_eq!(
        game.engine.process(Event::Order(beyond_counting)),
        Err(ErrorType::InsufficientFreeAmount)
    );
    assert_eq!(game.engine.market.bank_account, 0);
    assert_eq!(coins(&game, ALICE), (1000, 0, 1000));
}

#[test]
fn fee_needs_a_free_coin() {
    let mut game = Game::new();
    assert_eq!(game.register_portfolio(5, 0), Ok(5));
    assert_eq!(game.register_asset(A, "A".to_string()), Ok(A));
    game.set_asset_amount(5, A, 10);
    let sell = order(91, 1, 5, OrderSide::Sell, 1, OrderMode::Limit(1));
    assert_eq!(game.engine.process(Event::Order(sell)), Err(ErrorType::InsufficientFreeAmount));
    assert_eq!(game.engine.market.bank_account, 0);
}

#[test]
fn sums_are_kept_over_a_run_of_events() {
    let mut game = setup();
    let events = vec![
        Event::Order(order(101, 1, ALICE, OrderSide::Sell, 10, OrderMode::Limit(5))),
        Event::Order(order(102, 2, ALICE, OrderSide::Sell, 10, OrderMode::Limit(4))),
        Event::Order(order(103, 3, BOB, OrderSide::Buy, 15, OrderMode::Limit(6))),
        Event::CancelOrder(ALICE, 101, A),
        Event::Order(order(104, 4, BOB, OrderSide::Sell, 3, OrderMode::Best)),
        Event::Order(order(105, 5, BOB, OrderSide::Buy, 200, OrderMode::Limit(100))),
        Event::CancelOrder(BOB, 101, A),
        Event::Order(order(106, 6, ALICE, OrderSide::Buy, 2, OrderMode::Limit(1))),
        Event::Order(order(107, 7, BOB, OrderSide::Sell, 1, OrderMode::Best)),
    ];
    let mut successes = 0;
    for event in events {
        let bank_before = game.engine.market.bank_account;
        let result = game.engine.process(event);
        match result {
            Ok(()) => {
                successes += 1;
                assert_eq!(game.engine.market.bank_account, bank_before + 1);
            }
            Err(e) => {
                assert_eq!(game.engine.market.bank_account, bank_before);
                assert!(matches!(
                    e,
                    ErrorType::OrderNotFound(_)
                        | ErrorType::InsufficientFreeAmount
                        | ErrorType::NotEnoughMatchingOrdersToImmediatelyFillBestOrder
                ));
            }
        }
        let c1 = coins(&game, ALICE);
        let c2 = coins(&game, BOB);
        let u1 = units(&game, ALICE);
        let u2 = units(&game, BOB);
        assert_eq!(c1.0 + c2.0 + game.engine.market.bank_account, 2000);
        assert_eq!(u1.0 + u2.0, 200);
        assert!(c1.1 <= c1.0 && c2.1 <= c2.0 && u1.1 <= u1.0 && u2.1 <= u2.0);
        assert_eq!(game.engine.market.bank_account, successes);
        let book = game.engine.market.books.get(&A).unwrap();
        let mut locked_units = [0usize; 3];
        let mut locked_coins = [0usize; 3];
        for o in &book.sell_orders {
            assert_ne!(o.mode, OrderMode::Best);
            assert_eq!(o.side, OrderSide::Sell);
            locked_units[o.portfolio as usize] += o.quantity;
        }
        for o in &book.buy_orders {
            assert_eq!(o.side, OrderSide::Buy);
            match o.mode {
                OrderMode::Limit(l) => locked_coins[o.portfolio as usize] += l * o.quantity,
                OrderMode::Best => panic!("an order without a limit rests"),
            }
        }
        assert!(locked_units[1] <= u1.1 && locked_units[2] <= u2.1);
        assert!(locked_coins[1] <= c1.1 && locked_coins[2] <= c2.1);
        for pair in book.sell_orders.windows(2) {
            let (x, y) = (pair[0], pair[1]);
            assert!(price(&x) < price(&y) || (price(&x) == price(&y) && x.created_at <= y.created_at));
        }
        for pair in book.buy_orders.windows(2) {
            let (x, y) = (pair[0], pair[1]);
            assert!(price(&x) > price(&y) || (price(&x) == price(&y) && x.created_at <= y.created_at));
        }
        for p in [ALICE, BOB] {
            let keys: Vec<u128> =
                game.engine.market.portfolios.get(&p).unwrap().assets.keys().copied().collect();
            assert_eq!(keys, vec![A]);
        }
    }
    assert!(successes >= 5);
}
