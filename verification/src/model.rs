//! The market as a mathematical value, and every operation of the engine as
//! a function from one such value to the next.

use vstd::prelude::*;
use crate::account::AccountView;
use crate::asset::AssetView;
use crate::book::BookView;
use crate::book::quantity_sum;
use crate::engine::Event;
use crate::error::ErrorType;
use crate::order::Order;
use crate::order::OrderMode;
use crate::order::OrderSide;
use crate::portfolio::PortfolioView;
use crate::sums::total;
use crate::sums::weigh;

verus! {

/// What an order of `owner` keeps locked of its asset while it rests as a
/// sell: its quantity.
pub open spec fn sell_weight(owner: u128) -> spec_fn(Order) -> nat {
    |o: Order|
        if o.portfolio == owner {
            o.quantity as nat
        } else {
            0
        }
}

/// What an order of `owner` keeps locked in coins while it rests as a buy:
/// its limit times its quantity.
pub open spec fn buy_weight(owner: u128) -> spec_fn(Order) -> nat {
    |o: Order|
        if o.portfolio == owner {
            match o.mode {
                OrderMode::Limit(limit) => (limit * o.quantity) as nat,
                OrderMode::Best => 0,
            }
        } else {
            0
        }
}

/// The units that the sells in `s` of `owner` keep locked.
pub open spec fn sell_load(s: Seq<Order>, owner: u128) -> nat {
    weigh(s, sell_weight(owner))
}

/// The coins that the buys in `s` of `owner` keep locked.
pub open spec fn buy_load(s: Seq<Order>, owner: u128) -> nat {
    weigh(s, buy_weight(owner))
}

/// The price per unit at which `incoming` trades with the resting order
/// `other`: its own limit, or the other's if it has none.
pub open spec fn price_for(incoming: Order, other: Order) -> Result<usize, ErrorType> {
    match incoming.mode {
        OrderMode::Best => other.mode.limit(),
        OrderMode::Limit(limit) => Ok(limit),
    }
}

/// The market after a step: what the step made of it, or `otherwise` where
/// the step failed.
pub open spec fn outcome(step: Result<MarketView, ErrorType>, otherwise: MarketView) -> MarketView {
    match step {
        Ok(m) => m,
        Err(_) => otherwise,
    }
}

/// The mathematical value of a market.
pub struct MarketView {
    pub bank_account: nat,
    pub portfolios: Map<u128, PortfolioView>,
    pub assets: Map<u128, AssetView>,
    pub books: Map<u128, BookView>,
}

impl MarketView {
    /// The market with nothing in it.
    pub open spec fn empty() -> MarketView {
        MarketView {
            bank_account: 0,
            portfolios: Map::empty(),
            assets: Map::empty(),
            books: Map::empty(),
        }
    }

    /// The market with `portfolio` under `id`.
    pub open spec fn with_portfolio(self, id: u128, portfolio: PortfolioView) -> MarketView {
        MarketView { portfolios: self.portfolios.insert(id, portfolio), ..self }
    }

    /// The market with `book` as the book of `asset`.
    pub open spec fn with_book(self, asset: u128, book: BookView) -> MarketView {
        MarketView { books: self.books.insert(asset, book), ..self }
    }

    /// The market with `coins` as the coin balance of the portfolio `id`.
    pub open spec fn with_coins(self, id: u128, coins: AccountView) -> MarketView {
        self.with_portfolio(id, self.portfolios[id].with_coins(coins))
    }

    /// The market with `account` as the balance of `asset` of the portfolio
    /// `id`.
    pub open spec fn with_asset_account(
        self,
        id: u128,
        asset: u128,
        account: AccountView,
    ) -> MarketView {
        self.with_portfolio(id, self.portfolios[id].with_asset(asset, account))
    }

    // ---- sums ----

    /// The coins of each portfolio.
    pub open spec fn coin_totals(self) -> Map<u128, nat> {
        self.portfolios.map_values(|p: PortfolioView| p.coins.total)
    }

    /// The coins that all portfolios hold together.
    pub open spec fn coin_supply(self) -> nat {
        total(self.coin_totals())
    }

    /// The units of `asset` of each portfolio.
    pub open spec fn asset_totals(self, asset: u128) -> Map<u128, nat> {
        self.portfolios.map_values(|p: PortfolioView| p.holding(asset))
    }

    /// The units of `asset` that all portfolios hold together.
    pub open spec fn asset_supply(self, asset: u128) -> nat {
        total(self.asset_totals(asset))
    }

    /// The coins that the resting buys of `owner` keep locked, book by book.
    pub open spec fn buy_loads(self, owner: u128) -> Map<u128, nat> {
        self.books.map_values(|b: BookView| buy_load(b.buy_orders, owner))
    }

    /// The coins that all resting buys of `owner` keep locked.
    pub open spec fn coin_load(self, owner: u128) -> nat {
        total(self.buy_loads(owner))
    }

    // ---- the operations ----

    /// Moves `amount` free coins of a portfolio to the bank.
    pub open spec fn bill_fee(self, id: u128, amount: nat) -> Result<MarketView, ErrorType> {
        if !self.portfolios.contains_key(id) {
            Err(ErrorType::PortfolioNotFound(id))
        } else {
            match self.portfolios[id].coins.spend_from_free(amount) {
                Err(e) => Err(e),
                Ok(coins) => Ok(
                    MarketView {
                        bank_account: self.bank_account + amount,
                        ..self.with_coins(id, coins)
                    },
                ),
            }
        }
    }

    /// Takes `amount` out of an asset balance, from its locked part or from
    /// its free part.
    pub open spec fn withdraw_asset(
        self,
        id: u128,
        asset: u128,
        amount: nat,
        locked: bool,
    ) -> Result<MarketView, ErrorType> {
        if !self.portfolios.contains_key(id) {
            Err(ErrorType::PortfolioNotFound(id))
        } else if !self.portfolios[id].assets.contains_key(asset) {
            Err(ErrorType::AssetNotFound(asset))
        } else {
            let account = self.portfolios[id].assets[asset];
            let spent = if locked {
                account.spend_from_locked(amount)
            } else {
                account.spend_from_free(amount)
            };
            match spent {
                Err(e) => Err(e),
                Ok(left) => Ok(self.with_asset_account(id, asset, left)),
            }
        }
    }

    /// Adds `amount` to an asset balance.
    pub open spec fn deposit_asset(self, id: u128, asset: u128, amount: nat) -> Result<
        MarketView,
        ErrorType,
    > {
        if !self.portfolios.contains_key(id) {
            Err(ErrorType::PortfolioNotFound(id))
        } else if !self.portfolios[id].assets.contains_key(asset) {
            Err(ErrorType::AssetNotFound(asset))
        } else {
            Ok(self.with_asset_account(id, asset, self.portfolios[id].assets[asset].add(amount)))
        }
    }

    /// Moves `amount` units of `asset` from one portfolio to another.
    pub open spec fn transfer_asset(
        self,
        from: u128,
        to: u128,
        asset: u128,
        amount: nat,
        spend_locked_assets: bool,
    ) -> Result<MarketView, ErrorType> {
        match self.withdraw_asset(from, asset, amount, spend_locked_assets) {
            Err(e) => Err(e),
            Ok(m) => m.deposit_asset(to, asset, amount),
        }
    }

    /// Takes `amount` out of a coin balance, from its locked part or from its
    /// free part.
    pub open spec fn withdraw_coins(self, id: u128, amount: nat, locked: bool) -> Result<
        MarketView,
        ErrorType,
    > {
        if !self.portfolios.contains_key(id) {
            Err(ErrorType::PortfolioNotFound(id))
        } else {
            let account = self.portfolios[id].coins;
            let spent = if locked {
                account.spend_from_locked(amount)
            } else {
                account.spend_from_free(amount)
            };
            match spent {
                Err(e) => Err(e),
                Ok(left) => Ok(self.with_coins(id, left)),
            }
        }
    }

    /// Adds `amount` to a coin balance.
    pub open spec fn deposit_coins(self, id: u128, amount: nat) -> Result<MarketView, ErrorType> {
        if !self.portfolios.contains_key(id) {
            Err(ErrorType::PortfolioNotFound(id))
        } else {
            Ok(self.with_coins(id, self.portfolios[id].coins.add(amount)))
        }
    }

    /// Moves `amount` coins from one portfolio to another.
    pub open spec fn transfer_coins(
        self,
        from: u128,
        to: u128,
        amount: nat,
        spend_locked_coins: bool,
    ) -> Result<MarketView, ErrorType> {
        match self.withdraw_coins(from, amount, spend_locked_coins) {
            Err(e) => Err(e),
            Ok(m) => m.deposit_coins(to, amount),
        }
    }

    /// Settles one trade: the asset goes from the seller to the buyer, then
    /// the coins go from the buyer to the seller.
    pub open spec fn exchange(
        self,
        buyer: u128,
        seller: u128,
        asset: u128,
        asset_count: nat,
        price_per_asset: nat,
        use_locked_coins: bool,
        use_locked_assets: bool,
    ) -> Result<MarketView, ErrorType> {
        match self.transfer_asset(seller, buyer, asset, asset_count, use_locked_assets) {
            Err(e) => Err(e),
            Ok(m) => m.transfer_coins(
                buyer,
                seller,
                price_per_asset * asset_count,
                use_locked_coins,
            ),
        }
    }

    /// Takes the orders that carry `order` out of the book of `asset`.
    pub open spec fn remove_order(self, asset: u128, order: u128) -> Result<MarketView, ErrorType> {
        if !self.books.contains_key(asset) {
            Err(ErrorType::AssetNotFound(asset))
        } else {
            Ok(self.with_book(asset, self.books[asset].remove_order(order)))
        }
    }

    /// Locks what `order` needs while it rests: its quantity of the asset for
    /// a sell, its limit times its quantity in coins for a buy. The owner is
    /// a known portfolio.
    pub open spec fn lock_for(self, order: Order) -> Result<MarketView, ErrorType> {
        let owner = self.portfolios[order.portfolio];
        match order.side {
            OrderSide::Sell => if !owner.assets.contains_key(order.asset) {
                Err(ErrorType::AssetNotFound(order.asset))
            } else {
                match order.mode {
                    OrderMode::Best => Err(ErrorType::CantLockAmountForBestOrder),
                    OrderMode::Limit(_) => match owner.assets[order.asset].lock(
                        order.quantity as nat,
                    ) {
                        Err(e) => Err(e),
                        Ok(account) => Ok(
                            self.with_asset_account(order.portfolio, order.asset, account),
                        ),
                    },
                }
            },
            OrderSide::Buy => match order.mode {
                OrderMode::Best => Err(ErrorType::CantLockAmountForBestOrder),
                OrderMode::Limit(limit) => match owner.coins.lock(
                    (order.quantity * limit) as nat,
                ) {
                    Err(e) => Err(e),
                    Ok(coins) => Ok(self.with_coins(order.portfolio, coins)),
                },
            },
        }
    }

    /// Lets `order` rest in the book of its asset, after locking what it
    /// needs if `lock_amount` is set.
    pub open spec fn add_order(self, order: Order, lock_amount: bool) -> Result<
        MarketView,
        ErrorType,
    > {
        if !self.portfolios.contains_key(order.portfolio) {
            Err(ErrorType::PortfolioNotFound(order.portfolio))
        } else {
            let locked = if lock_amount {
                self.lock_for(order)
            } else {
                Ok(self)
            };
            match locked {
                Err(e) => Err(e),
                Ok(m) => if !m.books.contains_key(order.asset) {
                    Err(ErrorType::AssetNotFound(order.asset))
                } else {
                    match m.books[order.asset].add_order(order) {
                        Err(e) => Err(e),
                        Ok(book) => Ok(m.with_book(order.asset, book)),
                    }
                },
            }
        }
    }

    /// Lets what is left of a matched order rest. An order without a limit
    /// is turned away: it does not wait for a counterparty.
    pub open spec fn rest(self, order: Order, lock_amount: bool) -> Result<MarketView, ErrorType> {
        if order.mode == OrderMode::Best {
            Err(ErrorType::NotEnoughMatchingOrdersToImmediatelyFillBestOrder)
        } else {
            self.add_order(order, lock_amount)
        }
    }

    /// Releases what the resting `order` keeps locked. The owner is a known
    /// portfolio.
    pub open spec fn unlock_for(self, order: Order) -> Result<MarketView, ErrorType> {
        let owner = self.portfolios[order.portfolio];
        match order.mode {
            OrderMode::Best => Err(ErrorType::InvalidState),
            OrderMode::Limit(limit) => match order.side {
                OrderSide::Sell => if !owner.assets.contains_key(order.asset) {
                    Err(ErrorType::AssetNotFound(order.asset))
                } else {
                    match owner.assets[order.asset].unlock(order.quantity as nat) {
                        Err(e) => Err(e),
                        Ok(account) => Ok(
                            self.with_asset_account(order.portfolio, order.asset, account),
                        ),
                    }
                },
                OrderSide::Buy => match owner.coins.unlock((limit * order.quantity) as nat) {
                    Err(e) => Err(e),
                    Ok(coins) => Ok(self.with_coins(order.portfolio, coins)),
                },
            },
        }
    }

    /// Takes a resting order of `portfolio` back: releases its lock and
    /// removes it from the book.
    pub open spec fn cancel_order(self, portfolio: u128, order_id: u128, asset: u128) -> Result<
        MarketView,
        ErrorType,
    > {
        if !self.books.contains_key(asset) {
            Err(ErrorType::AssetNotFound(asset))
        } else {
            match self.books[asset].get_order(order_id) {
                Err(e) => Err(e),
                Ok(order) => if order.asset != asset {
                    Err(ErrorType::InvalidAssetId)
                } else if order.portfolio != portfolio {
                    Err(ErrorType::OrderNotFound(order_id))
                } else if !self.portfolios.contains_key(portfolio) {
                    Err(ErrorType::PortfolioNotFound(portfolio))
                } else {
                    match self.unlock_for(order) {
                        Err(e) => Err(e),
                        Ok(m) => Ok(m.with_book(asset, m.books[asset].remove_order(order_id))),
                    }
                },
            }
        }
    }

    /// One trade of `filled` with the resting order `other`, and `other`
    /// leaves the book. The resting side pays out of what it has locked, the
    /// incoming side out of what it has free.
    pub open spec fn trade_one(self, filled: Order, other: Order) -> Result<MarketView, ErrorType> {
        match price_for(filled, other) {
            Err(e) => Err(e),
            Ok(price) => {
                let settled = match filled.side {
                    OrderSide::Buy => self.exchange(
                        filled.portfolio,
                        other.portfolio,
                        filled.asset,
                        other.quantity as nat,
                        price as nat,
                        false,
                        true,
                    ),
                    OrderSide::Sell => self.exchange(
                        other.portfolio,
                        filled.portfolio,
                        filled.asset,
                        other.quantity as nat,
                        price as nat,
                        true,
                        false,
                    ),
                };
                match settled {
                    Err(e) => Err(e),
                    Ok(m) => m.remove_order(other.asset, other.id),
                }
            },
        }
    }

    /// Trades `filled` with each of `others` in turn; then `filled` leaves
    /// the book, if it was in it.
    pub open spec fn process_trade(self, filled: Order, others: Seq<Order>) -> Result<
        MarketView,
        ErrorType,
    >
        decreases others.len(),
    {
        if others.len() == 0 {
            self.remove_order(filled.asset, filled.id)
        } else {
            match self.trade_one(filled, others[0]) {
                Err(e) => Err(e),
                Ok(m) => m.process_trade(filled, others.skip(1)),
            }
        }
    }

    /// Places `order`: trades it with the best resting orders that match, as
    /// far as they go, and lets what is left rest.
    pub open spec fn fill_order(self, order: Order) -> Result<MarketView, ErrorType> {
        if !self.books.contains_key(order.asset) {
            Err(ErrorType::AssetNotFound(order.asset))
        } else {
            let found = self.books[order.asset].best_candidates(order);
            let fill_sum = quantity_sum(found);
            if found.len() == 0 {
                self.rest(order, true)
            } else if fill_sum > order.quantity {
                match found.last().split_spec(fill_sum - order.quantity) {
                    Err(e) => Err(e),
                    Ok((remainder, filled)) => match self.process_trade(
                        order,
                        found.drop_last().push(filled),
                    ) {
                        Err(e) => Err(e),
                        Ok(m) => m.rest(remainder, false),
                    },
                }
            } else if fill_sum < order.quantity {
                match order.split_spec(fill_sum as int) {
                    Err(e) => Err(e),
                    Ok((filled, remainder)) => match self.process_trade(filled, found) {
                        Err(e) => Err(e),
                        Ok(m) => m.rest(remainder, true),
                    },
                }
            } else {
                self.process_trade(order, found)
            }
        }
    }

    // ---- what an operation leaves behind, whether it succeeds or fails ----

    /// What `transfer_asset` leaves: the market as it was if the units cannot
    /// be taken, the market without them if they cannot be given, and else
    /// the market after the transfer.
    pub open spec fn transfer_asset_left(
        self,
        from: u128,
        to: u128,
        asset: u128,
        amount: nat,
        spend_locked_assets: bool,
    ) -> MarketView {
        match self.withdraw_asset(from, asset, amount, spend_locked_assets) {
            Err(_) => self,
            Ok(m) => outcome(m.deposit_asset(to, asset, amount), m),
        }
    }

    /// What `transfer_coins` leaves: the market as it was if the coins cannot
    /// be taken, the market without them if they cannot be given, and else
    /// the market after the transfer.
    pub open spec fn transfer_coins_left(
        self,
        from: u128,
        to: u128,
        amount: nat,
        spend_locked_coins: bool,
    ) -> MarketView {
        match self.withdraw_coins(from, amount, spend_locked_coins) {
            Err(_) => self,
            Ok(m) => outcome(m.deposit_coins(to, amount), m),
        }
    }

    /// What `exchange` leaves: what the transfer of the asset leaves if that
    /// fails, and else what the transfer of the coins leaves.
    pub open spec fn exchange_left(
        self,
        buyer: u128,
        seller: u128,
        asset: u128,
        asset_count: nat,
        price_per_asset: nat,
        use_locked_coins: bool,
        use_locked_assets: bool,
    ) -> MarketView {
        match self.transfer_asset(seller, buyer, asset, asset_count, use_locked_assets) {
            Err(_) => self.transfer_asset_left(
                seller,
                buyer,
                asset,
                asset_count,
                use_locked_assets,
            ),
            Ok(m) => m.transfer_coins_left(
                buyer,
                seller,
                price_per_asset * asset_count,
                use_locked_coins,
            ),
        }
    }

    /// What `add_order` leaves: the market as it was if the owner is unknown
    /// or the lock fails, the market with the lock if the order cannot come
    /// to rest, and else the market with the order resting.
    pub open spec fn add_order_left(self, order: Order, lock_amount: bool) -> MarketView {
        if !self.portfolios.contains_key(order.portfolio) {
            self
        } else {
            let locked = if lock_amount {
                self.lock_for(order)
            } else {
                Ok(self)
            };
            match locked {
                Err(_) => self,
                Ok(m) => outcome(self.add_order(order, lock_amount), m),
            }
        }
    }

    /// What `rest` leaves: the market as it was for an order without a
    /// limit, and else what `add_order` leaves.
    pub open spec fn rest_left(self, order: Order, lock_amount: bool) -> MarketView {
        if order.mode == OrderMode::Best {
            self
        } else {
            self.add_order_left(order, lock_amount)
        }
    }

    /// What one trade leaves: the market as it was if there is no price,
    /// what the exchange leaves if that fails, and else the market after the
    /// exchange, without the resting order if its book is there.
    pub open spec fn trade_one_left(self, filled: Order, other: Order) -> MarketView {
        match price_for(filled, other) {
            Err(_) => self,
            Ok(price) => match filled.side {
                OrderSide::Buy => match self.exchange(
                    filled.portfolio,
                    other.portfolio,
                    filled.asset,
                    other.quantity as nat,
                    price as nat,
                    false,
                    true,
                ) {
                    Err(_) => self.exchange_left(
                        filled.portfolio,
                        other.portfolio,
                        filled.asset,
                        other.quantity as nat,
                        price as nat,
                        false,
                        true,
                    ),
                    Ok(m) => outcome(m.remove_order(other.asset, other.id), m),
                },
                OrderSide::Sell => match self.exchange(
                    other.portfolio,
                    filled.portfolio,
                    filled.asset,
                    other.quantity as nat,
                    price as nat,
                    true,
                    false,
                ) {
                    Err(_) => self.exchange_left(
                        other.portfolio,
                        filled.portfolio,
                        filled.asset,
                        other.quantity as nat,
                        price as nat,
                        true,
                        false,
                    ),
                    Ok(m) => outcome(m.remove_order(other.asset, other.id), m),
                },
            },
        }
    }

    /// What `process_trade` leaves: the trades that went through, and what
    /// the first that failed left.
    pub open spec fn process_trade_left(self, filled: Order, others: Seq<Order>) -> MarketView
        decreases others.len(),
    {
        if others.len() == 0 {
            outcome(self.remove_order(filled.asset, filled.id), self)
        } else {
            match self.trade_one(filled, others[0]) {
                Err(_) => self.trade_one_left(filled, others[0]),
                Ok(m) => m.process_trade_left(filled, others.skip(1)),
            }
        }
    }

    /// What `fill_order` leaves: the market as it was if the asset has no
    /// book or a split fails, what the trades left if they fail, and else
    /// what letting the remainder rest leaves.
    pub open spec fn fill_order_left(self, order: Order) -> MarketView {
        if !self.books.contains_key(order.asset) {
            self
        } else {
            let found = self.books[order.asset].best_candidates(order);
            let fill_sum = quantity_sum(found);
            if found.len() == 0 {
                self.rest_left(order, true)
            } else if fill_sum > order.quantity {
                match found.last().split_spec(fill_sum - order.quantity) {
                    Err(_) => self,
                    Ok((remainder, filled)) => match self.process_trade(
                        order,
                        found.drop_last().push(filled),
                    ) {
                        Err(_) => self.process_trade_left(order, found.drop_last().push(filled)),
                        Ok(m) => m.rest_left(remainder, false),
                    },
                }
            } else if fill_sum < order.quantity {
                match order.split_spec(fill_sum as int) {
                    Err(_) => self,
                    Ok((filled, remainder)) => match self.process_trade(filled, found) {
                        Err(_) => self.process_trade_left(filled, found),
                        Ok(m) => m.rest_left(remainder, true),
                    },
                }
            } else {
                self.process_trade_left(order, found)
            }
        }
    }

    /// The portfolio that pays the fee of `event`.
    pub open spec fn initiator(event: Event) -> u128 {
        match event {
            Event::Order(order) => order.portfolio,
            Event::CancelOrder(portfolio, _, _) => portfolio,
        }
    }

    /// What `event` makes of the market, or why it is refused. The flat fee
    /// of one coin is part of it.
    pub open spec fn process(self, event: Event) -> Result<MarketView, ErrorType> {
        match self.bill_fee(MarketView::initiator(event), 1) {
            Err(e) => Err(e),
            Ok(m) => match event {
                Event::Order(order) => m.fill_order(order),
                Event::CancelOrder(portfolio, order, asset) => m.cancel_order(
                    portfolio,
                    order,
                    asset,
                ),
            },
        }
    }

    /// A balance of nothing for every known asset.
    pub open spec fn zero_accounts(self) -> Map<u128, AccountView> {
        Map::new(|a: u128| self.assets.contains_key(a), |a: u128| AccountView::fresh(0))
    }

    /// The market with a new portfolio under `id`, which holds
    /// `initial_coins` free coins and nothing of any asset. It is refused
    /// where `id` is taken, or where the coins would be more than the
    /// machine can count.
    pub open spec fn register_portfolio(self, id: u128, initial_coins: nat) -> Result<
        MarketView,
        ErrorType,
    > {
        if self.portfolios.contains_key(id) || self.coin_supply() + self.bank_account
            + initial_coins > usize::MAX {
            Err(ErrorType::InvalidState)
        } else {
            Ok(
                self.with_portfolio(
                    id,
                    PortfolioView {
                        id,
                        coins: AccountView::fresh(initial_coins),
                        assets: self.zero_accounts(),
                    },
                ),
            )
        }
    }

    /// The market with a new asset under `id`: every portfolio gets a
    /// balance of nothing of it, and it gets an empty book. It is refused
    /// where `id` is taken.
    pub open spec fn register_asset(self, id: u128, name: Seq<char>) -> Result<
        MarketView,
        ErrorType,
    > {
        if self.assets.contains_key(id) || self.books.contains_key(id) {
            Err(ErrorType::InvalidState)
        } else {
            Ok(
                MarketView {
                    bank_account: self.bank_account,
                    portfolios: self.portfolios.map_values(
                        |p: PortfolioView| p.with_asset(id, AccountView::fresh(0)),
                    ),
                    assets: self.assets.insert(id, AssetView { id, name }),
                    books: self.books.insert(id, BookView::empty(id)),
                },
            )
        }
    }

    // ---- what holds of a market ----

    /// Every balance has no more locked than it holds.
    pub open spec fn accounts_wf(self) -> bool {
        forall|id: u128| self.portfolios.contains_key(id) ==> (#[trigger] self.portfolios[id]).wf()
    }

    /// All coins together, with the bank's, and all units of each asset
    /// together, are numbers that the machine can hold.
    pub open spec fn supply_bounded(self) -> bool {
        &&& self.portfolios.dom().finite()
        &&& self.coin_supply() + self.bank_account <= usize::MAX
        &&& forall|asset: u128| #[trigger] self.asset_supply(asset) <= usize::MAX
    }

    /// What the engine needs of a market to work on it.
    pub open spec fn sound(self) -> bool {
        self.accounts_wf() && self.supply_bounded()
    }

    /// Every portfolio has a balance of exactly the known assets, every
    /// known asset has its book, and each stands under its own identifier.
    pub open spec fn keys_wf(self) -> bool {
        &&& self.assets.dom().finite()
        &&& self.books.dom() == self.assets.dom()
        &&& forall|id: u128|
            self.portfolios.contains_key(id) ==> {
                &&& (#[trigger] self.portfolios[id]).assets.dom() == self.assets.dom()
                &&& self.portfolios[id].id == id
            }
        &&& forall|asset: u128|
            self.assets.contains_key(asset) ==> (#[trigger] self.assets[asset]).id == asset
        &&& forall|asset: u128|
            self.books.contains_key(asset) ==> (#[trigger] self.books[asset]).asset_id == asset
    }

    /// Every book is well-formed: no order without a limit rests, each order
    /// is on its side of the book of its asset, and both sides are sorted.
    pub open spec fn books_wf(self) -> bool {
        forall|asset: u128| self.books.contains_key(asset) ==> (#[trigger] self.books[asset]).wf()
    }

    /// Every order that rests in the book of `asset` belongs to a known
    /// portfolio.
    pub open spec fn book_known(self, asset: u128) -> bool {
        &&& forall|i: int|
            0 <= i < self.books[asset].sell_orders.len() ==> self.portfolios.contains_key(
                (#[trigger] self.books[asset].sell_orders[i]).portfolio,
            )
        &&& forall|i: int|
            0 <= i < self.books[asset].buy_orders.len() ==> self.portfolios.contains_key(
                (#[trigger] self.books[asset].buy_orders[i]).portfolio,
            )
    }

    /// Every resting order belongs to a known portfolio.
    pub open spec fn owners_known(self) -> bool {
        forall|asset: u128| self.books.contains_key(asset) ==> #[trigger] self.book_known(asset)
    }

    /// The portfolio `id` has a balance of `asset` and has locked of it at
    /// least the quantities of its resting sells.
    pub open spec fn sells_backed(self, id: u128, asset: u128) -> bool {
        &&& self.portfolios[id].assets.contains_key(asset)
        &&& sell_load(self.books[asset].sell_orders, id) <= self.portfolios[id].assets[asset].locked
    }

    /// The portfolio `id` has locked in coins at least the limit times the
    /// quantity of each of its resting buys.
    pub open spec fn buys_backed(self, id: u128) -> bool {
        self.coin_load(id) <= self.portfolios[id].coins.locked
    }

    /// Each portfolio has locked at least what its resting orders need: of
    /// every asset the quantities of its sells, and in coins the limit times
    /// the quantity of each of its buys.
    pub open spec fn locks_cover(self) -> bool {
        &&& self.owners_known()
        &&& forall|id: u128, asset: u128|
            self.portfolios.contains_key(id) && self.books.contains_key(asset)
                ==> #[trigger] self.sells_backed(id, asset)
        &&& forall|id: u128| self.portfolios.contains_key(id) ==> #[trigger] self.buys_backed(id)
    }

    /// All that holds of a market between two events.
    pub open spec fn wf(self) -> bool {
        &&& self.sound()
        &&& self.keys_wf()
        &&& self.books_wf()
        &&& self.locks_cover()
    }
}

} // verus!
