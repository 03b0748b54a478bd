//! The market: the portfolios, the assets, their books and the bank, and
//! the operations that place, match and cancel orders.
//!
//! Each operation does to the market what the function of the same name in
//! [`MarketView`] does to its value. An operation that fails on its way may
//! leave the market part-way, though sound and with its books in order:
//! exactly what it leaves is said by the function of its name that ends in
//! `_left`. It is the engine that puts the market back.

use vstd::prelude::*;
use std::collections::HashMap;
use std::collections::hash_map::Entry;
use crate::asset::Asset;
use crate::asset::AssetView;
use crate::book::Book;
use crate::book::BookView;
use crate::book::quantity_total;
use crate::error::ErrorType;
use crate::error::EngineResult;
use crate::growth::lemma_empty_wf;
use crate::model::MarketView;
use crate::order::Order;
use crate::order::OrderMode;
use crate::order::OrderSide;
use crate::portfolio::Portfolio;
use crate::portfolio::PortfolioView;
use crate::sums::masked;
use crate::sums::total;
use crate::sums::lemma_masked_total;
use vstd::std_specs::iter::IteratorSpec;
use crate::resting::orderly;
use crate::resting::lemma_bill_fee_orderly;
use crate::resting::lemma_cancel_order_orderly;
use crate::resting::lemma_exchange_left_orderly;
use crate::resting::lemma_fill_order_left_orderly;
use crate::resting::lemma_process_trade_left_orderly;
use crate::resting::lemma_remove_order_orderly;
use crate::resting::lemma_rest_left_orderly;
use crate::resting::lemma_transfer_asset_left_orderly;
use crate::resting::lemma_transfer_coins_left_orderly;
use crate::settlement::placed_as_matched;
use crate::settlement::same_asset;
use crate::settlement::taken_out;
use crate::settlement::lemma_process_trade_books;
use crate::settlement::settled;
use crate::settlement::lemma_fill_order_as_matched;
use crate::settlement::lemma_process_trade_settled;
use crate::supply::lemma_add_order_steady;
use crate::supply::lemma_lock_for_steady;
use crate::supply::lemma_withdraw_asset;
use crate::supply::lemma_withdraw_coins;
use crate::supply::lemma_written_back;
use crate::supply::lemma_bill_fee;
use crate::supply::lemma_cancel_order_steady;
use crate::supply::lemma_member_bounds;
use crate::supply::lemma_remove_order_steady;
use crate::supply::lemma_steady_keeps;
use crate::supply::lemma_transfer_asset;
use crate::supply::lemma_transfer_coins;

verus! {

broadcast use vstd::std_specs::hash::group_hash_axioms;

/// The values of the portfolios in `portfolios`.
pub open spec fn portfolio_views(portfolios: Map<u128, Portfolio>) -> Map<u128, PortfolioView> {
    portfolios.map_values(|p: Portfolio| p@)
}

/// The values of the assets in `assets`.
pub open spec fn asset_views(assets: Map<u128, Asset>) -> Map<u128, AssetView> {
    assets.map_values(|a: Asset| a@)
}

/// The values of the books in `books`.
pub open spec fn book_views(books: Map<u128, Book>) -> Map<u128, BookView> {
    books.map_values(|b: Book| b@)
}

/// Writing a portfolio writes its value.
pub proof fn lemma_portfolio_views_insert(portfolios: Map<u128, Portfolio>, k: u128, p: Portfolio)
    ensures
        portfolio_views(portfolios.insert(k, p)) == portfolio_views(portfolios).insert(k, p@),
{
    assert(portfolio_views(portfolios.insert(k, p)) =~= portfolio_views(portfolios).insert(k, p@));
}

/// Writing an asset writes its value.
pub proof fn lemma_asset_views_insert(assets: Map<u128, Asset>, k: u128, a: Asset)
    ensures
        asset_views(assets.insert(k, a)) == asset_views(assets).insert(k, a@),
{
    assert(asset_views(assets.insert(k, a)) =~= asset_views(assets).insert(k, a@));
}

/// Writing a book writes its value.
pub proof fn lemma_book_views_insert(books: Map<u128, Book>, k: u128, b: Book)
    ensures
        book_views(books.insert(k, b)) == book_views(books).insert(k, b@),
{
    assert(book_views(books.insert(k, b)) =~= book_views(books).insert(k, b@));
}

/// The keys of `map`, each once, in no particular order.
pub fn keys_of<V>(map: &HashMap<u128, V>) -> (keys: Vec<u128>)
    ensures
        keys@.no_duplicates(),
        keys@.to_set() == map@.dom(),
{
    let mut keys: Vec<u128> = Vec::new();
    for key in walk: map.keys()
        invariant
            keys@.len() == walk.index(),
            forall|j: int| 0 <= j < keys@.len() ==> keys@[j] == *walk.seq()[j],
            walk.seq() == vstd::std_specs::hash::spec_keys_iter(map).remaining(),
    {
        keys.push(*key);
    }
    proof {
        let all = vstd::std_specs::hash::spec_keys_iter(map).remaining();
        assert(keys@ =~= all.unref());
    }
    keys
}

/// The keys before position `i` of a sequence without duplicates do not
/// hold the key at `i`, and with it they are the keys before `i + 1`.
pub proof fn lemma_next_key(keys: Seq<u128>, i: int)
    requires
        keys.no_duplicates(),
        0 <= i < keys.len(),
    ensures
        !keys.take(i).to_set().contains(keys[i]),
        keys.take(i + 1).to_set() == keys.take(i).to_set().insert(keys[i]),
        keys.to_set().contains(keys[i]),
{
    let before = keys.take(i);
    let with = keys.take(i + 1);
    if before.contains(keys[i]) {
        let j = choose|j: int| 0 <= j < i && #[trigger] before[j] == keys[i];
        assert(keys[j] == keys[i]);
    }
    assert(with.to_set() =~= before.to_set().insert(keys[i])) by {
        assert forall|k: u128|
            with.to_set().contains(k) == before.to_set().insert(keys[i]).contains(k) by {
            if with.contains(k) {
                let j = choose|j: int| 0 <= j < i + 1 && #[trigger] with[j] == k;
                if j < i {
                    assert(before[j] == k);
                }
            }
            if before.contains(k) {
                let j = choose|j: int| 0 <= j < i && #[trigger] before[j] == k;
                assert(with[j] == k);
            }
            if k == keys[i] {
                assert(with[i] == k);
            }
        }
    }
    assert(keys.to_set().contains(keys[i])) by {
        assert(keys.contains(keys[i]));
    }
}

/// No key stands before the first, and all stand before the end.
pub proof fn lemma_key_ends(keys: Seq<u128>)
    ensures
        keys.take(0).to_set() == Set::<u128>::empty(),
        keys.take(keys.len() as int) == keys,
{
    assert(keys.take(0).to_set() =~= Set::<u128>::empty());
    assert(keys.take(keys.len() as int) =~= keys);
}

/// The outcome `result` of an operation that left the market at `after` is
/// the outcome `step` of its model: the same error, or success with `after`
/// as the new value. Either way the market is sound again.
pub open spec fn realizes(
    result: EngineResult<()>,
    step: Result<MarketView, ErrorType>,
    after: MarketView,
) -> bool {
    &&& after.sound()
    &&& match result {
        Ok(()) => step == Ok::<MarketView, ErrorType>(after),
        Err(e) => step == Err::<MarketView, ErrorType>(e),
    }
}

/// All state of the engine.
pub struct Market {
    pub bank_account: usize,
    pub portfolios: HashMap<u128, Portfolio>,
    pub assets: HashMap<u128, Asset>,
    pub books: HashMap<u128, Book>,
}

impl View for Market {
    type V = MarketView;

    open spec fn view(&self) -> MarketView {
        MarketView {
            bank_account: self.bank_account as nat,
            portfolios: portfolio_views(self.portfolios@),
            assets: asset_views(self.assets@),
            books: book_views(self.books@),
        }
    }
}

impl Clone for Market {
    fn clone(&self) -> (copy: Market)
        ensures
            copy@ == self@,
    {
        Market {
            bank_account: self.bank_account,
            portfolios: self.portfolios.clone(),
            assets: self.assets.clone(),
            books: self.books.clone(),
        }
    }
}

impl Market {
    /// A market with nothing in it.
    pub fn new() -> (market: Market)
        ensures
            market@ == MarketView::empty(),
            market@.wf(),
            market@.coin_supply() == 0,
            forall|asset: u128| #[trigger] market@.asset_supply(asset) == 0,
    {
        proof {
            lemma_empty_wf();
        }
        let market = Market {
            bank_account: 0,
            portfolios: HashMap::new(),
            assets: HashMap::new(),
            books: HashMap::new(),
        };
        assert(market@.portfolios =~= Map::empty());
        assert(market@.assets =~= Map::empty());
        assert(market@.books =~= Map::empty());
        market
    }

    /// The book of `asset_id`, to change.
    pub fn get_order_book_mut(&mut self, asset_id: u128) -> (result: EngineResult<&mut Book>)
        ensures
            match result {
                Ok(book) => old(self)@.books.contains_key(asset_id) && book@ == old(
                    self,
                )@.books[asset_id] && final(self)@ == old(self)@.with_book(asset_id, final(book)@),
                Err(e) => !old(self)@.books.contains_key(asset_id) && e == ErrorType::AssetNotFound(
                    asset_id,
                ) && final(self)@ == old(self)@,
            },
    {
        match self.books.entry(asset_id) {
            Entry::Occupied(entry) => {
                let book = entry.into_mut();
                proof {
                    lemma_book_views_insert(old(self).books@, asset_id, *final(book));
                }
                Ok(book)
            },
            Entry::Vacant(_) => {
                assert(old(self).books@.remove(asset_id) =~= old(self).books@);
                Err(ErrorType::AssetNotFound(asset_id))
            },
        }
    }

    /// The book of `asset_id`, to read.
    pub fn get_order_book(&self, asset_id: u128) -> (result: EngineResult<&Book>)
        ensures
            match result {
                Ok(book) => self@.books.contains_key(asset_id) && book@ == self@.books[asset_id],
                Err(e) => !self@.books.contains_key(asset_id) && e == ErrorType::AssetNotFound(
                    asset_id,
                ),
            },
    {
        match self.books.get(&asset_id) {
            Some(book) => Ok(book),
            None => Err(ErrorType::AssetNotFound(asset_id)),
        }
    }

    /// The asset `asset_id`.
    pub fn get_asset(&self, asset_id: &u128) -> (result: EngineResult<&Asset>)
        ensures
            match result {
                Ok(asset) => self@.assets.contains_key(*asset_id) && asset@
                    == self@.assets[*asset_id],
                Err(e) => !self@.assets.contains_key(*asset_id) && e == ErrorType::AssetNotFound(
                    *asset_id,
                ),
            },
    {
        match self.assets.get(asset_id) {
            Some(asset) => Ok(asset),
            None => Err(ErrorType::AssetNotFound(*asset_id)),
        }
    }

    /// The portfolio `portfolio_id`, to change.
    pub fn get_portfolio_mut(&mut self, portfolio_id: u128) -> (result: EngineResult<
        &mut Portfolio,
    >)
        ensures
            match result {
                Ok(portfolio) => old(self)@.portfolios.contains_key(portfolio_id) && portfolio@
                    == old(self)@.portfolios[portfolio_id] && final(self)@ == old(
                    self,
                )@.with_portfolio(portfolio_id, final(portfolio)@),
                Err(e) => !old(self)@.portfolios.contains_key(portfolio_id) && e
                    == ErrorType::PortfolioNotFound(portfolio_id) && final(self)@ == old(self)@,
            },
    {
        match self.portfolios.entry(portfolio_id) {
            Entry::Occupied(entry) => {
                let portfolio = entry.into_mut();
                proof {
                    lemma_portfolio_views_insert(
                        old(self).portfolios@,
                        portfolio_id,
                        *final(portfolio),
                    );
                }
                Ok(portfolio)
            },
            Entry::Vacant(_) => {
                assert(old(self).portfolios@.remove(portfolio_id) =~= old(self).portfolios@);
                Err(ErrorType::PortfolioNotFound(portfolio_id))
            },
        }
    }

    /// The portfolio `portfolio_id`, to read.
    pub fn get_portfolio(&self, portfolio_id: u128) -> (result: EngineResult<&Portfolio>)
        ensures
            match result {
                Ok(portfolio) => self@.portfolios.contains_key(portfolio_id) && portfolio@
                    == self@.portfolios[portfolio_id],
                Err(e) => !self@.portfolios.contains_key(portfolio_id) && e
                    == ErrorType::PortfolioNotFound(portfolio_id),
            },
    {
        match self.portfolios.get(&portfolio_id) {
            Some(portfolio) => Ok(portfolio),
            None => Err(ErrorType::PortfolioNotFound(portfolio_id)),
        }
    }

    /// The coins that all portfolios hold together.
    pub fn coin_supply(&self) -> (supply: usize)
        requires
            self@.sound(),
        ensures
            supply == self@.coin_supply(),
    {
        let keys = keys_of(&self.portfolios);
        let ghost totals = self@.coin_totals();
        let mut supply: usize = 0;
        let mut i: usize = 0;
        proof {
            assert(totals.dom() =~= self.portfolios@.dom());
            lemma_key_ends(keys@);
            lemma_masked_total(totals, Set::empty(), 0);
        }
        while i < keys.len()
            invariant
                i <= keys.len(),
                keys@.no_duplicates(),
                keys@.to_set() == self.portfolios@.dom(),
                totals == self@.coin_totals(),
                totals.dom() == self.portfolios@.dom(),
                totals.dom().finite(),
                total(totals) <= usize::MAX,
                supply == total(masked(totals, keys@.take(i as int).to_set())),
            decreases keys.len() - i,
        {
            proof {
                lemma_next_key(keys@, i as int);
                lemma_masked_total(totals, keys@.take(i as int).to_set(), keys@[i as int]);
                lemma_masked_total(totals, keys@.take(i + 1).to_set(), keys@[i as int]);
            }
            if let Some(portfolio) = self.portfolios.get(&keys[i]) {
                supply = supply + portfolio.coins.total_amount();
            }
            i += 1;
        }
        proof {
            lemma_key_ends(keys@);
            lemma_masked_total(totals, keys@.to_set(), 0);
        }
        supply
    }

    /// The units of `asset` that all portfolios hold together.
    pub fn asset_supply(&self, asset: u128) -> (supply: usize)
        requires
            self@.sound(),
        ensures
            supply == self@.asset_supply(asset),
    {
        let keys = keys_of(&self.portfolios);
        let ghost totals = self@.asset_totals(asset);
        let mut supply: usize = 0;
        let mut i: usize = 0;
        proof {
            assert(totals.dom() =~= self.portfolios@.dom());
            lemma_key_ends(keys@);
            lemma_masked_total(totals, Set::empty(), 0);
            assert(self@.asset_supply(asset) <= usize::MAX);
        }
        while i < keys.len()
            invariant
                i <= keys.len(),
                keys@.no_duplicates(),
                keys@.to_set() == self.portfolios@.dom(),
                totals == self@.asset_totals(asset),
                totals.dom() == self.portfolios@.dom(),
                totals.dom().finite(),
                total(totals) <= usize::MAX,
                supply == total(masked(totals, keys@.take(i as int).to_set())),
            decreases keys.len() - i,
        {
            proof {
                lemma_next_key(keys@, i as int);
                lemma_masked_total(totals, keys@.take(i as int).to_set(), keys@[i as int]);
                lemma_masked_total(totals, keys@.take(i + 1).to_set(), keys@[i as int]);
            }
            if let Some(portfolio) = self.portfolios.get(&keys[i]) {
                if let Some(account) = portfolio.assets.get(&asset) {
                    supply = supply + account.total_amount();
                }
            }
            i += 1;
        }
        proof {
            lemma_key_ends(keys@);
            lemma_masked_total(totals, keys@.to_set(), 0);
        }
        supply
    }

    /// Moves `amount` free coins of a portfolio to the bank.
    pub fn bill_fee(&mut self, portfolio_id: u128, amount: usize) -> (result: EngineResult<()>)
        requires
            old(self)@.sound(),
        ensures
            realizes(result, old(self)@.bill_fee(portfolio_id, amount as nat), final(self)@),
            result is Err ==> final(self)@ == old(self)@,
            orderly(old(self)@) ==> orderly(final(self)@),
    {
        proof {
            if orderly(self@) {
                lemma_bill_fee_orderly(self@, portfolio_id, amount as nat);
            }
        }
        let portfolio = match self.get_portfolio_mut(portfolio_id) {
            Ok(portfolio) => portfolio,
            Err(e) => return Err(e),
        };
        assert(portfolio@.wf());
        if let Err(e) = portfolio.coins.spend_from_free_amount(amount) {
            proof {
                lemma_written_back(old(self)@, portfolio_id, 0);
            }
            return Err(e);
        }
        proof {
            lemma_bill_fee(old(self)@, portfolio_id, amount as nat);
            lemma_member_bounds(old(self)@, portfolio_id);
        }
        self.bank_account += amount;
        proof {
            assert forall|asset: u128| #[trigger] self@.asset_supply(asset) <= usize::MAX by {
                assert(old(self)@.asset_supply(asset) <= usize::MAX);
            }
        }
        Ok(())
    }

    /// Moves `amount` units of `asset` from one portfolio to another, out of
    /// what the giver has locked or out of what it has free.
    pub fn transfer_asset(
        &mut self,
        from: u128,
        to: u128,
        asset: u128,
        amount: usize,
        spend_locked_assets: bool,
    ) -> (result: EngineResult<()>)
        requires
            old(self)@.sound(),
        ensures
            realizes(
                result,
                old(self)@.transfer_asset(from, to, asset, amount as nat, spend_locked_assets),
                final(self)@,
            ),
            old(self)@.withdraw_asset(from, asset, amount as nat, spend_locked_assets) is Err
                ==> final(self)@ == old(self)@,
            final(self)@ == old(self)@.transfer_asset_left(
                from,
                to,
                asset,
                amount as nat,
                spend_locked_assets,
            ),
            orderly(old(self)@) ==> orderly(final(self)@),
    {
        proof {
            if orderly(self@) {
                lemma_transfer_asset_left_orderly(
                    self@,
                    from,
                    to,
                    asset,
                    amount as nat,
                    spend_locked_assets,
                );
            }
        }
        {
            let from_portfolio = match self.get_portfolio_mut(from) {
                Ok(portfolio) => portfolio,
                Err(e) => return Err(e),
            };
            assert(from_portfolio@.wf());
            let from_account = match from_portfolio.get_asset_account_mut(asset) {
                Ok(account) => account,
                Err(e) => {
                    proof {
                        lemma_written_back(old(self)@, from, asset);
                    }
                    return Err(e);
                },
            };
            assert(from_account@.wf());
            let spent = if spend_locked_assets {
                from_account.spend_from_locked_amount(amount)
            } else {
                from_account.spend_from_free_amount(amount)
            };
            if let Err(e) = spent {
                proof {
                    lemma_written_back(old(self)@, from, asset);
                }
                return Err(e);
            }
        }
        let ghost mid = self@;
        proof {
            lemma_withdraw_asset(old(self)@, from, asset, amount as nat, spend_locked_assets);
        }
        {
            let to_portfolio = match self.get_portfolio_mut(to) {
                Ok(portfolio) => portfolio,
                Err(e) => return Err(e),
            };
            let to_account = match to_portfolio.get_asset_account_mut(asset) {
                Ok(account) => account,
                Err(e) => {
                    proof {
                        lemma_written_back(mid, to, asset);
                    }
                    return Err(e);
                },
            };
            proof {
                lemma_transfer_asset(
                    old(self)@,
                    from,
                    to,
                    asset,
                    amount as nat,
                    spend_locked_assets,
                );
                assert(old(self)@.asset_supply(asset) <= usize::MAX);
            }
            to_account.add(amount);
        }
        proof {
            lemma_steady_keeps(old(self)@, self@);
        }
        Ok(())
    }

    /// Moves `amount` coins from one portfolio to another, out of what the
    /// giver has locked or out of what it has free.
    pub fn transfer_coins(
        &mut self,
        from: u128,
        to: u128,
        amount: usize,
        spend_locked_coins: bool,
    ) -> (result: EngineResult<()>)
        requires
            old(self)@.sound(),
        ensures
            realizes(
                result,
                old(self)@.transfer_coins(from, to, amount as nat, spend_locked_coins),
                final(self)@,
            ),
            old(self)@.withdraw_coins(from, amount as nat, spend_locked_coins) is Err
                ==> final(self)@ == old(self)@,
            final(self)@ == old(self)@.transfer_coins_left(
                from,
                to,
                amount as nat,
                spend_locked_coins,
            ),
            orderly(old(self)@) ==> orderly(final(self)@),
    {
        proof {
            if orderly(self@) {
                lemma_transfer_coins_left_orderly(
                    self@,
                    from,
                    to,
                    amount as nat,
                    spend_locked_coins,
                );
            }
        }
        {
            let from_portfolio = match self.get_portfolio_mut(from) {
                Ok(portfolio) => portfolio,
                Err(e) => return Err(e),
            };
            assert(from_portfolio@.wf());
            let spent = if spend_locked_coins {
                from_portfolio.coins.spend_from_locked_amount(amount)
            } else {
                from_portfolio.coins.spend_from_free_amount(amount)
            };
            if let Err(e) = spent {
                proof {
                    lemma_written_back(old(self)@, from, 0);
                }
                return Err(e);
            }
        }
        let ghost mid = self@;
        proof {
            lemma_withdraw_coins(old(self)@, from, amount as nat, spend_locked_coins);
        }
        {
            let to_portfolio = match self.get_portfolio_mut(to) {
                Ok(portfolio) => portfolio,
                Err(e) => return Err(e),
            };
            proof {
                lemma_transfer_coins(old(self)@, from, to, amount as nat, spend_locked_coins);
            }
            to_portfolio.coins.add(amount);
        }
        proof {
            lemma_steady_keeps(old(self)@, self@);
        }
        Ok(())
    }

    /// Settles one trade: `asset_count` units go from the seller to the
    /// buyer, then `price_per_asset` coins for each go from the buyer to the
    /// seller.
    pub fn exchange(
        &mut self,
        buyer: u128,
        seller: u128,
        asset_id: u128,
        asset_count: usize,
        price_per_asset: usize,
        use_locked_coins: bool,
        use_locked_assets: bool,
    ) -> (result: EngineResult<()>)
        requires
            old(self)@.sound(),
        ensures
            realizes(
                result,
                old(self)@.exchange(
                    buyer,
                    seller,
                    asset_id,
                    asset_count as nat,
                    price_per_asset as nat,
                    use_locked_coins,
                    use_locked_assets,
                ),
                final(self)@,
            ),
            final(self)@ == old(self)@.exchange_left(
                buyer,
                seller,
                asset_id,
                asset_count as nat,
                price_per_asset as nat,
                use_locked_coins,
                use_locked_assets,
            ),
            orderly(old(self)@) ==> orderly(final(self)@),
    {
        proof {
            if orderly(self@) {
                lemma_exchange_left_orderly(
                    self@,
                    buyer,
                    seller,
                    asset_id,
                    asset_count as nat,
                    price_per_asset as nat,
                    use_locked_coins,
                    use_locked_assets,
                );
            }
        }
        if let Err(e) = self.transfer_asset(seller, buyer, asset_id, asset_count, use_locked_assets) {
            return Err(e);
        }
        match price_per_asset.checked_mul(asset_count) {
            Some(amount) => self.transfer_coins(buyer, seller, amount, use_locked_coins),
            None => {
                // More coins than any balance holds.
                match self.get_portfolio(buyer) {
                    Err(e) => Err(e),
                    Ok(portfolio) => {
                        proof {
                            portfolio.coins.lemma_fits();
                            assert(portfolio@.wf());
                        }
                        if use_locked_coins {
                            Err(ErrorType::InsufficientLockedAmount)
                        } else {
                            Err(ErrorType::InsufficientFreeAmount)
                        }
                    },
                }
            },
        }
    }

    /// Takes the orders that carry `order` out of the book of `asset`.
    pub fn remove_order(&mut self, asset: u128, order: u128) -> (result: EngineResult<()>)
        requires
            old(self)@.sound(),
        ensures
            realizes(result, old(self)@.remove_order(asset, order), final(self)@),
            result is Err ==> final(self)@ == old(self)@,
            orderly(old(self)@) ==> orderly(final(self)@),
    {
        proof {
            if orderly(self@) {
                lemma_remove_order_orderly(self@, asset, order);
            }
        }
        let book = match self.get_order_book_mut(asset) {
            Ok(book) => book,
            Err(e) => return Err(e),
        };
        book.remove_order(order);
        proof {
            lemma_remove_order_steady(old(self)@, asset, order);
            lemma_steady_keeps(old(self)@, self@);
        }
        Ok(())
    }

    /// Lets `order` rest in the book of its asset. With `lock_amount` set,
    /// first locks what it needs: its quantity of the asset for a sell, its
    /// limit times its quantity in coins for a buy.
    pub fn add_order(&mut self, order: Order, lock_amount: bool) -> (result: EngineResult<()>)
        requires
            old(self)@.sound(),
        ensures
            realizes(result, old(self)@.add_order(order, lock_amount), final(self)@),
            !old(self)@.portfolios.contains_key(order.portfolio) || (lock_amount
                && old(self)@.lock_for(order) is Err) ==> final(self)@ == old(self)@,
            final(self)@ == old(self)@.add_order_left(order, lock_amount),
            orderly(old(self)@) ==> orderly(final(self)@),
    {
        proof {
            if orderly(self@) {
                lemma_rest_left_orderly(self@, order, lock_amount);
            }
        }
        {
            let portfolio = match self.get_portfolio_mut(order.portfolio) {
                Ok(portfolio) => portfolio,
                Err(e) => return Err(e),
            };
            assert(portfolio@.wf());
            if lock_amount {
                match order.side {
                    OrderSide::Sell => {
                        let account = match portfolio.get_asset_account_mut(order.asset) {
                            Ok(account) => account,
                            Err(e) => {
                                proof {
                                    lemma_written_back(old(self)@, order.portfolio, order.asset);
                                }
                                return Err(e);
                            },
                        };
                        assert(account@.wf());
                        match order.mode {
                            OrderMode::Best => {
                                proof {
                                    lemma_written_back(old(self)@, order.portfolio, order.asset);
                                }
                                return Err(ErrorType::CantLockAmountForBestOrder);
                            },
                            OrderMode::Limit(_) => {
                                if let Err(e) = account.lock_amount(order.quantity) {
                                    proof {
                                        lemma_written_back(
                                            old(self)@,
                                            order.portfolio,
                                            order.asset,
                                        );
                                    }
                                    return Err(e);
                                }
                            },
                        }
                    },
                    OrderSide::Buy => {
                        match order.mode {
                            OrderMode::Best => {
                                proof {
                                    lemma_written_back(old(self)@, order.portfolio, order.asset);
                                }
                                return Err(ErrorType::CantLockAmountForBestOrder);
                            },
                            OrderMode::Limit(limit) => {
                                match order.quantity.checked_mul(limit) {
                                    Some(amount) => {
                                        if let Err(e) = portfolio.coins.lock_amount(amount) {
                                            proof {
                                                lemma_written_back(
                                                    old(self)@,
                                                    order.portfolio,
                                                    order.asset,
                                                );
                                            }
                                            return Err(e);
                                        }
                                    },
                                    None => {
                                        proof {
                                            portfolio.coins.lemma_fits();
                                            lemma_written_back(
                                                old(self)@,
                                                order.portfolio,
                                                order.asset,
                                            );
                                        }
                                        return Err(ErrorType::InsufficientFreeAmount);
                                    },
                                }
                            },
                        }
                    },
                }
            }
        }
        let ghost locked = self@;
        proof {
            if lock_amount {
                lemma_lock_for_steady(old(self)@, order);
                lemma_steady_keeps(old(self)@, locked);
            } else {
                lemma_written_back(old(self)@, order.portfolio, order.asset);
            }
        }
        let book = match self.get_order_book_mut(order.asset) {
            Ok(book) => book,
            Err(e) => return Err(e),
        };
        if let Err(e) = book.add_order(order) {
            proof {
                lemma_written_back(locked, order.portfolio, order.asset);
            }
            return Err(e);
        }
        proof {
            lemma_add_order_steady(old(self)@, order, lock_amount);
            lemma_steady_keeps(old(self)@, self@);
        }
        Ok(())
    }

    /// Lets what is left of a matched order rest, unless it has no limit.
    pub fn rest(&mut self, order: Order, lock_amount: bool) -> (result: EngineResult<()>)
        requires
            old(self)@.sound(),
        ensures
            realizes(result, old(self)@.rest(order, lock_amount), final(self)@),
            final(self)@ == old(self)@.rest_left(order, lock_amount),
            orderly(old(self)@) ==> orderly(final(self)@),
    {
        proof {
            if orderly(self@) {
                lemma_rest_left_orderly(self@, order, lock_amount);
            }
        }
        if order.mode == OrderMode::Best {
            return Err(ErrorType::NotEnoughMatchingOrdersToImmediatelyFillBestOrder);
        }
        self.add_order(order, lock_amount)
    }

    /// Takes a resting order of `portfolio_id` back: releases what it keeps
    /// locked and removes it from the book.
    pub fn cancel_order(&mut self, portfolio_id: u128, order_id: u128, asset_id: u128) -> (result:
        EngineResult<()>)
        requires
            old(self)@.sound(),
        ensures
            realizes(
                result,
                old(self)@.cancel_order(portfolio_id, order_id, asset_id),
                final(self)@,
            ),
            result is Err ==> final(self)@ == old(self)@,
            orderly(old(self)@) ==> orderly(final(self)@),
    {
        proof {
            if orderly(self@) {
                lemma_cancel_order_orderly(self@, portfolio_id, order_id, asset_id);
            }
        }
        let order = match self.get_order_book(asset_id) {
            Err(e) => return Err(e),
            Ok(book) => match book.get_order(order_id) {
                Err(e) => return Err(e),
                Ok(order) => *order,
            },
        };
        if order.asset != asset_id {
            return Err(ErrorType::InvalidAssetId);
        }
        if order.portfolio != portfolio_id {
            return Err(ErrorType::OrderNotFound(order_id));
        }
        {
            let portfolio = match self.get_portfolio_mut(portfolio_id) {
                Ok(portfolio) => portfolio,
                Err(e) => return Err(e),
            };
            assert(portfolio@.wf());
            match order.mode {
                OrderMode::Best => {
                    proof {
                        lemma_written_back(old(self)@, portfolio_id, order.asset);
                    }
                    return Err(ErrorType::InvalidState);
                },
                OrderMode::Limit(limit) => match order.side {
                    OrderSide::Sell => {
                        let account = match portfolio.get_asset_account_mut(order.asset) {
                            Ok(account) => account,
                            Err(e) => {
                                proof {
                                    lemma_written_back(old(self)@, portfolio_id, order.asset);
                                }
                                return Err(e);
                            },
                        };
                        assert(account@.wf());
                        if let Err(e) = account.unlock_amount(order.quantity) {
                            proof {
                                lemma_written_back(old(self)@, portfolio_id, order.asset);
                            }
                            return Err(e);
                        }
                    },
                    OrderSide::Buy => {
                        match limit.checked_mul(order.quantity) {
                            Some(amount) => {
                                if let Err(e) = portfolio.coins.unlock_amount(amount) {
                                    proof {
                                        lemma_written_back(old(self)@, portfolio_id, order.asset);
                                    }
                                    return Err(e);
                                }
                            },
                            None => {
                                proof {
                                    portfolio.coins.lemma_fits();
                                    lemma_written_back(old(self)@, portfolio_id, order.asset);
                                }
                                return Err(ErrorType::InsufficientLockedAmount);
                            },
                        }
                    },
                },
            }
        }
        let book = match self.get_order_book_mut(asset_id) {
            Ok(book) => book,
            Err(e) => return Err(e),
        };
        book.remove_order(order_id);
        proof {
            lemma_cancel_order_steady(old(self)@, portfolio_id, order_id, asset_id);
            lemma_steady_keeps(old(self)@, self@);
        }
        Ok(())
    }

    /// Trades `filled_order` with each order of `other_side` in turn, at the
    /// limit of `filled_order` or, if it has none, at the limit of the other.
    /// Each order traded leaves the book, and in the end `filled_order` does.
    /// On success every portfolio has given and got what these trades say,
    /// the resting side out of its locks, and the bank nothing.
    pub fn process_trade(&mut self, filled_order: Order, other_side: Vec<Order>) -> (result:
        EngineResult<()>)
        requires
            old(self)@.sound(),
        ensures
            realizes(
                result,
                old(self)@.process_trade(filled_order, other_side@),
                final(self)@,
            ),
            final(self)@ == old(self)@.process_trade_left(filled_order, other_side@),
            result is Ok ==> settled(old(self)@, final(self)@, filled_order, other_side@),
            result is Ok && same_asset(filled_order, other_side@) ==> final(self)@.books == old(
                self,
            )@.books.insert(
                filled_order.asset,
                taken_out(old(self)@.books[filled_order.asset], other_side@).remove_order(
                    filled_order.id,
                ),
            ),
            orderly(old(self)@) ==> orderly(final(self)@),
    {
        proof {
            if orderly(self@) {
                lemma_process_trade_left_orderly(self@, filled_order, other_side@);
            }
        }
        proof {
            if self@.process_trade(filled_order, other_side@) is Ok {
                lemma_process_trade_settled(self@, filled_order, other_side@);
                if same_asset(filled_order, other_side@) {
                    lemma_process_trade_books(self@, filled_order, other_side@);
                }
            }
        }
        let (use_locked_coins, use_locked_assets) = match filled_order.side {
            OrderSide::Buy => (false, true),
            OrderSide::Sell => (true, false),
        };
        let ghost start = self@;
        let mut i: usize = 0;
        assert(other_side@.skip(0) =~= other_side@);
        while i < other_side.len()
            invariant
                i <= other_side.len(),
                self@.sound(),
                start == old(self)@,
                use_locked_coins == (filled_order.side == OrderSide::Sell),
                use_locked_assets == (filled_order.side == OrderSide::Buy),
                start.process_trade(filled_order, other_side@) == self@.process_trade(
                    filled_order,
                    other_side@.skip(i as int),
                ),
                start.process_trade_left(filled_order, other_side@) == self@.process_trade_left(
                    filled_order,
                    other_side@.skip(i as int),
                ),
                orderly(start) ==> orderly(start.process_trade_left(filled_order, other_side@)),
                start.process_trade(filled_order, other_side@) is Ok ==> settled(
                    start,
                    start.process_trade(filled_order, other_side@)->Ok_0,
                    filled_order,
                    other_side@,
                ),
                start.process_trade(filled_order, other_side@) is Ok && same_asset(
                    filled_order,
                    other_side@,
                ) ==> start.process_trade(filled_order, other_side@)->Ok_0.books
                    == start.books.insert(
                    filled_order.asset,
                    taken_out(start.books[filled_order.asset], other_side@).remove_order(
                        filled_order.id,
                    ),
                ),
            decreases other_side.len() - i,
        {
            let other = other_side[i];
            proof {
                assert(other_side@.skip(i as int)[0] == other);
                assert(other_side@.skip(i as int).skip(1) =~= other_side@.skip(i + 1));
            }
            let price_per_asset = match filled_order.mode {
                OrderMode::Best => match other.mode.get_limit() {
                    Ok(limit) => limit,
                    Err(e) => return Err(e),
                },
                OrderMode::Limit(limit) => limit,
            };
            let (buyer, seller) = match filled_order.side {
                OrderSide::Buy => (filled_order.portfolio, other.portfolio),
                OrderSide::Sell => (other.portfolio, filled_order.portfolio),
            };
            if let Err(e) = self.exchange(
                buyer,
                seller,
                filled_order.asset,
                other.quantity,
                price_per_asset,
                use_locked_coins,
                use_locked_assets,
            ) {
                return Err(e);
            }
            if let Err(e) = self.remove_order(other.asset, other.id) {
                return Err(e);
            }
            i += 1;
        }
        self.remove_order(filled_order.asset, filled_order.id)
    }

    /// Places `order`: trades it with the best resting orders that match, as
    /// far as they go. If they go further than the order, the last of them
    /// is split and what is left of it rests again, its lock untouched. If
    /// they fall short, what is left of the order rests and locks what it
    /// needs. An order without a limit never rests: it fails instead. As many
    /// units are traded as the order asks for or as the candidates offer,
    /// whichever is less.
    pub fn fill_order(&mut self, order: Order) -> (result: EngineResult<()>)
        requires
            old(self)@.sound(),
        ensures
            realizes(result, old(self)@.fill_order(order), final(self)@),
            !old(self)@.books.contains_key(order.asset) ==> final(self)@ == old(self)@,
            final(self)@ == old(self)@.fill_order_left(order),
            result is Ok && old(self)@.books[order.asset].best_candidates(order).len() > 0
                ==> placed_as_matched(old(self)@, final(self)@, order),
            orderly(old(self)@) ==> orderly(final(self)@),
    {
        proof {
            if orderly(self@) {
                lemma_fill_order_left_orderly(self@, order);
            }
        }
        proof {
            if self@.fill_order(order) is Ok && self@.books[order.asset].best_candidates(
                order,
            ).len() > 0 {
                lemma_fill_order_as_matched(self@, order);
            }
        }
        let mut candidates = match self.get_order_book(order.asset) {
            Ok(book) => book.find_best_candidates_to_fill(&order),
            Err(e) => return Err(e),
        };
        if candidates.len() == 0 {
            return self.rest(order, true);
        }
        let ghost found = candidates@;
        let fill_sum = quantity_total(&candidates);
        let mut filled_order = order;
        let mut add_after_trade: Option<(Order, bool)> = None;
        if fill_sum > order.quantity as u128 {
            let excess = fill_sum - order.quantity as u128;
            let last = candidates[candidates.len() - 1];
            if excess > usize::MAX as u128 {
                return Err(ErrorType::CantSplitOrder);
            }
            let (remainder, filled) = match last.split(excess as usize) {
                Ok(parts) => parts,
                Err(e) => return Err(e),
            };
            add_after_trade = Some((remainder, false));
            candidates.pop();
            candidates.push(filled);
        } else if fill_sum < order.quantity as u128 {
            let (filled, remainder) = match order.split(fill_sum as usize) {
                Ok(parts) => parts,
                Err(e) => return Err(e),
            };
            add_after_trade = Some((remainder, true));
            filled_order = filled;
        }
        if let Err(e) = self.process_trade(filled_order, candidates) {
            return Err(e);
        }
        match add_after_trade {
            Some((remainder, lock_amount)) => self.rest(remainder, lock_amount),
            None => Ok(()),
        }
    }
}

} // verus!
