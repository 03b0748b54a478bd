//! The game around the engine: who takes part, what is traded, and what
//! everybody may see of the books.

use vstd::prelude::*;
use crate::account::AccountView;
use crate::asset::Asset;
use crate::asset::AssetView;
use crate::book::Book;
use crate::book::BookView;
use crate::engine::Engine;
use crate::error::ErrorType;
use crate::error::EngineResult;
use crate::growth::lemma_deposit_asset_wf;
use crate::growth::lemma_register_asset_wf;
use crate::growth::lemma_register_portfolio_wf;
use crate::ids::fresh_id;
use crate::ids::is_random_id;
use crate::market::keys_of;
use crate::market::lemma_asset_views_insert;
use crate::market::lemma_book_views_insert;
use crate::market::lemma_key_ends;
use crate::market::lemma_next_key;
use crate::market::lemma_portfolio_views_insert;
use crate::model::MarketView;
use crate::order::Order;
use crate::order::OrderMode;
use crate::order::OrderSide;
use crate::portfolio::Portfolio;
use crate::refusals::orders_valid;
use crate::refusals::lemma_growth_valid;
use crate::portfolio::PortfolioView;
use crate::supply::lemma_member_bounds;

verus! {

broadcast use vstd::std_specs::hash::group_hash_axioms;

/// What everybody may see of a resting order: all but its owner.
#[derive(Copy, Clone, Debug, PartialEq, Eq, Structural)]
pub struct PublicOrder {
    pub asset: u128,
    pub mode: OrderMode,
    pub side: OrderSide,
    pub quantity: usize,
}

impl PublicOrder {
    /// The public face of `order`.
    pub open spec fn of(order: Order) -> PublicOrder {
        PublicOrder {
            asset: order.asset,
            mode: order.mode,
            side: order.side,
            quantity: order.quantity,
        }
    }

    /// The public face of each of `orders`, in their order.
    pub open spec fn all_of(orders: Seq<Order>) -> Seq<PublicOrder> {
        Seq::new(orders.len(), |i: int| PublicOrder::of(orders[i]))
    }

    /// The public face of `order`.
    pub fn from(order: &Order) -> (public: PublicOrder)
        ensures
            public == PublicOrder::of(*order),
    {
        PublicOrder {
            asset: order.asset,
            mode: order.mode,
            side: order.side,
            quantity: order.quantity,
        }
    }
}

/// The mathematical value of a [`PublicBook`].
pub struct PublicBookView {
    pub asset: AssetView,
    pub sell: Seq<PublicOrder>,
    pub buy: Seq<PublicOrder>,
}

impl PublicBookView {
    /// The public face of `book`, which is the book of `asset`.
    pub open spec fn of(asset: AssetView, book: BookView) -> PublicBookView {
        PublicBookView {
            asset,
            sell: PublicOrder::all_of(book.sell_orders),
            buy: PublicOrder::all_of(book.buy_orders),
        }
    }
}

/// What everybody may see of a book: the asset, and both sides best first.
#[derive(Debug)]
pub struct PublicBook {
    pub asset: Asset,
    pub sell: Vec<PublicOrder>,
    pub buy: Vec<PublicOrder>,
}

impl View for PublicBook {
    type V = PublicBookView;

    open spec fn view(&self) -> PublicBookView {
        PublicBookView { asset: self.asset@, sell: self.sell@, buy: self.buy@ }
    }
}

/// The public face of each of `orders`.
fn publish(orders: &Vec<Order>) -> (public: Vec<PublicOrder>)
    ensures
        public@ == PublicOrder::all_of(orders@),
{
    let mut public: Vec<PublicOrder> = Vec::new();
    let mut i: usize = 0;
    while i < orders.len()
        invariant
            i <= orders.len(),
            public@.len() == i,
            forall|j: int| 0 <= j < i ==> public@[j] == PublicOrder::of(orders@[j]),
        decreases orders.len() - i,
    {
        public.push(PublicOrder::from(&orders[i]));
        i += 1;
    }
    assert(public@ =~= PublicOrder::all_of(orders@));
    public
}

impl PublicBook {
    /// The public face of `book`, which is the book of `asset`.
    pub fn from_book(asset: Asset, book: &Book) -> (public: PublicBook)
        ensures
            public@ == PublicBookView::of(asset@, book@),
    {
        PublicBook { asset, sell: publish(&book.sell_orders), buy: publish(&book.buy_orders) }
    }
}

/// The public book at position `i` of `books` is that of the asset under
/// the key at position `i` of `keys`.
pub open spec fn lists_at(books: Seq<PublicBookView>, m: MarketView, keys: Seq<u128>, i: int) -> bool {
    &&& m.assets.contains_key(keys[i])
    &&& m.books.contains_key(m.assets[keys[i]].id)
    &&& books[i] == PublicBookView::of(m.assets[keys[i]], m.books[m.assets[keys[i]].id])
}

/// The public books listed in `books` are those of the assets under `keys`,
/// one for one.
pub open spec fn lists(books: Seq<PublicBookView>, m: MarketView, keys: Seq<u128>) -> bool {
    &&& books.len() == keys.len()
    &&& forall|i: int| 0 <= i < keys.len() ==> #[trigger] lists_at(books, m, keys, i)
}

/// `books` lists the public book of every asset exactly once.
pub open spec fn shows_all(books: Seq<PublicBookView>, m: MarketView) -> bool {
    exists|keys: Seq<u128>|
        {
            &&& #[trigger] lists(books, m, keys)
            &&& keys.no_duplicates()
            &&& keys.to_set() == m.assets.dom()
        }
}

/// An asset of `m` has no book, and `e` says which.
pub open spec fn misses_book(m: MarketView, e: ErrorType) -> bool {
    exists|key: u128|
        {
            &&& m.assets.contains_key(key)
            &&& !m.books.contains_key((#[trigger] m.assets[key]).id)
            &&& e == ErrorType::AssetNotFound(m.assets[key].id)
        }
}

/// The views of `books`, in their order.
pub open spec fn book_list_view(books: Seq<PublicBook>) -> Seq<PublicBookView> {
    Seq::new(books.len(), |i: int| books[i]@)
}

/// The portfolios of `before`, those under `seen` with a balance of nothing
/// of the asset `id`.
pub open spec fn with_accounts_opened(
    before: Map<u128, PortfolioView>,
    seen: Set<u128>,
    id: u128,
) -> Map<u128, PortfolioView> {
    Map::new(
        |k: u128| before.contains_key(k),
        |k: u128|
            if seen.contains(k) {
                before[k].with_asset(id, AccountView::fresh(0))
            } else {
                before[k]
            },
    )
}

/// The engine, and the ways in which its market grows.
pub struct Game {
    pub engine: Engine,
}

impl Game {
    /// The value of the market of the game.
    pub open spec fn market(&self) -> MarketView {
        self.engine.market@
    }

    /// A game with no participant and nothing to trade.
    pub fn new() -> (game: Game)
        ensures
            game.market() == MarketView::empty(),
            game.market().wf(),
            game.market().coin_supply() == 0,
            forall|asset: u128| #[trigger] game.market().asset_supply(asset) == 0,
            orders_valid(game.market()),
    {
        Game { engine: Engine::new() }
    }

    /// Creates a portfolio with `initial_coins` free coins and a balance of
    /// nothing of every asset, under a fresh random identifier, which is
    /// returned. Nothing happens if the identifier drawn is taken, or if the
    /// market cannot hold that many coins: it fails only where registering
    /// under some random identifier fails, so it succeeds wherever no
    /// identifier can be in the way and the coins fit.
    pub fn create_portfolio(&mut self, initial_coins: usize) -> (result: EngineResult<u128>)
        requires
            old(self).market().wf(),
        ensures
            final(self).market().wf(),
            orders_valid(old(self).market()) ==> orders_valid(final(self).market()),
            result is Ok ==> final(self).market().coin_supply() == old(self).market().coin_supply()
                + initial_coins,
            forall|asset: u128| #[trigger]
                final(self).market().asset_supply(asset) == old(self).market().asset_supply(asset),
            match result {
                Ok(id) => is_random_id(id) && old(self).market().register_portfolio(
                    id,
                    initial_coins as nat,
                ) == Ok::<
                    MarketView,
                    ErrorType,
                >(final(self).market()),
                Err(e) => e == ErrorType::InvalidState && final(self).market() == old(
                    self,
                ).market(),
            },
            result is Err ==> exists|id: u128|
                is_random_id(id) && (#[trigger] old(self).market().register_portfolio(
                    id,
                    initial_coins as nat,
                )) is Err,
    {
        let id = fresh_id();
        self.register_portfolio(id, initial_coins)
    }

    /// Creates the portfolio under the identifier `id`.
    pub fn register_portfolio(&mut self, id: u128, initial_coins: usize) -> (result: EngineResult<
        u128,
    >)
        requires
            old(self).market().wf(),
        ensures
            final(self).market().wf(),
            orders_valid(old(self).market()) ==> orders_valid(final(self).market()),
            result is Ok ==> final(self).market().coin_supply() == old(self).market().coin_supply()
                + initial_coins,
            forall|asset: u128| #[trigger]
                final(self).market().asset_supply(asset) == old(self).market().asset_supply(asset),
            match result {
                Ok(key) => key == id && old(self).market().register_portfolio(
                    id,
                    initial_coins as nat,
                ) == Ok::<MarketView, ErrorType>(final(self).market()),
                Err(e) => old(self).market().register_portfolio(id, initial_coins as nat) == Err::<
                    MarketView,
                    ErrorType,
                >(e) && final(self).market() == old(self).market(),
            },
    {
        if self.engine.market.portfolios.contains_key(&id) {
            return Err(ErrorType::InvalidState);
        }
        let supply = self.engine.market.coin_supply();
        if initial_coins > usize::MAX - supply - self.engine.market.bank_account {
            return Err(ErrorType::InvalidState);
        }
        let mut portfolio = Portfolio::with_id(id, initial_coins);
        let asset_ids = keys_of(&self.engine.market.assets);
        let ghost zero = AccountView::fresh(0);
        let mut i: usize = 0;
        proof {
            lemma_key_ends(asset_ids@);
            assert(portfolio@.assets =~= Map::new(
                |a: u128| asset_ids@.take(0).to_set().contains(a),
                |a: u128| zero,
            ));
        }
        while i < asset_ids.len()
            invariant
                i <= asset_ids.len(),
                asset_ids@.no_duplicates(),
                zero == AccountView::fresh(0),
                portfolio@.id == id,
                portfolio@.coins == AccountView::fresh(initial_coins as nat),
                portfolio@.assets == Map::new(
                    |a: u128| asset_ids@.take(i as int).to_set().contains(a),
                    |a: u128| zero,
                ),
            decreases asset_ids.len() - i,
        {
            let ghost before = portfolio@.assets;
            portfolio.open_account(asset_ids[i]);
            proof {
                lemma_next_key(asset_ids@, i as int);
                assert(before.insert(asset_ids@[i as int], zero) =~= Map::new(
                    |a: u128| asset_ids@.take(i + 1).to_set().contains(a),
                    |a: u128| zero,
                ));
            }
            i += 1;
        }
        proof {
            lemma_key_ends(asset_ids@);
            assert(self.market().assets.dom() =~= self.engine.market.assets@.dom());
            assert(portfolio@.assets =~= self.market().zero_accounts());
            lemma_portfolio_views_insert(self.engine.market.portfolios@, id, portfolio);
            lemma_register_portfolio_wf(old(self).market(), id, initial_coins as nat);
            if orders_valid(old(self).market()) {
                lemma_growth_valid(
                    old(self).market(),
                    old(self).market().register_portfolio(id, initial_coins as nat)->Ok_0,
                );
            }
        }
        self.engine.market.portfolios.insert(id, portfolio);
        Ok(id)
    }

    /// Creates an asset of this name with an empty book, under a fresh
    /// random identifier, which is returned; every portfolio gets a balance
    /// of nothing of it. Nothing happens if the identifier drawn is taken:
    /// it fails only where registering under some random identifier fails.
    pub fn create_asset(&mut self, name: String) -> (result: EngineResult<u128>)
        requires
            old(self).market().wf(),
        ensures
            final(self).market().wf(),
            orders_valid(old(self).market()) ==> orders_valid(final(self).market()),
            final(self).market().coin_supply() == old(self).market().coin_supply(),
            forall|asset: u128| #[trigger]
                final(self).market().asset_supply(asset) == old(self).market().asset_supply(asset),
            match result {
                Ok(id) => is_random_id(id) && old(self).market().register_asset(id, name@) == Ok::<
                    MarketView,
                    ErrorType,
                >(final(self).market()),
                Err(e) => e == ErrorType::InvalidState && final(self).market() == old(
                    self,
                ).market(),
            },
            result is Err ==> exists|id: u128|
                is_random_id(id) && (#[trigger] old(self).market().register_asset(id, name@))
                    is Err,
    {
        let id = fresh_id();
        self.register_asset(id, name)
    }

    /// Creates the asset under the identifier `id`.
    pub fn register_asset(&mut self, id: u128, name: String) -> (result: EngineResult<u128>)
        requires
            old(self).market().wf(),
        ensures
            final(self).market().wf(),
            orders_valid(old(self).market()) ==> orders_valid(final(self).market()),
            final(self).market().coin_supply() == old(self).market().coin_supply(),
            forall|asset: u128| #[trigger]
                final(self).market().asset_supply(asset) == old(self).market().asset_supply(asset),
            match result {
                Ok(key) => key == id && old(self).market().register_asset(id, name@) == Ok::<
                    MarketView,
                    ErrorType,
                >(final(self).market()),
                Err(e) => old(self).market().register_asset(id, name@) == Err::<
                    MarketView,
                    ErrorType,
                >(e) && final(self).market() == old(self).market(),
            },
    {
        if self.engine.market.assets.contains_key(&id) || self.engine.market.books.contains_key(
            &id,
        ) {
            return Err(ErrorType::InvalidState);
        }
        let ghost start = self.market();
        let asset = Asset::with_id(id, name);
        proof {
            lemma_asset_views_insert(self.engine.market.assets@, id, asset);
        }
        self.engine.market.assets.insert(id, asset);
        let keys = keys_of(&self.engine.market.portfolios);
        let mut i: usize = 0;
        proof {
            lemma_key_ends(keys@);
            assert(self.market().portfolios =~= with_accounts_opened(
                start.portfolios,
                keys@.take(0).to_set(),
                id,
            ));
        }
        while i < keys.len()
            invariant
                i <= keys.len(),
                keys@.no_duplicates(),
                keys@.to_set() == start.portfolios.dom(),
                self.market().bank_account == start.bank_account,
                self.market().books == start.books,
                self.market().assets == start.assets.insert(id, AssetView { id, name: name@ }),
                self.market().portfolios == with_accounts_opened(
                    start.portfolios,
                    keys@.take(i as int).to_set(),
                    id,
                ),
            decreases keys.len() - i,
        {
            let ghost before = self.market().portfolios;
            proof {
                lemma_next_key(keys@, i as int);
            }
            match self.engine.market.get_portfolio_mut(keys[i]) {
                Ok(portfolio) => {
                    portfolio.open_account(id);
                },
                Err(_) => {},
            }
            proof {
                assert(self.market().portfolios =~= with_accounts_opened(
                    start.portfolios,
                    keys@.take(i + 1).to_set(),
                    id,
                ));
            }
            i += 1;
        }
        let book = Book::new(id);
        proof {
            lemma_key_ends(keys@);
            lemma_book_views_insert(self.engine.market.books@, id, book);
            assert(self.market().portfolios =~= start.portfolios.map_values(
                |p: PortfolioView| p.with_asset(id, AccountView::fresh(0)),
            ));
            lemma_register_asset_wf(start, id, name@);
            if orders_valid(start) {
                lemma_growth_valid(start, start.register_asset(id, name@)->Ok_0);
            }
        }
        self.engine.market.books.insert(id, book);
        Ok(id)
    }

    /// Gives `portfolio` another `amount` units of `asset`.
    pub fn set_asset_amount(&mut self, portfolio: u128, asset: u128, amount: usize)
        requires
            old(self).market().wf(),
            old(self).market().portfolios.contains_key(portfolio),
            old(self).market().portfolios[portfolio].assets.contains_key(asset),
            old(self).market().asset_supply(asset) + amount <= usize::MAX,
        ensures
            final(self).market().wf(),
            orders_valid(old(self).market()) ==> orders_valid(final(self).market()),
            final(self).market().coin_supply() == old(self).market().coin_supply(),
            final(self).market().asset_supply(asset) == old(self).market().asset_supply(asset)
                + amount,
            forall|other: u128|
                other != asset ==> #[trigger] final(self).market().asset_supply(other) == old(
                    self,
                ).market().asset_supply(other),
            old(self).market().deposit_asset(portfolio, asset, amount as nat) == Ok::<
                MarketView,
                ErrorType,
            >(final(self).market()),
    {
        proof {
            lemma_member_bounds(self.market(), portfolio);
            lemma_deposit_asset_wf(self.market(), portfolio, asset, amount as nat);
            if orders_valid(self.market()) {
                lemma_growth_valid(
                    self.market(),
                    self.market().deposit_asset(portfolio, asset, amount as nat)->Ok_0,
                );
            }
            assert(self.market().portfolios[portfolio].holding(asset) <= self.market().asset_supply(
                asset,
            ));
        }
        match self.engine.market.get_portfolio_mut(portfolio) {
            Ok(owner) => {
                match owner.get_asset_account_mut(asset) {
                    Ok(account) => {
                        account.add(amount);
                    },
                    Err(_) => {},
                }
            },
            Err(_) => {},
        }
    }

    /// The public books of all assets, in no particular order.
    pub fn get_public_books(&self) -> (result: EngineResult<Vec<PublicBook>>)
        ensures
            match result {
                Ok(books) => shows_all(book_list_view(books@), self.market()),
                Err(e) => misses_book(self.market(), e),
            },
    {
        let keys = keys_of(&self.engine.market.assets);
        let mut books: Vec<PublicBook> = Vec::new();
        let mut i: usize = 0;
        proof {
            assert(self.market().assets.dom() =~= self.engine.market.assets@.dom());
        }
        while i < keys.len()
            invariant
                i <= keys.len(),
                keys@.no_duplicates(),
                keys@.to_set() == self.market().assets.dom(),
                lists(book_list_view(books@), self.market(), keys@.take(i as int)),
            decreases keys.len() - i,
        {
            proof {
                lemma_next_key(keys@, i as int);
            }
            let ghost listed = book_list_view(books@);
            match self.engine.market.get_asset(&keys[i]) {
                Ok(asset) => {
                    match self.engine.market.get_order_book(asset.id) {
                        Ok(book) => {
                            books.push(PublicBook::from_book(asset.clone(), book));
                        },
                        Err(e) => {
                            return Err(e);
                        },
                    }
                },
                Err(_) => {},
            }
            proof {
                let now = book_list_view(books@);
                let upto = keys@.take(i + 1);
                assert(now.len() == upto.len());
                assert forall|j: int| 0 <= j < upto.len() implies #[trigger] lists_at(
                    now,
                    self.market(),
                    upto,
                    j,
                ) by {
                    if j < i {
                        assert(lists_at(listed, self.market(), keys@.take(i as int), j));
                        assert(now[j] == listed[j]);
                        assert(upto[j] == keys@.take(i as int)[j]);
                    } else {
                        assert(upto[j] == keys@[i as int]);
                        assert(self.market().assets.dom().contains(keys@[i as int]));
                        assert(now[j] == books@[i as int]@);
                    }
                }
            }
            i += 1;
        }
        proof {
            lemma_key_ends(keys@);
            assert(lists(book_list_view(books@), self.market(), keys@));
        }
        Ok(books)
    }

    /// The public book of one asset.
    pub fn get_public_book_for(&self, asset_id: u128) -> (result: EngineResult<PublicBook>)
        ensures
            match result {
                Ok(book) => self.market().books.contains_key(asset_id)
                    && self.market().assets.contains_key(asset_id) && book@ == PublicBookView::of(
                    self.market().assets[asset_id],
                    self.market().books[asset_id],
                ),
                Err(e) => e == ErrorType::AssetNotFound(asset_id) && !(
                self.market().books.contains_key(asset_id) && self.market().assets.contains_key(
                    asset_id,
                )),
            },
    {
        let book = match self.engine.market.get_order_book(asset_id) {
            Ok(book) => book,
            Err(e) => return Err(e),
        };
        let asset = match self.engine.market.get_asset(&asset_id) {
            Ok(asset) => asset,
            Err(e) => return Err(e),
        };
        Ok(PublicBook::from_book(asset.clone(), book))
    }
}

} // verus!
