//! How the operations of the market move coins and units: what each of them
//! leaves as it was, and that none of them makes or loses any.

use vstd::prelude::*;
use crate::account::AccountView;
use crate::model::MarketView;
use crate::order::Order;
use crate::order::OrderSide;
use crate::portfolio::PortfolioView;
use crate::sums::total;
use crate::sums::lemma_total_insert;
use crate::sums::lemma_total_bound;
use crate::book::BookView;
use crate::engine::Event;
use crate::error::ErrorType;

verus! {

/// `after` has the portfolios, balances, assets and books of `before`, by
/// their identifiers: nothing was created and nothing was dropped.
pub open spec fn same_shape(before: MarketView, after: MarketView) -> bool {
    &&& after.portfolios.dom() == before.portfolios.dom()
    &&& forall|id: u128|
        before.portfolios.contains_key(id) ==> {
            &&& (#[trigger] after.portfolios[id]).assets.dom() == before.portfolios[id].assets.dom()
            &&& after.portfolios[id].id == before.portfolios[id].id
        }
    &&& after.assets == before.assets
    &&& after.books.dom() == before.books.dom()
    &&& forall|asset: u128|
        before.books.contains_key(asset) ==> (#[trigger] after.books[asset]).asset_id
            == before.books[asset].asset_id
}

/// `after` has the shape of `before`, the same coins in the portfolios and
/// in the bank, and the same units of every asset.
pub open spec fn steady(before: MarketView, after: MarketView) -> bool {
    &&& same_shape(before, after)
    &&& after.bank_account == before.bank_account
    &&& after.coin_supply() == before.coin_supply()
    &&& forall|asset: u128| #[trigger] after.asset_supply(asset) == before.asset_supply(asset)
}

/// Two steady steps in a row are one steady step.
pub proof fn lemma_steady_transitive(a: MarketView, b: MarketView, c: MarketView)
    requires
        steady(a, b),
        steady(b, c),
    ensures
        steady(a, c),
{
    assert forall|asset: u128| #[trigger] c.asset_supply(asset) == a.asset_supply(asset) by {
        assert(b.asset_supply(asset) == a.asset_supply(asset));
    }
}

/// A steady step keeps a market sound and its keys in order, provided the
/// balances stay well-formed.
pub proof fn lemma_steady_keeps(before: MarketView, after: MarketView)
    requires
        steady(before, after),
        after.accounts_wf(),
    ensures
        before.supply_bounded() ==> after.sound(),
        before.keys_wf() ==> after.keys_wf(),
{
    if before.supply_bounded() {
        assert forall|asset: u128| #[trigger] after.asset_supply(asset) <= usize::MAX by {
            assert(before.asset_supply(asset) <= usize::MAX);
        }
    }
}

/// Replacing one portfolio changes each sum by what that portfolio's part in
/// it changes.
pub proof fn lemma_with_portfolio(m: MarketView, id: u128, p: PortfolioView)
    requires
        m.portfolios.dom().finite(),
    ensures
        ({
            let after = m.with_portfolio(id, p);
            &&& after.portfolios.dom().finite()
            &&& after.coin_supply() + (if m.portfolios.contains_key(id) {
                m.portfolios[id].coins.total
            } else {
                0
            }) == m.coin_supply() + p.coins.total
            &&& forall|asset: u128|
                #[trigger] after.asset_supply(asset) + (if m.portfolios.contains_key(id) {
                    m.portfolios[id].holding(asset)
                } else {
                    0
                }) == m.asset_supply(asset) + p.holding(asset)
        }),
{
    let after = m.with_portfolio(id, p);
    assert(m.coin_totals().dom() =~= m.portfolios.dom());
    assert(after.coin_totals() =~= m.coin_totals().insert(id, p.coins.total));
    lemma_total_insert(m.coin_totals(), id, p.coins.total);
    assert forall|asset: u128|
        #[trigger] after.asset_supply(asset) + (if m.portfolios.contains_key(id) {
            m.portfolios[id].holding(asset)
        } else {
            0
        }) == m.asset_supply(asset) + p.holding(asset) by {
        assert(m.asset_totals(asset).dom() =~= m.portfolios.dom());
        assert(after.asset_totals(asset) =~= m.asset_totals(asset).insert(id, p.holding(asset)));
        lemma_total_insert(m.asset_totals(asset), id, p.holding(asset));
    }
}

/// No portfolio holds more than all of them together.
pub proof fn lemma_member_bounds(m: MarketView, id: u128)
    requires
        m.portfolios.dom().finite(),
        m.portfolios.contains_key(id),
    ensures
        m.portfolios[id].coins.total <= m.coin_supply(),
        forall|asset: u128| m.portfolios[id].holding(asset) <= #[trigger] m.asset_supply(asset),
{
    assert(m.coin_totals().dom() =~= m.portfolios.dom());
    lemma_total_bound(m.coin_totals(), id);
    assert forall|asset: u128| m.portfolios[id].holding(asset) <= #[trigger] m.asset_supply(
        asset,
    ) by {
        assert(m.asset_totals(asset).dom() =~= m.portfolios.dom());
        lemma_total_bound(m.asset_totals(asset), id);
    }
}

/// Writing the coin balance of a known portfolio.
pub proof fn lemma_with_coins(m: MarketView, id: u128, coins: AccountView)
    requires
        m.portfolios.dom().finite(),
        m.portfolios.contains_key(id),
        m.accounts_wf(),
        coins.wf(),
    ensures
        ({
            let after = m.with_coins(id, coins);
            &&& same_shape(m, after)
            &&& after.accounts_wf()
            &&& after.portfolios.dom().finite()
            &&& after.books == m.books
            &&& after.bank_account == m.bank_account
            &&& after.coin_supply() + m.portfolios[id].coins.total == m.coin_supply() + coins.total
            &&& forall|asset: u128| #[trigger] after.asset_supply(asset) == m.asset_supply(asset)
        }),
{
    let p = m.portfolios[id].with_coins(coins);
    lemma_with_portfolio(m, id, p);
    let after = m.with_coins(id, coins);
    assert(after.portfolios.dom() =~= m.portfolios.dom());
    assert forall|asset: u128| #[trigger] after.asset_supply(asset) == m.asset_supply(asset) by {
        assert(p.holding(asset) == m.portfolios[id].holding(asset));
    }
    assert forall|k: u128| after.portfolios.contains_key(k) implies (
    #[trigger] after.portfolios[k]).wf() by {
        assert(m.portfolios[k].wf());
    }
}

/// Writing one asset balance of a known portfolio that has that balance.
pub proof fn lemma_with_asset_account(m: MarketView, id: u128, asset: u128, account: AccountView)
    requires
        m.portfolios.dom().finite(),
        m.portfolios.contains_key(id),
        m.portfolios[id].assets.contains_key(asset),
        m.accounts_wf(),
        account.wf(),
    ensures
        ({
            let after = m.with_asset_account(id, asset, account);
            &&& same_shape(m, after)
            &&& after.accounts_wf()
            &&& after.portfolios.dom().finite()
            &&& after.books == m.books
            &&& after.bank_account == m.bank_account
            &&& after.coin_supply() == m.coin_supply()
            &&& after.asset_supply(asset) + m.portfolios[id].assets[asset].total == m.asset_supply(
                asset,
            ) + account.total
            &&& forall|other: u128|
                other != asset ==> #[trigger] after.asset_supply(other) == m.asset_supply(other)
        }),
{
    let p = m.portfolios[id].with_asset(asset, account);
    lemma_with_portfolio(m, id, p);
    let after = m.with_asset_account(id, asset, account);
    assert(after.portfolios.dom() =~= m.portfolios.dom());
    assert(p.assets.dom() =~= m.portfolios[id].assets.dom());
    assert(after.asset_supply(asset) + m.portfolios[id].holding(asset) == m.asset_supply(asset)
        + p.holding(asset));
    assert forall|other: u128| other != asset implies #[trigger] after.asset_supply(other)
        == m.asset_supply(other) by {
        assert(p.holding(other) == m.portfolios[id].holding(other));
        assert(after.asset_supply(other) + m.portfolios[id].holding(other) == m.asset_supply(other)
            + p.holding(other));
    }
    assert forall|k: u128| after.portfolios.contains_key(k) implies (
    #[trigger] after.portfolios[k]).wf() by {
        assert(m.portfolios[k].wf());
        if k == id {
            assert forall|a: u128| p.assets.contains_key(a) implies (#[trigger] p.assets[a]).wf() by {
                if a != asset {
                    assert(m.portfolios[id].assets[a].wf());
                }
            }
        }
    }
}

/// Writing back what stood there leaves the market as it was.
pub proof fn lemma_written_back(m: MarketView, id: u128, asset: u128)
    ensures
        m.portfolios.contains_key(id) ==> m.with_portfolio(id, m.portfolios[id]) == m,
        m.portfolios.contains_key(id) ==> m.with_coins(id, m.portfolios[id].coins) == m,
        m.portfolios.contains_key(id) && m.portfolios[id].assets.contains_key(asset)
            ==> m.portfolios[id].with_asset(asset, m.portfolios[id].assets[asset])
            == m.portfolios[id],
        m.books.contains_key(asset) ==> m.with_book(asset, m.books[asset]) == m,
{
    if m.portfolios.contains_key(id) {
        assert(m.portfolios.insert(id, m.portfolios[id]) =~= m.portfolios);
        if m.portfolios[id].assets.contains_key(asset) {
            assert(m.portfolios[id].assets.insert(asset, m.portfolios[id].assets[asset])
                =~= m.portfolios[id].assets);
        }
    }
    if m.books.contains_key(asset) {
        assert(m.books.insert(asset, m.books[asset]) =~= m.books);
    }
}

/// Taking coins out of a portfolio leaves a sound market sound.
pub proof fn lemma_withdraw_coins(m: MarketView, id: u128, amount: nat, locked: bool)
    requires
        m.sound(),
        m.withdraw_coins(id, amount, locked) is Ok,
    ensures
        m.withdraw_coins(id, amount, locked)->Ok_0.sound(),
{
    let left = if locked {
        m.portfolios[id].coins.spend_from_locked(amount)->Ok_0
    } else {
        m.portfolios[id].coins.spend_from_free(amount)->Ok_0
    };
    assert(m.portfolios[id].wf());
    lemma_with_coins(m, id, left);
    let after = m.with_coins(id, left);
    assert forall|asset: u128| #[trigger] after.asset_supply(asset) <= usize::MAX by {
        assert(m.asset_supply(asset) <= usize::MAX);
    }
}

/// Taking units out of a portfolio leaves a sound market sound.
pub proof fn lemma_withdraw_asset(m: MarketView, id: u128, asset: u128, amount: nat, locked: bool)
    requires
        m.sound(),
        m.withdraw_asset(id, asset, amount, locked) is Ok,
    ensures
        m.withdraw_asset(id, asset, amount, locked)->Ok_0.sound(),
{
    let account = m.portfolios[id].assets[asset];
    let left = if locked {
        account.spend_from_locked(amount)->Ok_0
    } else {
        account.spend_from_free(amount)->Ok_0
    };
    assert(m.portfolios[id].wf());
    assert(account.wf());
    lemma_with_asset_account(m, id, asset, left);
    let after = m.with_asset_account(id, asset, left);
    assert forall|other: u128| #[trigger] after.asset_supply(other) <= usize::MAX by {
        assert(m.asset_supply(other) <= usize::MAX);
    }
}

/// Moving coins between portfolios makes none and loses none.
pub proof fn lemma_transfer_coins(m: MarketView, from: u128, to: u128, amount: nat, locked: bool)
    requires
        m.portfolios.dom().finite(),
        m.accounts_wf(),
        m.transfer_coins(from, to, amount, locked) is Ok,
    ensures
        ({
            let mid = m.withdraw_coins(from, amount, locked)->Ok_0;
            let after = m.transfer_coins(from, to, amount, locked)->Ok_0;
            &&& m.withdraw_coins(from, amount, locked) is Ok
            &&& mid.accounts_wf()
            &&& mid.portfolios.dom().finite()
            &&& mid.coin_supply() + amount == m.coin_supply()
            &&& mid.bank_account == m.bank_account
            &&& mid.portfolios.contains_key(to)
            &&& mid.portfolios[to].coins.total + amount <= m.coin_supply()
            &&& steady(m, after)
            &&& after.accounts_wf()
            &&& after.books == m.books
        }),
{
    let left = if locked {
        m.portfolios[from].coins.spend_from_locked(amount)->Ok_0
    } else {
        m.portfolios[from].coins.spend_from_free(amount)->Ok_0
    };
    assert(m.portfolios[from].wf());
    lemma_with_coins(m, from, left);
    let mid = m.with_coins(from, left);
    lemma_member_bounds(mid, to);
    assert(mid.portfolios[to].wf());
    lemma_with_coins(mid, to, mid.portfolios[to].coins.add(amount));
    let after = mid.with_coins(to, mid.portfolios[to].coins.add(amount));
    assert forall|asset: u128| #[trigger] after.asset_supply(asset) == m.asset_supply(asset) by {
        assert(mid.asset_supply(asset) == m.asset_supply(asset));
    }
    assert forall|id: u128| m.portfolios.contains_key(id) implies {
        &&& (#[trigger] after.portfolios[id]).assets.dom() == m.portfolios[id].assets.dom()
        &&& after.portfolios[id].id == m.portfolios[id].id
    } by {
        assert(mid.portfolios[id].assets.dom() == m.portfolios[id].assets.dom());
    }
}

/// Moving units of an asset between portfolios makes none and loses none.
pub proof fn lemma_transfer_asset(
    m: MarketView,
    from: u128,
    to: u128,
    asset: u128,
    amount: nat,
    locked: bool,
)
    requires
        m.portfolios.dom().finite(),
        m.accounts_wf(),
        m.transfer_asset(from, to, asset, amount, locked) is Ok,
    ensures
        ({
            let mid = m.withdraw_asset(from, asset, amount, locked)->Ok_0;
            let after = m.transfer_asset(from, to, asset, amount, locked)->Ok_0;
            &&& m.withdraw_asset(from, asset, amount, locked) is Ok
            &&& mid.accounts_wf()
            &&& mid.portfolios.dom().finite()
            &&& mid.coin_supply() == m.coin_supply()
            &&& mid.bank_account == m.bank_account
            &&& mid.portfolios.contains_key(to)
            &&& mid.portfolios[to].assets.contains_key(asset)
            &&& mid.portfolios[to].assets[asset].total + amount <= m.asset_supply(asset)
            &&& steady(m, after)
            &&& after.accounts_wf()
            &&& after.books == m.books
        }),
{
    let account = m.portfolios[from].assets[asset];
    let left = if locked {
        account.spend_from_locked(amount)->Ok_0
    } else {
        account.spend_from_free(amount)->Ok_0
    };
    assert(m.portfolios[from].wf());
    assert(account.wf());
    lemma_with_asset_account(m, from, asset, left);
    let mid = m.with_asset_account(from, asset, left);
    lemma_member_bounds(mid, to);
    assert(mid.portfolios[to].holding(asset) <= mid.asset_supply(asset));
    assert(mid.portfolios[to].wf());
    let grown = mid.portfolios[to].assets[asset].add(amount);
    assert(mid.portfolios[to].assets[asset].wf());
    lemma_with_asset_account(mid, to, asset, grown);
    let after = mid.with_asset_account(to, asset, grown);
    assert forall|other: u128| #[trigger] after.asset_supply(other) == m.asset_supply(other) by {
        if other != asset {
            assert(mid.asset_supply(other) == m.asset_supply(other));
        }
    }
    assert forall|id: u128| m.portfolios.contains_key(id) implies {
        &&& (#[trigger] after.portfolios[id]).assets.dom() == m.portfolios[id].assets.dom()
        &&& after.portfolios[id].id == m.portfolios[id].id
    } by {
        assert(mid.portfolios[id].assets.dom() == m.portfolios[id].assets.dom());
    }
}

/// The balances are well-formed and the portfolios are finitely many.
pub open spec fn tidy(m: MarketView) -> bool {
    m.portfolios.dom().finite() && m.accounts_wf()
}

/// If the step succeeded, it was steady and left the market tidy.
pub open spec fn carried(m: MarketView, step: Result<MarketView, ErrorType>) -> bool {
    step is Ok ==> steady(m, step->Ok_0) && tidy(step->Ok_0)
}

proof fn lemma_carried_chain(
    a: MarketView,
    first: Result<MarketView, ErrorType>,
    then: Result<MarketView, ErrorType>,
)
    requires
        carried(a, first),
        first is Ok ==> carried(first->Ok_0, then),
        first is Err ==> then is Err,
    ensures
        carried(a, then),
{
    if then is Ok {
        lemma_steady_transitive(a, first->Ok_0, then->Ok_0);
    }
}

/// Replacing a book by one of the same asset touches no balance.
pub proof fn lemma_with_book(m: MarketView, asset: u128, book: BookView)
    requires
        tidy(m),
        m.books.contains_key(asset),
        book.asset_id == m.books[asset].asset_id,
    ensures
        steady(m, m.with_book(asset, book)),
        tidy(m.with_book(asset, book)),
        m.with_book(asset, book).portfolios == m.portfolios,
{
    let after = m.with_book(asset, book);
    assert(after.books.dom() =~= m.books.dom());
    assert forall|a: u128| #[trigger] after.asset_supply(a) == m.asset_supply(a) by {}
}

/// Removing an order moves no coin and no unit.
pub proof fn lemma_remove_order_steady(m: MarketView, asset: u128, order: u128)
    requires
        tidy(m),
    ensures
        carried(m, m.remove_order(asset, order)),
        m.remove_order(asset, order) is Ok ==> m.remove_order(asset, order)->Ok_0.portfolios
            == m.portfolios,
{
    if m.books.contains_key(asset) {
        lemma_with_book(m, asset, m.books[asset].remove_order(order));
    }
}

/// Locking for an order moves no coin and no unit, and touches no book.
pub proof fn lemma_lock_for_steady(m: MarketView, order: Order)
    requires
        tidy(m),
        m.portfolios.contains_key(order.portfolio),
    ensures
        carried(m, m.lock_for(order)),
        m.lock_for(order) is Ok ==> m.lock_for(order)->Ok_0.books == m.books,
{
    let owner = m.portfolios[order.portfolio];
    assert(owner.wf());
    if m.lock_for(order) is Ok {
        match order.side {
            OrderSide::Sell => {
                let account = owner.assets[order.asset];
                assert(account.wf());
                let locked = account.lock(order.quantity as nat)->Ok_0;
                lemma_with_asset_account(m, order.portfolio, order.asset, locked);
                let after = m.with_asset_account(order.portfolio, order.asset, locked);
                assert forall|a: u128| #[trigger] after.asset_supply(a) == m.asset_supply(a) by {}
            },
            OrderSide::Buy => {
                let limit = order.mode->Limit_0;
                let locked = owner.coins.lock((order.quantity * limit) as nat)->Ok_0;
                lemma_with_coins(m, order.portfolio, locked);
            },
        }
    }
}

/// Releasing the lock of an order moves no coin and no unit, and touches no
/// book.
pub proof fn lemma_unlock_for_steady(m: MarketView, order: Order)
    requires
        tidy(m),
        m.portfolios.contains_key(order.portfolio),
    ensures
        carried(m, m.unlock_for(order)),
        m.unlock_for(order) is Ok ==> m.unlock_for(order)->Ok_0.books == m.books,
{
    let owner = m.portfolios[order.portfolio];
    assert(owner.wf());
    if m.unlock_for(order) is Ok {
        let limit = order.mode->Limit_0;
        match order.side {
            OrderSide::Sell => {
                let account = owner.assets[order.asset];
                assert(account.wf());
                let unlocked = account.unlock(order.quantity as nat)->Ok_0;
                lemma_with_asset_account(m, order.portfolio, order.asset, unlocked);
                let after = m.with_asset_account(order.portfolio, order.asset, unlocked);
                assert forall|a: u128| #[trigger] after.asset_supply(a) == m.asset_supply(a) by {}
            },
            OrderSide::Buy => {
                let unlocked = owner.coins.unlock((limit * order.quantity) as nat)->Ok_0;
                lemma_with_coins(m, order.portfolio, unlocked);
            },
        }
    }
}

/// Letting an order rest moves no coin and no unit.
pub proof fn lemma_add_order_steady(m: MarketView, order: Order, lock_amount: bool)
    requires
        tidy(m),
    ensures
        carried(m, m.add_order(order, lock_amount)),
{
    if m.add_order(order, lock_amount) is Ok {
        let locked = if lock_amount {
            m.lock_for(order)->Ok_0
        } else {
            m
        };
        if lock_amount {
            lemma_lock_for_steady(m, order);
        }
        let book = locked.books[order.asset].add_order(order)->Ok_0;
        lemma_with_book(locked, order.asset, book);
        lemma_steady_transitive(m, locked, locked.with_book(order.asset, book));
    }
}

/// Letting what is left of an order rest moves no coin and no unit.
pub proof fn lemma_rest_steady(m: MarketView, order: Order, lock_amount: bool)
    requires
        tidy(m),
    ensures
        carried(m, m.rest(order, lock_amount)),
{
    lemma_add_order_steady(m, order, lock_amount);
}

/// Cancelling an order moves no coin and no unit.
pub proof fn lemma_cancel_order_steady(m: MarketView, portfolio: u128, order_id: u128, asset: u128)
    requires
        tidy(m),
    ensures
        carried(m, m.cancel_order(portfolio, order_id, asset)),
{
    if m.cancel_order(portfolio, order_id, asset) is Ok {
        let order = m.books[asset].get_order(order_id)->Ok_0;
        lemma_unlock_for_steady(m, order);
        let unlocked = m.unlock_for(order)->Ok_0;
        let book = unlocked.books[asset].remove_order(order_id);
        lemma_with_book(unlocked, asset, book);
        lemma_steady_transitive(m, unlocked, unlocked.with_book(asset, book));
    }
}

/// The fee leaves the portfolio and arrives at the bank.
pub proof fn lemma_bill_fee(m: MarketView, id: u128, amount: nat)
    requires
        tidy(m),
        m.bill_fee(id, amount) is Ok,
    ensures
        ({
            let after = m.bill_fee(id, amount)->Ok_0;
            &&& same_shape(m, after)
            &&& tidy(after)
            &&& after.books == m.books
            &&& after.bank_account == m.bank_account + amount
            &&& after.coin_supply() + amount == m.coin_supply()
            &&& forall|asset: u128| #[trigger] after.asset_supply(asset) == m.asset_supply(asset)
        }),
{
    assert(m.portfolios[id].wf());
    let coins = m.portfolios[id].coins.spend_from_free(amount)->Ok_0;
    lemma_with_coins(m, id, coins);
    let paid = m.with_coins(id, coins);
    let after = m.bill_fee(id, amount)->Ok_0;
    assert(after.portfolios == paid.portfolios);
    assert forall|asset: u128| #[trigger] after.asset_supply(asset) == m.asset_supply(asset) by {
        assert(paid.asset_supply(asset) == m.asset_supply(asset));
    }
}

/// A market that was sound before a fee was billed is sound after it.
pub proof fn lemma_steady_keeps_after_fee(m: MarketView, after: MarketView)
    requires
        m.sound(),
        same_shape(m, after),
        tidy(after),
        after.coin_supply() + after.bank_account == m.coin_supply() + m.bank_account,
        forall|asset: u128| #[trigger] after.asset_supply(asset) == m.asset_supply(asset),
    ensures
        after.sound(),
        m.keys_wf() ==> after.keys_wf(),
{
    assert forall|asset: u128| #[trigger] after.asset_supply(asset) <= usize::MAX by {
        assert(m.asset_supply(asset) <= usize::MAX);
    }
}

/// Settling a trade makes and loses no coin and no unit.
pub proof fn lemma_exchange_steady(
    m: MarketView,
    buyer: u128,
    seller: u128,
    asset: u128,
    asset_count: nat,
    price_per_asset: nat,
    use_locked_coins: bool,
    use_locked_assets: bool,
)
    requires
        tidy(m),
    ensures
        carried(
            m,
            m.exchange(
                buyer,
                seller,
                asset,
                asset_count,
                price_per_asset,
                use_locked_coins,
                use_locked_assets,
            ),
        ),
{
    let moved = m.transfer_asset(seller, buyer, asset, asset_count, use_locked_assets);
    if moved is Ok {
        lemma_transfer_asset(m, seller, buyer, asset, asset_count, use_locked_assets);
        let paid = moved->Ok_0.transfer_coins(
            buyer,
            seller,
            price_per_asset * asset_count,
            use_locked_coins,
        );
        if paid is Ok {
            lemma_transfer_coins(
                moved->Ok_0,
                buyer,
                seller,
                price_per_asset * asset_count,
                use_locked_coins,
            );
            lemma_steady_transitive(m, moved->Ok_0, paid->Ok_0);
        }
    }
}

/// One trade makes and loses no coin and no unit.
pub proof fn lemma_trade_one_steady(m: MarketView, filled: Order, other: Order)
    requires
        tidy(m),
    ensures
        carried(m, m.trade_one(filled, other)),
{
    if m.trade_one(filled, other) is Ok {
        let price = crate::model::price_for(filled, other)->Ok_0;
        let settled = match filled.side {
            OrderSide::Buy => m.exchange(
                filled.portfolio,
                other.portfolio,
                filled.asset,
                other.quantity as nat,
                price as nat,
                false,
                true,
            ),
            OrderSide::Sell => m.exchange(
                other.portfolio,
                filled.portfolio,
                filled.asset,
                other.quantity as nat,
                price as nat,
                true,
                false,
            ),
        };
        match filled.side {
            OrderSide::Buy => lemma_exchange_steady(
                m,
                filled.portfolio,
                other.portfolio,
                filled.asset,
                other.quantity as nat,
                price as nat,
                false,
                true,
            ),
            OrderSide::Sell => lemma_exchange_steady(
                m,
                other.portfolio,
                filled.portfolio,
                filled.asset,
                other.quantity as nat,
                price as nat,
                true,
                false,
            ),
        }
        lemma_remove_order_steady(settled->Ok_0, other.asset, other.id);
        lemma_steady_transitive(m, settled->Ok_0, m.trade_one(filled, other)->Ok_0);
    }
}

/// Trading an order with others makes and loses no coin and no unit.
pub proof fn lemma_process_trade_steady(m: MarketView, filled: Order, others: Seq<Order>)
    requires
        tidy(m),
    ensures
        carried(m, m.process_trade(filled, others)),
    decreases others.len(),
{
    if others.len() == 0 {
        lemma_remove_order_steady(m, filled.asset, filled.id);
    } else {
        lemma_trade_one_steady(m, filled, others[0]);
        let first = m.trade_one(filled, others[0]);
        if first is Ok {
            lemma_process_trade_steady(first->Ok_0, filled, others.skip(1));
        }
        lemma_carried_chain(m, first, m.process_trade(filled, others));
    }
}

/// Placing an order makes and loses no coin and no unit.
pub proof fn lemma_fill_order_steady(m: MarketView, order: Order)
    requires
        tidy(m),
    ensures
        carried(m, m.fill_order(order)),
{
    if m.books.contains_key(order.asset) {
        let found = m.books[order.asset].best_candidates(order);
        let fill_sum = crate::book::quantity_sum(found);
        if found.len() == 0 {
            lemma_rest_steady(m, order, true);
        } else if fill_sum > order.quantity {
            let parts = found.last().split_spec(fill_sum - order.quantity);
            if parts is Ok {
                let (remainder, filled) = parts->Ok_0;
                let traded = m.process_trade(order, found.drop_last().push(filled));
                lemma_process_trade_steady(m, order, found.drop_last().push(filled));
                if traded is Ok {
                    lemma_rest_steady(traded->Ok_0, remainder, false);
                }
                lemma_carried_chain(m, traded, m.fill_order(order));
            }
        } else if fill_sum < order.quantity {
            let parts = order.split_spec(fill_sum as int);
            if parts is Ok {
                let (filled, remainder) = parts->Ok_0;
                let traded = m.process_trade(filled, found);
                lemma_process_trade_steady(m, filled, found);
                if traded is Ok {
                    lemma_rest_steady(traded->Ok_0, remainder, true);
                }
                lemma_carried_chain(m, traded, m.fill_order(order));
            }
        } else {
            lemma_process_trade_steady(m, order, found);
        }
    }
}

/// An event that succeeds moves one coin from a portfolio to the bank and
/// makes or loses nothing else.
pub proof fn lemma_process_supply(m: MarketView, event: Event)
    requires
        tidy(m),
        m.process(event) is Ok,
    ensures
        ({
            let after = m.process(event)->Ok_0;
            &&& same_shape(m, after)
            &&& tidy(after)
            &&& after.bank_account == m.bank_account + 1
            &&& after.coin_supply() + 1 == m.coin_supply()
            &&& forall|asset: u128| #[trigger] after.asset_supply(asset) == m.asset_supply(asset)
            &&& m.supply_bounded() ==> after.sound()
            &&& m.keys_wf() ==> after.keys_wf()
        }),
{
    let billed = m.bill_fee(MarketView::initiator(event), 1)->Ok_0;
    lemma_bill_fee(m, MarketView::initiator(event), 1);
    match event {
        Event::Order(order) => lemma_fill_order_steady(billed, order),
        Event::CancelOrder(portfolio, order, asset) => lemma_cancel_order_steady(
            billed,
            portfolio,
            order,
            asset,
        ),
    }
    let after = m.process(event)->Ok_0;
    assert forall|asset: u128| #[trigger] after.asset_supply(asset) == m.asset_supply(asset) by {
        assert(billed.asset_supply(asset) == m.asset_supply(asset));
    }
    assert forall|id: u128| m.portfolios.contains_key(id) implies {
        &&& (#[trigger] after.portfolios[id]).assets.dom() == m.portfolios[id].assets.dom()
        &&& after.portfolios[id].id == m.portfolios[id].id
    } by {
        assert(billed.portfolios[id].assets.dom() == m.portfolios[id].assets.dom());
    }
    assert forall|asset: u128| m.books.contains_key(asset) implies (
    #[trigger] after.books[asset]).asset_id == m.books[asset].asset_id by {
        assert(billed.books[asset].asset_id == m.books[asset].asset_id);
    }
    if m.supply_bounded() {
        assert forall|asset: u128| #[trigger] after.asset_supply(asset) <= usize::MAX by {
            assert(m.asset_supply(asset) <= usize::MAX);
        }
    }
}

} // verus!
