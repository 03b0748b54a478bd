//! New portfolios, new assets and new units: that a well-formed market
//! stays well-formed when it grows.

use vstd::prelude::*;
use crate::account::AccountView;
use crate::model::MarketView;
use crate::model::buy_load;
use crate::model::buy_weight;
use crate::model::sell_load;
use crate::model::sell_weight;
use crate::portfolio::PortfolioView;
use crate::sums::lemma_total_insert;
use crate::sums::lemma_total_nothing;
use crate::sums::lemma_weigh_nothing;
use crate::supply::lemma_with_asset_account;
use crate::supply::lemma_with_portfolio;

verus! {

/// A market with nothing in it is well-formed, and holds no coin and no
/// unit of anything.
pub proof fn lemma_empty_wf()
    ensures
        MarketView::empty().wf(),
        MarketView::empty().coin_supply() == 0,
        forall|asset: u128| #[trigger] MarketView::empty().asset_supply(asset) == 0,
{
    let m = MarketView::empty();
    assert(m.coin_totals().dom() =~= Set::<u128>::empty());
    lemma_total_nothing(m.coin_totals());
    assert forall|asset: u128| #[trigger] m.asset_supply(asset) == 0 by {
        assert(m.asset_totals(asset).dom() =~= Set::<u128>::empty());
        lemma_total_nothing(m.asset_totals(asset));
    }
    assert(m.books.dom() =~= m.assets.dom());
}

/// A portfolio that owns no resting order needs nothing locked.
pub proof fn lemma_stranger_needs_nothing(m: MarketView, id: u128)
    requires
        m.owners_known(),
        m.books.dom().finite(),
        !m.portfolios.contains_key(id),
    ensures
        m.coin_load(id) == 0,
        forall|asset: u128|
            m.books.contains_key(asset) ==> sell_load(
                (#[trigger] m.books[asset]).sell_orders,
                id,
            ) == 0,
{
    assert forall|asset: u128| m.books.contains_key(asset) implies sell_load(
        (#[trigger] m.books[asset]).sell_orders,
        id,
    ) == 0 && buy_load(m.books[asset].buy_orders, id) == 0 by {
        assert(m.book_known(asset));
        lemma_weigh_nothing(m.books[asset].sell_orders, sell_weight(id));
        lemma_weigh_nothing(m.books[asset].buy_orders, buy_weight(id));
    }
    assert(m.buy_loads(id).dom() =~= m.books.dom());
    assert forall|asset: u128| m.buy_loads(id).contains_key(asset) implies #[trigger] m.buy_loads(
        id,
    )[asset] == 0 by {
        assert(buy_load(m.books[asset].buy_orders, id) == 0);
    }
    lemma_total_nothing(m.buy_loads(id));
}

/// A well-formed market stays so when a portfolio is registered. It then
/// holds the coins of the new portfolio more, and of every asset what it
/// held.
pub proof fn lemma_register_portfolio_wf(m: MarketView, id: u128, initial_coins: nat)
    requires
        m.wf(),
        m.register_portfolio(id, initial_coins) is Ok,
    ensures
        m.register_portfolio(id, initial_coins)->Ok_0.wf(),
        m.register_portfolio(id, initial_coins)->Ok_0.coin_supply() == m.coin_supply()
            + initial_coins,
        forall|asset: u128| #[trigger]
            m.register_portfolio(id, initial_coins)->Ok_0.asset_supply(asset) == m.asset_supply(
                asset,
            ),
{
    let fresh = PortfolioView {
        id,
        coins: AccountView::fresh(initial_coins),
        assets: m.zero_accounts(),
    };
    let after = m.register_portfolio(id, initial_coins)->Ok_0;
    lemma_with_portfolio(m, id, fresh);
    lemma_stranger_needs_nothing(m, id);
    assert(fresh.assets.dom() =~= m.assets.dom());
    assert forall|k: u128| after.portfolios.contains_key(k) implies (
    #[trigger] after.portfolios[k]).wf() by {
        if k != id {
            assert(m.portfolios[k].wf());
        }
    }
    assert forall|asset: u128| #[trigger] after.asset_supply(asset) == m.asset_supply(asset) by {
        assert(fresh.holding(asset) == 0);
    }
    assert forall|asset: u128| #[trigger] after.asset_supply(asset) <= usize::MAX by {
        assert(m.asset_supply(asset) <= usize::MAX);
    }
    assert forall|x: u128| after.books.contains_key(x) implies #[trigger] after.book_known(x) by {
        assert(m.book_known(x));
    }
    assert forall|p: u128, x: u128|
        after.portfolios.contains_key(p) && after.books.contains_key(x) implies #[trigger] after.sells_backed(
        p,
        x,
    ) by {
        if p != id {
            assert(m.sells_backed(p, x));
        }
    }
    assert forall|p: u128| after.portfolios.contains_key(p) implies #[trigger] after.buys_backed(
        p,
    ) by {
        assert(after.buy_loads(p) =~= m.buy_loads(p));
        if p != id {
            assert(m.buys_backed(p));
        }
    }
}

/// A well-formed market stays so when an asset is registered, and holds
/// the coins and the units that it held.
pub proof fn lemma_register_asset_wf(m: MarketView, id: u128, name: Seq<char>)
    requires
        m.wf(),
        m.register_asset(id, name) is Ok,
    ensures
        m.register_asset(id, name)->Ok_0.wf(),
        m.register_asset(id, name)->Ok_0.coin_supply() == m.coin_supply(),
        forall|asset: u128| #[trigger]
            m.register_asset(id, name)->Ok_0.asset_supply(asset) == m.asset_supply(asset),
{
    let after = m.register_asset(id, name)->Ok_0;
    assert(after.portfolios.dom() =~= m.portfolios.dom());
    assert forall|k: u128| after.portfolios.contains_key(k) implies (
    #[trigger] after.portfolios[k]).wf() by {
        assert(m.portfolios[k].wf());
        let p = after.portfolios[k];
        assert forall|a: u128| p.assets.contains_key(a) implies (#[trigger] p.assets[a]).wf() by {
            if a != id {
                assert(m.portfolios[k].assets[a].wf());
            }
        }
    }
    assert(after.coin_totals() =~= m.coin_totals());
    assert forall|asset: u128| #[trigger] after.asset_supply(asset) == m.asset_supply(asset) by {
        assert(after.asset_totals(asset) =~= m.asset_totals(asset)) by {
            assert forall|k: u128| m.portfolios.contains_key(k) implies after.portfolios[k].holding(
                asset,
            ) == m.portfolios[k].holding(asset) by {
                assert(m.portfolios[k].assets.dom() == m.assets.dom());
            }
        }
    }
    assert forall|asset: u128| #[trigger] after.asset_supply(asset) <= usize::MAX by {
        assert(m.asset_supply(asset) <= usize::MAX);
    }
    assert(after.books.dom() =~= after.assets.dom());
    assert forall|k: u128| after.portfolios.contains_key(k) implies {
        &&& (#[trigger] after.portfolios[k]).assets.dom() == after.assets.dom()
        &&& after.portfolios[k].id == k
    } by {
        assert(m.portfolios[k].assets.dom() == m.assets.dom());
        assert(after.portfolios[k].assets.dom() =~= after.assets.dom());
    }
    assert forall|x: u128| after.books.contains_key(x) implies (#[trigger] after.books[x]).wf() by {
        if x != id {
            assert(m.books[x].wf());
        }
    }
    assert forall|x: u128| after.books.contains_key(x) implies #[trigger] after.book_known(x) by {
        if x != id {
            assert(m.book_known(x));
        }
    }
    assert forall|p: u128, x: u128|
        after.portfolios.contains_key(p) && after.books.contains_key(x) implies #[trigger] after.sells_backed(
        p,
        x,
    ) by {
        if x != id {
            assert(m.sells_backed(p, x));
        }
    }
    assert forall|p: u128| after.portfolios.contains_key(p) implies #[trigger] after.buys_backed(
        p,
    ) by {
        assert(m.buys_backed(p));
        assert(m.buy_loads(p).dom() =~= m.books.dom());
        assert(after.buy_loads(p) =~= m.buy_loads(p).insert(id, 0));
        lemma_total_insert(m.buy_loads(p), id, 0);
    }
}

/// A well-formed market stays so when a portfolio is given units of an
/// asset, as long as the machine can count the units of that asset.
pub proof fn lemma_deposit_asset_wf(m: MarketView, portfolio: u128, asset: u128, amount: nat)
    requires
        m.wf(),
        m.deposit_asset(portfolio, asset, amount) is Ok,
        m.asset_supply(asset) + amount <= usize::MAX,
    ensures
        m.deposit_asset(portfolio, asset, amount)->Ok_0.wf(),
        m.deposit_asset(portfolio, asset, amount)->Ok_0.coin_supply() == m.coin_supply(),
        m.deposit_asset(portfolio, asset, amount)->Ok_0.asset_supply(asset) == m.asset_supply(
            asset,
        ) + amount,
        forall|other: u128|
            other != asset ==> #[trigger] m.deposit_asset(
                portfolio,
                asset,
                amount,
            )->Ok_0.asset_supply(other) == m.asset_supply(other),
{
    let after = m.deposit_asset(portfolio, asset, amount)->Ok_0;
    let grown = m.portfolios[portfolio].assets[asset].add(amount);
    assert(m.portfolios[portfolio].wf());
    assert(m.portfolios[portfolio].assets[asset].wf());
    lemma_with_asset_account(m, portfolio, asset, grown);
    assert forall|x: u128| #[trigger] after.asset_supply(x) <= usize::MAX by {
        assert(m.asset_supply(x) <= usize::MAX);
    }
    assert forall|x: u128| after.books.contains_key(x) implies (#[trigger] after.books[x]).wf() by {
        assert(m.books[x].wf());
    }
    assert forall|x: u128| after.books.contains_key(x) implies #[trigger] after.book_known(x) by {
        assert(m.book_known(x));
    }
    assert forall|p: u128, x: u128|
        after.portfolios.contains_key(p) && after.books.contains_key(x) implies #[trigger] after.sells_backed(
        p,
        x,
    ) by {
        assert(m.sells_backed(p, x));
    }
    assert forall|p: u128| after.portfolios.contains_key(p) implies #[trigger] after.buys_backed(
        p,
    ) by {
        assert(m.buys_backed(p));
        assert(after.buy_loads(p) =~= m.buy_loads(p));
    }
    assert forall|k: u128| after.portfolios.contains_key(k) implies {
        &&& (#[trigger] after.portfolios[k]).assets.dom() == after.assets.dom()
        &&& after.portfolios[k].id == k
    } by {
        assert(m.portfolios[k].assets.dom() == m.assets.dom());
    }
}

} // verus!
