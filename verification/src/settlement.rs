//! What trading does to each balance: the units and the coins that every
//! portfolio gives and gets when an order is traded with resting orders.

use vstd::prelude::*;
use crate::book::BookView;
use crate::book::quantity_sum;
use crate::book::quantity_of;
use crate::model::MarketView;
use crate::model::price_for;
use crate::model::sell_weight;
use crate::order::Order;
use crate::order::OrderSide;
use crate::sums::weigh;
use crate::sums::lemma_weigh_head;
use crate::supply::tidy;
use crate::supply::lemma_remove_order_steady;
use crate::supply::lemma_trade_one_steady;
use crate::supply::lemma_transfer_asset;
use crate::supply::lemma_transfer_coins;

verus! {

/// The coins that change hands when `filled` trades with a resting order:
/// the price of the trade for each of its units.
pub open spec fn cost(filled: Order) -> spec_fn(Order) -> nat {
    |o: Order|
        match price_for(filled, o) {
            Ok(price) => (price * o.quantity) as nat,
            Err(_) => 0,
        }
}

/// The same, counted only for the resting orders of `owner`.
pub open spec fn cost_to(filled: Order, owner: u128) -> spec_fn(Order) -> nat {
    |o: Order|
        if o.portfolio == owner {
            cost(filled)(o)
        } else {
            0
        }
}

/// What `amount` is to the owner of the incoming order, and nothing to
/// anybody else.
pub open spec fn if_incoming(filled: Order, p: u128, amount: nat) -> nat {
    if p == filled.portfolio {
        amount
    } else {
        0
    }
}

/// The balances of the portfolio `p` in `after` are those in `before` with
/// these coins and units of `asset` given and got, out of the lock or not,
/// and nothing else changed.
pub open spec fn balances_moved(
    before: MarketView,
    after: MarketView,
    p: u128,
    asset: u128,
    coins_got: nat,
    coins_given: nat,
    coins_out_of_lock: nat,
    units_got: nat,
    units_given: nat,
    units_out_of_lock: nat,
) -> bool {
    let was = before.portfolios[p];
    let is = after.portfolios[p];
    &&& after.portfolios.contains_key(p)
    &&& is.id == was.id
    &&& is.assets.dom() == was.assets.dom()
    &&& is.coins.total + coins_given == was.coins.total + coins_got
    &&& is.coins.locked + coins_out_of_lock == was.coins.locked
    &&& is.holding(asset) + units_given == was.holding(asset) + units_got
    &&& is.reserved(asset) + units_out_of_lock == was.reserved(asset)
    &&& forall|x: u128|
        x != asset && was.assets.contains_key(x) ==> #[trigger] is.assets[x] == was.assets[x]
}

/// What settling one trade does to the balances of a portfolio: the seller
/// gives the units and gets the coins, the buyer gives the coins and gets the
/// units, each out of its lock where the trade says so, and nobody else's
/// balances change.
pub proof fn lemma_exchange_balances(
    m: MarketView,
    buyer: u128,
    seller: u128,
    asset: u128,
    asset_count: nat,
    price_per_asset: nat,
    use_locked_coins: bool,
    use_locked_assets: bool,
    p: u128,
)
    requires
        tidy(m),
        m.portfolios.contains_key(p),
        m.exchange(
            buyer,
            seller,
            asset,
            asset_count,
            price_per_asset,
            use_locked_coins,
            use_locked_assets,
        ) is Ok,
    ensures
        ({
            let after = m.exchange(
                buyer,
                seller,
                asset,
                asset_count,
                price_per_asset,
                use_locked_coins,
                use_locked_assets,
            )->Ok_0;
            let amount = price_per_asset * asset_count;
            &&& after.books == m.books
            &&& after.bank_account == m.bank_account
            &&& after.portfolios.dom() == m.portfolios.dom()
            &&& balances_moved(
                m,
                after,
                p,
                asset,
                if p == seller {
                    amount
                } else {
                    0
                },
                if p == buyer {
                    amount
                } else {
                    0
                },
                if use_locked_coins && p == buyer {
                    amount
                } else {
                    0
                },
                if p == buyer {
                    asset_count
                } else {
                    0
                },
                if p == seller {
                    asset_count
                } else {
                    0
                },
                if use_locked_assets && p == seller {
                    asset_count
                } else {
                    0
                },
            )
        }),
{
    lemma_transfer_asset(m, seller, buyer, asset, asset_count, use_locked_assets);
    let taken = m.withdraw_asset(seller, asset, asset_count, use_locked_assets)->Ok_0;
    let moved = m.transfer_asset(seller, buyer, asset, asset_count, use_locked_assets)->Ok_0;
    let amount = price_per_asset * asset_count;
    lemma_transfer_coins(moved, buyer, seller, amount, use_locked_coins);
    let paid = moved.withdraw_coins(buyer, amount, use_locked_coins)->Ok_0;
    let after = moved.transfer_coins(buyer, seller, amount, use_locked_coins)->Ok_0;
    assert(after.portfolios.dom() =~= m.portfolios.dom());
    assert(taken.portfolios[p].assets.dom() =~= m.portfolios[p].assets.dom());
    assert(moved.portfolios[p].assets.dom() =~= taken.portfolios[p].assets.dom());
    assert(after.portfolios[p].assets == moved.portfolios[p].assets);
    assert(moved.portfolios[p].coins == m.portfolios[p].coins);
    assert(moved.portfolios[p].id == m.portfolios[p].id);
    assert(taken.portfolios[p].holding(asset) + (if p == seller {
        asset_count
    } else {
        0
    }) == m.portfolios[p].holding(asset));
    assert(moved.portfolios[p].holding(asset) == taken.portfolios[p].holding(asset) + (if p
        == buyer {
        asset_count
    } else {
        0
    }));
    assert(paid.portfolios[p].coins.total + (if p == buyer {
        amount
    } else {
        0
    }) == moved.portfolios[p].coins.total);
    assert(after.portfolios[p].coins.total == paid.portfolios[p].coins.total + (if p == seller {
        amount
    } else {
        0
    }));
    assert forall|x: u128| x != asset && m.portfolios[p].assets.contains_key(x) implies (
    #[trigger] after.portfolios[p].assets[x]) == m.portfolios[p].assets[x] by {
        assert(moved.portfolios[p].assets[x] == taken.portfolios[p].assets[x]);
    }
}

/// What one trade does to the balances of a portfolio. The resting order
/// gives out of its lock; the incoming order gives out of what it has free.
pub proof fn lemma_trade_one_balances(m: MarketView, filled: Order, other: Order, p: u128)
    requires
        tidy(m),
        m.portfolios.contains_key(p),
        m.trade_one(filled, other) is Ok,
    ensures
        m.trade_one(filled, other)->Ok_0.bank_account == m.bank_account,
        m.trade_one(filled, other)->Ok_0.portfolios.dom() == m.portfolios.dom(),
        filled.side == OrderSide::Buy ==> balances_moved(
            m,
            m.trade_one(filled, other)->Ok_0,
            p,
            filled.asset,
            cost_to(filled, p)(other),
            if_incoming(filled, p, cost(filled)(other)),
            0,
            if_incoming(filled, p, other.quantity as nat),
            sell_weight(p)(other),
            sell_weight(p)(other),
        ),
        filled.side == OrderSide::Sell ==> balances_moved(
            m,
            m.trade_one(filled, other)->Ok_0,
            p,
            filled.asset,
            if_incoming(filled, p, cost(filled)(other)),
            cost_to(filled, p)(other),
            cost_to(filled, p)(other),
            sell_weight(p)(other),
            if_incoming(filled, p, other.quantity as nat),
            0,
        ),
{
    let price = price_for(filled, other)->Ok_0;
    let q = other.quantity as nat;
    if filled.side == OrderSide::Buy {
        lemma_exchange_balances(
            m,
            filled.portfolio,
            other.portfolio,
            filled.asset,
            q,
            price as nat,
            false,
            true,
            p,
        );
    } else {
        lemma_exchange_balances(
            m,
            other.portfolio,
            filled.portfolio,
            filled.asset,
            q,
            price as nat,
            true,
            false,
            p,
        );
    }
}

/// What trading an order with resting orders does to the balances of every
/// portfolio, all trades taken together. Where the order buys: its owner
/// gets the units of all of them and pays, out of its free coins, the price
/// for each unit; the owner of each resting order gives its units out of its
/// lock and gets the coins for them. Where the order sells, it is the other
/// way round: its owner gives the units out of what it has free, and the
/// owners of the resting orders pay out of their locks. The price is the
/// limit of the incoming order or, if it has none, that of the resting
/// order. Nothing else changes in any balance, and the bank gets nothing.
pub proof fn lemma_process_trade_balances(
    m: MarketView,
    filled: Order,
    others: Seq<Order>,
    p: u128,
)
    requires
        tidy(m),
        m.portfolios.contains_key(p),
        m.process_trade(filled, others) is Ok,
    ensures
        m.process_trade(filled, others)->Ok_0.bank_account == m.bank_account,
        m.process_trade(filled, others)->Ok_0.portfolios.dom() == m.portfolios.dom(),
        filled.side == OrderSide::Buy ==> balances_moved(
            m,
            m.process_trade(filled, others)->Ok_0,
            p,
            filled.asset,
            weigh(others, cost_to(filled, p)),
            if_incoming(filled, p, weigh(others, cost(filled))),
            0,
            if_incoming(filled, p, quantity_sum(others)),
            weigh(others, sell_weight(p)),
            weigh(others, sell_weight(p)),
        ),
        filled.side == OrderSide::Sell ==> balances_moved(
            m,
            m.process_trade(filled, others)->Ok_0,
            p,
            filled.asset,
            if_incoming(filled, p, weigh(others, cost(filled))),
            weigh(others, cost_to(filled, p)),
            weigh(others, cost_to(filled, p)),
            weigh(others, sell_weight(p)),
            if_incoming(filled, p, quantity_sum(others)),
            0,
        ),
    decreases others.len(),
{
    if others.len() == 0 {
        lemma_remove_order_steady(m, filled.asset, filled.id);
    } else {
        let next = m.trade_one(filled, others[0])->Ok_0;
        let rest = others.skip(1);
        let after = m.process_trade(filled, others)->Ok_0;
        lemma_trade_one_balances(m, filled, others[0], p);
        lemma_trade_one_steady(m, filled, others[0]);
        lemma_process_trade_balances(next, filled, rest, p);
        lemma_weigh_head(others, cost_to(filled, p));
        lemma_weigh_head(others, cost(filled));
        lemma_weigh_head(others, quantity_of());
        lemma_weigh_head(others, sell_weight(p));
        let was = m.portfolios[p];
        let mid = next.portfolios[p];
        let is = after.portfolios[p];
        assert forall|x: u128| x != filled.asset && was.assets.contains_key(x) implies (
        #[trigger] is.assets[x]) == was.assets[x] by {
            assert(mid.assets[x] == was.assets[x]);
        }
    }
}

/// What of an incoming order is traded at once, and with which orders: the
/// order and the candidates as they are if their quantities are equal; the
/// order and the candidates with the last of them cut down to what is
/// needed, if they offer more; the part of the order that the candidates can
/// fill, if they offer less.
pub open spec fn matched(m: MarketView, order: Order) -> (Order, Seq<Order>) {
    let found = m.books[order.asset].best_candidates(order);
    let fill_sum = quantity_sum(found);
    if found.len() > 0 && fill_sum > order.quantity {
        match found.last().split_spec(fill_sum - order.quantity) {
            Ok((_, part)) => (order, found.drop_last().push(part)),
            Err(_) => (order, found),
        }
    } else if found.len() > 0 && fill_sum < order.quantity {
        match order.split_spec(fill_sum as int) {
            Ok((part, _)) => (part, found),
            Err(_) => (order, found),
        }
    } else {
        (order, found)
    }
}

/// What comes to rest after the trades of an incoming order, and whether it
/// has yet to lock what it needs: what is left of the last candidate, whose
/// lock stands, or what is left of the incoming order, which has none yet.
pub open spec fn left_over(m: MarketView, order: Order) -> Option<(Order, bool)> {
    let found = m.books[order.asset].best_candidates(order);
    let fill_sum = quantity_sum(found);
    if found.len() > 0 && fill_sum > order.quantity {
        match found.last().split_spec(fill_sum - order.quantity) {
            Ok((remainder, _)) => Some((remainder, false)),
            Err(_) => None,
        }
    } else if found.len() > 0 && fill_sum < order.quantity {
        match order.split_spec(fill_sum as int) {
            Ok((_, remainder)) => Some((remainder, true)),
            Err(_) => None,
        }
    } else {
        None
    }
}

/// How much of an order that is placed with success is traded, and how much
/// rests. As many units are traded as the order asks for or as the
/// candidates offer, whichever is less, and the orders traded with offer
/// exactly that many together. They are the candidates, but that the last
/// of them is cut down if they offer more; what is cut off rests again, and
/// so does what the candidates could not fill of the incoming order. The
/// two parts of a split order are that order in all but quantity, and their
/// quantities add up to its own.
pub proof fn lemma_fill_order_quantities(m: MarketView, order: Order)
    requires
        m.fill_order(order) is Ok,
        m.books[order.asset].best_candidates(order).len() > 0,
    ensures
        ({
            let found = m.books[order.asset].best_candidates(order);
            let fill_sum = quantity_sum(found);
            let (part, others) = matched(m, order);
            let traded = m.process_trade(part, others);
            &&& traded is Ok
            &&& part == (Order { quantity: part.quantity, ..order })
            &&& part.quantity == quantity_sum(others)
            &&& part.quantity == (if fill_sum < order.quantity {
                fill_sum
            } else {
                order.quantity as nat
            })
            &&& others.len() == found.len()
            &&& others.drop_last() == found.drop_last()
            &&& others.last() == (Order { quantity: others.last().quantity, ..found.last() })
            &&& match left_over(m, order) {
                None => {
                    &&& fill_sum == order.quantity
                    &&& others == found
                    &&& m.fill_order(order) == traded
                },
                Some((remainder, lock_amount)) => {
                    &&& m.fill_order(order) == traded->Ok_0.rest(remainder, lock_amount)
                    &&& lock_amount == (fill_sum < order.quantity)
                    &&& lock_amount ==> {
                        &&& remainder == (Order { quantity: remainder.quantity, ..order })
                        &&& remainder.quantity + part.quantity == order.quantity
                        &&& others == found
                    }
                    &&& !lock_amount ==> {
                        &&& remainder == (Order { quantity: remainder.quantity, ..found.last() })
                        &&& remainder.quantity + others.last().quantity == found.last().quantity
                        &&& remainder.quantity == fill_sum - order.quantity
                    }
                },
            }
        }),
{
    let found = m.books[order.asset].best_candidates(order);
    let fill_sum = quantity_sum(found);
    if fill_sum > order.quantity {
        let (remainder, part) = found.last().split_spec(fill_sum - order.quantity)->Ok_0;
        let others = found.drop_last().push(part);
        crate::sums::lemma_weigh_push(found.drop_last(), part, quantity_of());
        assert(others.drop_last() =~= found.drop_last());
    }
}

/// The balances of `p` after `filled` was traded with `others` are those
/// before it with what the trades gave and took.
pub open spec fn settled_for(
    before: MarketView,
    after: MarketView,
    filled: Order,
    others: Seq<Order>,
    p: u128,
) -> bool {
    match filled.side {
        OrderSide::Buy => balances_moved(
            before,
            after,
            p,
            filled.asset,
            weigh(others, cost_to(filled, p)),
            if_incoming(filled, p, weigh(others, cost(filled))),
            0,
            if_incoming(filled, p, quantity_sum(others)),
            weigh(others, sell_weight(p)),
            weigh(others, sell_weight(p)),
        ),
        OrderSide::Sell => balances_moved(
            before,
            after,
            p,
            filled.asset,
            if_incoming(filled, p, weigh(others, cost(filled))),
            weigh(others, cost_to(filled, p)),
            weigh(others, cost_to(filled, p)),
            weigh(others, sell_weight(p)),
            if_incoming(filled, p, quantity_sum(others)),
            0,
        ),
    }
}

/// All portfolios of `after` are those of `before` with what the trades of
/// `filled` with `others` gave each of them and took from it, and the bank
/// is as it was.
pub open spec fn settled(
    before: MarketView,
    after: MarketView,
    filled: Order,
    others: Seq<Order>,
) -> bool {
    &&& after.bank_account == before.bank_account
    &&& after.portfolios.dom() == before.portfolios.dom()
    &&& forall|p: u128|
        before.portfolios.contains_key(p) ==> #[trigger] settled_for(
            before,
            after,
            filled,
            others,
            p,
        )
}

/// Trading an order with resting orders settles every portfolio.
pub proof fn lemma_process_trade_settled(m: MarketView, filled: Order, others: Seq<Order>)
    requires
        tidy(m),
        m.process_trade(filled, others) is Ok,
    ensures
        settled(m, m.process_trade(filled, others)->Ok_0, filled, others),
{
    let after = m.process_trade(filled, others)->Ok_0;
    crate::supply::lemma_process_trade_steady(m, filled, others);
    assert forall|p: u128| m.portfolios.contains_key(p) implies #[trigger] settled_for(
        m,
        after,
        filled,
        others,
        p,
    ) by {
        lemma_process_trade_balances(m, filled, others, p);
    }
}

/// An order that found candidates was placed as matched: the matched part
/// was traded with the matched orders, which offer exactly its quantity;
/// every portfolio was settled for these trades; and what was left over has
/// come to rest.
pub open spec fn placed_as_matched(before: MarketView, after: MarketView, order: Order) -> bool {
    let (part, others) = matched(before, order);
    let traded = before.process_trade(part, others);
    &&& traded is Ok
    &&& part.quantity == quantity_sum(others)
    &&& settled(before, traded->Ok_0, part, others)
    &&& match left_over(before, order) {
        None => after == traded->Ok_0,
        Some((remainder, lock_amount)) => traded->Ok_0.rest(remainder, lock_amount) == Ok::<
            MarketView,
            crate::error::ErrorType,
        >(after),
    }
}

/// Placing an order that finds candidates, with success, places it as
/// matched.
pub proof fn lemma_fill_order_as_matched(m: MarketView, order: Order)
    requires
        tidy(m),
        m.fill_order(order) is Ok,
        m.books[order.asset].best_candidates(order).len() > 0,
    ensures
        placed_as_matched(m, m.fill_order(order)->Ok_0, order),
{
    lemma_fill_order_quantities(m, order);
    let (part, others) = matched(m, order);
    lemma_process_trade_settled(m, part, others);
}

/// The book without the orders that carry the identifier of one of
/// `others`.
pub open spec fn taken_out(book: BookView, others: Seq<Order>) -> BookView
    decreases others.len(),
{
    if others.len() == 0 {
        book
    } else {
        taken_out(book.remove_order(others[0].id), others.skip(1))
    }
}

/// Every one of `others` is an order of the asset of `filled`.
pub open spec fn same_asset(filled: Order, others: Seq<Order>) -> bool {
    forall|i: int| 0 <= i < others.len() ==> (#[trigger] others[i]).asset == filled.asset
}

/// What trading leaves in the books, where all orders are of one asset: the
/// book of that asset without the orders traded with and without the order
/// traded, and every other book as it was.
pub proof fn lemma_process_trade_books(m: MarketView, filled: Order, others: Seq<Order>)
    requires
        tidy(m),
        m.process_trade(filled, others) is Ok,
        same_asset(filled, others),
    ensures
        m.books.contains_key(filled.asset),
        m.process_trade(filled, others)->Ok_0.books == m.books.insert(
            filled.asset,
            taken_out(m.books[filled.asset], others).remove_order(filled.id),
        ),
    decreases others.len(),
{
    let a = filled.asset;
    if others.len() > 0 {
        let other = others[0];
        let next = m.trade_one(filled, other)->Ok_0;
        let rest = others.skip(1);
        let price = price_for(filled, other)->Ok_0;
        if filled.side == OrderSide::Buy {
            crate::resting::lemma_exchange_books(
                m,
                filled.portfolio,
                other.portfolio,
                a,
                other.quantity as nat,
                price as nat,
                false,
                true,
            );
        } else {
            crate::resting::lemma_exchange_books(
                m,
                other.portfolio,
                filled.portfolio,
                a,
                other.quantity as nat,
                price as nat,
                true,
                false,
            );
        }
        assert(next.books == m.books.insert(a, m.books[a].remove_order(other.id)));
        lemma_trade_one_steady(m, filled, other);
        assert forall|i: int| 0 <= i < rest.len() implies (#[trigger] rest[i]).asset == a by {
            assert(rest[i] == others[i + 1]);
        }
        lemma_process_trade_books(next, filled, rest);
        assert(m.process_trade(filled, others)->Ok_0.books =~= m.books.insert(
            a,
            taken_out(m.books[a], others).remove_order(filled.id),
        ));
    }
}

} // verus!
