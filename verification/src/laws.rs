//! What holds of the engine as a whole, stated over the value of the market.

use vstd::prelude::*;
use crate::account::AccountView;
use crate::book::first_with_id;
use crate::book::holds_id;
use crate::book::is_first_with_id;
use crate::book::keeps;
use crate::book::place;
use crate::book::slot;
use crate::book::sorted;
use crate::engine::Event;
use crate::model::MarketView;
use crate::order::Order;
use crate::order::OrderMode;
use crate::order::OrderSide;
use crate::locks::lemma_process_keeps_wf;
use crate::resting::lemma_place_members;
use crate::supply::lemma_process_supply;

verus! {

/// In a well-formed market no balance has more locked than it holds.
pub proof fn lemma_locked_within_total(m: MarketView, portfolio: u128, asset: u128)
    requires
        m.wf(),
        m.portfolios.contains_key(portfolio),
    ensures
        m.portfolios[portfolio].coins.locked <= m.portfolios[portfolio].coins.total,
        m.portfolios[portfolio].assets.contains_key(asset)
            ==> m.portfolios[portfolio].assets[asset].locked
            <= m.portfolios[portfolio].assets[asset].total,
{
    assert(m.portfolios[portfolio].wf());
}

/// In a well-formed market every portfolio has a balance of each known
/// asset and of nothing else, and every known asset has a book.
pub proof fn lemma_balances_match_assets(m: MarketView, portfolio: u128)
    requires
        m.wf(),
        m.portfolios.contains_key(portfolio),
    ensures
        m.portfolios[portfolio].assets.dom() == m.assets.dom(),
        m.books.dom() == m.assets.dom(),
{
}

/// In a well-formed market no order without a limit rests in any book, and
/// every resting order is on its side of the book of its asset.
pub proof fn lemma_no_best_order_rests(m: MarketView, asset: u128, i: int)
    requires
        m.wf(),
        m.books.contains_key(asset),
    ensures
        0 <= i < m.books[asset].sell_orders.len() ==> {
            &&& m.books[asset].sell_orders[i].mode != OrderMode::Best
            &&& m.books[asset].sell_orders[i].side == OrderSide::Sell
            &&& m.books[asset].sell_orders[i].asset == asset
        },
        0 <= i < m.books[asset].buy_orders.len() ==> {
            &&& m.books[asset].buy_orders[i].mode != OrderMode::Best
            &&& m.books[asset].buy_orders[i].side == OrderSide::Buy
            &&& m.books[asset].buy_orders[i].asset == asset
        },
{
    assert(m.books[asset].wf());
}

/// In a well-formed market both sides of every book are sorted best first:
/// the sells by rising price, the buys by falling price, and among orders of
/// one price the one created earlier stands first.
pub proof fn lemma_books_sorted(m: MarketView, asset: u128, i: int, j: int)
    requires
        m.wf(),
        m.books.contains_key(asset),
        0 <= i < j,
    ensures
        j < m.books[asset].sell_orders.len() ==> {
            let first = m.books[asset].sell_orders[i];
            let second = m.books[asset].sell_orders[j];
            &&& first.mode->Limit_0 <= second.mode->Limit_0
            &&& first.mode->Limit_0 == second.mode->Limit_0 ==> first.created_at
                <= second.created_at
        },
        j < m.books[asset].buy_orders.len() ==> {
            let first = m.books[asset].buy_orders[i];
            let second = m.books[asset].buy_orders[j];
            &&& first.mode->Limit_0 >= second.mode->Limit_0
            &&& first.mode->Limit_0 == second.mode->Limit_0 ==> first.created_at
                <= second.created_at
        },
{
    assert(m.books[asset].wf());
    if j < m.books[asset].sell_orders.len() {
        assert(sorted(m.books[asset].sell_orders, false));
        assert(m.books[asset].sell_orders[i].mode is Limit);
        assert(m.books[asset].sell_orders[j].mode is Limit);
    }
    if j < m.books[asset].buy_orders.len() {
        assert(sorted(m.books[asset].buy_orders, true));
        assert(m.books[asset].buy_orders[i].mode is Limit);
        assert(m.books[asset].buy_orders[j].mode is Limit);
    }
}

/// The market after `event`: what the event makes of it, or the market as it
/// was if the event is refused.
pub open spec fn after_event(m: MarketView, event: Event) -> MarketView {
    match m.process(event) {
        Ok(next) => next,
        Err(_) => m,
    }
}

/// The market after each of `events` in turn.
pub open spec fn after_events(m: MarketView, events: Seq<Event>) -> MarketView
    decreases events.len(),
{
    if events.len() == 0 {
        m
    } else {
        after_event(after_events(m, events.drop_last()), events.last())
    }
}

/// How many of `events` succeed when they come in turn.
pub open spec fn successes(m: MarketView, events: Seq<Event>) -> nat
    decreases events.len(),
{
    if events.len() == 0 {
        0
    } else {
        successes(m, events.drop_last()) + (if after_events(m, events.drop_last()).process(
            events.last(),
        ) is Ok {
            1nat
        } else {
            0nat
        })
    }
}

/// Whatever events come, and whether they succeed or fail, a well-formed
/// market stays well-formed; the bank has one coin more for each event that
/// succeeded; the coins of all portfolios and the bank together stay as
/// many as they were; and so do the units of each asset.
pub proof fn lemma_events_keep_the_market(m: MarketView, events: Seq<Event>)
    requires
        m.wf(),
    ensures
        after_events(m, events).wf(),
        after_events(m, events).bank_account == m.bank_account + successes(m, events),
        after_events(m, events).coin_supply() + after_events(m, events).bank_account
            == m.coin_supply() + m.bank_account,
        forall|asset: u128| #[trigger]
            after_events(m, events).asset_supply(asset) == m.asset_supply(asset),
    decreases events.len(),
{
    if events.len() > 0 {
        let before = after_events(m, events.drop_last());
        lemma_events_keep_the_market(m, events.drop_last());
        if before.process(events.last()) is Ok {
            lemma_process_supply(before, events.last());
            lemma_process_keeps_wf(before, events.last());
        }
        assert forall|asset: u128| #[trigger]
            after_events(m, events).asset_supply(asset) == m.asset_supply(asset) by {
            assert(before.asset_supply(asset) == m.asset_supply(asset));
        }
    }
}

/// A filter that keeps every element changes nothing.
pub proof fn lemma_filter_keeps_all(s: Seq<Order>, keep: spec_fn(Order) -> bool)
    requires
        forall|i: int| 0 <= i < s.len() ==> keep(#[trigger] s[i]),
    ensures
        s.filter(keep) == s,
    decreases s.len(),
{
    reveal(Seq::filter);
    if s.len() > 0 {
        let front = s.drop_last();
        assert forall|i: int| 0 <= i < front.len() implies keep(#[trigger] front[i]) by {
            assert(front[i] == s[i]);
        }
        lemma_filter_keeps_all(front, keep);
        assert(keep(s[s.len() - 1]));
        assert(front.push(s.last()) =~= s);
    } else {
        assert(s.filter(keep) =~= s);
    }
}

/// An order that is put into a side where nothing carries its identifier
/// is the one found there under that identifier, and taking it out again
/// gives the side back as it was.
pub proof fn lemma_place_then_remove(s: Seq<Order>, o: Order, revert_price_order: bool)
    requires
        !holds_id(s, o.id),
    ensures
        place(s, o, revert_price_order).filter(keeps(o.id)) == s,
        first_with_id(place(s, o, revert_price_order), o.id) == Some(o),
        first_with_id(s, o.id) == None::<Order>,
{
    lemma_place_members(s, o, revert_price_order);
    let k = slot(s, o, revert_price_order);
    let placed = place(s, o, revert_price_order);
    let front = s.take(k);
    let back = s.skip(k);
    assert(placed =~= front.push(o) + back);
    assert forall|i: int| 0 <= i < front.len() implies keeps(o.id)(#[trigger] front[i]) by {
        assert(front[i] == s[i]);
    }
    assert forall|i: int| 0 <= i < back.len() implies keeps(o.id)(#[trigger] back[i]) by {
        assert(back[i] == s[i + k]);
    }
    lemma_filter_keeps_all(front, keeps(o.id));
    lemma_filter_keeps_all(back, keeps(o.id));
    front.lemma_filter_push(o, keeps(o.id));
    Seq::filter_distributes_over_add(front.push(o), back, keeps(o.id));
    assert(front + back =~= s);
    assert(is_first_with_id(placed, o.id, k)) by {
        assert forall|j: int| 0 <= j < k implies (#[trigger] placed[j]).id != o.id by {
            assert(placed[j] == s[j]);
        }
    }
    let c = choose|c: int| is_first_with_id(placed, o.id, c);
    assert(c == k) by {
        if c > k {
            assert(placed[k].id == o.id);
        }
        if c < k {
            assert(placed[c] == s[c]);
        }
    }
    if exists|i: int| is_first_with_id(s, o.id, i) {
        let i = choose|i: int| is_first_with_id(s, o.id, i);
        assert(s[i].id == o.id);
    }
}

/// The market `m` after two coins have gone from the free coins of
/// `portfolio` to the bank, and nothing else has changed.
pub open spec fn after_two_fees(m: MarketView, portfolio: u128) -> MarketView {
    MarketView {
        bank_account: m.bank_account + 2,
        ..m.with_coins(
            portfolio,
            AccountView {
                total: (m.portfolios[portfolio].coins.total - 2) as nat,
                locked: m.portfolios[portfolio].coins.locked,
            },
        )
    }
}

/// Placing an order with a limit and then cancelling it is paid for with two
/// coins and changes nothing else: every balance, locked and free, and every
/// book is as before, but for the two fees that went from the owner's free
/// coins to the bank. This is stated of an order that finds nothing to trade
/// with, so that all of it comes to rest, and whose identifier no resting
/// order of its book carries.
pub proof fn lemma_cancel_after_place(m: MarketView, order: Order)
    requires
        m.wf(),
        order.mode is Limit,
        m.books.contains_key(order.asset),
        m.books[order.asset].best_candidates(order).len() == 0,
        !holds_id(m.books[order.asset].sell_orders, order.id),
        !holds_id(m.books[order.asset].buy_orders, order.id),
        m.process(Event::Order(order)) is Ok,
        m.process(Event::Order(order))->Ok_0.process(
            Event::CancelOrder(order.portfolio, order.id, order.asset),
        ) is Ok,
    ensures
        m.portfolios[order.portfolio].coins.free() >= 2,
        m.process(Event::Order(order))->Ok_0.process(
            Event::CancelOrder(order.portfolio, order.id, order.asset),
        )->Ok_0 == after_two_fees(m, order.portfolio),
{
    let owner = order.portfolio;
    let asset = order.asset;
    let limit = order.mode->Limit_0;
    let billed = m.bill_fee(owner, 1)->Ok_0;
    let placed = m.process(Event::Order(order))->Ok_0;
    let billed_again = placed.bill_fee(owner, 1)->Ok_0;
    let back = placed.process(Event::CancelOrder(owner, order.id, asset))->Ok_0;
    let book = m.books[asset];
    assert(billed.books == m.books);
    assert(placed == billed.fill_order(order)->Ok_0);
    assert(placed == billed.add_order(order, true)->Ok_0);
    let locked = billed.lock_for(order)->Ok_0;
    assert(locked.books == m.books);
    let resting = book.add_order(order)->Ok_0;
    assert(placed == locked.with_book(asset, resting));
    lemma_place_then_remove(book.sell_orders, order, false);
    lemma_place_then_remove(book.buy_orders, order, true);
    assert(billed_again.books == placed.books);
    assert(billed_again.books[asset] == resting);
    assert(resting.get_order(order.id) == Ok::<Order, crate::error::ErrorType>(order)) by {
        if order.side == OrderSide::Buy {
            assert(resting.sell_orders == book.sell_orders);
        }
    }
    assert(resting.remove_order(order.id) == book) by {
        if order.side == OrderSide::Buy {
            lemma_filter_keeps_all_fresh(book.sell_orders, order.id);
        } else {
            lemma_filter_keeps_all_fresh(book.buy_orders, order.id);
        }
    }
    let unlocked = billed_again.unlock_for(order)->Ok_0;
    assert(back == unlocked.with_book(asset, unlocked.books[asset].remove_order(order.id)));
    assert(order.quantity * limit == limit * order.quantity) by (nonlinear_arith);
    assert(back.books =~= m.books);
    let target = after_two_fees(m, owner);
    assert(back.portfolios[owner].assets =~= m.portfolios[owner].assets);
    assert(back.portfolios =~= target.portfolios);
}

/// Filtering by an identifier that no order carries changes nothing.
pub proof fn lemma_filter_keeps_all_fresh(s: Seq<Order>, id: u128)
    requires
        !holds_id(s, id),
    ensures
        s.filter(keeps(id)) == s,
{
    assert forall|i: int| 0 <= i < s.len() implies keeps(id)(#[trigger] s[i]) by {
        if s[i].id == id {
            assert(holds_id(s, id));
        }
    }
    lemma_filter_keeps_all(s, keeps(id));
}

} // verus!
