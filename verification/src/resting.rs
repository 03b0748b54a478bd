//! What holds of the orders that rest in a book, and that adding and
//! removing orders keeps it so.

use vstd::prelude::*;
use crate::book::BookView;
use crate::book::keeps;
use crate::book::place;
use crate::book::precedes;
use crate::book::side_wf;
use crate::book::slot;
use crate::book::sorted;
use crate::order::Order;
use crate::order::OrderSide;
use crate::book::quantity_sum;
use crate::engine::Event;
use crate::error::ErrorType;
use crate::model::MarketView;
use crate::model::price_for;
use crate::supply::same_shape;
use crate::supply::tidy;
use crate::supply::lemma_with_asset_account;
use crate::supply::lemma_with_coins;
use crate::supply::lemma_add_order_steady;
use crate::supply::lemma_bill_fee;
use crate::supply::lemma_exchange_steady;
use crate::supply::lemma_lock_for_steady;
use crate::supply::lemma_steady_keeps;
use crate::supply::lemma_transfer_asset;
use crate::supply::lemma_transfer_coins;
use crate::supply::lemma_unlock_for_steady;

verus! {

/// `precedes` orders the orders of a side strictly: it never holds both
/// ways, and what is not better than a second order, which is not better
/// than a third, is not better than the third.
pub proof fn lemma_precedes_is_strict(a: Order, b: Order, c: Order, revert_price_order: bool)
    ensures
        !precedes(a, a, revert_price_order),
        precedes(a, b, revert_price_order) ==> !precedes(b, a, revert_price_order),
        precedes(a, b, revert_price_order) && precedes(b, c, revert_price_order) ==> precedes(
            a,
            c,
            revert_price_order,
        ),
        !precedes(a, b, revert_price_order) && !precedes(b, c, revert_price_order) ==> !precedes(
            a,
            c,
            revert_price_order,
        ),
{
}

/// Where an order is put: every order behind that place is one it is
/// strictly better than, and the order just before it is not.
pub proof fn lemma_slot(s: Seq<Order>, o: Order, revert_price_order: bool)
    ensures
        0 <= slot(s, o, revert_price_order) <= s.len(),
        forall|j: int|
            slot(s, o, revert_price_order) <= j < s.len() ==> precedes(
                o,
                #[trigger] s[j],
                revert_price_order,
            ),
        slot(s, o, revert_price_order) > 0 ==> !precedes(
            o,
            s[slot(s, o, revert_price_order) - 1],
            revert_price_order,
        ),
    decreases s.len(),
{
    if s.len() > 0 && precedes(o, s.last(), revert_price_order) {
        let front = s.drop_last();
        lemma_slot(front, o, revert_price_order);
        assert forall|j: int| slot(s, o, revert_price_order) <= j < s.len() implies precedes(
            o,
            #[trigger] s[j],
            revert_price_order,
        ) by {
            if j < front.len() {
                assert(front[j] == s[j]);
            }
        }
        if slot(s, o, revert_price_order) > 0 {
            assert(front[slot(s, o, revert_price_order) - 1] == s[slot(s, o, revert_price_order)
                - 1]);
        }
    }
}

/// Putting an order in its place keeps a sorted side sorted, and adds
/// nothing but that order.
pub proof fn lemma_place(s: Seq<Order>, o: Order, revert_price_order: bool)
    requires
        sorted(s, revert_price_order),
    ensures
        sorted(place(s, o, revert_price_order), revert_price_order),
        place(s, o, revert_price_order).len() == s.len() + 1,
        forall|i: int|
            0 <= i < s.len() + 1 ==> (#[trigger] place(s, o, revert_price_order)[i]) == o
                || s.contains(place(s, o, revert_price_order)[i]),
{
    lemma_slot(s, o, revert_price_order);
    let k = slot(s, o, revert_price_order);
    let placed = place(s, o, revert_price_order);
    assert forall|i: int, j: int| 0 <= i < j < placed.len() implies !precedes(
        #[trigger] placed[j],
        #[trigger] placed[i],
        revert_price_order,
    ) by {
        if j == k {
            // `o` behind an order that stood before its place
            if i < k - 1 {
                lemma_precedes_is_strict(o, s[k - 1], s[i], revert_price_order);
            }
        } else if i == k {
            assert(placed[j] == s[j - 1]);
            lemma_precedes_is_strict(o, s[j - 1], o, revert_price_order);
        } else {
            let si = if i < k {
                i
            } else {
                i - 1
            };
            let sj = if j < k {
                j
            } else {
                j - 1
            };
            assert(placed[i] == s[si]);
            assert(placed[j] == s[sj]);
        }
    }
    assert forall|i: int| 0 <= i < s.len() + 1 implies (#[trigger] placed[i]) == o || s.contains(
        placed[i],
    ) by {
        if i < k {
            assert(placed[i] == s[i]);
        } else if i > k {
            assert(placed[i] == s[i - 1]);
        }
    }
}

/// Putting an order in its place adds that order and nothing else.
pub proof fn lemma_place_members(s: Seq<Order>, o: Order, revert_price_order: bool)
    ensures
        0 <= slot(s, o, revert_price_order) <= s.len(),
        place(s, o, revert_price_order).len() == s.len() + 1,
        forall|i: int|
            0 <= i < s.len() + 1 ==> (#[trigger] place(s, o, revert_price_order)[i]) == o
                || s.contains(place(s, o, revert_price_order)[i]),
{
    lemma_slot(s, o, revert_price_order);
    let k = slot(s, o, revert_price_order);
    let placed = place(s, o, revert_price_order);
    assert forall|i: int| 0 <= i < s.len() + 1 implies (#[trigger] placed[i]) == o || s.contains(
        placed[i],
    ) by {
        if i < k {
            assert(placed[i] == s[i]);
        } else if i > k {
            assert(placed[i] == s[i - 1]);
        }
    }
}

/// The candidates are the front of the side they are taken from, and each of
/// them matches the incoming order.
pub proof fn lemma_candidates_prefix(side: Seq<Order>, incoming: Order, needed: int)
    ensures
        crate::book::candidates(side, incoming, needed).len() <= side.len(),
        crate::book::candidates(side, incoming, needed) == side.take(
            crate::book::candidates(side, incoming, needed).len() as int,
        ),
        forall|i: int|
            0 <= i < crate::book::candidates(side, incoming, needed).len()
                ==> incoming.spec_matches(
                #[trigger] crate::book::candidates(side, incoming, needed)[i],
            ),
    decreases side.len(),
{
    let found = crate::book::candidates(side, incoming, needed);
    if side.len() == 0 || !incoming.spec_matches(side[0]) {
        assert(found =~= side.take(0));
    } else if side[0].quantity >= needed {
        assert(found =~= side.take(1));
    } else {
        let tail = side.skip(1);
        let more = crate::book::candidates(tail, incoming, needed - side[0].quantity);
        lemma_candidates_prefix(tail, incoming, needed - side[0].quantity);
        assert(found =~= seq![side[0]] + more);
        assert(found =~= side.take(found.len() as int)) by {
            assert forall|i: int| 0 <= i < found.len() implies found[i] == side[i] by {
                if i > 0 {
                    assert(found[i] == more[i - 1]);
                    assert(more[i - 1] == tail.take(more.len() as int)[i - 1]);
                }
            }
        }
        assert forall|i: int| 0 <= i < found.len() implies incoming.spec_matches(
            #[trigger] found[i],
        ) by {
            if i > 0 {
                assert(found[i] == more[i - 1]);
            }
        }
    }
}

/// What is left after filtering stands in the order it stood in before.
pub proof fn lemma_filter_sorted(
    s: Seq<Order>,
    keep: spec_fn(Order) -> bool,
    revert_price_order: bool,
)
    requires
        sorted(s, revert_price_order),
    ensures
        sorted(s.filter(keep), revert_price_order),
        forall|i: int| 0 <= i < s.filter(keep).len() ==> s.contains(#[trigger] s.filter(keep)[i]),
    decreases s.len(),
{
    reveal(Seq::filter);
    if s.len() > 0 {
        let front = s.drop_last();
        assert(sorted(front, revert_price_order)) by {
            assert forall|i: int, j: int| 0 <= i < j < front.len() implies !precedes(
                #[trigger] front[j],
                #[trigger] front[i],
                revert_price_order,
            ) by {
                assert(front[i] == s[i] && front[j] == s[j]);
            }
        }
        lemma_filter_sorted(front, keep, revert_price_order);
        let kept = front.filter(keep);
        let all = s.filter(keep);
        assert forall|i: int| 0 <= i < all.len() implies s.contains(#[trigger] all[i]) by {
            if i < kept.len() {
                assert(all[i] == kept[i]);
                assert(front.contains(kept[i]));
                let w = choose|w: int| 0 <= w < front.len() && front[w] == kept[i];
                assert(s[w] == kept[i]);
            } else {
                assert(all[i] == s[s.len() - 1]);
            }
        }
        assert forall|i: int, j: int| 0 <= i < j < all.len() implies !precedes(
            #[trigger] all[j],
            #[trigger] all[i],
            revert_price_order,
        ) by {
            if j < kept.len() {
                assert(all[i] == kept[i] && all[j] == kept[j]);
            } else {
                assert(all[j] == s[s.len() - 1]);
                assert(all[i] == kept[i]);
                assert(front.contains(kept[i]));
                let w = choose|w: int| 0 <= w < front.len() && front[w] == kept[i];
                assert(s[w] == kept[i]);
            }
        }
    }
}

/// A well-formed book stays so when an order of its asset comes to rest.
pub proof fn lemma_book_add_order_wf(book: BookView, order: Order)
    requires
        book.wf(),
        order.asset == book.asset_id,
        book.add_order(order) is Ok,
    ensures
        book.add_order(order)->Ok_0.wf(),
        book.add_order(order)->Ok_0.asset_id == book.asset_id,
{
    let after = book.add_order(order)->Ok_0;
    match order.side {
        OrderSide::Sell => {
            lemma_place(book.sell_orders, order, false);
            lemma_side_grown(book.sell_orders, after.sell_orders, order, book.asset_id);
        },
        OrderSide::Buy => {
            lemma_place(book.buy_orders, order, true);
            lemma_side_grown(book.buy_orders, after.buy_orders, order, book.asset_id);
        },
    }
}

proof fn lemma_side_grown(before: Seq<Order>, after: Seq<Order>, order: Order, asset_id: u128)
    requires
        order.asset == asset_id,
        order.mode is Limit,
        side_wf(before, asset_id, order.side),
        sorted(after, order.side == OrderSide::Buy),
        forall|i: int| 0 <= i < after.len() ==> (#[trigger] after[i]) == order || before.contains(
            after[i],
        ),
    ensures
        side_wf(after, asset_id, order.side),
{
    assert forall|i: int| 0 <= i < after.len() implies {
        &&& (#[trigger] after[i]).asset == asset_id
        &&& after[i].side == order.side
        &&& after[i].mode is Limit
    } by {
        if after[i] != order {
            let w = choose|w: int| 0 <= w < before.len() && before[w] == after[i];
            assert(before[w].asset == asset_id);
        }
    }
}

proof fn lemma_side_filtered(s: Seq<Order>, keep: spec_fn(Order) -> bool, asset_id: u128, side: OrderSide)
    requires
        side_wf(s, asset_id, side),
    ensures
        side_wf(s.filter(keep), asset_id, side),
{
    lemma_filter_sorted(s, keep, side == OrderSide::Buy);
    let kept = s.filter(keep);
    assert forall|i: int| 0 <= i < kept.len() implies {
        &&& (#[trigger] kept[i]).asset == asset_id
        &&& kept[i].side == side
        &&& kept[i].mode is Limit
    } by {
        let w = choose|w: int| 0 <= w < s.len() && s[w] == kept[i];
        assert(s[w].asset == asset_id);
    }
}

/// A well-formed book stays so when orders leave it.
pub proof fn lemma_book_remove_order_wf(book: BookView, id: u128)
    requires
        book.wf(),
    ensures
        book.remove_order(id).wf(),
        book.remove_order(id).asset_id == book.asset_id,
{
    lemma_side_filtered(book.sell_orders, keeps(id), book.asset_id, OrderSide::Sell);
    lemma_side_filtered(book.buy_orders, keeps(id), book.asset_id, OrderSide::Buy);
}

/// The market is tidy, its keys are in order and its books are well-formed.
pub open spec fn orderly(m: MarketView) -> bool {
    tidy(m) && m.keys_wf() && m.books_wf()
}

/// If the step succeeded, it left the market orderly.
pub open spec fn kept_orderly(step: Result<MarketView, ErrorType>) -> bool {
    step is Ok ==> orderly(step->Ok_0)
}

/// Settling a trade does not touch the books.
pub proof fn lemma_exchange_books(
    m: MarketView,
    buyer: u128,
    seller: u128,
    asset: u128,
    asset_count: nat,
    price_per_asset: nat,
    use_locked_coins: bool,
    use_locked_assets: bool,
)
    requires
        tidy(m),
        m.exchange(
            buyer,
            seller,
            asset,
            asset_count,
            price_per_asset,
            use_locked_coins,
            use_locked_assets,
        ) is Ok,
    ensures
        m.exchange(
            buyer,
            seller,
            asset,
            asset_count,
            price_per_asset,
            use_locked_coins,
            use_locked_assets,
        )->Ok_0.books == m.books,
{
    lemma_transfer_asset(m, seller, buyer, asset, asset_count, use_locked_assets);
    let moved = m.transfer_asset(seller, buyer, asset, asset_count, use_locked_assets)->Ok_0;
    lemma_transfer_coins(moved, buyer, seller, price_per_asset * asset_count, use_locked_coins);
}

/// Removing an order leaves an orderly market orderly.
pub proof fn lemma_remove_order_orderly(m: MarketView, asset: u128, order: u128)
    requires
        orderly(m),
    ensures
        kept_orderly(m.remove_order(asset, order)),
{
    if m.books.contains_key(asset) {
        crate::supply::lemma_remove_order_steady(m, asset, order);
        let after = m.remove_order(asset, order)->Ok_0;
        lemma_steady_keeps(m, after);
        lemma_book_remove_order_wf(m.books[asset], order);
        assert forall|a: u128| after.books.contains_key(a) implies (#[trigger] after.books[a]).wf() by {
            if a != asset {
                assert(m.books[a].wf());
            }
        }
    }
}

/// Letting an order rest leaves an orderly market orderly.
pub proof fn lemma_add_order_orderly(m: MarketView, order: Order, lock_amount: bool)
    requires
        orderly(m),
    ensures
        kept_orderly(m.add_order(order, lock_amount)),
{
    if m.add_order(order, lock_amount) is Ok {
        lemma_add_order_steady(m, order, lock_amount);
        let after = m.add_order(order, lock_amount)->Ok_0;
        lemma_steady_keeps(m, after);
        if lock_amount {
            lemma_lock_for_steady(m, order);
        }
        assert(m.books[order.asset].wf());
        lemma_book_add_order_wf(m.books[order.asset], order);
        assert forall|a: u128| after.books.contains_key(a) implies (#[trigger] after.books[a]).wf() by {
            if a != order.asset {
                assert(m.books[a].wf());
            }
        }
    }
}

/// Cancelling an order leaves an orderly market orderly.
pub proof fn lemma_cancel_order_orderly(m: MarketView, portfolio: u128, order_id: u128, asset: u128)
    requires
        orderly(m),
    ensures
        kept_orderly(m.cancel_order(portfolio, order_id, asset)),
{
    if m.cancel_order(portfolio, order_id, asset) is Ok {
        crate::supply::lemma_cancel_order_steady(m, portfolio, order_id, asset);
        let after = m.cancel_order(portfolio, order_id, asset)->Ok_0;
        lemma_steady_keeps(m, after);
        let order = m.books[asset].get_order(order_id)->Ok_0;
        lemma_unlock_for_steady(m, order);
        lemma_book_remove_order_wf(m.books[asset], order_id);
        assert forall|a: u128| after.books.contains_key(a) implies (#[trigger] after.books[a]).wf() by {
            if a != asset {
                assert(m.books[a].wf());
            }
        }
    }
}

/// One trade leaves an orderly market orderly.
pub proof fn lemma_trade_one_orderly(m: MarketView, filled: Order, other: Order)
    requires
        orderly(m),
    ensures
        kept_orderly(m.trade_one(filled, other)),
{
    if m.trade_one(filled, other) is Ok {
        let price = price_for(filled, other)->Ok_0;
        let buying = filled.side == OrderSide::Buy;
        let buyer = if buying {
            filled.portfolio
        } else {
            other.portfolio
        };
        let seller = if buying {
            other.portfolio
        } else {
            filled.portfolio
        };
        let settled = m.exchange(
            buyer,
            seller,
            filled.asset,
            other.quantity as nat,
            price as nat,
            !buying,
            buying,
        );
        lemma_exchange_steady(
            m,
            buyer,
            seller,
            filled.asset,
            other.quantity as nat,
            price as nat,
            !buying,
            buying,
        );
        lemma_exchange_books(
            m,
            buyer,
            seller,
            filled.asset,
            other.quantity as nat,
            price as nat,
            !buying,
            buying,
        );
        lemma_steady_keeps(m, settled->Ok_0);
        lemma_remove_order_orderly(settled->Ok_0, other.asset, other.id);
    }
}

/// Trading an order with others leaves an orderly market orderly.
pub proof fn lemma_process_trade_orderly(m: MarketView, filled: Order, others: Seq<Order>)
    requires
        orderly(m),
    ensures
        kept_orderly(m.process_trade(filled, others)),
    decreases others.len(),
{
    if others.len() == 0 {
        lemma_remove_order_orderly(m, filled.asset, filled.id);
    } else {
        lemma_trade_one_orderly(m, filled, others[0]);
        let first = m.trade_one(filled, others[0]);
        if first is Ok {
            lemma_process_trade_orderly(first->Ok_0, filled, others.skip(1));
        }
    }
}

/// Placing an order leaves an orderly market orderly.
pub proof fn lemma_fill_order_orderly(m: MarketView, order: Order)
    requires
        orderly(m),
    ensures
        kept_orderly(m.fill_order(order)),
{
    if m.books.contains_key(order.asset) {
        let found = m.books[order.asset].best_candidates(order);
        let fill_sum = quantity_sum(found);
        if found.len() == 0 {
            lemma_add_order_orderly(m, order, true);
        } else if fill_sum > order.quantity {
            let parts = found.last().split_spec(fill_sum - order.quantity);
            if parts is Ok {
                let (remainder, filled) = parts->Ok_0;
                let traded = m.process_trade(order, found.drop_last().push(filled));
                lemma_process_trade_orderly(m, order, found.drop_last().push(filled));
                if traded is Ok {
                    lemma_add_order_orderly(traded->Ok_0, remainder, false);
                }
            }
        } else if fill_sum < order.quantity {
            let parts = order.split_spec(fill_sum as int);
            if parts is Ok {
                let (filled, remainder) = parts->Ok_0;
                let traded = m.process_trade(filled, found);
                lemma_process_trade_orderly(m, filled, found);
                if traded is Ok {
                    lemma_add_order_orderly(traded->Ok_0, remainder, true);
                }
            }
        } else {
            lemma_process_trade_orderly(m, order, found);
        }
    }
}

/// Billing a fee leaves an orderly market orderly.
pub proof fn lemma_bill_fee_orderly(m: MarketView, id: u128, amount: nat)
    requires
        orderly(m),
    ensures
        kept_orderly(m.bill_fee(id, amount)),
{
    if m.bill_fee(id, amount) is Ok {
        lemma_bill_fee(m, id, amount);
    }
}

/// No event takes an orderly market out of order: afterwards, as before,
/// no book holds an order without a limit, every resting order is on its
/// side of the book of its asset, and both sides of every book are sorted
/// best first, the earlier order first among equals.
pub proof fn lemma_process_orderly(m: MarketView, event: Event)
    requires
        orderly(m),
    ensures
        kept_orderly(m.process(event)),
{
    lemma_bill_fee_orderly(m, MarketView::initiator(event), 1);
    let billed = m.bill_fee(MarketView::initiator(event), 1);
    if billed is Ok {
        match event {
            Event::Order(order) => lemma_fill_order_orderly(billed->Ok_0, order),
            Event::CancelOrder(portfolio, order, asset) => lemma_cancel_order_orderly(
                billed->Ok_0,
                portfolio,
                order,
                asset,
            ),
        }
    }
}

/// A step that keeps the shape of the market and its books, and leaves the
/// balances well-formed, leaves an orderly market orderly.
pub proof fn lemma_shape_keeps_orderly(m: MarketView, after: MarketView)
    requires
        orderly(m),
        same_shape(m, after),
        after.accounts_wf(),
        after.books == m.books,
    ensures
        orderly(after),
{
    assert forall|asset: u128| after.books.contains_key(asset) implies (
    #[trigger] after.books[asset]).wf() by {
        assert(m.books[asset].wf());
    }
}

/// Taking coins out of a portfolio, or putting coins into one, leaves an
/// orderly market orderly.
pub proof fn lemma_coins_moved_orderly(m: MarketView, id: u128, amount: nat, locked: bool)
    requires
        orderly(m),
    ensures
        m.withdraw_coins(id, amount, locked) is Ok ==> orderly(
            m.withdraw_coins(id, amount, locked)->Ok_0,
        ),
        m.deposit_coins(id, amount) is Ok ==> orderly(m.deposit_coins(id, amount)->Ok_0),
{
    if m.portfolios.contains_key(id) {
        assert(m.portfolios[id].wf());
        if m.withdraw_coins(id, amount, locked) is Ok {
            let left = if locked {
                m.portfolios[id].coins.spend_from_locked(amount)->Ok_0
            } else {
                m.portfolios[id].coins.spend_from_free(amount)->Ok_0
            };
            lemma_with_coins(m, id, left);
            lemma_shape_keeps_orderly(m, m.with_coins(id, left));
        }
        lemma_with_coins(m, id, m.portfolios[id].coins.add(amount));
        lemma_shape_keeps_orderly(m, m.with_coins(id, m.portfolios[id].coins.add(amount)));
    }
}

/// Taking units out of a portfolio, or putting units into one, leaves an
/// orderly market orderly.
pub proof fn lemma_units_moved_orderly(
    m: MarketView,
    id: u128,
    asset: u128,
    amount: nat,
    locked: bool,
)
    requires
        orderly(m),
    ensures
        m.withdraw_asset(id, asset, amount, locked) is Ok ==> orderly(
            m.withdraw_asset(id, asset, amount, locked)->Ok_0,
        ),
        m.deposit_asset(id, asset, amount) is Ok ==> orderly(
            m.deposit_asset(id, asset, amount)->Ok_0,
        ),
{
    if m.portfolios.contains_key(id) && m.portfolios[id].assets.contains_key(asset) {
        let account = m.portfolios[id].assets[asset];
        assert(m.portfolios[id].wf());
        assert(account.wf());
        if m.withdraw_asset(id, asset, amount, locked) is Ok {
            let left = if locked {
                account.spend_from_locked(amount)->Ok_0
            } else {
                account.spend_from_free(amount)->Ok_0
            };
            lemma_with_asset_account(m, id, asset, left);
            lemma_shape_keeps_orderly(m, m.with_asset_account(id, asset, left));
        }
        lemma_with_asset_account(m, id, asset, account.add(amount));
        lemma_shape_keeps_orderly(m, m.with_asset_account(id, asset, account.add(amount)));
    }
}

/// Whatever a transfer of units leaves, an orderly market stays orderly.
pub proof fn lemma_transfer_asset_left_orderly(
    m: MarketView,
    from: u128,
    to: u128,
    asset: u128,
    amount: nat,
    locked: bool,
)
    requires
        orderly(m),
    ensures
        orderly(m.transfer_asset_left(from, to, asset, amount, locked)),
{
    lemma_units_moved_orderly(m, from, asset, amount, locked);
    if m.withdraw_asset(from, asset, amount, locked) is Ok {
        lemma_units_moved_orderly(
            m.withdraw_asset(from, asset, amount, locked)->Ok_0,
            to,
            asset,
            amount,
            locked,
        );
    }
}

/// Whatever a transfer of coins leaves, an orderly market stays orderly.
pub proof fn lemma_transfer_coins_left_orderly(
    m: MarketView,
    from: u128,
    to: u128,
    amount: nat,
    locked: bool,
)
    requires
        orderly(m),
    ensures
        orderly(m.transfer_coins_left(from, to, amount, locked)),
{
    lemma_coins_moved_orderly(m, from, amount, locked);
    if m.withdraw_coins(from, amount, locked) is Ok {
        lemma_coins_moved_orderly(m.withdraw_coins(from, amount, locked)->Ok_0, to, amount, locked);
    }
}

/// Whatever the settling of a trade leaves, an orderly market stays orderly.
pub proof fn lemma_exchange_left_orderly(
    m: MarketView,
    buyer: u128,
    seller: u128,
    asset: u128,
    asset_count: nat,
    price_per_asset: nat,
    use_locked_coins: bool,
    use_locked_assets: bool,
)
    requires
        orderly(m),
    ensures
        orderly(
            m.exchange_left(
                buyer,
                seller,
                asset,
                asset_count,
                price_per_asset,
                use_locked_coins,
                use_locked_assets,
            ),
        ),
{
    lemma_transfer_asset_left_orderly(m, seller, buyer, asset, asset_count, use_locked_assets);
    let moved = m.transfer_asset(seller, buyer, asset, asset_count, use_locked_assets);
    if moved is Ok {
        lemma_transfer_coins_left_orderly(
            moved->Ok_0,
            buyer,
            seller,
            price_per_asset * asset_count,
            use_locked_coins,
        );
    }
}

/// Whatever one trade leaves, an orderly market stays orderly.
pub proof fn lemma_trade_one_left_orderly(m: MarketView, filled: Order, other: Order)
    requires
        orderly(m),
    ensures
        orderly(m.trade_one_left(filled, other)),
{
    if price_for(filled, other) is Ok {
        let price = price_for(filled, other)->Ok_0;
        let buying = filled.side == OrderSide::Buy;
        let buyer = if buying {
            filled.portfolio
        } else {
            other.portfolio
        };
        let seller = if buying {
            other.portfolio
        } else {
            filled.portfolio
        };
        let settled = m.exchange(
            buyer,
            seller,
            filled.asset,
            other.quantity as nat,
            price as nat,
            !buying,
            buying,
        );
        lemma_exchange_left_orderly(
            m,
            buyer,
            seller,
            filled.asset,
            other.quantity as nat,
            price as nat,
            !buying,
            buying,
        );
        if settled is Ok {
            lemma_remove_order_orderly(settled->Ok_0, other.asset, other.id);
        }
    }
}

/// Whatever the trades of an order leave, an orderly market stays orderly.
pub proof fn lemma_process_trade_left_orderly(m: MarketView, filled: Order, others: Seq<Order>)
    requires
        orderly(m),
    ensures
        orderly(m.process_trade_left(filled, others)),
    decreases others.len(),
{
    if others.len() == 0 {
        lemma_remove_order_orderly(m, filled.asset, filled.id);
    } else {
        lemma_trade_one_left_orderly(m, filled, others[0]);
        lemma_trade_one_orderly(m, filled, others[0]);
        let first = m.trade_one(filled, others[0]);
        if first is Ok {
            lemma_process_trade_left_orderly(first->Ok_0, filled, others.skip(1));
        }
    }
}

/// Whatever letting an order rest leaves, an orderly market stays orderly.
pub proof fn lemma_rest_left_orderly(m: MarketView, order: Order, lock_amount: bool)
    requires
        orderly(m),
    ensures
        orderly(m.add_order_left(order, lock_amount)),
        orderly(m.rest_left(order, lock_amount)),
{
    lemma_add_order_orderly(m, order, lock_amount);
    if m.portfolios.contains_key(order.portfolio) && lock_amount && m.lock_for(order) is Ok {
        lemma_lock_for_steady(m, order);
        lemma_shape_keeps_orderly(m, m.lock_for(order)->Ok_0);
    }
}

/// Whatever placing an order leaves, whether it succeeds or fails on its
/// way, an orderly market stays orderly: no order without a limit rests,
/// every resting order is on its side of the book of its asset, and both
/// sides of every book are sorted.
pub proof fn lemma_fill_order_left_orderly(m: MarketView, order: Order)
    requires
        orderly(m),
    ensures
        orderly(m.fill_order_left(order)),
{
    if m.books.contains_key(order.asset) {
        let found = m.books[order.asset].best_candidates(order);
        let fill_sum = quantity_sum(found);
        if found.len() == 0 {
            lemma_rest_left_orderly(m, order, true);
        } else if fill_sum > order.quantity {
            let parts = found.last().split_spec(fill_sum - order.quantity);
            if parts is Ok {
                let (remainder, filled) = parts->Ok_0;
                let others = found.drop_last().push(filled);
                lemma_process_trade_left_orderly(m, order, others);
                lemma_process_trade_orderly(m, order, others);
                if m.process_trade(order, others) is Ok {
                    lemma_rest_left_orderly(m.process_trade(order, others)->Ok_0, remainder, false);
                }
            }
        } else if fill_sum < order.quantity {
            let parts = order.split_spec(fill_sum as int);
            if parts is Ok {
                let (filled, remainder) = parts->Ok_0;
                lemma_process_trade_left_orderly(m, filled, found);
                lemma_process_trade_orderly(m, filled, found);
                if m.process_trade(filled, found) is Ok {
                    lemma_rest_left_orderly(m.process_trade(filled, found)->Ok_0, remainder, true);
                }
            }
        } else {
            lemma_process_trade_left_orderly(m, order, found);
        }
    }
}

} // verus!
