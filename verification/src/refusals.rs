//! Which errors an event can be refused with. In a well-formed market whose
//! orders are valid, an event fails only for want of a portfolio, an asset,
//! an order, free funds, or a counterparty for an order without a limit:
//! what rests in a book is always honoured.

use vstd::prelude::*;
use crate::book::candidates;
use crate::book::keeps;
use crate::book::place;
use crate::book::quantity_of;
use crate::book::quantity_sum;
use crate::engine::Event;
use crate::error::ErrorType;
use crate::locks::all_tradable;
use crate::locks::asset_covered;
use crate::locks::coin_covered;
use crate::locks::covered;
use crate::locks::tradable;
use crate::locks::lemma_candidates_tradable;
use crate::locks::lemma_cover_split;
use crate::locks::lemma_cover_start;
use crate::locks::lemma_filter_members;
use crate::locks::lemma_get_order_rests;
use crate::locks::lemma_resting_orders_backed;
use crate::locks::lemma_trade_one_covered;
use crate::model::MarketView;
use crate::model::buy_weight;
use crate::model::price_for;
use crate::model::sell_weight;
use crate::order::Order;
use crate::order::OrderSide;
use crate::resting::orderly;
use crate::resting::lemma_bill_fee_orderly;
use crate::resting::lemma_candidates_prefix;
use crate::resting::lemma_exchange_books;
use crate::resting::lemma_place_members;
use crate::sums::lemma_weigh_concat;
use crate::sums::lemma_weigh_head;
use crate::sums::lemma_weigh_member;
use crate::sums::lemma_weigh_one;
use crate::supply::tidy;
use crate::supply::lemma_bill_fee;
use crate::supply::lemma_lock_for_steady;
use crate::supply::lemma_process_trade_steady;
use crate::supply::lemma_trade_one_steady;
use crate::supply::lemma_transfer_asset;
use crate::supply::lemma_unlock_for_steady;

verus! {

/// The errors that say what an event lacks, as against those that say that
/// the market is out of order.
pub open spec fn ordinary(e: ErrorType) -> bool {
    ||| e is PortfolioNotFound
    ||| e is AssetNotFound
    ||| e is OrderNotFound
    ||| e is InsufficientFreeAmount
    ||| e is NotEnoughMatchingOrdersToImmediatelyFillBestOrder
}

/// If the step failed, it failed with an ordinary error.
pub open spec fn refused_ordinarily(step: Result<MarketView, ErrorType>) -> bool {
    step is Err ==> ordinary(step->Err_0)
}

/// Every order of `s` is valid.
pub open spec fn side_valid(s: Seq<Order>) -> bool {
    forall|i: int| 0 <= i < s.len() ==> (#[trigger] s[i]).valid()
}

/// Every order that rests in the book of `asset` is valid.
pub open spec fn book_valid(m: MarketView, asset: u128) -> bool {
    side_valid(m.books[asset].sell_orders) && side_valid(m.books[asset].buy_orders)
}

/// Every resting order is valid: it has a positive quantity and a positive
/// limit.
pub open spec fn orders_valid(m: MarketView) -> bool {
    forall|asset: u128| m.books.contains_key(asset) ==> #[trigger] book_valid(m, asset)
}

/// The order of `event`, if it has one, is valid.
pub open spec fn event_valid(event: Event) -> bool {
    match event {
        Event::Order(order) => order.valid(),
        Event::CancelOrder(_, _, _) => true,
    }
}

/// If the step succeeded, it left every resting order valid.
pub open spec fn kept_valid(step: Result<MarketView, ErrorType>) -> bool {
    step is Ok ==> orders_valid(step->Ok_0)
}

/// The resting orders stay valid when the market grows: no new portfolio,
/// asset or unit puts an order into a book.
pub proof fn lemma_growth_valid(m: MarketView, after: MarketView)
    requires
        orders_valid(m),
        forall|asset: u128|
            after.books.contains_key(asset) ==> {
                ||| m.books.contains_key(asset) && #[trigger] after.books[asset] == m.books[asset]
                ||| after.books[asset] == crate::book::BookView::empty(asset)
            },
    ensures
        orders_valid(after),
{
    assert forall|asset: u128| after.books.contains_key(asset) implies #[trigger] book_valid(
        after,
        asset,
    ) by {
        if m.books.contains_key(asset) && after.books[asset] == m.books[asset] {
            assert(book_valid(m, asset));
        }
    }
}

proof fn lemma_filter_valid(s: Seq<Order>, keep: spec_fn(Order) -> bool)
    requires
        side_valid(s),
    ensures
        side_valid(s.filter(keep)),
{
    lemma_filter_members(s, keep);
    let kept = s.filter(keep);
    assert forall|i: int| 0 <= i < kept.len() implies (#[trigger] kept[i]).valid() by {
        let w = choose|w: int| 0 <= w < s.len() && s[w] == kept[i];
        assert(s[w].valid());
    }
}

proof fn lemma_place_valid(s: Seq<Order>, o: Order, revert_price_order: bool)
    requires
        side_valid(s),
        o.valid(),
    ensures
        side_valid(place(s, o, revert_price_order)),
{
    lemma_place_members(s, o, revert_price_order);
    let placed = place(s, o, revert_price_order);
    assert forall|i: int| 0 <= i < placed.len() implies (#[trigger] placed[i]).valid() by {
        if placed[i] != o {
            let w = choose|w: int| 0 <= w < s.len() && s[w] == placed[i];
            assert(s[w].valid());
        }
    }
}

/// Orders that leave a book leave the others valid.
pub proof fn lemma_remove_order_valid(m: MarketView, asset: u128, id: u128)
    requires
        orders_valid(m),
    ensures
        kept_valid(m.remove_order(asset, id)),
{
    if m.books.contains_key(asset) {
        let after = m.remove_order(asset, id)->Ok_0;
        assert forall|x: u128| after.books.contains_key(x) implies #[trigger] book_valid(
            after,
            x,
        ) by {
            assert(book_valid(m, x));
            if x == asset {
                lemma_filter_valid(m.books[asset].sell_orders, keeps(id));
                lemma_filter_valid(m.books[asset].buy_orders, keeps(id));
            }
        }
    }
}

/// A valid order that comes to rest leaves all resting orders valid.
pub proof fn lemma_rest_valid(m: MarketView, order: Order, lock_amount: bool)
    requires
        tidy(m),
        orders_valid(m),
        order.valid(),
    ensures
        kept_valid(m.rest(order, lock_amount)),
{
    if m.rest(order, lock_amount) is Ok {
        let after = m.rest(order, lock_amount)->Ok_0;
        if lock_amount {
            lemma_lock_for_steady(m, order);
        }
        assert forall|x: u128| after.books.contains_key(x) implies #[trigger] book_valid(
            after,
            x,
        ) by {
            if x == order.asset {
                assert(book_valid(m, order.asset));
                lemma_place_valid(m.books[x].sell_orders, order, false);
                lemma_place_valid(m.books[x].buy_orders, order, true);
            } else {
                assert(book_valid(m, x));
            }
        }
    }
}

/// Trading leaves the resting orders valid: it only takes orders out.
pub proof fn lemma_process_trade_valid(m: MarketView, filled: Order, others: Seq<Order>)
    requires
        tidy(m),
        orders_valid(m),
    ensures
        kept_valid(m.process_trade(filled, others)),
    decreases others.len(),
{
    if others.len() == 0 {
        lemma_remove_order_valid(m, filled.asset, filled.id);
    } else if m.trade_one(filled, others[0]) is Ok {
        let other = others[0];
        let price = price_for(filled, other)->Ok_0;
        let buying = filled.side == OrderSide::Buy;
        let buyer = if buying {
            filled.portfolio
        } else {
            other.portfolio
        };
        let seller = if buying {
            other.portfolio
        } else {
            filled.portfolio
        };
        let settled = m.exchange(
            buyer,
            seller,
            filled.asset,
            other.quantity as nat,
            price as nat,
            !buying,
            buying,
        )->Ok_0;
        lemma_exchange_books(
            m,
            buyer,
            seller,
            filled.asset,
            other.quantity as nat,
            price as nat,
            !buying,
            buying,
        );
        assert(orders_valid(settled)) by {
            assert forall|x: u128| settled.books.contains_key(x) implies #[trigger] book_valid(
                settled,
                x,
            ) by {
                assert(book_valid(m, x));
            }
        }
        lemma_remove_order_valid(settled, other.asset, other.id);
        lemma_trade_one_steady(m, filled, other);
        lemma_process_trade_valid(m.trade_one(filled, other)->Ok_0, filled, others.skip(1));
    }
}

/// All candidates but the last fall short of what is needed.
pub proof fn lemma_candidates_short(side: Seq<Order>, incoming: Order, needed: int)
    requires
        needed > 0,
        candidates(side, incoming, needed).len() > 0,
    ensures
        quantity_sum(candidates(side, incoming, needed).drop_last()) < needed,
    decreases side.len(),
{
    let found = candidates(side, incoming, needed);
    let none = Seq::<Order>::empty();
    if side[0].quantity >= needed {
        assert(found.drop_last() =~= none);
    } else {
        let more = candidates(side.skip(1), incoming, needed - side[0].quantity);
        if more.len() == 0 {
            assert(found.drop_last() =~= none);
        } else {
            lemma_candidates_short(side.skip(1), incoming, needed - side[0].quantity);
            assert(found.drop_last() =~= seq![side[0]] + more.drop_last());
            lemma_weigh_concat(seq![side[0]], more.drop_last(), quantity_of());
            lemma_weigh_one(side[0], quantity_of());
        }
    }
}

/// Placing a valid order leaves the resting orders valid.
pub proof fn lemma_fill_order_valid(m: MarketView, order: Order)
    requires
        tidy(m),
        orders_valid(m),
        order.valid(),
    ensures
        kept_valid(m.fill_order(order)),
{
    if m.fill_order(order) is Ok {
        let book = m.books[order.asset];
        let side = book.opposite(order.side);
        let found = book.best_candidates(order);
        let fill_sum = quantity_sum(found);
        assert(book_valid(m, order.asset));
        lemma_candidates_prefix(side, order, order.quantity as int);
        if found.len() == 0 {
            lemma_rest_valid(m, order, true);
        } else if fill_sum > order.quantity {
            let last = found.last();
            assert(last == side[found.len() - 1]);
            let (remainder, part) = last.split_spec(fill_sum - order.quantity)->Ok_0;
            let others = found.drop_last().push(part);
            lemma_process_trade_valid(m, order, others);
            lemma_process_trade_steady(m, order, others);
            lemma_rest_valid(m.process_trade(order, others)->Ok_0, remainder, false);
        } else if fill_sum < order.quantity {
            let (part, remainder) = order.split_spec(fill_sum as int)->Ok_0;
            lemma_process_trade_valid(m, part, found);
            lemma_process_trade_steady(m, part, found);
            lemma_rest_valid(m.process_trade(part, found)->Ok_0, remainder, true);
        } else {
            lemma_process_trade_valid(m, order, found);
        }
    }
}

/// An event with a valid order leaves the resting orders valid.
pub proof fn lemma_process_valid(m: MarketView, event: Event)
    requires
        tidy(m),
        orders_valid(m),
        event_valid(event),
    ensures
        kept_valid(m.process(event)),
{
    let billed = m.bill_fee(MarketView::initiator(event), 1);
    if billed is Ok {
        lemma_bill_fee(m, MarketView::initiator(event), 1);
        assert(orders_valid(billed->Ok_0)) by {
            assert forall|x: u128| billed->Ok_0.books.contains_key(x) implies #[trigger] book_valid(
                billed->Ok_0,
                x,
            ) by {
                assert(book_valid(m, x));
            }
        }
        match event {
            Event::Order(order) => lemma_fill_order_valid(billed->Ok_0, order),
            Event::CancelOrder(portfolio, order_id, asset) => {
                if billed->Ok_0.cancel_order(portfolio, order_id, asset) is Ok {
                    let order = billed->Ok_0.books[asset].get_order(order_id)->Ok_0;
                    lemma_unlock_for_steady(billed->Ok_0, order);
                    let unlocked = billed->Ok_0.unlock_for(order)->Ok_0;
                    assert(orders_valid(unlocked)) by {
                        assert forall|x: u128| unlocked.books.contains_key(x) implies #[trigger] book_valid(
                            unlocked,
                            x,
                        ) by {
                            assert(book_valid(billed->Ok_0, x));
                        }
                    }
                    lemma_remove_order_valid(unlocked, asset, order_id);
                }
            },
        }
    }
}

/// One trade with a resting order that is covered is refused only
/// ordinarily: the resting side always has what it owes.
pub proof fn lemma_trade_one_refusals(
    m: MarketView,
    filled: Order,
    others: Seq<Order>,
    reserve: Option<Order>,
)
    requires
        tidy(m),
        m.books.contains_key(filled.asset),
        others.len() > 0,
        tradable(filled, others[0]),
        covered(m, filled.asset, filled.side == OrderSide::Buy, others, reserve),
    ensures
        refused_ordinarily(m.trade_one(filled, others[0])),
{
    let a = filled.asset;
    let other = others[0];
    let buying = filled.side == OrderSide::Buy;
    let owner = other.portfolio;
    let limit = other.mode->Limit_0;
    let q = other.quantity as nat;
    if price_for(filled, other) is Ok {
        let price = price_for(filled, other)->Ok_0;
        if buying {
            // the resting sell delivers out of its lock
            let taken = m.withdraw_asset(owner, a, q, true);
            if m.portfolios.contains_key(owner) {
                assert(asset_covered(m, a, buying, others, reserve, owner, a));
                lemma_weigh_head(others, sell_weight(owner));
                assert(taken is Ok);
            }
            let moved = m.transfer_asset(owner, filled.portfolio, a, q, true);
            if moved is Ok {
                lemma_transfer_asset(m, owner, filled.portfolio, a, q, true);
                lemma_exchange_books_after(m, filled, other);
            }
        } else {
            // the resting buy pays out of its lock
            let moved = m.transfer_asset(filled.portfolio, owner, a, q, false);
            if moved is Ok {
                lemma_transfer_asset(m, filled.portfolio, owner, a, q, false);
                assert(moved->Ok_0.portfolios[owner].coins == m.portfolios[owner].coins);
                assert(coin_covered(m, a, buying, others, reserve, owner));
                lemma_weigh_head(others, buy_weight(owner));
                assert(price * q <= limit * q) by (nonlinear_arith)
                    requires
                        price <= limit,
                ;
                assert(buy_weight(owner)(other) == limit * other.quantity);
                lemma_exchange_books_after(m, filled, other);
            }
        }
    }
}

/// After the exchange of a trade the book of the asset is still there.
proof fn lemma_exchange_books_after(m: MarketView, filled: Order, other: Order)
    requires
        tidy(m),
        m.books.contains_key(filled.asset),
        other.asset == filled.asset,
        price_for(filled, other) is Ok,
    ensures
        ({
            let price = price_for(filled, other)->Ok_0;
            let buying = filled.side == OrderSide::Buy;
            let settled = if buying {
                m.exchange(
                    filled.portfolio,
                    other.portfolio,
                    filled.asset,
                    other.quantity as nat,
                    price as nat,
                    false,
                    true,
                )
            } else {
                m.exchange(
                    other.portfolio,
                    filled.portfolio,
                    filled.asset,
                    other.quantity as nat,
                    price as nat,
                    true,
                    false,
                )
            };
            settled is Ok ==> settled->Ok_0.books.contains_key(filled.asset)
        }),
{
    let price = price_for(filled, other)->Ok_0;
    if filled.side == OrderSide::Buy {
        if m.exchange(
            filled.portfolio,
            other.portfolio,
            filled.asset,
            other.quantity as nat,
            price as nat,
            false,
            true,
        ) is Ok {
            lemma_exchange_books(
                m,
                filled.portfolio,
                other.portfolio,
                filled.asset,
                other.quantity as nat,
                price as nat,
                false,
                true,
            );
        }
    } else {
        if m.exchange(
            other.portfolio,
            filled.portfolio,
            filled.asset,
            other.quantity as nat,
            price as nat,
            true,
            false,
        ) is Ok {
            lemma_exchange_books(
                m,
                other.portfolio,
                filled.portfolio,
                filled.asset,
                other.quantity as nat,
                price as nat,
                true,
                false,
            );
        }
    }
}

/// Trading an order with covered resting orders is refused only ordinarily.
pub proof fn lemma_process_trade_refusals(
    m: MarketView,
    filled: Order,
    others: Seq<Order>,
    reserve: Option<Order>,
)
    requires
        tidy(m),
        m.books.contains_key(filled.asset),
        all_tradable(filled, others),
        covered(m, filled.asset, filled.side == OrderSide::Buy, others, reserve),
    ensures
        refused_ordinarily(m.process_trade(filled, others)),
    decreases others.len(),
{
    if others.len() > 0 {
        lemma_trade_one_refusals(m, filled, others, reserve);
        if m.trade_one(filled, others[0]) is Ok {
            lemma_trade_one_covered(m, filled, others, reserve);
            lemma_trade_one_steady(m, filled, others[0]);
            let next = m.trade_one(filled, others[0])->Ok_0;
            assert forall|i: int| 0 <= i < others.skip(1).len() implies tradable(
                filled,
                #[trigger] others.skip(1)[i],
            ) by {
                assert(others.skip(1)[i] == others[i + 1]);
            }
            lemma_process_trade_refusals(next, filled, others.skip(1), reserve);
        }
    }
}

/// Placing a valid order in a well-formed market with valid resting orders
/// is refused only ordinarily.
pub proof fn lemma_fill_order_refusals(m: MarketView, order: Order)
    requires
        orderly(m),
        m.locks_cover(),
        orders_valid(m),
        order.valid(),
    ensures
        refused_ordinarily(m.fill_order(order)),
{
    if m.books.contains_key(order.asset) {
        let asset = order.asset;
        let buying = order.side == OrderSide::Buy;
        let book = m.books[asset];
        let side = book.opposite(order.side);
        let found = book.best_candidates(order);
        let fill_sum = quantity_sum(found);
        assert(book_valid(m, asset));
        lemma_candidates_prefix(side, order, order.quantity as int);
        lemma_candidates_tradable(m, order);
        if found.len() > 0 {
            let last = found.last();
            assert(last == side[found.len() - 1]);
            assert(last.valid());
            lemma_candidates_short(side, order, order.quantity as int);
            lemma_cover_start(m, asset, buying, found.len() as int);
            assert(covered(m, asset, buying, found, None));
            if fill_sum > order.quantity {
                assert(last.split_spec(fill_sum - order.quantity) is Ok);
                let (remainder, part) = last.split_spec(fill_sum - order.quantity)->Ok_0;
                let others = found.drop_last().push(part);
                assert(tradable(order, last));
                lemma_cover_split(m, asset, buying, found, fill_sum - order.quantity);
                assert forall|i: int| 0 <= i < others.len() implies tradable(
                    order,
                    #[trigger] others[i],
                ) by {
                    if i < found.len() - 1 {
                        assert(others[i] == found[i]);
                    }
                }
                lemma_process_trade_refusals(m, order, others, Some(remainder));
            } else if fill_sum < order.quantity {
                lemma_weigh_member(found, found.len() - 1, quantity_of());
                assert(order.split_spec(fill_sum as int) is Ok);
                let (part, remainder) = order.split_spec(fill_sum as int)->Ok_0;
                assert forall|i: int| 0 <= i < found.len() implies tradable(
                    part,
                    #[trigger] found[i],
                ) by {
                    assert(tradable(order, found[i]));
                }
                lemma_process_trade_refusals(m, part, found, None);
            } else {
                lemma_process_trade_refusals(m, order, found, None);
            }
        }
    }
}

/// In a well-formed market a cancellation fails only if there is no such
/// book, or no such order of this portfolio in it. What the order had locked
/// is always there to be released.
pub proof fn lemma_cancel_order_refusals(m: MarketView, portfolio: u128, order_id: u128, asset: u128)
    requires
        m.wf(),
    ensures
        m.cancel_order(portfolio, order_id, asset) is Err ==> {
            ||| m.cancel_order(portfolio, order_id, asset)->Err_0 == ErrorType::AssetNotFound(
                asset,
            )
            ||| m.cancel_order(portfolio, order_id, asset)->Err_0 == ErrorType::OrderNotFound(
                order_id,
            )
        },
{
    if m.books.contains_key(asset) && m.books[asset].get_order(order_id) is Ok {
        let book = m.books[asset];
        let order = book.get_order(order_id)->Ok_0;
        lemma_get_order_rests(book, order_id);
        assert(book.wf());
        if exists|k: int| 0 <= k < book.sell_orders.len() && #[trigger] book.sell_orders[k] == order {
            let k = choose|k: int|
                0 <= k < book.sell_orders.len() && #[trigger] book.sell_orders[k] == order;
            lemma_resting_orders_backed(m, asset, k);
        } else {
            let k = choose|k: int|
                0 <= k < book.buy_orders.len() && #[trigger] book.buy_orders[k] == order;
            lemma_resting_orders_backed(m, asset, k);
        }
    }
}

/// In a well-formed market whose resting orders are valid, an event with a
/// valid order is refused only for want of a portfolio, an asset, an order,
/// free funds, or a counterparty for an order without a limit.
pub proof fn lemma_process_refusals(m: MarketView, event: Event)
    requires
        m.wf(),
        orders_valid(m),
        event_valid(event),
    ensures
        refused_ordinarily(m.process(event)),
{
    let billed = m.bill_fee(MarketView::initiator(event), 1);
    if billed is Ok {
        lemma_bill_fee(m, MarketView::initiator(event), 1);
        lemma_bill_fee_orderly(m, MarketView::initiator(event), 1);
        crate::locks::lemma_bill_fee_covered(m, MarketView::initiator(event), 1);
        crate::supply::lemma_steady_keeps_after_fee(m, billed->Ok_0);
        assert(orders_valid(billed->Ok_0)) by {
            assert forall|x: u128| billed->Ok_0.books.contains_key(x) implies #[trigger] book_valid(
                billed->Ok_0,
                x,
            ) by {
                assert(book_valid(m, x));
            }
        }
        match event {
            Event::Order(order) => lemma_fill_order_refusals(billed->Ok_0, order),
            Event::CancelOrder(portfolio, order_id, asset) => lemma_cancel_order_refusals(
                billed->Ok_0,
                portfolio,
                order_id,
                asset,
            ),
        }
    }
}

} // verus!
