//! Every resting order is backed by what its owner has locked, and no event
//! changes that.

use vstd::prelude::*;
use crate::book::holds_id;
use crate::book::keeps;
use crate::model::MarketView;
use crate::model::buy_weight;
use crate::model::sell_load;
use crate::model::sell_weight;
use crate::order::Order;
use crate::order::OrderSide;
use crate::sums::total;
use crate::sums::weigh;
use crate::sums::lemma_total_remove;
use crate::sums::lemma_weigh_agree;
use crate::sums::lemma_weigh_push;
use crate::model::price_for;
use crate::sums::lemma_weigh_filter;
use crate::sums::lemma_weigh_head;
use crate::supply::lemma_trade_one_steady;
use crate::supply::tidy;
use crate::supply::lemma_bill_fee;
use crate::supply::lemma_lock_for_steady;
use crate::supply::lemma_unlock_for_steady;
use crate::supply::lemma_process_trade_steady;
use crate::supply::lemma_process_supply;
use crate::sums::lemma_weigh_cut;
use crate::sums::lemma_weigh_filter_drops;
use crate::sums::lemma_weigh_insert;
use crate::sums::lemma_weigh_member;
use crate::sums::lemma_weigh_monotone;
use crate::sums::lemma_weigh_nothing;
use crate::sums::lemma_total_bound;
use crate::book::first_with_id;
use crate::book::is_first_with_id;
use crate::book::quantity_sum;
use crate::book::slot;
use crate::engine::Event;
use crate::resting::orderly;
use crate::resting::lemma_candidates_prefix;
use crate::resting::lemma_place_members;
use crate::resting::lemma_process_orderly;
use crate::supply::lemma_transfer_asset;
use crate::supply::lemma_transfer_coins;

verus! {

/// The weight `w`, but nothing for an order whose identifier one of
/// `doomed` carries: such an order is about to leave the book.
pub open spec fn spared(w: spec_fn(Order) -> nat, doomed: Seq<Order>) -> spec_fn(Order) -> nat {
    |o: Order|
        if holds_id(doomed, o.id) {
            0nat
        } else {
            w(o)
        }
}

/// The units that `owner` keeps locked for an order that will rest again.
pub open spec fn sell_due(reserve: Option<Order>, owner: u128) -> nat {
    match reserve {
        Some(r) => if r.side == OrderSide::Sell {
            sell_weight(owner)(r)
        } else {
            0
        },
        None => 0,
    }
}

/// The coins that `owner` keeps locked for an order that will rest again.
pub open spec fn buy_due(reserve: Option<Order>, owner: u128) -> nat {
    match reserve {
        Some(r) => if r.side == OrderSide::Buy {
            buy_weight(owner)(r)
        } else {
            0
        },
        None => 0,
    }
}

/// The units of asset `x` that `owner` must have locked while an order is
/// being traded with `others` in the book of `asset`: for the sells that
/// will stay in the book, for those of `others` still to be paid out of the
/// lock (if the order buys), and for the order that will rest again.
pub open spec fn asset_need(
    m: MarketView,
    asset: u128,
    buying: bool,
    others: Seq<Order>,
    reserve: Option<Order>,
    owner: u128,
    x: u128,
) -> nat {
    if x == asset {
        weigh(m.books[x].sell_orders, spared(sell_weight(owner), others)) + (if buying {
            weigh(others, sell_weight(owner))
        } else {
            0
        }) + sell_due(reserve, owner)
    } else {
        sell_load(m.books[x].sell_orders, owner)
    }
}

/// The coins that `owner` must have locked while an order is being traded
/// with `others` in the book of `asset`.
pub open spec fn coin_need(
    m: MarketView,
    asset: u128,
    buying: bool,
    others: Seq<Order>,
    reserve: Option<Order>,
    owner: u128,
) -> nat {
    total(m.buy_loads(owner).remove(asset)) + weigh(
        m.books[asset].buy_orders,
        spared(buy_weight(owner), others),
    ) + (if buying {
        0
    } else {
        weigh(others, buy_weight(owner))
    }) + buy_due(reserve, owner)
}

/// `owner` has a balance of `x` and has locked of it what is needed.
pub open spec fn asset_covered(
    m: MarketView,
    asset: u128,
    buying: bool,
    others: Seq<Order>,
    reserve: Option<Order>,
    owner: u128,
    x: u128,
) -> bool {
    &&& m.portfolios[owner].assets.contains_key(x)
    &&& asset_need(m, asset, buying, others, reserve, owner, x)
        <= m.portfolios[owner].assets[x].locked
}

/// `owner` has locked the coins that are needed.
pub open spec fn coin_covered(
    m: MarketView,
    asset: u128,
    buying: bool,
    others: Seq<Order>,
    reserve: Option<Order>,
    owner: u128,
) -> bool {
    coin_need(m, asset, buying, others, reserve, owner) <= m.portfolios[owner].coins.locked
}

/// Every portfolio has locked what it needs while an order is being traded
/// with `others` in the book of `asset`, and every resting order belongs to
/// a known portfolio.
pub open spec fn covered(
    m: MarketView,
    asset: u128,
    buying: bool,
    others: Seq<Order>,
    reserve: Option<Order>,
) -> bool {
    &&& m.owners_known()
    &&& forall|p: u128, x: u128|
        m.portfolios.contains_key(p) && m.books.contains_key(x) ==> #[trigger] asset_covered(
            m,
            asset,
            buying,
            others,
            reserve,
            p,
            x,
        )
    &&& forall|p: u128|
        m.portfolios.contains_key(p) ==> #[trigger] coin_covered(
            m,
            asset,
            buying,
            others,
            reserve,
            p,
        )
}

/// Whether an identifier is among the doomed ones, but for the first of
/// them, does not depend on the first.
pub proof fn lemma_holds_id_skip(others: Seq<Order>, id: u128)
    requires
        others.len() > 0,
        id != others[0].id,
    ensures
        holds_id(others.skip(1), id) == holds_id(others, id),
{
    if holds_id(others.skip(1), id) {
        let i = choose|i: int| 0 <= i < others.skip(1).len() && (#[trigger] others.skip(1)[i]).id == id;
        assert(others[i + 1].id == id);
    }
    if holds_id(others, id) {
        let i = choose|i: int| 0 <= i < others.len() && (#[trigger] others[i]).id == id;
        assert(others.skip(1)[i - 1].id == id);
    }
}

/// When the orders that carry the first doomed identifier leave, what is
/// spared of the rest weighs what was spared before.
pub proof fn lemma_spared_filter(s: Seq<Order>, w: spec_fn(Order) -> nat, others: Seq<Order>)
    requires
        others.len() > 0,
    ensures
        weigh(s.filter(keeps(others[0].id)), spared(w, others.skip(1))) == weigh(
            s,
            spared(w, others),
        ),
    decreases s.len(),
{
    reveal(Seq::filter);
    if s.len() > 0 {
        let front = s.drop_last();
        let last = s.last();
        lemma_spared_filter(front, w, others);
        if keeps(others[0].id)(last) {
            lemma_holds_id_skip(others, last.id);
            lemma_weigh_push(front.filter(keeps(others[0].id)), last, spared(w, others.skip(1)));
        } else {
            assert(others[0].id == last.id);
            assert(holds_id(others, last.id));
        }
    }
}

/// With no order doomed and none in reserve, what is needed of an asset is
/// what the resting sells need.
pub proof fn lemma_asset_need_plain(m: MarketView, asset: u128, buying: bool, p: u128, x: u128)
    ensures
        asset_need(m, asset, buying, Seq::empty(), None, p, x) == sell_load(
            m.books[x].sell_orders,
            p,
        ),
{
    lemma_weigh_agree(
        m.books[x].sell_orders,
        spared(sell_weight(p), Seq::empty()),
        sell_weight(p),
    );
}

/// With no order doomed and none in reserve, what is needed in coins is
/// what the resting buys need.
pub proof fn lemma_coin_need_plain(m: MarketView, asset: u128, buying: bool, p: u128)
    requires
        m.books.dom().finite(),
        m.books.contains_key(asset),
    ensures
        coin_need(m, asset, buying, Seq::empty(), None, p) == m.coin_load(p),
{
    lemma_weigh_agree(
        m.books[asset].buy_orders,
        spared(buy_weight(p), Seq::empty()),
        buy_weight(p),
    );
    assert(m.buy_loads(p).dom() =~= m.books.dom());
    lemma_total_remove(m.buy_loads(p), asset);
}

/// With no order doomed and none in reserve, to be covered is to have the
/// locks cover the resting orders.
pub proof fn lemma_covered_plain(m: MarketView, asset: u128, buying: bool)
    requires
        m.books.dom().finite(),
        m.books.contains_key(asset),
    ensures
        covered(m, asset, buying, Seq::empty(), None) == m.locks_cover(),
{
    let none = Seq::<Order>::empty();
    assert forall|p: u128, x: u128|
        asset_covered(m, asset, buying, none, None, p, x) == m.sells_backed(p, x) by {
        lemma_asset_need_plain(m, asset, buying, p, x);
    }
    assert forall|p: u128| coin_covered(m, asset, buying, none, None, p) == m.buys_backed(p) by {
        lemma_coin_need_plain(m, asset, buying, p);
    }
    if m.locks_cover() {
        assert forall|p: u128, x: u128|
            m.portfolios.contains_key(p) && m.books.contains_key(x) implies #[trigger] asset_covered(
            m,
            asset,
            buying,
            none,
            None,
            p,
            x,
        ) by {
            assert(m.sells_backed(p, x));
        }
        assert forall|p: u128| m.portfolios.contains_key(p) implies #[trigger] coin_covered(
            m,
            asset,
            buying,
            none,
            None,
            p,
        ) by {
            assert(m.buys_backed(p));
        }
    }
    if covered(m, asset, buying, none, None) {
        assert forall|p: u128, x: u128|
            m.portfolios.contains_key(p) && m.books.contains_key(x) implies #[trigger] m.sells_backed(
            p,
            x,
        ) by {
            assert(asset_covered(m, asset, buying, none, None, p, x));
        }
        assert forall|p: u128| m.portfolios.contains_key(p) implies #[trigger] m.buys_backed(
            p,
        ) by {
            assert(coin_covered(m, asset, buying, none, None, p));
        }
    }
}

/// What settling a trade does to the locks: the buyer's locked coins shrink
/// by the price, if the coins come out of the lock, and the seller's locked
/// units by the count, if the units do. No other lock changes, and no book.
pub proof fn lemma_exchange_locks(
    m: MarketView,
    buyer: u128,
    seller: u128,
    asset: u128,
    asset_count: nat,
    price_per_asset: nat,
    use_locked_coins: bool,
    use_locked_assets: bool,
)
    requires
        tidy(m),
        m.exchange(
            buyer,
            seller,
            asset,
            asset_count,
            price_per_asset,
            use_locked_coins,
            use_locked_assets,
        ) is Ok,
    ensures
        ({
            let after = m.exchange(
                buyer,
                seller,
                asset,
                asset_count,
                price_per_asset,
                use_locked_coins,
                use_locked_assets,
            )->Ok_0;
            &&& after.books == m.books
            &&& after.portfolios.dom() == m.portfolios.dom()
            &&& m.portfolios.contains_key(buyer)
            &&& m.portfolios.contains_key(seller)
            &&& forall|p: u128|
                m.portfolios.contains_key(p) ==> {
                    &&& (#[trigger] after.portfolios[p]).assets.dom()
                        == m.portfolios[p].assets.dom()
                    &&& after.portfolios[p].coins.locked + (if use_locked_coins && p == buyer {
                        price_per_asset * asset_count
                    } else {
                        0
                    }) == m.portfolios[p].coins.locked
                }
            &&& forall|p: u128, x: u128|
                #![trigger after.portfolios[p].assets[x]]
                m.portfolios.contains_key(p) && m.portfolios[p].assets.contains_key(x)
                    ==> after.portfolios[p].assets[x].locked + (if use_locked_assets && p == seller
                    && x == asset {
                    asset_count
                } else {
                    0
                }) == m.portfolios[p].assets[x].locked
        }),
{
    lemma_transfer_asset(m, seller, buyer, asset, asset_count, use_locked_assets);
    let taken = m.withdraw_asset(seller, asset, asset_count, use_locked_assets)->Ok_0;
    let moved = m.transfer_asset(seller, buyer, asset, asset_count, use_locked_assets)->Ok_0;
    let amount = price_per_asset * asset_count;
    lemma_transfer_coins(moved, buyer, seller, amount, use_locked_coins);
    let paid = moved.withdraw_coins(buyer, amount, use_locked_coins)->Ok_0;
    let after = moved.transfer_coins(buyer, seller, amount, use_locked_coins)->Ok_0;
    assert(after.portfolios.dom() =~= m.portfolios.dom());
    assert forall|p: u128| m.portfolios.contains_key(p) implies {
        &&& (#[trigger] after.portfolios[p]).assets.dom() == m.portfolios[p].assets.dom()
        &&& after.portfolios[p].coins.locked + (if use_locked_coins && p == buyer {
            amount
        } else {
            0
        }) == m.portfolios[p].coins.locked
    } by {
        assert(taken.portfolios[p].assets.dom() =~= m.portfolios[p].assets.dom());
        assert(moved.portfolios[p].assets.dom() =~= taken.portfolios[p].assets.dom());
        assert(paid.portfolios[p].assets.dom() =~= moved.portfolios[p].assets.dom());
        assert(after.portfolios[p].assets.dom() =~= paid.portfolios[p].assets.dom());
        assert(moved.portfolios[p].coins == m.portfolios[p].coins);
    }
    assert forall|p: u128, x: u128|
        #![trigger after.portfolios[p].assets[x]]
        m.portfolios.contains_key(p) && m.portfolios[p].assets.contains_key(x) implies after.portfolios[p].assets[x].locked
        + (if use_locked_assets && p == seller && x == asset {
        asset_count
    } else {
        0
    }) == m.portfolios[p].assets[x].locked by {
        assert(after.portfolios[p].assets == moved.portfolios[p].assets);
        assert(moved.portfolios[p].assets[x].locked == taken.portfolios[p].assets[x].locked);
    }
}

/// What stays after filtering stood there before.
pub proof fn lemma_filter_members(s: Seq<Order>, keep: spec_fn(Order) -> bool)
    ensures
        forall|i: int| 0 <= i < s.filter(keep).len() ==> s.contains(#[trigger] s.filter(keep)[i]),
    decreases s.len(),
{
    reveal(Seq::filter);
    if s.len() > 0 {
        let front = s.drop_last();
        lemma_filter_members(front, keep);
        let kept = front.filter(keep);
        let all = s.filter(keep);
        assert forall|i: int| 0 <= i < all.len() implies s.contains(#[trigger] all[i]) by {
            if i < kept.len() {
                assert(all[i] == kept[i]);
                assert(front.contains(kept[i]));
                let w = choose|w: int| 0 <= w < front.len() && front[w] == kept[i];
                assert(s[w] == kept[i]);
            } else {
                assert(all[i] == s[s.len() - 1]);
            }
        }
    }
}

/// The owners of a book stay known when orders leave it.
pub proof fn lemma_remove_keeps_known(m: MarketView, after: MarketView, asset: u128, id: u128)
    requires
        m.owners_known(),
        m.books.contains_key(asset),
        after.portfolios.dom() == m.portfolios.dom(),
        after.books == m.books.insert(asset, m.books[asset].remove_order(id)),
    ensures
        after.owners_known(),
{
    assert forall|x: u128| after.books.contains_key(x) implies #[trigger] after.book_known(x) by {
        assert(m.book_known(x));
        if x == asset {
            let sells = m.books[asset].sell_orders;
            let buys = m.books[asset].buy_orders;
            lemma_filter_members(sells, keeps(id));
            lemma_filter_members(buys, keeps(id));
            assert forall|i: int| 0 <= i < after.books[x].sell_orders.len() implies after.portfolios.contains_key(
                (#[trigger] after.books[x].sell_orders[i]).portfolio,
            ) by {
                let o = after.books[x].sell_orders[i];
                let w = choose|w: int| 0 <= w < sells.len() && sells[w] == o;
                assert(m.portfolios.contains_key(sells[w].portfolio));
            }
            assert forall|i: int| 0 <= i < after.books[x].buy_orders.len() implies after.portfolios.contains_key(
                (#[trigger] after.books[x].buy_orders[i]).portfolio,
            ) by {
                let o = after.books[x].buy_orders[i];
                let w = choose|w: int| 0 <= w < buys.len() && buys[w] == o;
                assert(m.portfolios.contains_key(buys[w].portfolio));
            }
        }
    }
}

/// A resting order that `filled` can be traded with: it rests on the other
/// side of the book of the same asset, it has a limit, and if it buys, that
/// limit is no less than the price of the trade.
pub open spec fn tradable(filled: Order, other: Order) -> bool {
    &&& other.asset == filled.asset
    &&& other.side != filled.side
    &&& other.mode is Limit
    &&& filled.side == OrderSide::Sell ==> price_for(filled, other) is Ok && price_for(
        filled,
        other,
    )->Ok_0 <= other.mode->Limit_0
}

/// Every one of `others` can be traded with `filled`.
pub open spec fn all_tradable(filled: Order, others: Seq<Order>) -> bool {
    forall|i: int| 0 <= i < others.len() ==> tradable(filled, #[trigger] others[i])
}

/// One trade keeps every portfolio covered: what the resting order's owner
/// pays out of the lock is no more than what was locked for that order.
pub proof fn lemma_trade_one_covered(
    m: MarketView,
    filled: Order,
    others: Seq<Order>,
    reserve: Option<Order>,
)
    requires
        tidy(m),
        m.books.contains_key(filled.asset),
        others.len() > 0,
        tradable(filled, others[0]),
        covered(m, filled.asset, filled.side == OrderSide::Buy, others, reserve),
        m.trade_one(filled, others[0]) is Ok,
    ensures
        covered(
            m.trade_one(filled, others[0])->Ok_0,
            filled.asset,
            filled.side == OrderSide::Buy,
            others.skip(1),
            reserve,
        ),
{
    let a = filled.asset;
    let c = others[0];
    let rest = others.skip(1);
    let price = price_for(filled, c)->Ok_0;
    let limit = c.mode->Limit_0;
    let buying = filled.side == OrderSide::Buy;
    let buyer = if buying {
        filled.portfolio
    } else {
        c.portfolio
    };
    let seller = if buying {
        c.portfolio
    } else {
        filled.portfolio
    };
    let q = c.quantity as nat;
    let settled = m.exchange(buyer, seller, a, q, price as nat, !buying, buying)->Ok_0;
    let after = m.trade_one(filled, c)->Ok_0;
    lemma_exchange_locks(m, buyer, seller, a, q, price as nat, !buying, buying);
    assert(after == settled.with_book(a, settled.books[a].remove_order(c.id)));
    lemma_remove_keeps_known(m, after, a, c.id);
    assert forall|p: u128, x: u128|
        after.portfolios.contains_key(p) && after.books.contains_key(x) implies #[trigger] asset_covered(
        after,
        a,
        buying,
        rest,
        reserve,
        p,
        x,
    ) by {
        assert(asset_covered(m, a, buying, others, reserve, p, x));
        assert(after.portfolios[p].assets[x].locked + (if buying && p == seller && x == a {
            q
        } else {
            0
        }) == m.portfolios[p].assets[x].locked);
        if x == a {
            lemma_spared_filter(m.books[a].sell_orders, sell_weight(p), others);
            if buying {
                lemma_weigh_head(others, sell_weight(p));
            }
        }
    }
    assert forall|p: u128| after.portfolios.contains_key(p) implies #[trigger] coin_covered(
        after,
        a,
        buying,
        rest,
        reserve,
        p,
    ) by {
        assert(coin_covered(m, a, buying, others, reserve, p));
        assert(after.buy_loads(p).remove(a) =~= m.buy_loads(p).remove(a));
        lemma_spared_filter(m.books[a].buy_orders, buy_weight(p), others);
        assert(after.portfolios[p].coins.locked + (if !buying && p == buyer {
            price * q
        } else {
            0
        }) == m.portfolios[p].coins.locked);
        if !buying {
            lemma_weigh_head(others, buy_weight(p));
            if p == buyer {
                assert(price * q <= limit * q) by (nonlinear_arith)
                    requires
                        price <= limit,
                ;
                assert(buy_weight(p)(c) == limit * c.quantity);
            }
        }
    }
}

/// Trading an order with all of `others` keeps every portfolio covered.
pub proof fn lemma_process_trade_covered(
    m: MarketView,
    filled: Order,
    others: Seq<Order>,
    reserve: Option<Order>,
)
    requires
        tidy(m),
        m.books.contains_key(filled.asset),
        all_tradable(filled, others),
        covered(m, filled.asset, filled.side == OrderSide::Buy, others, reserve),
        m.process_trade(filled, others) is Ok,
    ensures
        covered(
            m.process_trade(filled, others)->Ok_0,
            filled.asset,
            filled.side == OrderSide::Buy,
            Seq::empty(),
            reserve,
        ),
    decreases others.len(),
{
    let a = filled.asset;
    let buying = filled.side == OrderSide::Buy;
    let none = Seq::<Order>::empty();
    if others.len() == 0 {
        assert(others =~= none);
        let after = m.remove_order(a, filled.id)->Ok_0;
        lemma_remove_keeps_known(m, after, a, filled.id);
        assert forall|p: u128, x: u128|
            after.portfolios.contains_key(p) && after.books.contains_key(x) implies #[trigger] asset_covered(
            after,
            a,
            buying,
            none,
            reserve,
            p,
            x,
        ) by {
            assert(asset_covered(m, a, buying, none, reserve, p, x));
            if x == a {
                lemma_weigh_filter(
                    m.books[a].sell_orders,
                    keeps(filled.id),
                    spared(sell_weight(p), none),
                );
            }
        }
        assert forall|p: u128| after.portfolios.contains_key(p) implies #[trigger] coin_covered(
            after,
            a,
            buying,
            none,
            reserve,
            p,
        ) by {
            assert(coin_covered(m, a, buying, none, reserve, p));
            assert(after.buy_loads(p).remove(a) =~= m.buy_loads(p).remove(a));
            lemma_weigh_filter(
                m.books[a].buy_orders,
                keeps(filled.id),
                spared(buy_weight(p), none),
            );
        }
    } else {
        lemma_trade_one_covered(m, filled, others, reserve);
        lemma_trade_one_steady(m, filled, others[0]);
        let next = m.trade_one(filled, others[0])->Ok_0;
        assert forall|i: int| 0 <= i < others.skip(1).len() implies tradable(
            filled,
            #[trigger] others.skip(1)[i],
        ) by {
            assert(others.skip(1)[i] == others[i + 1]);
        }
        lemma_process_trade_covered(next, filled, others.skip(1), reserve);
    }
}

/// Sparing the orders at the front of a sequence takes away at least their
/// weight.
pub proof fn lemma_spared_prefix(s: Seq<Order>, w: spec_fn(Order) -> nat, k: int)
    requires
        0 <= k <= s.len(),
    ensures
        weigh(s, spared(w, s.take(k))) + weigh(s.take(k), w) <= weigh(s, w),
{
    let front = s.take(k);
    let back = s.skip(k);
    let sp = spared(w, front);
    lemma_weigh_cut(s, k, sp);
    lemma_weigh_cut(s, k, w);
    assert forall|i: int| 0 <= i < front.len() implies sp(#[trigger] front[i]) == 0 by {
        assert(holds_id(front, front[i].id));
    }
    lemma_weigh_nothing(front, sp);
    assert forall|i: int| 0 <= i < back.len() implies sp(#[trigger] back[i]) <= w(back[i]) by {}
    lemma_weigh_monotone(back, sp, w);
}

/// Sparing orders never adds weight.
pub proof fn lemma_spared_below(s: Seq<Order>, w: spec_fn(Order) -> nat, doomed: Seq<Order>)
    ensures
        weigh(s, spared(w, doomed)) <= weigh(s, w),
        weigh(s, spared(w, doomed)) <= weigh(s, spared(w, Seq::empty())),
{
    let sp = spared(w, doomed);
    assert forall|i: int| 0 <= i < s.len() implies sp(#[trigger] s[i]) <= w(s[i]) by {}
    lemma_weigh_monotone(s, sp, w);
    lemma_weigh_agree(s, spared(w, Seq::empty()), w);
}

/// From locks that cover the resting orders to locks that cover a trade with
/// the orders at the front of the opposite side.
pub proof fn lemma_cover_start(m: MarketView, asset: u128, buying: bool, k: int)
    requires
        m.books.dom().finite(),
        m.books.contains_key(asset),
        m.locks_cover(),
        0 <= k <= (if buying {
            m.books[asset].sell_orders
        } else {
            m.books[asset].buy_orders
        }).len(),
    ensures
        covered(
            m,
            asset,
            buying,
            (if buying {
                m.books[asset].sell_orders
            } else {
                m.books[asset].buy_orders
            }).take(k),
            None,
        ),
{
    let sells = m.books[asset].sell_orders;
    let buys = m.books[asset].buy_orders;
    let found = (if buying {
        sells
    } else {
        buys
    }).take(k);
    let none = Seq::<Order>::empty();
    lemma_covered_plain(m, asset, buying);
    assert forall|p: u128, x: u128|
        m.portfolios.contains_key(p) && m.books.contains_key(x) implies #[trigger] asset_covered(
        m,
        asset,
        buying,
        found,
        None,
        p,
        x,
    ) by {
        assert(asset_covered(m, asset, buying, none, None, p, x));
        if x == asset {
            lemma_weigh_agree(sells, spared(sell_weight(p), none), sell_weight(p));
            if buying {
                lemma_spared_prefix(sells, sell_weight(p), k);
            } else {
                lemma_spared_below(sells, sell_weight(p), found);
            }
        }
    }
    assert forall|p: u128| m.portfolios.contains_key(p) implies #[trigger] coin_covered(
        m,
        asset,
        buying,
        found,
        None,
        p,
    ) by {
        assert(coin_covered(m, asset, buying, none, None, p));
        lemma_weigh_agree(buys, spared(buy_weight(p), none), buy_weight(p));
        if buying {
            lemma_spared_below(buys, buy_weight(p), found);
        } else {
            lemma_spared_prefix(buys, buy_weight(p), k);
        }
    }
}

/// Replacing the last of the doomed orders by one with the same identifier
/// dooms the same identifiers.
pub proof fn lemma_holds_id_last(found: Seq<Order>, part: Order, id: u128)
    requires
        found.len() > 0,
        part.id == found.last().id,
    ensures
        holds_id(found.drop_last().push(part), id) == holds_id(found, id),
{
    let changed = found.drop_last().push(part);
    if holds_id(changed, id) {
        let i = choose|i: int| 0 <= i < changed.len() && (#[trigger] changed[i]).id == id;
        assert(found[i].id == id);
    }
    if holds_id(found, id) {
        let i = choose|i: int| 0 <= i < found.len() && (#[trigger] found[i]).id == id;
        assert(changed[i].id == id);
    }
}

/// Splitting the last of the orders to trade with keeps the cover: what was
/// locked for that order is locked for its two parts.
pub proof fn lemma_cover_split(
    m: MarketView,
    asset: u128,
    buying: bool,
    found: Seq<Order>,
    split_quantity: int,
)
    requires
        found.len() > 0,
        found.last().split_spec(split_quantity) is Ok,
        found.last().mode is Limit,
        found.last().side == (if buying {
            OrderSide::Sell
        } else {
            OrderSide::Buy
        }),
        covered(m, asset, buying, found, None),
    ensures
        covered(
            m,
            asset,
            buying,
            found.drop_last().push(found.last().split_spec(split_quantity)->Ok_0.1),
            Some(found.last().split_spec(split_quantity)->Ok_0.0),
        ),
{
    let last = found.last();
    let (remainder, part) = last.split_spec(split_quantity)->Ok_0;
    let changed = found.drop_last().push(part);
    let limit = last.mode->Limit_0;
    assert(limit * part.quantity + limit * remainder.quantity == limit * last.quantity)
        by (nonlinear_arith)
        requires
            part.quantity + remainder.quantity == last.quantity,
    ;
    assert forall|p: u128, x: u128|
        m.portfolios.contains_key(p) && m.books.contains_key(x) implies #[trigger] asset_covered(
        m,
        asset,
        buying,
        changed,
        Some(remainder),
        p,
        x,
    ) by {
        assert(asset_covered(m, asset, buying, found, None, p, x));
        if x == asset {
            let sells = m.books[asset].sell_orders;
            assert forall|i: int| 0 <= i < sells.len() implies spared(sell_weight(p), changed)(
                #[trigger] sells[i],
            ) == spared(sell_weight(p), found)(sells[i]) by {
                lemma_holds_id_last(found, part, sells[i].id);
            }
            lemma_weigh_agree(
                sells,
                spared(sell_weight(p), changed),
                spared(sell_weight(p), found),
            );
            lemma_weigh_push(found.drop_last(), part, sell_weight(p));
        }
    }
    assert forall|p: u128| m.portfolios.contains_key(p) implies #[trigger] coin_covered(
        m,
        asset,
        buying,
        changed,
        Some(remainder),
        p,
    ) by {
        assert(coin_covered(m, asset, buying, found, None, p));
        let buys = m.books[asset].buy_orders;
        assert forall|i: int| 0 <= i < buys.len() implies spared(buy_weight(p), changed)(
            #[trigger] buys[i],
        ) == spared(buy_weight(p), found)(buys[i]) by {
            lemma_holds_id_last(found, part, buys[i].id);
        }
        lemma_weigh_agree(buys, spared(buy_weight(p), changed), spared(buy_weight(p), found));
        lemma_weigh_push(found.drop_last(), part, buy_weight(p));
    }
}

/// The owners of a book stay known when an order of a known owner comes to
/// rest in it.
pub proof fn lemma_place_keeps_known(m: MarketView, after: MarketView, order: Order)
    requires
        m.owners_known(),
        m.books.contains_key(order.asset),
        m.portfolios.contains_key(order.portfolio),
        m.books[order.asset].add_order(order) is Ok,
        after.portfolios.dom() == m.portfolios.dom(),
        after.books == m.books.insert(order.asset, m.books[order.asset].add_order(order)->Ok_0),
    ensures
        after.owners_known(),
{
    let asset = order.asset;
    assert forall|x: u128| after.books.contains_key(x) implies #[trigger] after.book_known(x) by {
        assert(m.book_known(x));
        if x == asset {
            let sells = m.books[asset].sell_orders;
            let buys = m.books[asset].buy_orders;
            lemma_place_members(sells, order, false);
            lemma_place_members(buys, order, true);
            assert forall|i: int| 0 <= i < after.books[x].sell_orders.len() implies after.portfolios.contains_key(
                (#[trigger] after.books[x].sell_orders[i]).portfolio,
            ) by {
                let o = after.books[x].sell_orders[i];
                if o != order {
                    let w = choose|w: int| 0 <= w < sells.len() && sells[w] == o;
                    assert(m.portfolios.contains_key(sells[w].portfolio));
                }
            }
            assert forall|i: int| 0 <= i < after.books[x].buy_orders.len() implies after.portfolios.contains_key(
                (#[trigger] after.books[x].buy_orders[i]).portfolio,
            ) by {
                let o = after.books[x].buy_orders[i];
                if o != order {
                    let w = choose|w: int| 0 <= w < buys.len() && buys[w] == o;
                    assert(m.portfolios.contains_key(buys[w].portfolio));
                }
            }
        }
    }
}

/// An order that rests again without a new lock is covered by what was kept
/// in reserve for it.
pub proof fn lemma_rest_reserved(m: MarketView, buying: bool, remainder: Order)
    requires
        m.books.dom().finite(),
        covered(m, remainder.asset, buying, Seq::empty(), Some(remainder)),
        m.rest(remainder, false) is Ok,
    ensures
        m.rest(remainder, false)->Ok_0.locks_cover(),
{
    let asset = remainder.asset;
    let none = Seq::<Order>::empty();
    let after = m.rest(remainder, false)->Ok_0;
    let sells = m.books[asset].sell_orders;
    let buys = m.books[asset].buy_orders;
    lemma_place_keeps_known(m, after, remainder);
    lemma_place_members(sells, remainder, false);
    lemma_place_members(buys, remainder, true);
    assert(after.books.dom() =~= m.books.dom());
    assert forall|p: u128, x: u128|
        after.portfolios.contains_key(p) && after.books.contains_key(x) implies #[trigger] asset_covered(
        after,
        asset,
        buying,
        none,
        None,
        p,
        x,
    ) by {
        assert(asset_covered(m, asset, buying, none, Some(remainder), p, x));
        if x == asset && remainder.side == OrderSide::Sell {
            lemma_weigh_insert(
                sells,
                slot(sells, remainder, false),
                remainder,
                spared(sell_weight(p), none),
            );
        }
    }
    assert forall|p: u128| after.portfolios.contains_key(p) implies #[trigger] coin_covered(
        after,
        asset,
        buying,
        none,
        None,
        p,
    ) by {
        assert(coin_covered(m, asset, buying, none, Some(remainder), p));
        assert(after.buy_loads(p).remove(asset) =~= m.buy_loads(p).remove(asset));
        if remainder.side == OrderSide::Buy {
            lemma_weigh_insert(
                buys,
                slot(buys, remainder, true),
                remainder,
                spared(buy_weight(p), none),
            );
        }
    }
    lemma_covered_plain(after, asset, buying);
}

/// An order that comes to rest with its lock is covered by that lock.
pub proof fn lemma_rest_locked(m: MarketView, order: Order)
    requires
        tidy(m),
        m.books.dom().finite(),
        m.locks_cover(),
        m.rest(order, true) is Ok,
    ensures
        m.rest(order, true)->Ok_0.locks_cover(),
{
    let asset = order.asset;
    let owner = order.portfolio;
    let none = Seq::<Order>::empty();
    let buying = order.side == OrderSide::Buy;
    let limit = order.mode->Limit_0;
    let locked = m.lock_for(order)->Ok_0;
    let after = m.rest(order, true)->Ok_0;
    lemma_lock_for_steady(m, order);
    assert(locked.books == m.books);
    let sells = m.books[asset].sell_orders;
    let buys = m.books[asset].buy_orders;
    lemma_covered_plain(m, asset, buying);
    assert(locked.owners_known()) by {
        assert forall|x: u128| locked.books.contains_key(x) implies #[trigger] locked.book_known(
            x,
        ) by {
            assert(m.book_known(x));
        }
    }
    lemma_place_keeps_known(locked, after, order);
    lemma_place_members(sells, order, false);
    lemma_place_members(buys, order, true);
    assert(after.books.dom() =~= m.books.dom());
    assert(after.portfolios == locked.portfolios);
    assert forall|p: u128, x: u128|
        after.portfolios.contains_key(p) && after.books.contains_key(x) implies #[trigger] asset_covered(
        after,
        asset,
        buying,
        none,
        None,
        p,
        x,
    ) by {
        assert(asset_covered(m, asset, buying, none, None, p, x));
        if x == asset && !buying {
            lemma_weigh_insert(sells, slot(sells, order, false), order, spared(sell_weight(p), none));
        }
    }
    assert forall|p: u128| after.portfolios.contains_key(p) implies #[trigger] coin_covered(
        after,
        asset,
        buying,
        none,
        None,
        p,
    ) by {
        assert(coin_covered(m, asset, buying, none, None, p));
        assert(after.buy_loads(p).remove(asset) =~= m.buy_loads(p).remove(asset));
        if buying {
            lemma_weigh_insert(buys, slot(buys, order, true), order, spared(buy_weight(p), none));
            assert(order.quantity * limit == limit * order.quantity) by (nonlinear_arith);
        }
    }
    lemma_covered_plain(after, asset, buying);
}

/// The orders that an incoming order is matched with can all be traded
/// with it, in a book that is well-formed.
pub proof fn lemma_candidates_tradable(m: MarketView, order: Order)
    requires
        orderly(m),
        m.books.contains_key(order.asset),
    ensures
        all_tradable(order, m.books[order.asset].best_candidates(order)),
{
    let book = m.books[order.asset];
    let side = book.opposite(order.side);
    let found = book.best_candidates(order);
    lemma_candidates_prefix(side, order, order.quantity as int);
    assert(book.wf());
    assert forall|i: int| 0 <= i < found.len() implies tradable(order, #[trigger] found[i]) by {
        assert(found[i] == side[i]);
        assert(order.spec_matches(found[i]));
    }
}

/// Placing an order keeps the locks covering the resting orders.
pub proof fn lemma_fill_order_covered(m: MarketView, order: Order)
    requires
        orderly(m),
        m.locks_cover(),
        m.fill_order(order) is Ok,
    ensures
        m.fill_order(order)->Ok_0.locks_cover(),
{
    let asset = order.asset;
    let buying = order.side == OrderSide::Buy;
    let book = m.books[asset];
    let side = book.opposite(order.side);
    let found = book.best_candidates(order);
    let fill_sum = quantity_sum(found);
    lemma_candidates_prefix(side, order, order.quantity as int);
    lemma_candidates_tradable(m, order);
    if found.len() == 0 {
        lemma_rest_locked(m, order);
    } else {
        lemma_cover_start(m, asset, buying, found.len() as int);
        assert(covered(m, asset, buying, found, None));
        if fill_sum > order.quantity {
            let last = found.last();
            let (remainder, part) = last.split_spec(fill_sum - order.quantity)->Ok_0;
            let others = found.drop_last().push(part);
            assert(tradable(order, last));
            lemma_cover_split(m, asset, buying, found, fill_sum - order.quantity);
            assert forall|i: int| 0 <= i < others.len() implies tradable(
                order,
                #[trigger] others[i],
            ) by {
                if i < found.len() - 1 {
                    assert(others[i] == found[i]);
                }
            }
            lemma_process_trade_covered(m, order, others, Some(remainder));
            lemma_process_trade_steady(m, order, others);
            let traded = m.process_trade(order, others)->Ok_0;
            lemma_rest_reserved(traded, buying, remainder);
        } else if fill_sum < order.quantity {
            let (part, remainder) = order.split_spec(fill_sum as int)->Ok_0;
            assert forall|i: int| 0 <= i < found.len() implies tradable(
                part,
                #[trigger] found[i],
            ) by {
                assert(tradable(order, found[i]));
            }
            lemma_process_trade_covered(m, part, found, None);
            lemma_process_trade_steady(m, part, found);
            let traded = m.process_trade(part, found)->Ok_0;
            lemma_covered_plain(traded, asset, buying);
            lemma_rest_locked(traded, remainder);
        } else {
            lemma_process_trade_covered(m, order, found, None);
            lemma_process_trade_steady(m, order, found);
            let traded = m.process_trade(order, found)->Ok_0;
            lemma_covered_plain(traded, asset, buying);
        }
    }
}

/// The order that is found under an identifier rests in the book under that
/// identifier, among the sells or among the buys.
pub proof fn lemma_get_order_rests(book: crate::book::BookView, id: u128)
    requires
        book.get_order(id) is Ok,
    ensures
        book.get_order(id)->Ok_0.id == id,
        (exists|k: int|
            0 <= k < book.sell_orders.len() && #[trigger] book.sell_orders[k] == book.get_order(
                id,
            )->Ok_0) || (exists|k: int|
            0 <= k < book.buy_orders.len() && #[trigger] book.buy_orders[k] == book.get_order(
                id,
            )->Ok_0),
{
    if first_with_id(book.sell_orders, id) is Some {
        let k = choose|k: int| is_first_with_id(book.sell_orders, id, k);
        assert(book.sell_orders[k] == book.get_order(id)->Ok_0);
    } else {
        let k = choose|k: int| is_first_with_id(book.buy_orders, id, k);
        assert(book.buy_orders[k] == book.get_order(id)->Ok_0);
    }
}

/// Cancelling an order keeps the locks covering the resting orders: the
/// lock that is released was held for an order that leaves the book.
pub proof fn lemma_cancel_order_covered(m: MarketView, portfolio: u128, order_id: u128, asset: u128)
    requires
        orderly(m),
        m.locks_cover(),
        m.cancel_order(portfolio, order_id, asset) is Ok,
    ensures
        m.cancel_order(portfolio, order_id, asset)->Ok_0.locks_cover(),
{
    let none = Seq::<Order>::empty();
    let book = m.books[asset];
    let order = book.get_order(order_id)->Ok_0;
    let limit = order.mode->Limit_0;
    let unlocked = m.unlock_for(order)->Ok_0;
    let after = m.cancel_order(portfolio, order_id, asset)->Ok_0;
    let sells = book.sell_orders;
    let buys = book.buy_orders;
    lemma_get_order_rests(book, order_id);
    lemma_unlock_for_steady(m, order);
    assert(unlocked.books == m.books);
    assert(book.wf());
    lemma_covered_plain(m, asset, true);
    assert(after.books.dom() =~= m.books.dom());
    assert(after.portfolios == unlocked.portfolios);
    assert(unlocked.owners_known()) by {
        assert forall|x: u128| unlocked.books.contains_key(x) implies #[trigger] unlocked.book_known(
            x,
        ) by {
            assert(m.book_known(x));
        }
    }
    lemma_remove_keeps_known(unlocked, after, asset, order_id);
    let in_sells = exists|k: int| 0 <= k < sells.len() && #[trigger] sells[k] == order;
    assert forall|p: u128, x: u128|
        after.portfolios.contains_key(p) && after.books.contains_key(x) implies #[trigger] asset_covered(
        after,
        asset,
        true,
        none,
        None,
        p,
        x,
    ) by {
        assert(asset_covered(m, asset, true, none, None, p, x));
        if x == asset {
            if in_sells {
                let k = choose|k: int| 0 <= k < sells.len() && #[trigger] sells[k] == order;
                assert(order.side == OrderSide::Sell);
                lemma_weigh_filter_drops(sells, k, keeps(order_id), spared(sell_weight(p), none));
            } else {
                let k = choose|k: int| 0 <= k < buys.len() && #[trigger] buys[k] == order;
                assert(order.side == OrderSide::Buy);
                lemma_weigh_filter(sells, keeps(order_id), spared(sell_weight(p), none));
            }
        }
    }
    assert forall|p: u128| after.portfolios.contains_key(p) implies #[trigger] coin_covered(
        after,
        asset,
        true,
        none,
        None,
        p,
    ) by {
        assert(coin_covered(m, asset, true, none, None, p));
        assert(after.buy_loads(p).remove(asset) =~= m.buy_loads(p).remove(asset));
        if in_sells {
            let k = choose|k: int| 0 <= k < sells.len() && #[trigger] sells[k] == order;
            assert(order.side == OrderSide::Sell);
            lemma_weigh_filter(buys, keeps(order_id), spared(buy_weight(p), none));
        } else {
            let k = choose|k: int| 0 <= k < buys.len() && #[trigger] buys[k] == order;
            assert(order.side == OrderSide::Buy);
            lemma_weigh_filter_drops(buys, k, keeps(order_id), spared(buy_weight(p), none));
        }
    }
    lemma_covered_plain(after, asset, true);
}

/// Billing a fee touches no lock and no book.
pub proof fn lemma_bill_fee_covered(m: MarketView, id: u128, amount: nat)
    requires
        tidy(m),
        m.locks_cover(),
        m.bill_fee(id, amount) is Ok,
    ensures
        m.bill_fee(id, amount)->Ok_0.locks_cover(),
{
    let after = m.bill_fee(id, amount)->Ok_0;
    lemma_bill_fee(m, id, amount);
    assert forall|x: u128| after.books.contains_key(x) implies #[trigger] after.book_known(x) by {
        assert(m.book_known(x));
    }
    assert forall|p: u128, x: u128|
        after.portfolios.contains_key(p) && after.books.contains_key(x) implies #[trigger] after.sells_backed(
        p,
        x,
    ) by {
        assert(m.sells_backed(p, x));
    }
    assert forall|p: u128| after.portfolios.contains_key(p) implies #[trigger] after.buys_backed(
        p,
    ) by {
        assert(m.buys_backed(p));
        assert(after.buy_loads(p) =~= m.buy_loads(p));
    }
}

/// No event takes a well-formed market out of form. After an event, as
/// before it: no balance has more locked than it holds; every resting order
/// is backed by what its owner has locked; every portfolio has a balance of
/// exactly the known assets; no book holds an order without a limit; and
/// both sides of every book are sorted best first.
pub proof fn lemma_process_keeps_wf(m: MarketView, event: Event)
    requires
        m.wf(),
        m.process(event) is Ok,
    ensures
        m.process(event)->Ok_0.wf(),
{
    let billed = m.bill_fee(MarketView::initiator(event), 1)->Ok_0;
    lemma_process_supply(m, event);
    lemma_process_orderly(m, event);
    crate::resting::lemma_bill_fee_orderly(m, MarketView::initiator(event), 1);
    lemma_bill_fee_covered(m, MarketView::initiator(event), 1);
    match event {
        Event::Order(order) => lemma_fill_order_covered(billed, order),
        Event::CancelOrder(portfolio, order, asset) => lemma_cancel_order_covered(
            billed,
            portfolio,
            order,
            asset,
        ),
    }
}

/// In a well-formed market every resting sell is backed by as many locked
/// units of its asset as it offers, and every resting buy by as many locked
/// coins as its limit times its quantity, in the portfolio of its owner.
pub proof fn lemma_resting_orders_backed(m: MarketView, asset: u128, i: int)
    requires
        m.wf(),
        m.books.contains_key(asset),
    ensures
        0 <= i < m.books[asset].sell_orders.len() ==> {
            let order = m.books[asset].sell_orders[i];
            &&& m.portfolios.contains_key(order.portfolio)
            &&& m.portfolios[order.portfolio].assets.contains_key(asset)
            &&& m.portfolios[order.portfolio].assets[asset].locked >= order.quantity
        },
        0 <= i < m.books[asset].buy_orders.len() ==> {
            let order = m.books[asset].buy_orders[i];
            &&& m.portfolios.contains_key(order.portfolio)
            &&& order.mode is Limit
            &&& m.portfolios[order.portfolio].coins.locked >= order.mode->Limit_0 * order.quantity
        },
{
    assert(m.book_known(asset));
    assert(m.books[asset].wf());
    if 0 <= i < m.books[asset].sell_orders.len() {
        let order = m.books[asset].sell_orders[i];
        assert(m.sells_backed(order.portfolio, asset));
        lemma_weigh_member(m.books[asset].sell_orders, i, sell_weight(order.portfolio));
    }
    if 0 <= i < m.books[asset].buy_orders.len() {
        let order = m.books[asset].buy_orders[i];
        assert(m.buys_backed(order.portfolio));
        lemma_weigh_member(m.books[asset].buy_orders, i, buy_weight(order.portfolio));
        assert(m.buy_loads(order.portfolio).dom() =~= m.books.dom());
        lemma_total_bound(m.buy_loads(order.portfolio), asset);
    }
}

} // verus!
