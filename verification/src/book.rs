//! The order book of one asset: two sides of resting orders, each kept
//! best first, with the earlier order first among equals.

use vstd::prelude::*;
use std::cmp::Ordering;
use crate::error::ErrorType;
use crate::error::EngineResult;
use crate::order::Order;
use crate::order::OrderMode;
use crate::order::OrderSide;
use crate::sums::weigh;

verus! {

/// Whether `a` is strictly better than `b` on its side of a book. An order
/// without a limit is better than any with one. Among limits the lower price
/// is better, or the higher one if `revert_price_order` is set (as it is for
/// buys). Where the price decides nothing, the earlier order is better.
pub open spec fn precedes(a: Order, b: Order, revert_price_order: bool) -> bool {
    match (a.mode, b.mode) {
        (OrderMode::Best, OrderMode::Best) => a.created_at < b.created_at,
        (OrderMode::Best, OrderMode::Limit(_)) => true,
        (OrderMode::Limit(_), OrderMode::Best) => false,
        (OrderMode::Limit(x), OrderMode::Limit(y)) => if x == y {
            a.created_at < b.created_at
        } else if revert_price_order {
            x > y
        } else {
            x < y
        },
    }
}

/// No order stands behind one that it is strictly better than.
pub open spec fn sorted(s: Seq<Order>, revert_price_order: bool) -> bool {
    forall|i: int, j: int|
        0 <= i < j < s.len() ==> !precedes(#[trigger] s[j], #[trigger] s[i], revert_price_order)
}

/// Where `o` comes to stand in `s`: behind every order that it is not
/// strictly better than, counted from the back.
pub open spec fn slot(s: Seq<Order>, o: Order, revert_price_order: bool) -> int
    decreases s.len(),
{
    if s.len() == 0 {
        0
    } else if precedes(o, s.last(), revert_price_order) {
        slot(s.drop_last(), o, revert_price_order)
    } else {
        s.len() as int
    }
}

/// `s` with `o` put in its place.
pub open spec fn place(s: Seq<Order>, o: Order, revert_price_order: bool) -> Seq<Order> {
    s.insert(slot(s, o, revert_price_order), o)
}

/// The orders that do not carry the identifier `id`.
pub open spec fn keeps(id: u128) -> spec_fn(Order) -> bool {
    |o: Order| o.id != id
}

/// The quantity of an order, as a weight.
pub open spec fn quantity_of() -> spec_fn(Order) -> nat {
    |o: Order| o.quantity as nat
}

/// The quantities of the orders in `s`, added up.
pub open spec fn quantity_sum(s: Seq<Order>) -> nat {
    weigh(s, quantity_of())
}

/// The orders at the front of `side` that an incoming order trades with:
/// one after the other as long as each matches, up to and including the one
/// with which `needed` units are reached.
pub open spec fn candidates(side: Seq<Order>, incoming: Order, needed: int) -> Seq<Order>
    decreases side.len(),
{
    if side.len() == 0 || !incoming.spec_matches(side[0]) {
        Seq::empty()
    } else if side[0].quantity >= needed {
        seq![side[0]]
    } else {
        seq![side[0]] + candidates(side.skip(1), incoming, needed - side[0].quantity)
    }
}

/// Whether an order in `s` carries the identifier `id`.
pub open spec fn holds_id(s: Seq<Order>, id: u128) -> bool {
    exists|i: int| 0 <= i < s.len() && (#[trigger] s[i]).id == id
}

/// Whether position `i` is the first in `s` at which an order carries `id`.
pub open spec fn is_first_with_id(s: Seq<Order>, id: u128, i: int) -> bool {
    &&& 0 <= i < s.len()
    &&& s[i].id == id
    &&& forall|j: int| 0 <= j < i ==> (#[trigger] s[j]).id != id
}

/// The first order in `s` that carries the identifier `id`.
pub open spec fn first_with_id(s: Seq<Order>, id: u128) -> Option<Order> {
    if exists|i: int| is_first_with_id(s, id, i) {
        Some(s[choose|i: int| is_first_with_id(s, id, i)])
    } else {
        None
    }
}

/// What one side of a well-formed book looks like: every order belongs to
/// the book's asset and to this side, carries a limit, and the side is
/// sorted.
pub open spec fn side_wf(s: Seq<Order>, asset_id: u128, side: OrderSide) -> bool {
    &&& forall|i: int|
        0 <= i < s.len() ==> {
            &&& (#[trigger] s[i]).asset == asset_id
            &&& s[i].side == side
            &&& s[i].mode is Limit
        }
    &&& sorted(s, side == OrderSide::Buy)
}

/// The mathematical value of a [`Book`].
pub struct BookView {
    pub asset_id: u128,
    pub sell_orders: Seq<Order>,
    pub buy_orders: Seq<Order>,
}

impl BookView {
    /// The book of `asset_id` with no order resting in it.
    pub open spec fn empty(asset_id: u128) -> BookView {
        BookView { asset_id, sell_orders: Seq::empty(), buy_orders: Seq::empty() }
    }

    /// Both sides are well-formed: no order without a limit rests, every
    /// order is on its side of the book of its asset, and both sides are
    /// sorted best first.
    pub open spec fn wf(self) -> bool {
        &&& side_wf(self.sell_orders, self.asset_id, OrderSide::Sell)
        &&& side_wf(self.buy_orders, self.asset_id, OrderSide::Buy)
    }

    /// The book with `order` resting on its side. An order without a limit
    /// does not rest.
    pub open spec fn add_order(self, order: Order) -> Result<BookView, ErrorType> {
        if order.mode == OrderMode::Best {
            Err(ErrorType::NotEnoughMatchingOrdersToImmediatelyFillBestOrder)
        } else {
            match order.side {
                OrderSide::Sell => Ok(
                    BookView { sell_orders: place(self.sell_orders, order, false), ..self },
                ),
                OrderSide::Buy => Ok(
                    BookView { buy_orders: place(self.buy_orders, order, true), ..self },
                ),
            }
        }
    }

    /// The book without the orders that carry `id`.
    pub open spec fn remove_order(self, id: u128) -> BookView {
        BookView {
            asset_id: self.asset_id,
            sell_orders: self.sell_orders.filter(keeps(id)),
            buy_orders: self.buy_orders.filter(keeps(id)),
        }
    }

    /// The side that an order of side `side` trades against.
    pub open spec fn opposite(self, side: OrderSide) -> Seq<Order> {
        match side {
            OrderSide::Sell => self.buy_orders,
            OrderSide::Buy => self.sell_orders,
        }
    }

    /// The resting orders that `order` trades with: from the opposite side,
    /// best first, as far as they match and are needed.
    pub open spec fn best_candidates(self, order: Order) -> Seq<Order> {
        candidates(self.opposite(order.side), order, order.quantity as int)
    }

    /// The first sell that carries `id`, or else the first buy.
    pub open spec fn get_order(self, id: u128) -> Result<Order, ErrorType> {
        match first_with_id(self.sell_orders, id) {
            Some(o) => Ok(o),
            None => match first_with_id(self.buy_orders, id) {
                Some(o) => Ok(o),
                None => Err(ErrorType::OrderNotFound(id)),
            },
        }
    }
}

/// The resting orders of one asset.
#[derive(Clone, Debug)]
pub struct Book {
    pub asset_id: u128,
    pub sell_orders: Vec<Order>,
    pub buy_orders: Vec<Order>,
}

impl View for Book {
    type V = BookView;

    open spec fn view(&self) -> BookView {
        BookView {
            asset_id: self.asset_id,
            sell_orders: self.sell_orders@,
            buy_orders: self.buy_orders@,
        }
    }
}

/// Moves the last order of `orders` forward to its place.
fn sink_last(orders: &mut Vec<Order>, revert_price_order: bool)
    requires
        old(orders)@.len() > 0,
    ensures
        final(orders)@ == place(
            old(orders)@.drop_last(),
            old(orders)@.last(),
            revert_price_order,
        ),
{
    let order = orders.pop().unwrap();
    let ghost rest = orders@;
    let mut i: usize = orders.len();
    assert(rest.take(i as int) =~= rest);
    while i > 0 && is_better(&order, &orders[i - 1], revert_price_order)
        invariant
            i <= orders.len(),
            orders@ == rest,
            slot(rest, order, revert_price_order) == slot(
                rest.take(i as int),
                order,
                revert_price_order,
            ),
        decreases i,
    {
        assert(rest.take(i as int).drop_last() =~= rest.take(i - 1));
        i -= 1;
    }
    orders.insert(i, order);
}

/// Whether `a` is strictly better than `b`.
fn is_better(a: &Order, b: &Order, revert_price_order: bool) -> (better: bool)
    ensures
        better == precedes(*a, *b, revert_price_order),
{
    match Book::cmp_orders(a, b, revert_price_order) {
        Ordering::Less => true,
        _ => false,
    }
}

/// The orders of `orders` that do not carry `id`, in their order.
fn without_id(orders: &Vec<Order>, id: u128) -> (kept: Vec<Order>)
    ensures
        kept@ == orders@.filter(keeps(id)),
{
    let mut kept: Vec<Order> = Vec::new();
    let mut i: usize = 0;
    assert(orders@.take(0) =~= Seq::<Order>::empty());
    proof {
        reveal(Seq::filter);
    }
    while i < orders.len()
        invariant
            i <= orders.len(),
            kept@ == orders@.take(i as int).filter(keeps(id)),
        decreases orders.len() - i,
    {
        proof {
            assert(orders@.take(i + 1) =~= orders@.take(i as int).push(orders@[i as int]));
            orders@.take(i as int).lemma_filter_push(orders@[i as int], keeps(id));
        }
        if orders[i].id != id {
            kept.push(orders[i]);
        }
        i += 1;
    }
    assert(orders@.take(orders.len() as int) =~= orders@);
    kept
}

/// The quantities of `orders`, added up.
pub fn quantity_total(orders: &Vec<Order>) -> (sum: u128)
    ensures
        sum == quantity_sum(orders@),
{
    let mut sum: u128 = 0;
    let mut i: usize = 0;
    assert(orders@.take(0) =~= Seq::<Order>::empty());
    while i < orders.len()
        invariant
            i <= orders.len(),
            sum == quantity_sum(orders@.take(i as int)),
            sum <= i * usize::MAX,
        decreases orders.len() - i,
    {
        proof {
            assert(orders@.take(i + 1).drop_last() =~= orders@.take(i as int));
            assert((i + 1) * usize::MAX <= u128::MAX) by (nonlinear_arith)
                requires
                    i + 1 <= u64::MAX,
                    usize::MAX <= u64::MAX,
            ;
            assert((i + 1) * usize::MAX == i * usize::MAX + usize::MAX) by (nonlinear_arith);
        }
        sum = sum + orders[i].quantity as u128;
        i += 1;
    }
    assert(orders@.take(orders.len() as int) =~= orders@);
    sum
}

/// The position of the first order of `orders` that carries `id`.
fn position_of(orders: &Vec<Order>, id: u128) -> (found: Option<usize>)
    ensures
        match found {
            Some(i) => is_first_with_id(orders@, id, i as int) && first_with_id(orders@, id)
                == Some(orders@[i as int]),
            None => first_with_id(orders@, id) == None::<Order>,
        },
{
    let mut i: usize = 0;
    while i < orders.len()
        invariant
            i <= orders.len(),
            forall|j: int| 0 <= j < i ==> (#[trigger] orders@[j]).id != id,
        decreases orders.len() - i,
    {
        if orders[i].id == id {
            proof {
                assert(is_first_with_id(orders@, id, i as int));
                let c = choose|c: int| is_first_with_id(orders@, id, c);
                assert(c == i);
            }
            return Some(i);
        }
        i += 1;
    }
    None
}

impl Book {
    /// The book of `asset_id` with no order resting in it.
    pub fn new(asset_id: u128) -> (book: Book)
        ensures
            book@ == BookView::empty(asset_id),
    {
        Book { asset_id, sell_orders: Vec::new(), buy_orders: Vec::new() }
    }

    /// Lets `order` rest: appends it to its side and sorts the side again.
    pub fn add_order(&mut self, order: Order) -> (result: EngineResult<()>)
        ensures
            match result {
                Ok(()) => old(self)@.add_order(order) == Ok::<BookView, ErrorType>(final(self)@),
                Err(e) => old(self)@.add_order(order) == Err::<BookView, ErrorType>(e)
                    && final(self)@ == old(self)@,
            },
    {
        if order.mode == OrderMode::Best {
            return Err(ErrorType::NotEnoughMatchingOrdersToImmediatelyFillBestOrder);
        }
        match order.side {
            OrderSide::Sell => {
                self.sell_orders.push(order);
                assert(self.sell_orders@.drop_last() =~= old(self).sell_orders@);
                self.sort_sell_orders();
            },
            OrderSide::Buy => {
                self.buy_orders.push(order);
                assert(self.buy_orders@.drop_last() =~= old(self).buy_orders@);
                self.sort_buy_orders();
            },
        };
        Ok(())
    }

    /// Removes every order that carries `id`, from both sides.
    pub fn remove_order(&mut self, id: u128)
        ensures
            final(self)@ == old(self)@.remove_order(id),
    {
        let sells = without_id(&self.sell_orders, id);
        let buys = without_id(&self.buy_orders, id);
        self.sell_orders = sells;
        self.buy_orders = buys;
    }

    /// Sorts the buys, of which all but the last are in their places.
    fn sort_buy_orders(&mut self)
        requires
            old(self).buy_orders@.len() > 0,
        ensures
            final(self)@ == (BookView {
                buy_orders: place(
                    old(self).buy_orders@.drop_last(),
                    old(self).buy_orders@.last(),
                    true,
                ),
                ..old(self)@
            }),
    {
        sink_last(&mut self.buy_orders, true);
    }

    /// Sorts the sells, of which all but the last are in their places.
    fn sort_sell_orders(&mut self)
        requires
            old(self).sell_orders@.len() > 0,
        ensures
            final(self)@ == (BookView {
                sell_orders: place(
                    old(self).sell_orders@.drop_last(),
                    old(self).sell_orders@.last(),
                    false,
                ),
                ..old(self)@
            }),
    {
        sink_last(&mut self.sell_orders, false);
    }

    /// The resting orders that `order` trades with, best first.
    pub fn find_best_candidates_to_fill(&self, order: &Order) -> (found: Vec<Order>)
        ensures
            found@ == self@.best_candidates(*order),
    {
        let other_side = match order.side {
            OrderSide::Sell => &self.buy_orders,
            OrderSide::Buy => &self.sell_orders,
        };
        let ghost side = other_side@;
        let mut found: Vec<Order> = Vec::new();
        let mut needed: usize = order.quantity;
        let mut i: usize = 0;
        let mut open: bool = true;
        assert(side.skip(0) =~= side);
        assert(found@ + candidates(side, *order, needed as int) =~= candidates(
            side,
            *order,
            needed as int,
        ));
        while open && i < other_side.len()
            invariant
                i <= other_side.len(),
                side == other_side@,
                candidates(side, *order, order.quantity as int) == found@ + (if open {
                    candidates(side.skip(i as int), *order, needed as int)
                } else {
                    Seq::empty()
                }),
            decreases other_side.len() - i,
        {
            let other = other_side[i];
            let ghost tail = side.skip(i as int);
            let ghost before = found@;
            proof {
                assert(tail[0] == other);
                assert(tail.skip(1) =~= side.skip(i + 1));
            }
            if order.matches(&other) {
                found.push(other);
                if other.quantity >= needed {
                    open = false;
                    assert(before + seq![other] =~= found@ + Seq::<Order>::empty());
                } else {
                    needed -= other.quantity;
                    assert(before + (seq![other] + candidates(
                        side.skip(i + 1),
                        *order,
                        needed as int,
                    )) =~= found@ + candidates(side.skip(i + 1), *order, needed as int));
                }
            } else {
                open = false;
            }
            i += 1;
        }
        assert(found@ + Seq::<Order>::empty() =~= found@);
        found
    }

    /// The resting order that carries `id`.
    pub fn get_order(&self, id: u128) -> (result: EngineResult<&Order>)
        ensures
            match result {
                Ok(order) => self@.get_order(id) == Ok::<Order, ErrorType>(*order),
                Err(e) => self@.get_order(id) == Err::<Order, ErrorType>(e),
            },
    {
        match position_of(&self.sell_orders, id) {
            Some(i) => Ok(&self.sell_orders[i]),
            None => match position_of(&self.buy_orders, id) {
                Some(i) => Ok(&self.buy_orders[i]),
                None => Err(ErrorType::OrderNotFound(id)),
            },
        }
    }

    /// Compares two orders of one side: `Less` where `a` is the better one.
    fn cmp_orders(a: &Order, b: &Order, revert_price_order: bool) -> (order: Ordering)
        ensures
            (order == Ordering::Less) == precedes(*a, *b, revert_price_order),
            (order == Ordering::Greater) == precedes(*b, *a, revert_price_order),
    {
        let by_price = match (a.mode, b.mode) {
            (OrderMode::Best, OrderMode::Best) => Ordering::Equal,
            (OrderMode::Best, OrderMode::Limit(_)) => Ordering::Less,
            (OrderMode::Limit(_), OrderMode::Best) => Ordering::Greater,
            (OrderMode::Limit(x), OrderMode::Limit(y)) => {
                if x == y {
                    Ordering::Equal
                } else if (x < y) != revert_price_order {
                    Ordering::Less
                } else {
                    Ordering::Greater
                }
            },
        };
        match by_price {
            Ordering::Equal => {
                if a.created_at < b.created_at {
                    Ordering::Less
                } else if a.created_at > b.created_at {
                    Ordering::Greater
                } else {
                    Ordering::Equal
                }
            },
            decided => decided,
        }
    }
}

} // verus!
