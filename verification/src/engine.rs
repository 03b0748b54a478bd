//! The engine: the one place where events change the market, each of them
//! wholly or not at all.

use vstd::prelude::*;
use crate::error::ErrorType;
use crate::error::EngineResult;
use crate::market::Market;
use crate::market::realizes;
use crate::model::MarketView;
use crate::order::Order;
use crate::refusals::event_valid;
use crate::refusals::orders_valid;
use crate::refusals::ordinary;
use crate::refusals::lemma_process_refusals;
use crate::refusals::lemma_process_valid;
use crate::laws::after_event;
use crate::locks::lemma_process_keeps_wf;
use crate::supply::lemma_process_supply;

verus! {

/// What a participant can ask of the engine.
#[derive(Copy, Clone, Debug)]
pub enum Event {
    /// Place this order.
    Order(Order),
    /// Take back the order, named by portfolio, order and asset.
    CancelOrder(u128, u128, u128),
}

/// The market and the only way to change it.
pub struct Engine {
    pub market: Market,
}

impl Engine {
    /// An engine over an empty market.
    pub fn new() -> (engine: Engine)
        ensures
            engine.market@ == MarketView::empty(),
            engine.market@.wf(),
            engine.market@.coin_supply() == 0,
            forall|asset: u128| #[trigger] engine.market@.asset_supply(asset) == 0,
    {
        Engine { market: Market::new() }
    }

    /// Bills the flat fee of one coin to the portfolio that `event` comes
    /// from.
    pub fn bill_fee_for(&mut self, event: Event) -> (result: EngineResult<()>)
        requires
            old(self).market@.sound(),
        ensures
            realizes(
                result,
                old(self).market@.bill_fee(MarketView::initiator(event), 1),
                final(self).market@,
            ),
            result is Err ==> final(self).market@ == old(self).market@,
    {
        let portfolio = match event {
            Event::Order(o) => o.portfolio,
            Event::CancelOrder(portfolio, _, _) => portfolio,
        };
        self.market.bill_fee(portfolio, 1)
    }

    /// Processes one event: bills the fee, then places or cancels the order.
    /// If any of it fails, the market is put back as it was before the
    /// event, fee included. Either way the market stays well-formed, and no
    /// coin and no unit is made or lost: a success moves one coin to the
    /// bank. Where all orders are valid, a failure is for want of something
    /// and never for a market out of order.
    pub fn process(&mut self, event: Event) -> (result: EngineResult<()>)
        requires
            old(self).market@.wf(),
        ensures
            match result {
                Ok(()) => old(self).market@.process(event) == Ok::<MarketView, ErrorType>(
                    final(self).market@,
                ),
                Err(e) => old(self).market@.process(event) == Err::<MarketView, ErrorType>(e)
                    && final(self).market@ == old(self).market@,
            },
            final(self).market@ == after_event(old(self).market@, event),
            final(self).market@.wf(),
            final(self).market@.coin_supply() + final(self).market@.bank_account == old(
                self,
            ).market@.coin_supply() + old(self).market@.bank_account,
            final(self).market@.bank_account == old(self).market@.bank_account + (if result is Ok {
                1nat
            } else {
                0nat
            }),
            forall|asset: u128| #[trigger]
                final(self).market@.asset_supply(asset) == old(self).market@.asset_supply(asset),
            orders_valid(old(self).market@) && event_valid(event) ==> orders_valid(
                final(self).market@,
            ) && (result is Err ==> ordinary(result->Err_0)),
    {
        proof {
            if orders_valid(old(self).market@) && event_valid(event) {
                lemma_process_valid(old(self).market@, event);
                lemma_process_refusals(old(self).market@, event);
            }
        }
        let snapshot = self.market.clone();
        let billed = self.bill_fee_for(event);
        let result = match billed {
            Err(e) => Err(e),
            Ok(()) => match event {
                Event::Order(o) => self.market.fill_order(o),
                Event::CancelOrder(portfolio, order, asset) => self.market.cancel_order(
                    portfolio,
                    order,
                    asset,
                ),
            },
        };
        match result {
            Err(e) => {
                self.market = snapshot;
                Err(e)
            },
            Ok(()) => {
                proof {
                    lemma_process_supply(old(self).market@, event);
                    lemma_process_keeps_wf(old(self).market@, event);
                }
                Ok(())
            },
        }
    }
}

} // verus!
