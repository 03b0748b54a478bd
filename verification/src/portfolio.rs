//! What one participant owns: coins, and a balance of every asset.

use vstd::prelude::*;
use std::collections::HashMap;
use std::collections::hash_map::Entry;
use crate::account::Account;
use crate::account::AccountView;
use crate::error::ErrorType;
use crate::error::EngineResult;
use crate::ids::fresh_id;
use crate::ids::is_random_id;

verus! {

broadcast use vstd::std_specs::hash::group_hash_axioms;

/// The mathematical value of a [`Portfolio`].
pub struct PortfolioView {
    pub id: u128,
    pub coins: AccountView,
    pub assets: Map<u128, AccountView>,
}

impl PortfolioView {
    /// Every balance is well-formed.
    pub open spec fn wf(self) -> bool {
        &&& self.coins.wf()
        &&& forall|a: u128| self.assets.contains_key(a) ==> (#[trigger] self.assets[a]).wf()
    }

    /// A portfolio with `initial_coins` free coins and no balance of any
    /// asset.
    pub open spec fn fresh(id: u128, initial_coins: nat) -> PortfolioView {
        PortfolioView { id, coins: AccountView::fresh(initial_coins), assets: Map::empty() }
    }

    /// The portfolio with `coins` as its coin balance.
    pub open spec fn with_coins(self, coins: AccountView) -> PortfolioView {
        PortfolioView { coins, ..self }
    }

    /// The portfolio with `account` as its balance of `asset`.
    pub open spec fn with_asset(self, asset: u128, account: AccountView) -> PortfolioView {
        PortfolioView { assets: self.assets.insert(asset, account), ..self }
    }

    /// How much of `asset` the portfolio has locked; nothing where it has no
    /// balance of it.
    pub open spec fn reserved(self, asset: u128) -> nat {
        if self.assets.contains_key(asset) {
            self.assets[asset].locked
        } else {
            0
        }
    }

    /// How much of `asset` the portfolio holds; nothing where it has no
    /// balance of it.
    pub open spec fn holding(self, asset: u128) -> nat {
        if self.assets.contains_key(asset) {
            self.assets[asset].total
        } else {
            0
        }
    }
}

/// The views of the balances in `accounts`.
pub open spec fn account_views(accounts: Map<u128, Account>) -> Map<u128, AccountView> {
    accounts.map_values(|a: Account| a@)
}

/// Writing a balance writes its value.
pub proof fn lemma_account_views_insert(accounts: Map<u128, Account>, k: u128, a: Account)
    ensures
        account_views(accounts.insert(k, a)) == account_views(accounts).insert(k, a@),
{
    assert(account_views(accounts.insert(k, a)) =~= account_views(accounts).insert(k, a@));
}

/// The coins and the asset balances of one participant.
#[derive(Clone, Debug)]
pub struct Portfolio {
    pub id: u128,
    pub coins: Account,
    pub assets: HashMap<u128, Account>,
}

impl View for Portfolio {
    type V = PortfolioView;

    open spec fn view(&self) -> PortfolioView {
        PortfolioView { id: self.id, coins: self.coins@, assets: account_views(self.assets@) }
    }
}

impl Portfolio {
    /// A portfolio with `initial_coins` free coins and no asset balance,
    /// under a fresh random identifier.
    pub fn new(initial_coins: usize) -> (portfolio: Portfolio)
        ensures
            portfolio@ == PortfolioView::fresh(portfolio.id, initial_coins as nat),
            is_random_id(portfolio.id),
    {
        Portfolio::with_id(fresh_id(), initial_coins)
    }

    /// The same, under the identifier `id`.
    pub fn with_id(id: u128, initial_coins: usize) -> (portfolio: Portfolio)
        ensures
            portfolio@ == PortfolioView::fresh(id, initial_coins as nat),
    {
        let portfolio = Portfolio { id, coins: Account::new(initial_coins), assets: HashMap::new() };
        assert(portfolio@.assets =~= Map::empty());
        portfolio
    }

    /// Gives the portfolio a balance of nothing of `asset_id`.
    pub fn open_account(&mut self, asset_id: u128)
        ensures
            final(self)@ == old(self)@.with_asset(asset_id, AccountView::fresh(0)),
    {
        let account = Account::new(0);
        proof {
            lemma_account_views_insert(self.assets@, asset_id, account);
        }
        self.assets.insert(asset_id, account);
    }

    /// The balance of `asset_id`, to read.
    pub fn get_asset_account(&self, asset_id: u128) -> (result: EngineResult<&Account>)
        ensures
            match result {
                Ok(account) => self@.assets.contains_key(asset_id) && account@
                    == self@.assets[asset_id],
                Err(e) => !self@.assets.contains_key(asset_id) && e == ErrorType::AssetNotFound(
                    asset_id,
                ),
            },
    {
        match self.assets.get(&asset_id) {
            Some(account) => Ok(account),
            None => Err(ErrorType::AssetNotFound(asset_id)),
        }
    }

    /// The balance of `asset_id`, to change.
    pub fn get_asset_account_mut(&mut self, asset_id: u128) -> (result: EngineResult<&mut Account>)
        ensures
            match result {
                Ok(account) => old(self)@.assets.contains_key(asset_id) && account@ == old(
                    self,
                )@.assets[asset_id] && final(self)@ == old(self)@.with_asset(
                    asset_id,
                    final(account)@,
                ),
                Err(e) => !old(self)@.assets.contains_key(asset_id) && e
                    == ErrorType::AssetNotFound(asset_id) && final(self)@ == old(self)@,
            },
    {
        match self.assets.entry(asset_id) {
            Entry::Occupied(entry) => {
                let account = entry.into_mut();
                proof {
                    lemma_account_views_insert(old(self).assets@, asset_id, *final(account));
                }
                Ok(account)
            },
            Entry::Vacant(_) => {
                assert(old(self).assets@.remove(asset_id) =~= old(self).assets@);
                Err(ErrorType::AssetNotFound(asset_id))
            },
        }
    }
}

} // verus!
