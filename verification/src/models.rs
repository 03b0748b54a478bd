//! The types of the engine under one roof.

pub use crate::account::Account;
pub use crate::asset::Asset;
pub use crate::book::Book;
pub use crate::engine::Engine;
pub use crate::engine::Event;
pub use crate::error::EngineResult;
pub use crate::error::ErrorType;
pub use crate::ids::AccountId;
pub use crate::ids::AssetId;
pub use crate::ids::OrderId;
pub use crate::ids::PortfolioId;
pub use crate::market::Market;
pub use crate::order::Order;
pub use crate::order::OrderMode;
pub use crate::order::OrderPlacement;
pub use crate::order::OrderSide;
pub use crate::portfolio::Portfolio;
