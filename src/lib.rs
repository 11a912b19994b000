//! Offer registry of a peer-to-peer fiat-for-crypto exchange: the offer
//! entity, its guards and state machine, a binary codec for its records, and
//! a store over an ordered key-value storage with paginated, ordered scans.

pub mod types;
pub mod guards;
pub mod keys;
pub mod codec;
pub mod storage;
pub mod store;
pub mod offer;

pub use guards::{assert_min_g_max, assert_ownership};
pub use offer::OfferModel;
pub use store::OfferStore;
pub use types::{
    Addr, Config, ExecuteMsg, FiatCurrency, InstantiateMsg, Offer, OfferError, OfferMsg, OfferState,
    OfferType, QueryMsg, State,
};
