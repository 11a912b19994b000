use vstd::prelude::*;
use vstd::string::StringSliceAdditionalSpecFns;

verus! {

/// An account address, held as the bytes of its textual form.
#[derive(Clone, Debug, PartialEq, Eq)]
pub struct Addr {
    pub bytes: Vec<u8>,
}

impl View for Addr {
    type V = Seq<u8>;

    open spec fn view(&self) -> Seq<u8> {
        self.bytes@
    }
}

impl Addr {
    /// An address taken as it is written, without validation.
    pub fn unchecked(s: &str) -> (r: Addr)
        ensures
            r@ == s.spec_bytes(),
    {
        Addr { bytes: vstd::slice::slice_to_vec(s.as_bytes()) }
    }

    pub fn from_bytes(bytes: Vec<u8>) -> (r: Addr)
        ensures
            r@ == bytes@,
    {
        Addr { bytes }
    }

    /// A copy of the address.
    pub fn duplicate(&self) -> (r: Addr)
        ensures
            r@ == self@,
    {
        Addr { bytes: vstd::slice::slice_to_vec(self.bytes.as_slice()) }
    }

    /// Whether two addresses are the same account.
    pub fn same_as(&self, other: &Addr) -> (r: bool)
        ensures
            r == (self@ == other@),
    {
        let n: usize = self.bytes.len();
        if n != other.bytes.len() {
            return false;
        }
        let mut i: usize = 0;
        while i < n
            invariant
                n == self.bytes@.len(),
                n == other.bytes@.len(),
                i <= n,
                self.bytes@.subrange(0, i as int) == other.bytes@.subrange(0, i as int),
            decreases n - i,
        {
            if self.bytes[i] != other.bytes[i] {
                assert(self.bytes@[i as int] != other.bytes@[i as int]);
                return false;
            }
            assert(self.bytes@.subrange(0, i + 1) =~= self.bytes@.subrange(0, i as int).push(self.bytes@[i as int]));
            assert(other.bytes@.subrange(0, i + 1) =~= other.bytes@.subrange(0, i as int).push(other.bytes@[i as int]));
            i = i + 1;
        }
        assert(self.bytes@ =~= self.bytes@.subrange(0, n as int));
        assert(other.bytes@ =~= other.bytes@.subrange(0, n as int));
        true
    }
}

/// The side of an offer.
#[derive(Clone, Copy, Debug, PartialEq, Eq, Structural)]
pub enum OfferType {
    Buy,
    Sell,
}

/// The fiat currencies in which offers are denominated.
#[derive(Clone, Copy, Debug, PartialEq, Eq, Structural)]
pub enum FiatCurrency {
    BRL,
    COP,
    USD,
}

/// Lifecycle state of an offer.
#[derive(Clone, Copy, Debug, PartialEq, Eq, Structural)]
pub enum OfferState {
    Active,
    Paused,
}

impl OfferType {
    /// The variant's name, as it is displayed.
    pub fn fmt(&self) -> (r: String)
        ensures
            r@ == (match self {
                OfferType::Buy => "Buy"@,
                OfferType::Sell => "Sell"@,
            }),
    {
        match self {
            OfferType::Buy => String::from_str("Buy"),
            OfferType::Sell => String::from_str("Sell"),
        }
    }
}

impl FiatCurrency {
    /// Whether two currency codes are the same.
    pub fn same_as(&self, other: &FiatCurrency) -> (r: bool)
        ensures
            r == (*self == *other),
    {
        match (self, other) {
            (FiatCurrency::BRL, FiatCurrency::BRL) => true,
            (FiatCurrency::COP, FiatCurrency::COP) => true,
            (FiatCurrency::USD, FiatCurrency::USD) => true,
            _ => false,
        }
    }
}

/// A published willingness to buy or sell within amount bounds.
#[derive(Clone, Debug, PartialEq, Eq)]
pub struct Offer {
    pub id: u64,
    pub owner: Addr,
    pub offer_type: OfferType,
    pub fiat_currency: FiatCurrency,
    pub min_amount: u128,
    pub max_amount: u128,
    pub state: OfferState,
}

impl Offer {
    /// A copy of the offer.
    pub fn duplicate(&self) -> (r: Offer)
        ensures
            r@ == self@,
    {
        Offer {
            id: self.id,
            owner: self.owner.duplicate(),
            offer_type: self.offer_type,
            fiat_currency: self.fiat_currency,
            min_amount: self.min_amount,
            max_amount: self.max_amount,
            state: self.state,
        }
    }
}

/// The value of an offer, with its owner as bytes.
pub struct OfferView {
    pub id: u64,
    pub owner: Seq<u8>,
    pub offer_type: OfferType,
    pub fiat_currency: FiatCurrency,
    pub min_amount: u128,
    pub max_amount: u128,
    pub state: OfferState,
}

impl View for Offer {
    type V = OfferView;

    open spec fn view(&self) -> OfferView {
        OfferView {
            id: self.id,
            owner: self.owner@,
            offer_type: self.offer_type,
            fiat_currency: self.fiat_currency,
            min_amount: self.min_amount,
            max_amount: self.max_amount,
            state: self.state,
        }
    }
}

/// The fields of an offer that its owner supplies on creation and update.
#[derive(Clone, Copy, Debug, PartialEq, Eq, Structural)]
pub struct OfferMsg {
    pub offer_type: OfferType,
    pub fiat_currency: FiatCurrency,
    pub min_amount: u64,
    pub max_amount: u64,
}

/// Instantiation takes no parameters.
#[derive(Clone, Copy, Debug, PartialEq, Eq, Structural)]
pub struct InstantiateMsg {}

/// The commands that change the registry.
#[derive(Clone, Debug)]
pub enum ExecuteMsg {
    Create { offer: OfferMsg },
    Pause { id: u64 },
    Activate { id: u64 },
    Update { id: u64, offer: OfferMsg },
    NewTrade { offer_id: u64, ust_amount: String, counterparty: String },
}

/// The read-only queries.
#[derive(Clone, Debug)]
pub enum QueryMsg {
    Config {},
    State {},
    Offers { fiat_currency: FiatCurrency },
    OffersPage { fiat_currency: FiatCurrency, last_value: Vec<u8>, limit: usize },
    Offer { id: u64 },
    Trades { maker: String },
}

/// The trusted factory that controls the registry.
#[derive(Clone, Debug, PartialEq, Eq)]
pub struct Config {
    pub factory_addr: Addr,
}

/// Counter of the offers created so far.
#[derive(Clone, Copy, Debug, PartialEq, Eq, Structural)]
pub struct State {
    pub offers_count: u64,
}

/// Why an operation on an offer was refused.
#[derive(Clone, Debug, PartialEq, Eq)]
pub enum OfferError {
    Unauthorized { owner: Addr, caller: Addr },
    InvalidRange,
    InvalidStateChange { from: OfferState, to: OfferState },
    NotFound { id: u64 },
    StorageFailure,
}

} // verus!
