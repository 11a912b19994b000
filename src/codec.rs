use vstd::prelude::*;
use crate::keys::{be_bytes, from_be, push_be, read_be, lemma_be_len, lemma_be_round_trip, lemma_pow256_16};
use crate::types::{Addr, Config, FiatCurrency, Offer, OfferState, OfferType, OfferView, State};

verus! {

pub open spec fn type_tag(t: OfferType) -> u8 {
    match t {
        OfferType::Buy => 0,
        OfferType::Sell => 1,
    }
}

pub open spec fn currency_tag(c: FiatCurrency) -> u8 {
    match c {
        FiatCurrency::BRL => 0,
        FiatCurrency::COP => 1,
        FiatCurrency::USD => 2,
    }
}

pub open spec fn state_tag(s: OfferState) -> u8 {
    match s {
        OfferState::Active => 0,
        OfferState::Paused => 1,
    }
}

/// Length of the fixed part of an offer record, before the owner's bytes.
pub const OFFER_HEAD: usize = 43;

/// An offer record: id (8 bytes), three tags, the two amounts (16 bytes
/// each, big-endian), then the owner's bytes.
pub open spec fn encode_offer(o: OfferView) -> Seq<u8> {
    be_bytes(o.id as nat, 8) + seq![type_tag(o.offer_type), currency_tag(o.fiat_currency), state_tag(o.state)]
        + be_bytes(o.min_amount as nat, 16) + be_bytes(o.max_amount as nat, 16) + o.owner
}

/// A state record: the offer count, big-endian.
pub open spec fn encode_state(s: State) -> Seq<u8> {
    be_bytes(s.offers_count as nat, 8)
}

/// A config record: a format byte, then the factory address.
pub open spec fn encode_config(addr: Seq<u8>) -> Seq<u8> {
    seq![1u8] + addr
}

proof fn lemma_offer_record_layout(o: OfferView)
    ensures
        encode_offer(o).len() == OFFER_HEAD + o.owner.len(),
        encode_offer(o).subrange(0, 8) == be_bytes(o.id as nat, 8),
        encode_offer(o)[8] == type_tag(o.offer_type),
        encode_offer(o)[9] == currency_tag(o.fiat_currency),
        encode_offer(o)[10] == state_tag(o.state),
        encode_offer(o).subrange(11, 27) == be_bytes(o.min_amount as nat, 16),
        encode_offer(o).subrange(27, 43) == be_bytes(o.max_amount as nat, 16),
        encode_offer(o).subrange(43, encode_offer(o).len() as int) == o.owner,
{
    lemma_be_len(o.id as nat, 8);
    lemma_be_len(o.min_amount as nat, 16);
    lemma_be_len(o.max_amount as nat, 16);
    let e = encode_offer(o);
    assert(e.subrange(0, 8) =~= be_bytes(o.id as nat, 8));
    assert(e.subrange(11, 27) =~= be_bytes(o.min_amount as nat, 16));
    assert(e.subrange(27, 43) =~= be_bytes(o.max_amount as nat, 16));
    assert(e.subrange(43, e.len() as int) =~= o.owner);
}

pub fn encode_offer_record(offer: &Offer) -> (r: Vec<u8>)
    ensures
        r@ == encode_offer(offer@),
        r@.len() > 0,
{
    let mut out: Vec<u8> = Vec::new();
    push_be(&mut out, offer.id as u128, 8);
    out.push(match offer.offer_type {
        OfferType::Buy => 0u8,
        OfferType::Sell => 1u8,
    });
    out.push(match offer.fiat_currency {
        FiatCurrency::BRL => 0u8,
        FiatCurrency::COP => 1u8,
        FiatCurrency::USD => 2u8,
    });
    out.push(match offer.state {
        OfferState::Active => 0u8,
        OfferState::Paused => 1u8,
    });
    push_be(&mut out, offer.min_amount, 16);
    push_be(&mut out, offer.max_amount, 16);
    let mut i: usize = 0;
    let ghost head = out@;
    while i < offer.owner.bytes.len()
        invariant
            i <= offer.owner.bytes@.len(),
            out@ == head + offer.owner.bytes@.subrange(0, i as int),
        decreases offer.owner.bytes@.len() - i,
    {
        out.push(offer.owner.bytes[i]);
        i = i + 1;
        assert(out@ =~= head + offer.owner.bytes@.subrange(0, i as int));
    }
    proof {
        lemma_be_len(offer.id as nat, 8);
        assert(out@ =~= encode_offer(offer@));
    }
    out
}

/// Reads an offer record; gives back the offer that any well-formed record
/// was made from.
pub fn decode_offer_record(bytes: &Vec<u8>) -> (r: Option<Offer>)
    ensures
        forall|v: OfferView| #[trigger] encode_offer(v) == bytes@ ==> (r matches Some(o) && o@ == v),
{
    let n: usize = bytes.len();
    if n < OFFER_HEAD {
        proof {
            assert forall|v: OfferView| #[trigger] encode_offer(v) == bytes@ implies false by {
                lemma_offer_record_layout(v);
            }
        }
        return None;
    }
    let id: u128 = read_be(bytes, 0, 8);
    let offer_type = match bytes[8] {
        0 => OfferType::Buy,
        1 => OfferType::Sell,
        _ => {
            proof {
                assert forall|v: OfferView| #[trigger] encode_offer(v) == bytes@ implies false by {
                    lemma_offer_record_layout(v);
                }
            }
            return None;
        },
    };
    let fiat_currency = match bytes[9] {
        0 => FiatCurrency::BRL,
        1 => FiatCurrency::COP,
        2 => FiatCurrency::USD,
        _ => {
            proof {
                assert forall|v: OfferView| #[trigger] encode_offer(v) == bytes@ implies false by {
                    lemma_offer_record_layout(v);
                }
            }
            return None;
        },
    };
    let state = match bytes[10] {
        0 => OfferState::Active,
        1 => OfferState::Paused,
        _ => {
            proof {
                assert forall|v: OfferView| #[trigger] encode_offer(v) == bytes@ implies false by {
                    lemma_offer_record_layout(v);
                }
            }
            return None;
        },
    };
    let min_amount: u128 = read_be(bytes, 11, 16);
    let max_amount: u128 = read_be(bytes, 27, 16);
    let mut owner: Vec<u8> = Vec::new();
    let mut i: usize = 43;
    while i < n
        invariant
            43 <= i <= n,
            n == bytes@.len(),
            owner@ == bytes@.subrange(43, i as int),
        decreases n - i,
    {
        owner.push(bytes[i]);
        i = i + 1;
        assert(owner@ =~= bytes@.subrange(43, i as int));
    }
    if id > u64::MAX as u128 {
        proof {
            assert forall|v: OfferView| #[trigger] encode_offer(v) == bytes@ implies false by {
                lemma_offer_record_layout(v);
                lemma_pow256_16();
                lemma_be_round_trip(v.id as nat, 8);
            }
        }
        return None;
    }
    let offer = Offer {
        id: id as u64,
        owner: Addr { bytes: owner },
        offer_type,
        fiat_currency,
        min_amount,
        max_amount,
        state,
    };
    proof {
        assert forall|v: OfferView| #[trigger] encode_offer(v) == bytes@ implies offer@ == v by {
            lemma_offer_record_layout(v);
            lemma_pow256_16();
            lemma_be_round_trip(v.id as nat, 8);
            lemma_be_round_trip(v.min_amount as nat, 16);
            lemma_be_round_trip(v.max_amount as nat, 16);
            assert(offer@.owner =~= v.owner);
        }
    }
    Some(offer)
}

pub fn encode_state_record(s: &State) -> (r: Vec<u8>)
    ensures
        r@ == encode_state(*s),
        r@.len() > 0,
{
    let mut out: Vec<u8> = Vec::new();
    push_be(&mut out, s.offers_count as u128, 8);
    proof {
        lemma_be_len(s.offers_count as nat, 8);
        assert(out@ =~= encode_state(*s));
    }
    out
}

pub fn decode_state_record(bytes: &Vec<u8>) -> (r: Option<State>)
    ensures
        forall|s: State| #[trigger] encode_state(s) == bytes@ ==> r == Some(s),
{
    if bytes.len() != 8 {
        proof {
            assert forall|s: State| #[trigger] encode_state(s) == bytes@ implies false by {
                lemma_be_len(s.offers_count as nat, 8);
            }
        }
        return None;
    }
    let n: u128 = read_be(bytes, 0, 8);
    if n > u64::MAX as u128 {
        proof {
            assert forall|s: State| #[trigger] encode_state(s) == bytes@ implies false by {
                lemma_pow256_16();
                lemma_be_round_trip(s.offers_count as nat, 8);
                assert(bytes@.subrange(0, 8) =~= bytes@);
            }
        }
        return None;
    }
    proof {
        assert forall|s: State| #[trigger] encode_state(s) == bytes@ implies s.offers_count == n by {
            lemma_pow256_16();
            lemma_be_round_trip(s.offers_count as nat, 8);
            assert(bytes@.subrange(0, 8) =~= bytes@);
        }
    }
    Some(State { offers_count: n as u64 })
}

pub fn encode_config_record(c: &Config) -> (r: Vec<u8>)
    ensures
        r@ == encode_config(c.factory_addr@),
        r@.len() > 0,
{
    let mut out: Vec<u8> = Vec::new();
    out.push(1u8);
    let mut i: usize = 0;
    while i < c.factory_addr.bytes.len()
        invariant
            i <= c.factory_addr.bytes@.len(),
            out@ == seq![1u8] + c.factory_addr.bytes@.subrange(0, i as int),
        decreases c.factory_addr.bytes@.len() - i,
    {
        out.push(c.factory_addr.bytes[i]);
        i = i + 1;
        assert(out@ =~= seq![1u8] + c.factory_addr.bytes@.subrange(0, i as int));
    }
    assert(out@ =~= encode_config(c.factory_addr@));
    out
}

pub fn decode_config_record(bytes: &Vec<u8>) -> (r: Option<Config>)
    ensures
        forall|a: Seq<u8>| #[trigger] encode_config(a) == bytes@ ==> (r matches Some(c) && c.factory_addr@ == a),
{
    let n: usize = bytes.len();
    if n == 0 || bytes[0] != 1 {
        return None;
    }
    let mut addr: Vec<u8> = Vec::new();
    let mut i: usize = 1;
    while i < n
        invariant
            1 <= i <= n,
            n == bytes@.len(),
            addr@ == bytes@.subrange(1, i as int),
        decreases n - i,
    {
        addr.push(bytes[i]);
        i = i + 1;
        assert(addr@ =~= bytes@.subrange(1, i as int));
    }
    proof {
        assert forall|a: Seq<u8>| #[trigger] encode_config(a) == bytes@ implies addr@ == a by {
            assert(a =~= bytes@.subrange(1, n as int));
        }
    }
    Some(Config { factory_addr: Addr { bytes: addr } })
}

} // verus!
