use offer_registry::codec::{decode_offer_record, encode_offer_record};
use offer_registry::{
    assert_min_g_max, assert_ownership, Addr, Config, FiatCurrency, Offer, OfferError, OfferModel,
    OfferMsg, OfferState, OfferStore, OfferType, State,
};

fn offer(id: u64, currency: FiatCurrency) -> Offer {
    Offer {
        id,
        owner: Addr::unchecked("maker"),
        offer_type: OfferType::Buy,
        fiat_currency: currency,
        min_amount: 100,
        max_amount: 500,
        state: OfferState::Active,
    }
}

fn ids(offers: &[Offer]) -> Vec<u64> {
    offers.iter().map(|o| o.id).collect()
}

fn key(id: u64) -> Vec<u8> {
    id.to_be_bytes().to_vec()
}

#[test]
fn min_below_max_is_accepted() {
    assert!(assert_min_g_max(1, 2).is_ok());
    assert!(assert_min_g_max(0, u64::MAX).is_ok());
}

#[test]
fn min_not_below_max_is_refused() {
    assert_eq!(assert_min_g_max(2, 2), Err(OfferError::InvalidRange));
    assert_eq!(assert_min_g_max(3, 2), Err(OfferError::InvalidRange));
    assert_eq!(assert_min_g_max(u64::MAX, 0), Err(OfferError::InvalidRange));
}

#[test]
fn owner_may_change_offer() {
    assert!(assert_ownership(Addr::unchecked("alice"), Addr::unchecked("alice")).is_ok());
}

#[test]
fn stranger_is_unauthorized() {
    let r = assert_ownership(Addr::unchecked("alice"), Addr::unchecked("bob"));
    assert_eq!(
        r,
        Err(OfferError::Unauthorized { owner: Addr::unchecked("bob"), caller: Addr::unchecked("alice") })
    );
    let r = assert_ownership(Addr::unchecked("alice"), Addr::unchecked("alic"));
    assert!(r.is_err());
}

#[test]
fn store_then_fetch_round_trip() {
    let mut store = OfferStore::new();
    let o = Offer {
        id: u64::MAX,
        owner: Addr::unchecked("terra1owner"),
        offer_type: OfferType::Sell,
        fiat_currency: FiatCurrency::COP,
        min_amount: 7,
        max_amount: u128::MAX,
        state: OfferState::Paused,
    };
    assert!(OfferModel::store(&mut store, &o).is_ok());
    assert_eq!(OfferModel::fetch(&store, u64::MAX), Ok(o.clone()));
    let m = OfferModel::may_load(&store, u64::MAX).unwrap();
    assert_eq!(m.offer, o);
}

#[test]
fn store_replaces_earlier_record() {
    let mut store = OfferStore::new();
    OfferModel::store(&mut store, &offer(4, FiatCurrency::BRL)).unwrap();
    let mut o = offer(4, FiatCurrency::USD);
    o.max_amount = 9000;
    OfferModel::store(&mut store, &o).unwrap();
    assert_eq!(OfferModel::fetch(&store, 4), Ok(o));
}

#[test]
fn fetch_missing_is_not_found() {
    let mut store = OfferStore::new();
    assert_eq!(OfferModel::fetch(&store, 1), Err(OfferError::NotFound { id: 1 }));
    OfferModel::store(&mut store, &offer(2, FiatCurrency::BRL)).unwrap();
    assert_eq!(OfferModel::fetch(&store, 1), Err(OfferError::NotFound { id: 1 }));
    assert!(matches!(OfferModel::may_load(&store, 3), Err(OfferError::NotFound { id: 3 })));
}

#[test]
fn create_stores_and_save_writes_back() {
    let mut store = OfferStore::new();
    let mut m = OfferModel::create(&mut store, offer(1, FiatCurrency::BRL));
    assert_eq!(OfferModel::fetch(&store, 1), Ok(offer(1, FiatCurrency::BRL)));
    m.offer.min_amount = 1;
    let saved = m.save(&mut store);
    assert_eq!(saved.min_amount, 1);
    assert_eq!(OfferModel::fetch(&store, 1).unwrap().min_amount, 1);
}

#[test]
fn pause_then_activate_returns_to_active() {
    let mut store = OfferStore::new();
    let mut m = OfferModel::create(&mut store, offer(1, FiatCurrency::BRL));
    let p = m.pause(&mut store).unwrap();
    assert_eq!(p.state, OfferState::Paused);
    assert_eq!(OfferModel::fetch(&store, 1).unwrap().state, OfferState::Paused);
    let a = m.activate(&mut store).unwrap();
    assert_eq!(a, offer(1, FiatCurrency::BRL));
    assert_eq!(OfferModel::fetch(&store, 1).unwrap().state, OfferState::Active);
}

#[test]
fn activate_on_active_fails() {
    let mut store = OfferStore::new();
    let mut m = OfferModel::create(&mut store, offer(1, FiatCurrency::BRL));
    assert_eq!(
        m.activate(&mut store),
        Err(OfferError::InvalidStateChange { from: OfferState::Active, to: OfferState::Active })
    );
    assert_eq!(m.offer.state, OfferState::Active);
}

#[test]
fn pause_on_paused_fails() {
    let mut store = OfferStore::new();
    let mut o = offer(1, FiatCurrency::BRL);
    o.state = OfferState::Paused;
    let mut m = OfferModel::create(&mut store, o);
    assert_eq!(
        m.pause(&mut store),
        Err(OfferError::InvalidStateChange { from: OfferState::Paused, to: OfferState::Paused })
    );
    assert_eq!(OfferModel::fetch(&store, 1).unwrap().state, OfferState::Paused);
}

#[test]
fn update_keeps_id_owner_and_state() {
    let mut store = OfferStore::new();
    let mut o = offer(9, FiatCurrency::BRL);
    o.state = OfferState::Paused;
    OfferModel::store(&mut store, &o).unwrap();
    let mut m = OfferModel::may_load(&store, 9).unwrap();
    let msg = OfferMsg {
        offer_type: OfferType::Sell,
        fiat_currency: FiatCurrency::USD,
        min_amount: 30,
        max_amount: 10,
    };
    let u = m.update(&mut store, msg);
    assert_eq!(u.id, 9);
    assert_eq!(u.owner, Addr::unchecked("maker"));
    assert_eq!(u.state, OfferState::Paused);
    assert_eq!(u.offer_type, OfferType::Sell);
    assert_eq!(u.fiat_currency, FiatCurrency::USD);
    assert_eq!(u.min_amount, 30);
    assert_eq!(u.max_amount, 10);
    assert_eq!(OfferModel::fetch(&store, 9), Ok(u));
}

fn ten_offers_in(currency: FiatCurrency) -> OfferStore {
    let mut store = OfferStore::new();
    for id in 1..=10u64 {
        OfferModel::store(&mut store, &offer(id, currency)).unwrap();
    }
    store
}

#[test]
fn pages_follow_the_cursor() {
    let store = ten_offers_in(FiatCurrency::USD);
    let first = OfferModel::query_page(&store, FiatCurrency::USD, key(0), 3).unwrap();
    assert_eq!(ids(&first), vec![1, 2, 3]);
    let second = OfferModel::query_page(&store, FiatCurrency::USD, key(3), 3).unwrap();
    assert_eq!(ids(&second), vec![4, 5, 6]);
    let last = OfferModel::query_page(&store, FiatCurrency::USD, key(9), 3).unwrap();
    assert_eq!(ids(&last), vec![10]);
    let none = OfferModel::query_page(&store, FiatCurrency::USD, key(10), 3).unwrap();
    assert!(none.is_empty());
}

#[test]
fn empty_cursor_starts_at_the_first_offer() {
    let store = ten_offers_in(FiatCurrency::USD);
    let first = OfferModel::query_page(&store, FiatCurrency::USD, Vec::new(), 3).unwrap();
    assert_eq!(ids(&first), vec![1, 2, 3]);
    let zero = OfferModel::query_page(&store, FiatCurrency::USD, Vec::new(), 0).unwrap();
    assert!(zero.is_empty());
}

#[test]
fn page_is_cut_before_filtering() {
    let mut store = OfferStore::new();
    for id in 1..=4u64 {
        OfferModel::store(&mut store, &offer(id, FiatCurrency::BRL)).unwrap();
    }
    OfferModel::store(&mut store, &offer(5, FiatCurrency::USD)).unwrap();
    let page = OfferModel::query_page(&store, FiatCurrency::USD, key(0), 3).unwrap();
    assert!(page.is_empty());
    let rest = OfferModel::query_page(&store, FiatCurrency::USD, key(3), 3).unwrap();
    assert_eq!(ids(&rest), vec![5]);
}

#[test]
fn page_keeps_only_the_currency() {
    let mut store = OfferStore::new();
    for id in 1..=6u64 {
        let c = if id % 2 == 0 { FiatCurrency::COP } else { FiatCurrency::BRL };
        OfferModel::store(&mut store, &offer(id, c)).unwrap();
    }
    let page = OfferModel::query_page(&store, FiatCurrency::COP, key(0), 4).unwrap();
    assert_eq!(ids(&page), vec![2, 4]);
}

#[test]
fn query_all_is_ascending_and_filtered() {
    let mut store = OfferStore::new();
    for id in [7u64, 300, 2, 256, 1, 40] {
        let c = if id == 40 { FiatCurrency::BRL } else { FiatCurrency::USD };
        OfferModel::store(&mut store, &offer(id, c)).unwrap();
    }
    store.set_state(&State { offers_count: 6 });
    store.set_config(&Config { factory_addr: Addr::unchecked("factory") });
    let all = OfferModel::query_all_offers(&store, FiatCurrency::USD).unwrap();
    assert_eq!(ids(&all), vec![1, 2, 7, 256, 300]);
    assert!(all.iter().all(|o| o.fiat_currency == FiatCurrency::USD));
    let brl = OfferModel::query_all_offers(&store, FiatCurrency::BRL).unwrap();
    assert_eq!(ids(&brl), vec![40]);
    let cop = OfferModel::query_all_offers(&store, FiatCurrency::COP).unwrap();
    assert!(cop.is_empty());
}

#[test]
fn query_all_on_empty_store() {
    let store = OfferStore::new();
    assert!(OfferModel::query_all_offers(&store, FiatCurrency::USD).unwrap().is_empty());
}

#[test]
fn singletons_are_replaced_whole() {
    let mut store = OfferStore::new();
    assert_eq!(store.get_state(), None);
    assert_eq!(store.get_config(), None);
    store.set_state(&State { offers_count: 1 });
    store.set_state(&State { offers_count: 258 });
    assert_eq!(store.get_state(), Some(State { offers_count: 258 }));
    store.set_config(&Config { factory_addr: Addr::unchecked("factory") });
    assert_eq!(store.get_config(), Some(Config { factory_addr: Addr::unchecked("factory") }));
    OfferModel::store(&mut store, &offer(1, FiatCurrency::BRL)).unwrap();
    assert_eq!(store.get_state(), Some(State { offers_count: 258 }));
}

#[test]
fn offer_record_layout() {
    let o = Offer {
        id: 258,
        owner: Addr::unchecked("ab"),
        offer_type: OfferType::Sell,
        fiat_currency: FiatCurrency::USD,
        min_amount: 1,
        max_amount: 65536,
        state: OfferState::Paused,
    };
    let bytes = encode_offer_record(&o);
    let mut expected = vec![0, 0, 0, 0, 0, 0, 1, 2, 1, 2, 1];
    expected.extend_from_slice(&1u128.to_be_bytes());
    expected.extend_from_slice(&65536u128.to_be_bytes());
    expected.extend_from_slice(b"ab");
    assert_eq!(bytes, expected);
    assert_eq!(decode_offer_record(&bytes), Some(o));
}

#[test]
fn malformed_offer_record_is_refused() {
    assert_eq!(decode_offer_record(&vec![1, 2, 3]), None);
    let mut bytes = encode_offer_record(&offer(1, FiatCurrency::BRL));
    bytes[9] = 7;
    assert_eq!(decode_offer_record(&bytes), None);
}

#[test]
fn offer_type_displays_its_name() {
    assert_eq!(OfferType::Buy.fmt(), "Buy");
    assert_eq!(OfferType::Sell.fmt(), "Sell");
}
