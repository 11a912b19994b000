use vstd::prelude::*;
use cosmwasm_std::MemoryStorage;
use crate::codec::{
    decode_config_record, decode_offer_record, decode_state_record, encode_config,
    encode_config_record, encode_offer, encode_offer_record, encode_state, encode_state_record,
};
use crate::keys::{
    be_bytes, from_be, lex_lt, push_be, lemma_be_len, lemma_be_order_iff, lemma_be_round_trip,
    lemma_lex_prefix, lemma_lex_successor, lemma_pow256_16,
};
use crate::storage::{record_keys, storage_entries, storage_get, storage_new, storage_range, storage_set};
use crate::types::{Config, FiatCurrency, Offer, OfferError, OfferView, State};

verus! {

/// Namespace of the offer records: `offers`.
pub open spec fn offers_ns() -> Seq<u8> {
    seq![111u8, 102, 102, 101, 114, 115]
}

/// The least key above every key of the offer namespace: `offert`.
pub open spec fn offers_ns_end() -> Seq<u8> {
    seq![111u8, 102, 102, 101, 114, 116]
}

/// Key of the config record: `config`.
pub open spec fn config_key() -> Seq<u8> {
    seq![99u8, 111, 110, 102, 105, 103]
}

/// Key of the state record: `state`.
pub open spec fn state_key() -> Seq<u8> {
    seq![115u8, 116, 97, 116, 101]
}

/// Key of the offer with the given id: the namespace, then the id in eight
/// big-endian bytes.
pub open spec fn offer_key(id: u64) -> Seq<u8> {
    offers_ns() + be_bytes(id as nat, 8)
}

/// The id that an offer key stands for.
pub open spec fn key_id(k: Seq<u8>) -> u64 {
    from_be(k.subrange(6, k.len() as int)) as u64
}

pub proof fn lemma_offer_key(id: u64)
    ensures
        offer_key(id).len() == 14,
        offer_key(id).subrange(0, 6) == offers_ns(),
        offer_key(id).subrange(6, 14) == be_bytes(id as nat, 8),
        key_id(offer_key(id)) == id,
        offer_key(id) != config_key(),
        offer_key(id) != state_key(),
{
    lemma_be_len(id as nat, 8);
    lemma_pow256_16();
    lemma_be_round_trip(id as nat, 8);
    assert(offer_key(id).subrange(0, 6) =~= offers_ns());
    assert(offer_key(id).subrange(6, 14) =~= be_bytes(id as nat, 8));
    assert(config_key().len() == 6);
    assert(state_key().len() == 5);
}

pub proof fn lemma_offer_key_injective(a: u64, b: u64)
    ensures
        offer_key(a) == offer_key(b) <==> a == b,
{
    lemma_offer_key(a);
    lemma_offer_key(b);
}

fn offers_ns_vec() -> (r: Vec<u8>)
    ensures
        r@ == offers_ns(),
{
    let mut r: Vec<u8> = Vec::new();
    r.push(111u8);
    r.push(102u8);
    r.push(102u8);
    r.push(101u8);
    r.push(114u8);
    r.push(115u8);
    assert(r@ =~= offers_ns());
    r
}

fn offers_ns_end_vec() -> (r: Vec<u8>)
    ensures
        r@ == offers_ns_end(),
{
    let mut r: Vec<u8> = Vec::new();
    r.push(111u8);
    r.push(102u8);
    r.push(102u8);
    r.push(101u8);
    r.push(114u8);
    r.push(116u8);
    assert(r@ =~= offers_ns_end());
    r
}

fn config_key_vec() -> (r: Vec<u8>)
    ensures
        r@ == config_key(),
{
    let mut r: Vec<u8> = Vec::new();
    r.push(99u8);
    r.push(111u8);
    r.push(110u8);
    r.push(102u8);
    r.push(105u8);
    r.push(103u8);
    assert(r@ =~= config_key());
    r
}

fn state_key_vec() -> (r: Vec<u8>)
    ensures
        r@ == state_key(),
{
    let mut r: Vec<u8> = Vec::new();
    r.push(115u8);
    r.push(116u8);
    r.push(97u8);
    r.push(116u8);
    r.push(101u8);
    assert(r@ =~= state_key());
    r
}

pub fn offer_key_vec(id: u64) -> (r: Vec<u8>)
    ensures
        r@ == offer_key(id),
{
    let mut r = offers_ns_vec();
    push_be(&mut r, id as u128, 8);
    r
}

pub open spec fn strictly_ascending(q: Seq<u64>) -> bool {
    forall|i: int, j: int| 0 <= i < j < q.len() ==> q[i] < q[j]
}

/// Whether the key of the offer with this id lies strictly after the cursor
/// in key order (the cursor is compared with the id's eight key bytes).
pub open spec fn after_cursor(cursor: Seq<u8>, id: u64) -> bool {
    lex_lt(cursor, be_bytes(id as nat, 8))
}

/// The ids of the held offers whose keys lie after the cursor, ascending.
/// With an empty cursor these are all the ids.
pub open spec fn ids_after(offers: Map<u64, OfferView>, cursor: Seq<u8>) -> Seq<u64> {
    choose|q: Seq<u64>| lists_ids_after(q, offers, cursor)
}

/// `q` lists, ascending, the ids of the held offers whose keys lie after
/// the cursor.
pub open spec fn lists_ids_after(q: Seq<u64>, offers: Map<u64, OfferView>, cursor: Seq<u8>) -> bool {
    &&& strictly_ascending(q)
    &&& forall|x: u64| #[trigger] q.contains(x) <==> (offers.contains_key(x) && after_cursor(cursor, x))
}

/// The offers with the given ids, in that order, that are in the currency.
pub open spec fn select(offers: Map<u64, OfferView>, ids: Seq<u64>, currency: FiatCurrency) -> Seq<OfferView> {
    ids.map_values(|id: u64| offers[id]).filter(|o: OfferView| o.fiat_currency == currency)
}

/// A page: the first `limit` offers after the cursor, of which those in
/// the currency are kept.
pub open spec fn page(offers: Map<u64, OfferView>, cursor: Seq<u8>, limit: nat, currency: FiatCurrency) -> Seq<OfferView> {
    let ids = ids_after(offers, cursor);
    select(offers, if limit < ids.len() { ids.take(limit as int) } else { ids }, currency)
}

proof fn lemma_ascending_unique(a: Seq<u64>, b: Seq<u64>)
    requires
        strictly_ascending(a),
        strictly_ascending(b),
        forall|x: u64| a.contains(x) <==> b.contains(x),
    ensures
        a == b,
    decreases a.len(),
{
    if a.len() == 0 {
        if b.len() > 0 {
            assert(b.contains(b[0]));
        }
        assert(a =~= b);
    } else {
        assert(a.contains(a[0]));
        let j = choose|j: int| 0 <= j < b.len() && b[j] == a[0];
        assert(b.contains(b[0]));
        let k = choose|k: int| 0 <= k < a.len() && a[k] == b[0];
        assert(a[0] <= a[k]);
        assert(b[0] <= b[j]);
        let a1 = a.drop_first();
        let b1 = b.drop_first();
        assert forall|x: u64| a1.contains(x) <==> b1.contains(x) by {
            if a1.contains(x) {
                let i = choose|i: int| 0 <= i < a1.len() && a1[i] == x;
                assert(a[i + 1] == x);
                assert(a.contains(x));
                let m = choose|m: int| 0 <= m < b.len() && b[m] == x;
                assert(m != 0);
                assert(b1[m - 1] == x);
            }
            if b1.contains(x) {
                let i = choose|i: int| 0 <= i < b1.len() && b1[i] == x;
                assert(b[i + 1] == x);
                assert(b.contains(x));
                let m = choose|m: int| 0 <= m < a.len() && a[m] == x;
                assert(m != 0);
                assert(a1[m - 1] == x);
            }
        }
        lemma_ascending_unique(a1, b1);
        assert(a[0] == b[0]);
        assert(a.len() == b.len());
        assert forall|i: int| 0 <= i < a.len() implies a[i] == b[i] by {
            if i > 0 {
                assert(a[i] == a1[i - 1]);
                assert(b[i] == b1[i - 1]);
            }
        }
        assert(a =~= b);
    }
}

proof fn lemma_filter_push(s: Seq<OfferView>, x: OfferView, currency: FiatCurrency)
    ensures
        s.push(x).filter(|o: OfferView| o.fiat_currency == currency) == if x.fiat_currency == currency {
            s.filter(|o: OfferView| o.fiat_currency == currency).push(x)
        } else {
            s.filter(|o: OfferView| o.fiat_currency == currency)
        },
{
    reveal(Seq::filter);
    assert(s.push(x).drop_last() =~= s);
}

/// An offer key lies inside the scanned part of the namespace exactly when
/// its id lies after the cursor.
proof fn lemma_scan_bounds(cursor: Seq<u8>, id: u64)
    ensures
        !lex_lt(offer_key(id), offers_ns() + cursor.push(0)) <==> after_cursor(cursor, id),
        lex_lt(offer_key(id), offers_ns_end()),
{
    lemma_lex_successor(cursor, be_bytes(id as nat, 8));
    lemma_lex_prefix(offers_ns(), be_bytes(id as nat, 8), cursor.push(0));
    let p = offers_ns().take(5);
    let a = seq![115u8] + be_bytes(id as nat, 8);
    let b = seq![116u8];
    assert(offer_key(id) =~= p + a);
    assert(offers_ns_end() =~= p + b);
    lemma_lex_prefix(p, a, b);
    assert(lex_lt(a, b));
}

/// The registry's storage: offers by id, and the config and state records.
pub struct OfferStore {
    storage: MemoryStorage,
    offers: Ghost<Map<u64, OfferView>>,
    config: Ghost<Option<Seq<u8>>>,
    state: Ghost<Option<State>>,
}

impl OfferStore {
    /// The offers held, by id.
    pub closed spec fn offers(&self) -> Map<u64, OfferView> {
        self.offers@
    }

    /// The factory address of the config record, if one was written.
    pub closed spec fn config(&self) -> Option<Seq<u8>> {
        self.config@
    }

    /// The state record, if one was written.
    pub closed spec fn state(&self) -> Option<State> {
        self.state@
    }

    pub closed spec fn entries(&self) -> Map<Seq<u8>, Seq<u8>> {
        storage_entries(self.storage)
    }

    /// Every stored entry is the config record, the state record, or the
    /// record of a held offer under that offer's key.
    pub closed spec fn wf(&self) -> bool {
        let e = storage_entries(self.storage);
        &&& forall|k: Seq<u8>| #[trigger] e.contains_key(k) && k != config_key() && k != state_key()
            ==> self.offers@.contains_key(key_id(k)) && k == offer_key(key_id(k))
        &&& forall|id: u64| #[trigger] self.offers@.contains_key(id) ==> {
            &&& e.contains_key(offer_key(id))
            &&& e[offer_key(id)] == encode_offer(self.offers@[id])
            &&& self.offers@[id].id == id
        }
        &&& match self.config@ {
            Some(a) => e.contains_key(config_key()) && e[config_key()] == encode_config(a),
            None => !e.contains_key(config_key()),
        }
        &&& match self.state@ {
            Some(s) => e.contains_key(state_key()) && e[state_key()] == encode_state(s),
            None => !e.contains_key(state_key()),
        }
    }

    /// An empty store.
    pub fn new() -> (r: OfferStore)
        ensures
            r.wf(),
            r.offers() == Map::<u64, OfferView>::empty(),
            r.config() is None,
            r.state() is None,
    {
        OfferStore {
            storage: storage_new(),
            offers: Ghost(Map::empty()),
            config: Ghost(None),
            state: Ghost(None),
        }
    }

    /// Writes the offer under its id, replacing any earlier record.
    pub fn put_offer(&mut self, offer: &Offer)
        requires
            old(self).wf(),
        ensures
            final(self).wf(),
            final(self).offers() == old(self).offers().insert(offer.id, offer@),
            final(self).config() == old(self).config(),
            final(self).state() == old(self).state(),
    {
        let key = offer_key_vec(offer.id);
        let value = encode_offer_record(offer);
        storage_set(&mut self.storage, &key, &value);
        self.offers = Ghost(self.offers@.insert(offer.id, offer@));
        proof {
            lemma_offer_key(offer.id);
            assert(config_key() != state_key());
            let e = storage_entries(self.storage);
            assert forall|k: Seq<u8>| #[trigger] e.contains_key(k) && k != config_key() && k != state_key()
                implies self.offers@.contains_key(key_id(k)) && k == offer_key(key_id(k)) by {
                if k != offer_key(offer.id) {
                    assert(old(self).entries().contains_key(k));
                }
            }
            assert forall|id: u64| #[trigger] self.offers@.contains_key(id) implies {
                &&& e.contains_key(offer_key(id))
                &&& e[offer_key(id)] == encode_offer(self.offers@[id])
                &&& self.offers@[id].id == id
            } by {
                lemma_offer_key_injective(id, offer.id);
            }
        }
    }

    /// The offer with the given id, or `NotFound` where none is held.
    pub fn get_offer(&self, id: u64) -> (r: Result<Offer, OfferError>)
        requires
            self.wf(),
        ensures
            r is Ok <==> self.offers().contains_key(id),
            r matches Ok(o) ==> o@ == self.offers()[id],
            r matches Err(e) ==> e == (OfferError::NotFound { id }),
    {
        let key = offer_key_vec(id);
        proof {
            lemma_offer_key(id);
        }
        match storage_get(&self.storage, &key) {
            None => Err(OfferError::NotFound { id }),
            Some(bytes) => {
                proof {
                    assert(self.entries().contains_key(key@));
                }
                match decode_offer_record(&bytes) {
                    Some(o) => Ok(o),
                    None => {
                        proof {
                            assert(encode_offer(self.offers@[id]) == bytes@);
                        }
                        Err(OfferError::StorageFailure)
                    },
                }
            },
        }
    }

    /// Replaces the config record.
    pub fn set_config(&mut self, config: &Config)
        requires
            old(self).wf(),
        ensures
            final(self).wf(),
            final(self).config() == Some(config.factory_addr@),
            final(self).offers() == old(self).offers(),
            final(self).state() == old(self).state(),
    {
        let key = config_key_vec();
        let value = encode_config_record(config);
        storage_set(&mut self.storage, &key, &value);
        self.config = Ghost(Some(config.factory_addr@));
        proof {
            assert(config_key() != state_key());
            let e = storage_entries(self.storage);
            assert forall|k: Seq<u8>| #[trigger] e.contains_key(k) && k != config_key() && k != state_key()
                implies self.offers@.contains_key(key_id(k)) && k == offer_key(key_id(k)) by {
                assert(old(self).entries().contains_key(k));
            }
            assert forall|id: u64| #[trigger] self.offers@.contains_key(id) implies {
                &&& e.contains_key(offer_key(id))
                &&& e[offer_key(id)] == encode_offer(self.offers@[id])
                &&& self.offers@[id].id == id
            } by {
                lemma_offer_key(id);
            }
        }
    }

    /// The config record, if one was written.
    pub fn get_config(&self) -> (r: Option<Config>)
        requires
            self.wf(),
        ensures
            r is Some <==> self.config() is Some,
            r matches Some(c) ==> self.config() == Some(c.factory_addr@),
    {
        let key = config_key_vec();
        match storage_get(&self.storage, &key) {
            None => None,
            Some(bytes) => decode_config_record(&bytes),
        }
    }

    /// Replaces the state record.
    pub fn set_state(&mut self, state: &State)
        requires
            old(self).wf(),
        ensures
            final(self).wf(),
            final(self).state() == Some(*state),
            final(self).offers() == old(self).offers(),
            final(self).config() == old(self).config(),
    {
        let key = state_key_vec();
        let value = encode_state_record(state);
        storage_set(&mut self.storage, &key, &value);
        self.state = Ghost(Some(*state));
        proof {
            assert(config_key() != state_key());
            let e = storage_entries(self.storage);
            assert forall|k: Seq<u8>| #[trigger] e.contains_key(k) && k != config_key() && k != state_key()
                implies self.offers@.contains_key(key_id(k)) && k == offer_key(key_id(k)) by {
                assert(old(self).entries().contains_key(k));
            }
            assert forall|id: u64| #[trigger] self.offers@.contains_key(id) implies {
                &&& e.contains_key(offer_key(id))
                &&& e[offer_key(id)] == encode_offer(self.offers@[id])
                &&& self.offers@[id].id == id
            } by {
                lemma_offer_key(id);
            }
        }
    }

    /// The state record, if one was written.
    pub fn get_state(&self) -> (r: Option<State>)
        requires
            self.wf(),
        ensures
            r == self.state(),
    {
        let key = state_key_vec();
        match storage_get(&self.storage, &key) {
            None => None,
            Some(bytes) => decode_state_record(&bytes),
        }
    }

    /// The offers whose keys lie after the cursor: of the first `limit` of
    /// them in ascending key order, those in the currency. The page can be
    /// shorter than `limit` while more offers in the currency follow.
    pub fn scan_offers(&self, cursor: &Vec<u8>, limit: usize, currency: FiatCurrency) -> (r: Result<Vec<Offer>, OfferError>)
        requires
            self.wf(),
        ensures
            r matches Ok(v) && v@.map_values(|o: Offer| o@) == page(self.offers(), cursor@, limit as nat, currency),
            r matches Ok(v) ==> forall|i: int, j: int| 0 <= i < j < v@.len() ==> v@[i].id < v@[j].id,
            r matches Ok(v) ==> forall|i: int| 0 <= i < v@.len() ==> v@[i].fiat_currency == currency,
            ids_after(self.offers(), cursor@).len() <= usize::MAX,
    {
        let mut start = offers_ns_vec();
        let mut c: usize = 0;
        while c < cursor.len()
            invariant
                c <= cursor@.len(),
                start@ == offers_ns() + cursor@.subrange(0, c as int),
            decreases cursor@.len() - c,
        {
            start.push(cursor[c]);
            c = c + 1;
            assert(start@ =~= offers_ns() + cursor@.subrange(0, c as int));
        }
        start.push(0u8);
        assert(start@ =~= offers_ns() + cursor@.push(0));
        let end = offers_ns_end_vec();
        let ents = storage_range(&self.storage, &start, &end);
        let ghost e = storage_entries(self.storage);
        let ghost ids: Seq<u64> = ents@.map_values(|p: (Vec<u8>, Vec<u8>)| key_id(p.0@));
        proof {
            assert(lex_lt(config_key(), start@));
            assert(!lex_lt(state_key(), end@));
            assert forall|i: int| 0 <= i < ents@.len() implies {
                &&& ents@[i].0@ == offer_key(#[trigger] ids[i])
                &&& self.offers@.contains_key(ids[i])
                &&& ents@[i].1@ == encode_offer(self.offers@[ids[i]])
                &&& after_cursor(cursor@, ids[i])
            } by {
                let k = ents@[i].0@;
                assert(e.contains_key(k));
                assert(k != config_key());
                assert(k != state_key());
                lemma_scan_bounds(cursor@, ids[i]);
            }
            assert forall|i: int, j: int| 0 <= i < j < ids.len() implies ids[i] < ids[j] by {
                assert(lex_lt(ents@[i].0@, ents@[j].0@));
                lemma_lex_prefix(offers_ns(), be_bytes(ids[i] as nat, 8), be_bytes(ids[j] as nat, 8));
                lemma_pow256_16();
                lemma_be_order_iff(ids[i] as nat, ids[j] as nat, 8);
            }
            assert forall|x: u64| ids.contains(x) <==> (self.offers@.contains_key(x) && after_cursor(cursor@, x)) by {
                if ids.contains(x) {
                    let i = choose|i: int| 0 <= i < ids.len() && ids[i] == x;
                    assert(ents@[i].0@ == offer_key(ids[i]));
                }
                if self.offers@.contains_key(x) && after_cursor(cursor@, x) {
                    let k = offer_key(x);
                    lemma_scan_bounds(cursor@, x);
                    lemma_offer_key(x);
                    assert(e.contains_key(k));
                    assert(record_keys(ents@).contains(k));
                    let i = choose|i: int| 0 <= i < record_keys(ents@).len() && record_keys(ents@)[i] == k;
                    assert(ents@[i].0@ == k);
                    assert(ids[i] == x);
                }
            }
            assert(lists_ids_after(ids, self.offers@, cursor@));
            lemma_ascending_unique(ids, ids_after(self.offers@, cursor@));
        }
        let n: usize = if limit < ents.len() { limit } else { ents.len() };
        assert(ids.len() <= usize::MAX);
        let ghost scanned = if (limit as nat) < ids.len() { ids.take(limit as int) } else { ids };
        assert(scanned =~= ids.take(n as int));
        let mut out: Vec<Offer> = Vec::new();
        let mut i: usize = 0;
        while i < n
            invariant
                self.wf(),
                i <= n <= ents@.len(),
                ids.len() == ents@.len(),
                strictly_ascending(ids),
                forall|j: int| 0 <= j < ents@.len() ==> {
                    &&& ents@[j].0@ == offer_key(#[trigger] ids[j])
                    &&& self.offers@.contains_key(ids[j])
                    &&& ents@[j].1@ == encode_offer(self.offers@[ids[j]])
                },
                out@.map_values(|o: Offer| o@) == select(self.offers@, ids.take(i as int), currency),
                forall|a: int, b: int| 0 <= a < b < out@.len() ==> out@[a].id < out@[b].id,
                forall|a: int| 0 <= a < out@.len() ==> out@[a].fiat_currency == currency,
                forall|a: int| 0 <= a < out@.len() ==> i > 0 && out@[a].id <= ids[i - 1],
            decreases n - i,
        {
            let o = match decode_offer_record(&ents[i].1) {
                Some(o) => o,
                None => {
                    assert(encode_offer(self.offers@[ids[i as int]]) == ents@[i as int].1@);
                    return Err(OfferError::StorageFailure);
                },
            };
            proof {
                assert(o@ == self.offers@[ids[i as int]]);
                assert(o.id == ids[i as int]);
                let f = |id: u64| self.offers@[id];
                assert(ids.take(i + 1).map_values(f) =~= ids.take(i as int).map_values(f).push(f(ids[i as int])));
                lemma_filter_push(ids.take(i as int).map_values(f), o@, currency);
            }
            let ghost before = out@;
            if o.fiat_currency.same_as(&currency) {
                out.push(o);
                assert(out@.map_values(|o: Offer| o@) =~= before.map_values(|o: Offer| o@).push(out@[out@.len() - 1]@));
            }
            i = i + 1;
        }
        Ok(out)
    }
}

} // verus!
