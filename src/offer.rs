use vstd::prelude::*;
use crate::store::{page, select, ids_after, OfferStore};
use crate::types::{FiatCurrency, Offer, OfferError, OfferMsg, OfferState, OfferView};

verus! {

/// The offer after `activate`, which is allowed from `Paused` only.
pub open spec fn activated(o: OfferView) -> Option<OfferView> {
    match o.state {
        OfferState::Paused => Some(OfferView { state: OfferState::Active, ..o }),
        OfferState::Active => None,
    }
}

/// The offer after `pause`, which is allowed from `Active` only.
pub open spec fn paused(o: OfferView) -> Option<OfferView> {
    match o.state {
        OfferState::Active => Some(OfferView { state: OfferState::Paused, ..o }),
        OfferState::Paused => None,
    }
}

/// The offer after `update`: the owner's fields replaced, the rest kept.
pub open spec fn updated(o: OfferView, msg: OfferMsg) -> OfferView {
    OfferView {
        offer_type: msg.offer_type,
        fiat_currency: msg.fiat_currency,
        min_amount: msg.min_amount as u128,
        max_amount: msg.max_amount as u128,
        ..o
    }
}

/// Every offer held in the store, ascending by id, of which those in the
/// currency are kept.
pub open spec fn listing(offers: Map<u64, OfferView>, currency: FiatCurrency) -> Seq<OfferView> {
    select(offers, ids_after(offers, Seq::empty()), currency)
}

/// Storing an offer and then loading its id gives back an offer equal to it
/// in every field: after a store the offers are the earlier ones with this
/// offer under its id, and a load hands out what is held under the id.
pub proof fn law_store_then_load(before: OfferStore, after: OfferStore, offer: OfferView)
    requires
        after.offers() == before.offers().insert(offer.id, offer),
    ensures
        after.offers().contains_key(offer.id),
        after.offers()[offer.id] == offer,
{
}

/// From `Active`, pausing and then activating gives the offer back as it
/// was; activating an `Active` offer and pausing a `Paused` one are refused.
pub proof fn law_state_machine(o: OfferView)
    ensures
        o.state == OfferState::Active ==> {
            &&& activated(o) is None
            &&& paused(o) matches Some(p) && activated(p) == Some(o)
        },
        o.state == OfferState::Paused ==> paused(o) is None,
{
    if o.state == OfferState::Active {
        let p = paused(o)->Some_0;
        assert(activated(p)->Some_0 == o);
    }
}

/// An update never changes the id, the owner or the state.
pub proof fn law_update_keeps_identity(o: OfferView, msg: OfferMsg)
    ensures
        updated(o, msg).id == o.id,
        updated(o, msg).owner == o.owner,
        updated(o, msg).state == o.state,
{
}

/// An offer loaded for a change that is then written back.
pub struct OfferModel {
    pub offer: Offer,
}

impl OfferModel {
    /// Writes the offer under its id; an earlier record of that id is replaced.
    pub fn store(storage: &mut OfferStore, offer: &Offer) -> (r: Result<(), OfferError>)
        requires
            old(storage).wf(),
        ensures
            r is Ok,
            final(storage).wf(),
            final(storage).offers() == old(storage).offers().insert(offer.id, offer@),
            final(storage).config() == old(storage).config(),
            final(storage).state() == old(storage).state(),
    {
        storage.put_offer(offer);
        Ok(())
    }

    /// The offer with the given id; `NotFound` where there is none.
    pub fn fetch(storage: &OfferStore, id: u64) -> (r: Result<Offer, OfferError>)
        requires
            storage.wf(),
        ensures
            r is Ok <==> storage.offers().contains_key(id),
            r matches Ok(o) ==> o@ == storage.offers()[id],
            r matches Err(e) ==> e == (OfferError::NotFound { id }),
    {
        storage.get_offer(id)
    }

    /// Stores the offer as it is and keeps it for further changes.
    pub fn create(storage: &mut OfferStore, offer: Offer) -> (r: OfferModel)
        requires
            old(storage).wf(),
        ensures
            r.offer@ == offer@,
            final(storage).wf(),
            final(storage).offers() == old(storage).offers().insert(offer.id, offer@),
            final(storage).config() == old(storage).config(),
            final(storage).state() == old(storage).state(),
    {
        storage.put_offer(&offer);
        OfferModel { offer }
    }

    /// Writes the kept offer back and hands it out.
    pub fn save(self, storage: &mut OfferStore) -> (r: Offer)
        requires
            old(storage).wf(),
        ensures
            r@ == self.offer@,
            final(storage).wf(),
            final(storage).offers() == old(storage).offers().insert(self.offer.id, self.offer@),
            final(storage).config() == old(storage).config(),
            final(storage).state() == old(storage).state(),
    {
        storage.put_offer(&self.offer);
        self.offer
    }

    /// Loads the offer with the given id for further changes; `NotFound`
    /// where there is none.
    pub fn may_load(storage: &OfferStore, id: u64) -> (r: Result<OfferModel, OfferError>)
        requires
            storage.wf(),
        ensures
            r is Ok <==> storage.offers().contains_key(id),
            r matches Ok(m) ==> m.offer@ == storage.offers()[id],
            r matches Err(e) ==> e == (OfferError::NotFound { id }),
    {
        match storage.get_offer(id) {
            Ok(offer) => Ok(OfferModel { offer }),
            Err(e) => Err(e),
        }
    }

    /// `Paused` to `Active`, written back. From `Active` it fails and
    /// changes nothing.
    pub fn activate(&mut self, storage: &mut OfferStore) -> (r: Result<Offer, OfferError>)
        requires
            old(storage).wf(),
        ensures
            final(storage).wf(),
            r is Ok <==> old(self).offer.state == OfferState::Paused,
            match activated(old(self).offer@) {
                Some(v) => {
                    &&& r matches Ok(o) && o@ == v
                    &&& final(self).offer@ == v
                    &&& final(storage).offers() == old(storage).offers().insert(v.id, v)
                    &&& final(storage).config() == old(storage).config()
                    &&& final(storage).state() == old(storage).state()
                },
                None => {
                    &&& r matches Err(e) && e == (OfferError::InvalidStateChange {
                        from: OfferState::Active,
                        to: OfferState::Active,
                    })
                    &&& *final(self) == *old(self)
                    &&& *final(storage) == *old(storage)
                },
            },
    {
        match self.offer.state {
            OfferState::Paused => {
                self.offer.state = OfferState::Active;
                storage.put_offer(&self.offer);
                Ok(self.offer.duplicate())
            },
            OfferState::Active => Err(OfferError::InvalidStateChange {
                from: OfferState::Active,
                to: OfferState::Active,
            }),
        }
    }

    /// `Active` to `Paused`, written back. From `Paused` it fails and
    /// changes nothing.
    pub fn pause(&mut self, storage: &mut OfferStore) -> (r: Result<Offer, OfferError>)
        requires
            old(storage).wf(),
        ensures
            final(storage).wf(),
            r is Ok <==> old(self).offer.state == OfferState::Active,
            match paused(old(self).offer@) {
                Some(v) => {
                    &&& r matches Ok(o) && o@ == v
                    &&& final(self).offer@ == v
                    &&& final(storage).offers() == old(storage).offers().insert(v.id, v)
                    &&& final(storage).config() == old(storage).config()
                    &&& final(storage).state() == old(storage).state()
                },
                None => {
                    &&& r matches Err(e) && e == (OfferError::InvalidStateChange {
                        from: OfferState::Paused,
                        to: OfferState::Paused,
                    })
                    &&& *final(self) == *old(self)
                    &&& *final(storage) == *old(storage)
                },
            },
    {
        match self.offer.state {
            OfferState::Active => {
                self.offer.state = OfferState::Paused;
                storage.put_offer(&self.offer);
                Ok(self.offer.duplicate())
            },
            OfferState::Paused => Err(OfferError::InvalidStateChange {
                from: OfferState::Paused,
                to: OfferState::Paused,
            }),
        }
    }

    /// Replaces type, currency and amounts with those of the message and
    /// writes the offer back. The bounds are not checked here.
    pub fn update(&mut self, storage: &mut OfferStore, msg: OfferMsg) -> (r: Offer)
        requires
            old(storage).wf(),
        ensures
            final(self).offer@ == updated(old(self).offer@, msg),
            r@ == final(self).offer@,
            final(storage).wf(),
            final(storage).offers() == old(storage).offers().insert(old(self).offer.id, final(self).offer@),
            final(storage).config() == old(storage).config(),
            final(storage).state() == old(storage).state(),
    {
        self.offer.offer_type = msg.offer_type;
        self.offer.fiat_currency = msg.fiat_currency;
        self.offer.min_amount = msg.min_amount as u128;
        self.offer.max_amount = msg.max_amount as u128;
        storage.put_offer(&self.offer);
        self.offer.duplicate()
    }

    /// Every offer in the currency, ascending by id.
    pub fn query_all_offers(storage: &OfferStore, fiat_currency: FiatCurrency) -> (r: Result<Vec<Offer>, OfferError>)
        requires
            storage.wf(),
        ensures
            r matches Ok(v) && v@.map_values(|o: Offer| o@) == listing(storage.offers(), fiat_currency),
            r matches Ok(v) ==> forall|i: int, j: int| 0 <= i < j < v@.len() ==> v@[i].id < v@[j].id,
            r matches Ok(v) ==> forall|i: int| 0 <= i < v@.len() ==> v@[i].fiat_currency == fiat_currency,
    {
        let cursor: Vec<u8> = Vec::new();
        let r = storage.scan_offers(&cursor, usize::MAX, fiat_currency);
        assert(cursor@ =~= Seq::<u8>::empty());
        r
    }

    /// A page of offers in the currency: of the first `limit` offers whose
    /// keys lie after `last_value`, those in the currency, ascending by id.
    pub fn query_page(
        storage: &OfferStore,
        fiat_currency: FiatCurrency,
        last_value: Vec<u8>,
        limit: usize,
    ) -> (r: Result<Vec<Offer>, OfferError>)
        requires
            storage.wf(),
        ensures
            r matches Ok(v) && v@.map_values(|o: Offer| o@) == page(storage.offers(), last_value@, limit as nat, fiat_currency),
            r matches Ok(v) ==> forall|i: int, j: int| 0 <= i < j < v@.len() ==> v@[i].id < v@[j].id,
            r matches Ok(v) ==> forall|i: int| 0 <= i < v@.len() ==> v@[i].fiat_currency == fiat_currency,
    {
        storage.scan_offers(&last_value, limit, fiat_currency)
    }
}

} // verus!
