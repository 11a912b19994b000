use vstd::prelude::*;
use crate::types::{Addr, OfferError};

verus! {

/// Succeeds exactly when the caller is the owner; otherwise reports both.
pub fn assert_ownership(caller: Addr, owner: Addr) -> (r: Result<(), OfferError>)
    ensures
        caller@ == owner@ <==> r is Ok,
        r matches Err(e) ==> (e matches OfferError::Unauthorized { owner: o, caller: c }
            && o@ == owner@ && c@ == caller@),
{
    if caller.same_as(&owner) {
        Ok(())
    } else {
        Err(OfferError::Unauthorized { owner, caller })
    }
}

/// Succeeds exactly when the minimum amount is below the maximum.
pub fn assert_min_g_max(min: u64, max: u64) -> (r: Result<(), OfferError>)
    ensures
        r is Ok <==> min < max,
        r matches Err(e) ==> e is InvalidRange,
{
    if min >= max {
        Err(OfferError::InvalidRange)
    } else {
        Ok(())
    }
}

} // verus!
