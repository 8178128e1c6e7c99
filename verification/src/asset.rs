//! Assets that can be quantified. Orders are not yet tagged with the asset
//! they trade or the asset they are priced in; the book is that of a single
//! instrument.

use vstd::prelude::*;

verus! {

/// A cash amount under a currency, such as USD, EUR, BTC or ETH.
#[derive(Debug, Clone, PartialEq, Eq)]
pub struct CashAsset {
    pub currency: String,
}

} // verus!
