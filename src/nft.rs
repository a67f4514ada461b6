//! Identifiers of NFT tokens as queried through the NFT extension.

use vstd::prelude::*;

verus! {

/// Names one token: issuer, class within the issuer, token within the class.
#[derive(Clone, Debug, PartialEq, Eq, Hash)]
pub struct NftIdentify {
    pub issuer_id: String,
    pub class_id: u32,
    pub token_id: u32,
}

#[derive(Clone, Debug, PartialEq, Eq, Hash)]
pub struct NftIdentity {
    pub issuer_id: String,
    pub class_id: u32,
    pub token_id: u32,
}

} // verus!
