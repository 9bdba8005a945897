//! Public keys as the host hands them over.
//!
//! The market knows a trader by the 32 bytes of a public key. Callers hold
//! keys in the host's own type; this module declares that type and states
//! what reading its bytes gives.

use vstd::prelude::*;
use solana_program::pubkey::Pubkey;
use crate::state::Identity;

verus! {

/// The host's public key type. Its value is opaque here.
#[verifier::external_type_specification]
#[verifier::external_body]
pub struct ExPubkey(Pubkey);

/// The 32 bytes that make up a public key.
pub uninterp spec fn pubkey_bytes(key: Pubkey) -> Seq<u8>;

/// `Pubkey::to_bytes` returns the key's 32 bytes, the same for the same key.
pub assume_specification[ Pubkey::to_bytes ](key: Pubkey) -> (bytes: [u8; 32])
    ensures
        bytes@ == pubkey_bytes(key),
;

/// The identity under which the market knows the holder of `key`.
pub fn identity_of(key: &Pubkey) -> (identity: Identity)
    ensures
        identity@ == pubkey_bytes(*key),
{
    key.to_bytes()
}

} // verus!
