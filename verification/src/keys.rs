//! Identifiers of derived keys.

use vstd::prelude::*;

verus! {

/// Names one key of the wallet's deterministic key hierarchy: the root key
/// it descends from and its derivation index under that root. The secret
/// key itself, and the commitment made with it, belong to the keychain that
/// owns the root.
#[derive(Clone, Copy, Debug, PartialEq, Eq, Structural, Hash)]
pub struct Identifier {
    pub root_key: u64,
    pub index: u32,
}

impl Identifier {
    /// The all-zero identifier. No ledger ever issues it, and nobody holds
    /// its key: value sent to it is burnt.
    pub open spec fn spec_zero() -> Identifier {
        Identifier { root_key: 0, index: 0 }
    }

    #[verifier::when_used_as_spec(spec_zero)]
    pub fn zero() -> (id: Identifier)
        ensures
            id == Identifier::spec_zero(),
    {
        Identifier { root_key: 0, index: 0 }
    }
}

/// The identifier of the key at `index` under `root_key`.
pub fn derive_key_id(root_key: u64, index: u32) -> (id: Identifier)
    ensures
        id == (Identifier { root_key, index }),
{
    Identifier { root_key, index }
}

} // verus!
