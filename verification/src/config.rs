//! Where a stage's signing key comes from.

use vstd::prelude::*;
use vstd::utf8::encode_utf8;
use crate::text::own;

verus! {

/// The source of a stage key: a passphrase the key is derived from. It
/// has no `Debug`: nothing can render the passphrase by accident.
pub struct KeySource {
    passphrase: String,
}

impl KeySource {
    /// A passphrase fits the key derivation's input limit.
    #[verifier::type_invariant]
    spec fn fits(&self) -> bool {
        encode_utf8(self.passphrase@).len() <= 0xFFFF_FFFF
    }

    /// The passphrase's characters.
    pub closed spec fn passphrase_spec(&self) -> Seq<char> {
        self.passphrase@
    }

    /// A key source for `passphrase`.
    pub fn from_passphrase(passphrase: &str) -> (r: KeySource)
        requires
            encode_utf8(passphrase@).len() <= 0xFFFF_FFFF,
        ensures
            r.passphrase_spec() == passphrase@,
    {
        KeySource { passphrase: own(passphrase) }
    }

    /// The passphrase.
    pub fn passphrase(&self) -> (r: &str)
        ensures
            r@ == self.passphrase_spec(),
            encode_utf8(r@).len() <= 0xFFFF_FFFF,
    {
        proof {
            use_type_invariant(self);
        }
        self.passphrase.as_str()
    }
}

} // verus!
