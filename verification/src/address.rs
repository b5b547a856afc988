//! Identities of accounts and contracts.

use vstd::prelude::*;

verus! {

/// Number of characters in the textual form of an address.
pub const ADDRESS_LEN: usize = 56;

/// The identity of an account or contract, held as the characters of its
/// textual address. Two addresses name the same party exactly when these
/// characters agree.
#[derive(Clone, Copy, Debug, PartialEq, Eq)]
pub struct Address {
    pub strkey: [u8; 56],
}

impl Address {
    /// Whether both values name the same party.
    pub fn same_as(&self, other: &Address) -> (same: bool)
        ensures
            same == (*self == *other),
    {
        let mut i: usize = 0;
        while i < ADDRESS_LEN
            invariant
                0 <= i <= ADDRESS_LEN,
                forall|j: int| 0 <= j < i ==> self.strkey@[j] == other.strkey@[j],
            decreases ADDRESS_LEN - i,
        {
            if self.strkey[i] != other.strkey[i] {
                return false;
            }
            i += 1;
        }
        assert(self.strkey =~= other.strkey);
        true
    }
}

} // verus!
