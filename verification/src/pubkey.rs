//! Node identities.

use vstd::prelude::*;

verus! {

/// The public key that identifies a node: 32 bytes.
#[derive(Clone, Copy, PartialEq, Eq, Hash, Debug, Default)]
pub struct Pubkey(pub [u8; 32]);

impl Pubkey {
    /// Whether this is the all-zero key.
    pub open spec fn is_zero(&self) -> bool {
        self.0@ == Seq::new(32, |i: int| 0u8)
    }

    /// The all-zero key.
    pub fn new_default() -> (r: Pubkey)
        ensures
            r.is_zero(),
    {
        let r = Pubkey([0u8; 32]);
        assert(r.0@ =~= Seq::new(32, |i: int| 0u8));
        r
    }

    /// Whether two keys are the same key.
    pub fn same_as(&self, other: &Pubkey) -> (r: bool)
        ensures
            r == (self.0@ == other.0@),
            r == (*self == *other),
    {
        let mut i: usize = 0;
        while i < 32
            invariant
                i <= 32,
                self.0@.len() == 32,
                other.0@.len() == 32,
                forall|j: int| 0 <= j < i ==> self.0@[j] == other.0@[j],
            decreases 32 - i,
        {
            if self.0[i] != other.0[i] {
                return false;
            }
            i += 1;
        }
        assert(self.0@ =~= other.0@);
        assert(self.0 =~= other.0);
        true
    }
}

} // verus!
