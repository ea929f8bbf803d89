//! The set of keys currently held down, kept in a `bit_set::BitSet`.
//!
//! The bit set lives in the private field of `KeySet`; `key_codes` names the
//! codes it holds, and each method states what it does to that set.
use bit_set::BitSet;
use vstd::prelude::*;

verus! {

/// A set of key codes, held in a `bit_set::BitSet`.
#[verifier::external_body]
pub struct KeySet {
    bits: BitSet,
}

/// The key codes that a `KeySet` holds.
pub uninterp spec fn key_codes(s: KeySet) -> Set<usize>;

impl KeySet {
    /// `BitSet::new`: a set that holds no value.
    #[verifier::external_body]
    pub(crate) fn empty() -> (s: KeySet)
        ensures
            key_codes(s) == Set::<usize>::empty(),
    {
        KeySet { bits: BitSet::new() }
    }

    /// `BitSet::contains`: whether `code` is in the set.
    #[verifier::external_body]
    pub(crate) fn contains(&self, code: usize) -> (held: bool)
        ensures
            held == key_codes(*self).contains(code),
    {
        self.bits.contains(code)
    }

    /// `BitSet::insert`: adds `code`; the result tells whether it was absent.
    /// The set grows its bit vector to `code + 1` bits, a count that does not
    /// fit in `usize` for `code == usize::MAX`: that code panics, by an
    /// arithmetic overflow, a failed index check or "capacity overflow",
    /// depending on the set's length and the build.
    #[verifier::external_body]
    pub(crate) fn insert(&mut self, code: usize) -> (added: bool)
        requires
            code < usize::MAX,
        ensures
            key_codes(*final(self)) == key_codes(*old(self)).insert(code),
            added == !key_codes(*old(self)).contains(code),
    {
        self.bits.insert(code)
    }

    /// `BitSet::remove`: takes `code` out; the result tells whether it was there.
    #[verifier::external_body]
    pub(crate) fn remove(&mut self, code: usize) -> (removed: bool)
        ensures
            key_codes(*final(self)) == key_codes(*old(self)).remove(code),
            removed == key_codes(*old(self)).contains(code),
    {
        self.bits.remove(code)
    }
}

} // verus!
