use vstd::prelude::*;

verus! {

use core::marker::PhantomData;

/// An opaque, ordered byte-sequence key, tagged at compile time with
/// the record type `T` it belongs to. The tag has no runtime
/// representation: on the wire a key is nothing but its bytes.
///
/// Two keys are equal exactly when their byte sequences are equal, and
/// keys are ordered by the lexicographic (unsigned byte-wise) order of
/// those sequences, the same order in which the store iterates.
#[verifier::reject_recursive_types(T)]
#[derive(Debug)]
pub struct EncodedKey<T> {
    inner: Vec<u8>,
    phantom: PhantomData<T>,
}

impl<T> View for EncodedKey<T> {
    type V = Seq<u8>;

    closed spec fn view(&self) -> Seq<u8> {
        self.inner@
    }
}

impl<T> EncodedKey<T> {
    /// Wraps raw key bytes returned from the store.
    pub fn from_u8(key: &[u8]) -> (r: Self)
        ensures
            r@ == key@,
    {
        EncodedKey { inner: vstd::slice::slice_to_vec(key), phantom: PhantomData }
    }

    /// Wraps an owned byte sequence produced by a key codec.
    pub fn from_vec(inner: Vec<u8>) -> (r: Self)
        ensures
            r@ == inner@,
    {
        EncodedKey { inner, phantom: PhantomData }
    }

    /// The raw bytes of the key.
    pub fn as_slice(&self) -> (r: &[u8])
        ensures
            r@ == self@,
    {
        self.inner.as_slice()
    }

    /// Unwraps the key into its raw bytes.
    pub fn into_vec(self) -> (r: Vec<u8>)
        ensures
            r@ == self@,
    {
        self.inner
    }

    /// True when this key is ordered strictly before `other`: the
    /// lexicographic (unsigned byte-wise) order of the raw bytes,
    /// which is also the order in which the store iterates. Whether
    /// that order matches any natural order of the logical fields is
    /// the key codec's concern, not this wrapper's.
    pub fn is_before(&self, other: &Self) -> (r: bool)
        ensures
            r == crate::order::lex_lt(self@, other@),
    {
        crate::order::bytes_lt(self.inner.as_slice(), other.inner.as_slice())
    }
}

impl<T> PartialEq for EncodedKey<T> {
    /// Keys are equal exactly when their byte sequences are equal.
    fn eq(&self, other: &Self) -> (r: bool) {
        let r = self.inner == other.inner;
        proof {
            if r {
                assert(self.inner@ =~= other.inner@);
            }
            if self.inner@ == other.inner@ {
                assert(forall|i: int|
                    0 <= i < self.inner@.len() ==> self.inner@[i] == other.inner@[i]);
            }
        }
        r
    }
}

impl<T> vstd::std_specs::cmp::PartialEqSpecImpl for EncodedKey<T> {
    open spec fn obeys_eq_spec() -> bool {
        true
    }

    open spec fn eq_spec(&self, other: &Self) -> bool {
        self@ == other@
    }
}

} // verus!
