//! A secret value that can be wiped from memory.

use vstd::prelude::*;
use zeroize::Zeroize;

verus! {

/// `Zeroize::zeroize` on a `String`: overwrites the bytes with zeros and
/// leaves the string empty.
#[verifier::external_body]
pub(crate) fn zeroize_string(s: &mut String)
    ensures
        final(s)@ == Seq::<char>::empty(),
{
    s.zeroize();
}

/// An in-memory secret. `wipe` overwrites it in place.
pub struct Secret {
    value: String,
}

impl View for Secret {
    type V = Seq<char>;

    closed spec fn view(&self) -> Seq<char> {
        self.value@
    }
}

impl Secret {
    /// Takes ownership of `value`.
    pub fn new(value: String) -> (s: Secret)
        ensures
            s@ == value@,
    {
        Secret { value }
    }

    /// The secret's text.
    pub fn expose(&self) -> (r: &str)
        ensures
            r@ == self@,
    {
        self.value.as_str()
    }

    /// Overwrites the secret's memory; the secret is empty afterwards.
    pub fn wipe(&mut self)
        ensures
            final(self)@ == Seq::<char>::empty(),
    {
        zeroize_string(&mut self.value);
    }
}

} // verus!
