//! The value encoder: renders a monotonically increasing counter as a short
//! identifier string through the `harsh` crate's hashids encoding.

use vstd::prelude::*;

verus! {

/// The identifier string that the hashids encoding, under its default
/// configuration, produces for a single counter value.
pub uninterp spec fn encoded_id(id: u64) -> Seq<char>;

/// Relies on `harsh::Harsh::default` and `harsh::Harsh::encode`:
/// the default configuration (the crate's fixed alphabet and separators, an
/// empty salt, no padding) always builds, and encoding a one-element slice
/// returns a non-empty string that is a deterministic function of that
/// element alone.
#[verifier::external_body]
fn harsh_encode(id: u64) -> (r: String)
    ensures
        r@ == encoded_id(id),
        r@.len() >= 1,
{
    harsh::Harsh::default().encode(&[id])
}

/// A stateful encoder: every call of [`Shortener::next_id`] renders the
/// current counter value as an identifier string and advances the counter.
pub struct Shortener {
    id: u64,
}

impl View for Shortener {
    type V = nat;

    /// The counter value the next identifier will be derived from.
    closed spec fn view(&self) -> nat {
        self.id as nat
    }
}

impl Default for Shortener {
    /// A fresh encoder whose counter starts at 0.
    fn default() -> (r: Self)
        ensures
            r@ == 0,
    {
        Shortener { id: 0 }
    }
}

impl Shortener {
    /// Render the current counter value and advance the counter by one.
    pub fn next_id(&mut self) -> (r: String)
        requires
            old(self)@ < u64::MAX,
        ensures
            r@ == encoded_id(old(self)@ as u64),
            r@.len() >= 1,
            final(self)@ == old(self)@ + 1,
    {
        let hashed = harsh_encode(self.id);
        self.id = self.id + 1;
        hashed
    }
}

} // verus!
