//! Wire identifiers used throughout the circuit representation.

use vstd::prelude::*;

verus! {

/// A wire identifier with an optional public value annotation.
#[derive(Clone, Copy, Debug, PartialEq, Eq, Structural, Hash)]
pub struct Wire {
    pub id: usize,
    pub public: Option<bool>,
}

impl Wire {
    /// The public wire with identifier `id` fixed to `value`.
    pub open spec fn spec_public(id: usize, value: bool) -> Wire {
        Wire { id, public: Some(value) }
    }

    /// The private wire with identifier `id`.
    pub open spec fn spec_new(id: usize) -> Wire {
        Wire { id, public: None }
    }

    /// Create a private wire with the given identifier.
    pub fn new(id: usize) -> (w: Wire)
        ensures
            w.id == id,
            w.public is None,
    {
        Wire { id, public: None }
    }

    /// Create a public wire with a fixed Boolean value.
    pub fn public(id: usize, value: bool) -> (w: Wire)
        ensures
            w.id == id,
            w.public == Some(value),
    {
        Wire { id, public: Some(value) }
    }

    /// Return the wire identifier.
    pub fn id(&self) -> (r: usize)
        ensures
            r == self.id,
    {
        self.id
    }

    /// Return the public value if present.
    pub fn public_value(&self) -> (r: Option<bool>)
        ensures
            r == self.public,
    {
        self.public
    }
}

} // verus!
