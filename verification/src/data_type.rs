//! Value kinds carried on ports, and the compatibility relation that
//! validates every edge at creation time.

use vstd::prelude::*;

verus! {

/// The kind of value a port produces or accepts.  `Unknown` is a
/// wildcard: a port declared `Unknown` accepts a value of any kind.
#[derive(Debug, Clone, Copy, PartialEq, Eq, Structural)]
pub enum DataType {
    Number,
    String,
    Unknown,
}

/// A value flowing along an edge: a number, a piece of text, or a
/// placeholder of no particular kind.
#[derive(Debug, PartialEq)]
pub enum TypedData {
    Number(i64),
    String(String),
    Unknown,
}

impl DataType {
    /// A value of kind `self` may flow into a port declared `destination`
    /// iff the kinds agree or the destination is the wildcard.  The
    /// relation is directed: `Unknown` as a source matches only `Unknown`
    /// destinations.
    pub open spec fn compatible_spec(self, destination: DataType) -> bool {
        self == destination || destination == DataType::Unknown
    }

    /// Decides whether a value of kind `self` may flow into a port of
    /// kind `destination`.
    pub fn compatible_with(&self, destination: DataType) -> (r: bool)
        ensures
            r == self.compatible_spec(destination),
    {
        if *self == destination {
            return true;
        }
        if destination == DataType::Unknown {
            return true;
        }
        false
    }
}

} // verus!
