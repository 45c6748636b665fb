//! Small value types shared with the native-interop layer.
//!
//! The interop layer marshals results and booleans across an ABI that
//! knows neither; these are the plain carriers it uses. The pointer
//! plumbing itself lives outside the library.

use vstd::prelude::*;

verus! {

/// A boolean as the interop ABI carries it: nonzero means true.
#[derive(Clone, Copy, Debug, PartialEq, Eq, Structural)]
pub struct FfiBool(pub u32);

impl FfiBool {
    /// Packs a boolean for the ABI.
    pub fn from_bool(b: bool) -> (r: FfiBool)
        ensures
            r.truthy() == b,
    {
        FfiBool(if b {
            1
        } else {
            0
        })
    }

    /// Whether this ABI boolean is true.
    pub open spec fn truthy(self) -> bool {
        self.0 != 0
    }

    /// Unpacks an ABI boolean.
    pub fn to_bool(self) -> (b: bool)
        ensures
            b == self.truthy(),
    {
        self.0 != 0
    }
}

/// A heap-owned value handed across the interop boundary: the owner frees
/// it exactly once.
pub struct HandleOwned<T>(pub Box<T>);

impl<T> HandleOwned<T> {
    /// Moves a value to the heap and hands out its owning handle.
    pub fn new(value: T) -> (h: HandleOwned<T>)
        ensures
            h.0 == value,
    {
        HandleOwned(Box::new(value))
    }

    /// Takes the value back, consuming the handle.
    pub fn into_inner(self) -> (value: Box<T>)
        ensures
            value == self.0,
    {
        self.0
    }
}

/// An error reduced to the text of its debug rendering, as the interop
/// layer reports failures.
#[derive(Debug, Clone, PartialEq, Eq)]
pub struct DebugError(pub String);

impl DebugError {
    /// Wraps an already-rendered error text.
    pub fn new(text: String) -> (e: DebugError)
        ensures
            e.0@ == text@,
    {
        DebugError(text)
    }

    /// The rendered error text.
    pub fn message(&self) -> (t: &String)
        ensures
            t@ == self.0@,
    {
        &self.0
    }
}

} // verus!
