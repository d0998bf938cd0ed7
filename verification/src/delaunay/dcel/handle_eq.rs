//! Equality of handles: two handles are equal where they name the same
//! position.

use crate::delaunay::dcel::handles::{EdgeHandle, FaceHandle, VertexHandle};
use vstd::prelude::*;
use vstd::std_specs::cmp::PartialEqSpecImpl;

verus! {

impl<'a, V, E> PartialEq for VertexHandle<'a, V, E> {
    fn eq(&self, other: &Self) -> (r: bool) {
        self.position() == other.position()
    }
}

impl<'a, V, E> PartialEqSpecImpl for VertexHandle<'a, V, E> {
    open spec fn obeys_eq_spec() -> bool {
        true
    }

    open spec fn eq_spec(&self, other: &Self) -> bool {
        self.fix_spec() == other.fix_spec()
    }
}

impl<'a, V, E> PartialEq for EdgeHandle<'a, V, E> {
    fn eq(&self, other: &Self) -> (r: bool) {
        self.position() == other.position()
    }
}

impl<'a, V, E> PartialEqSpecImpl for EdgeHandle<'a, V, E> {
    open spec fn obeys_eq_spec() -> bool {
        true
    }

    open spec fn eq_spec(&self, other: &Self) -> bool {
        self.fix_spec() == other.fix_spec()
    }
}

impl<'a, V, E> PartialEq for FaceHandle<'a, V, E> {
    fn eq(&self, other: &Self) -> (r: bool) {
        self.position() == other.position()
    }
}

impl<'a, V, E> PartialEqSpecImpl for FaceHandle<'a, V, E> {
    open spec fn obeys_eq_spec() -> bool {
        true
    }

    open spec fn eq_spec(&self, other: &Self) -> bool {
        self.fix_spec() == other.fix_spec()
    }
}

} // verus!
