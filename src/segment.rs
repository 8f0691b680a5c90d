use vstd::prelude::*;

verus! {

/// An atomic unit of a key. Two segments are the same exactly when their
/// views are equal.
pub trait Segment: View + Sized {
    fn same(&self, other: &Self) -> (r: bool)
        ensures
            r == (self@ == other@),
    ;
}

impl Segment for char {
    fn same(&self, other: &char) -> (r: bool) {
        *self == *other
    }
}

impl Segment for String {
    fn same(&self, other: &String) -> (r: bool) {
        *self == *other
    }
}

} // verus!
