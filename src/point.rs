use vstd::prelude::*;

verus! {

/// A pair of coordinates, such as a window's width and height.
#[derive(Debug, Clone, Copy)]
pub struct Point2<T> {
    pub x: T,
    pub y: T,
}

} // verus!
