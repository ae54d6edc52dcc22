use vstd::prelude::*;

verus! {

/// A cons list whose tail is owned through a `Box`.
pub enum List {
    Cons(i32, Box<List>),
    Nil,
}

} // verus!
