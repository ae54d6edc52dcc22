use vstd::prelude::*;

verus! {

/// A cons list whose tail may be shared through an `Rc`.
pub enum List {
    Cons(i32, std::rc::Rc<List>),
    Nil,
}

} // verus!
