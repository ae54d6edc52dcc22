use std::cell::RefCell;
use std::rc::Rc;
use vstd::prelude::*;

verus! {

/// A shared cons list whose values can be changed through a `RefCell`.
pub enum List {
    Cons(Rc<RefCell<i32>>, Rc<List>),
    Nil,
}

} // verus!
