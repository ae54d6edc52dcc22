use vstd::prelude::*;

verus! {

/// `std::cell::RefCell`, carried through the list types as an opaque value.
#[verifier::external_type_specification]
#[verifier::external_body]
#[verifier::reject_recursive_types(T)]
pub struct ExRefCell<T: ?Sized>(std::cell::RefCell<T>);

} // verus!
