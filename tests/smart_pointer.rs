use coop_async::boxt::List as BoxList;
use coop_async::rct::List as RcList;
use coop_async::refcellt_with_rct::List as SharedList;
use std::cell::RefCell;
use std::rc::Rc;

#[test]
fn boxt_run() {
    let _list = BoxList::Cons(
        1,
        Box::new(BoxList::Cons(2, Box::new(BoxList::Cons(3, Box::new(BoxList::Nil))))),
    );
}

#[test]
fn rct_run() {
    let a = Rc::new(RcList::Cons(5, Rc::new(RcList::Cons(10, Rc::new(RcList::Nil)))));
    assert_eq!(1, Rc::strong_count(&a));

    let _b = RcList::Cons(3, Rc::clone(&a));
    assert_eq!(2, Rc::strong_count(&a));

    {
        let _c = RcList::Cons(4, Rc::clone(&a));
        assert_eq!(3, Rc::strong_count(&a));
    }
    assert_eq!(2, Rc::strong_count(&a));
}

#[test]
fn refcellt_with_rct_run() {
    let value = Rc::new(RefCell::new(5));

    let a = Rc::new(SharedList::Cons(Rc::clone(&value), Rc::new(SharedList::Nil)));

    let b = SharedList::Cons(Rc::new(RefCell::new(3)), Rc::clone(&a));
    let c = SharedList::Cons(Rc::new(RefCell::new(4)), Rc::clone(&a));

    *value.borrow_mut() += 10;

    if let SharedList::Cons(b_value, b_tail) = &b {
        assert_eq!(*b_value.borrow(), 3);
        if let SharedList::Cons(a_value, _) = &**b_tail {
            assert_eq!(*a_value.borrow(), 15);
        }
    }

    if let SharedList::Cons(c_value, c_tail) = &c {
        assert_eq!(*c_value.borrow(), 4);
        if let SharedList::Cons(a_value, _) = &**c_tail {
            assert_eq!(*a_value.borrow(), 15);
        }
    }
}
