//! Cells that several handles share. What a cell holds is invisible to contracts:
//! a handle can change it at any time.
use std::cell::Cell;
use std::rc::Rc;

use vstd::prelude::*;

verus! {

/// The standard library's shared mutable cell.
#[verifier::external_type_specification]
#[verifier::external_body]
#[verifier::reject_recursive_types(T)]
pub struct ExCell<T: ?Sized>(Cell<T>);

/// A cell that holds `value`: `Cell::new`. What a cell holds is not visible here, so
/// nothing is claimed of it.
#[verifier::external_body]
pub(crate) fn new_cell<T>(value: T) -> (cell: Cell<T>) {
    Cell::new(value)
}

/// Puts a value into a cell and takes out what it held: `Cell::replace`. Other
/// handles may have used the cell in between, so nothing is claimed of what comes
/// out.
#[verifier::external_body]
pub(crate) fn exchange<T>(cell: &Cell<T>, put: T) -> (got: T)
    opens_invariants none
    no_unwind
{
    cell.replace(put)
}

/// Whether two handles are of one and the same cell: `Rc::ptr_eq`. To contracts a cell is
/// nothing but which cell it is, so handles of one allocation are equal, and handles of
/// two allocations, which hold two cells, are not.
#[verifier::external_body]
pub(crate) fn same<T>(a: &Rc<Cell<T>>, b: &Rc<Cell<T>>) -> (yes: bool)
    ensures
        yes == (a == b),
{
    Rc::ptr_eq(a, b)
}

} // verus!
