//! The failures a catalog operation can report. Every error is returned
//! as an explicit result value; fatal substrate failures are not part of
//! this taxonomy.

use vstd::prelude::*;

verus! {

/// The error taxonomy of the service.
#[derive(Clone, Copy, PartialEq, Eq, Structural, Debug)]
pub enum Error {
    /// The referenced identifier is absent from the store.
    NotFound,
    /// A borrow was attempted on a book that is already borrowed.
    BookAlreadyBorrowed,
    /// The capability gate denied the caller.
    UnauthorizedAccess,
    /// A return was attempted on a book that is not borrowed.
    BookNotBorrowed,
    /// A required text field was empty.
    Validation,
}

} // verus!
