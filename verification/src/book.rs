//! The catalog entry: its executable representation, its mathematical
//! model, and the shared validation routine for required text fields.

use vstd::prelude::*;

verus! {

/// Mathematical model of a catalog entry, with strings abstracted to
/// character sequences.
pub struct BookModel {
    pub id: u64,
    pub title: Seq<char>,
    pub author: Seq<char>,
    pub published_year: u32,
    pub borrowed: bool,
    pub borrowed_by: Option<Seq<char>>,
    pub borrowed_at: Option<u64>,
}

impl BookModel {
    /// A record is well formed when the lending flag agrees with the
    /// presence of both the borrower name and the borrow timestamp.
    pub open spec fn lending_wf(self) -> bool {
        &&& self.borrowed <==> self.borrowed_by is Some
        &&& self.borrowed <==> self.borrowed_at is Some
    }
}

/// A catalog entry. The identifier is assigned once at creation; the
/// descriptive fields change only through update, the lending fields only
/// through borrow and return.
#[derive(Debug)]
pub struct Book {
    pub id: u64,
    pub title: String,
    pub author: String,
    pub published_year: u32,
    pub borrowed: bool,
    pub borrowed_by: Option<String>,
    pub borrowed_at: Option<u64>,
}

impl View for Book {
    type V = BookModel;

    open spec fn view(&self) -> BookModel {
        BookModel {
            id: self.id,
            title: self.title@,
            author: self.author@,
            published_year: self.published_year,
            borrowed: self.borrowed,
            borrowed_by: match self.borrowed_by {
                Some(s) => Some(s@),
                None => None,
            },
            borrowed_at: self.borrowed_at,
        }
    }
}

impl Clone for Book {
    fn clone(&self) -> (r: Self)
        ensures
            r@ == self@,
    {
        Book {
            id: self.id,
            title: self.title.clone(),
            author: self.author.clone(),
            published_year: self.published_year,
            borrowed: self.borrowed,
            borrowed_by: match &self.borrowed_by {
                Some(s) => Some(s.clone()),
                None => None,
            },
            borrowed_at: self.borrowed_at,
        }
    }
}

/// The models of a sequence of records, elementwise.
pub open spec fn views_of(s: Seq<Book>) -> Seq<BookModel> {
    Seq::new(s.len(), |i: int| s[i]@)
}

/// The caller-supplied descriptive fields consumed by create and update.
pub struct BookPayload {
    pub title: String,
    pub author: String,
    pub published_year: u32,
}

/// The single validation routine for required text fields, shared by
/// every operation that accepts one: a required field is acceptable
/// exactly when it is not empty.
pub fn text_is_valid(s: &String) -> (r: bool)
    ensures
        r == (s@.len() > 0),
{
    !s.as_str().is_empty()
}

} // verus!
