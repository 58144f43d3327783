//! The catalog service and lending state machine: one state value owning
//! the record store, the identifier allocator, the return history log and
//! the injected capability gate, with every operation an atomic
//! read-modify-write against it.

use vstd::prelude::*;
use crate::book::{Book, BookModel, BookPayload, text_is_valid, views_of};
use crate::error::Error;
use crate::history::{ReturnHistory, timestamps_for};
use crate::store::{
    has_book, book_at, ids_increasing, ids_distinct,
    lemma_increasing_implies_distinct, lemma_index_unique,
    lemma_replace_entry, lemma_insert_entry, lemma_adjacent_increasing,
};

verus! {

/// Mathematical model of the whole service state.
pub struct CatalogModel {
    /// The stored records, in creation order.
    pub books: Seq<BookModel>,
    /// The last identifier handed out; zero when none was.
    pub counter: u64,
    /// The append-only return history log, in insertion order.
    pub history: Seq<ReturnHistory>,
    /// The capability gate's verdict for the caller.
    pub authorized: bool,
}

/// Whether previously persisted state could have been produced by this
/// service: records in strictly ascending identifier order, identifiers
/// within the allocator's range, and every record lending-consistent.
pub open spec fn restorable(books: Seq<BookModel>, counter: u64) -> bool {
    &&& ids_increasing(books)
    &&& forall|i: int| 0 <= i < books.len() ==> 1 <= (#[trigger] books[i]).id <= counter
    &&& forall|i: int| 0 <= i < books.len() ==> (#[trigger] books[i]).lending_wf()
}

/// The service state: the record store, the identifier allocator and the
/// return history log, together with the capability gate injected at
/// construction.
#[derive(Debug)]
pub struct Catalog {
    books: Vec<Book>,
    counter: u64,
    history: Vec<ReturnHistory>,
    authorized: bool,
}

impl View for Catalog {
    type V = CatalogModel;

    closed spec fn view(&self) -> CatalogModel {
        CatalogModel {
            books: views_of(self.books@),
            counter: self.counter,
            history: self.history@,
            authorized: self.authorized,
        }
    }
}

impl Catalog {
    /// Well-formedness: every stored record satisfies the lending
    /// invariant, identifiers are strictly increasing in creation order,
    /// and no identifier exceeds the allocator's counter.
    pub open spec fn wf(self) -> bool {
        &&& ids_increasing(self@.books)
        &&& forall|i: int| 0 <= i < self@.books.len()
                ==> 1 <= (#[trigger] self@.books[i]).id <= self@.counter
        &&& forall|i: int| 0 <= i < self@.books.len()
                ==> (#[trigger] self@.books[i]).lending_wf()
    }

    /// Builds an empty catalog with the capability gate's verdict
    /// injected by the surrounding identity system.
    pub fn new(authorized: bool) -> (c: Catalog)
        ensures
            c.wf(),
            c@.books =~= Seq::<BookModel>::empty(),
            c@.counter == 0,
            c@.history =~= Seq::<ReturnHistory>::empty(),
            c@.authorized == authorized,
    {
        Catalog {
            books: Vec::new(),
            counter: 0,
            history: Vec::new(),
            authorized: authorized,
        }
    }

    /// Rebuilds a catalog from durably persisted state — the records in
    /// ascending identifier order, the allocator's counter and the
    /// history log — after a process restart. Fails with `Validation`
    /// exactly when the data could not have been produced by this
    /// service.
    pub fn restore(counter: u64, books: Vec<Book>, history: Vec<ReturnHistory>, authorized: bool) -> (r: Result<Catalog, Error>)
        ensures
            r is Ok <==> restorable(views_of(books@), counter),
            match r {
                Ok(c) => {
                    &&& c.wf()
                    &&& c@.books == views_of(books@)
                    &&& c@.counter == counter
                    &&& c@.history == history@
                    &&& c@.authorized == authorized
                },
                Err(e) => e == Error::Validation,
            },
    {
        let ghost m = views_of(books@);
        let mut i: usize = 0;
        while i < books.len()
            invariant
                m == views_of(books@),
                i <= books@.len(),
                forall|k: int| 0 <= k < i ==> 1 <= (#[trigger] m[k]).id <= counter,
                forall|k: int| 0 <= k < i ==> (#[trigger] m[k]).lending_wf(),
                forall|k: int| 1 <= k < i ==> (#[trigger] m[k]).id > m[k - 1].id,
            decreases books@.len() - i,
        {
            if books[i].id < 1 || books[i].id > counter {
                proof {
                    assert(!(1 <= m[i as int].id <= counter));
                }
                return Err(Error::Validation);
            }
            let lent_consistently = match (&books[i].borrowed_by, &books[i].borrowed_at) {
                (Some(_), Some(_)) => books[i].borrowed,
                (None, None) => !books[i].borrowed,
                _ => false,
            };
            if !lent_consistently {
                proof {
                    assert(!m[i as int].lending_wf());
                }
                return Err(Error::Validation);
            }
            if i > 0 && books[i - 1].id >= books[i].id {
                proof {
                    assert(m[i as int - 1].id >= m[i as int].id);
                    assert(!ids_increasing(m));
                }
                return Err(Error::Validation);
            }
            i = i + 1;
        }
        proof {
            lemma_adjacent_increasing(m);
        }
        Ok(Catalog {
            books: books,
            counter: counter,
            history: history,
            authorized: authorized,
        })
    }

    /// The last identifier the allocator handed out; zero before any
    /// was. Callers that cannot reason about the counter test it against
    /// its ceiling before creating a record.
    pub fn last_id(&self) -> (r: u64)
        ensures
            r == self@.counter,
    {
        self.counter
    }

    /// The capability gate, consulted once per mutating operation before
    /// validation.
    pub fn is_authorized_caller(&self) -> (r: bool)
        ensures
            r == self@.authorized,
    {
        self.authorized
    }

    /// The position of the record carrying `id`, when one is stored.
    fn find_index(&self, id: u64) -> (r: Option<usize>)
        ensures
            match r {
                Some(i) => i < self@.books.len() && self@.books[i as int].id == id,
                None => !has_book(self@.books, id),
            },
    {
        let mut i: usize = 0;
        while i < self.books.len()
            invariant
                i <= self@.books.len(),
                forall|k: int| 0 <= k < i ==> (#[trigger] self@.books[k]).id != id,
            decreases self@.books.len() - i,
        {
            if self.books[i].id == id {
                return Some(i);
            }
            i = i + 1;
        }
        None
    }

    /// The first position whose record's identifier is at least `id`;
    /// the length when every stored identifier is smaller.
    fn find_position(&self, id: u64) -> (r: usize)
        ensures
            r <= self@.books.len(),
            forall|k: int| 0 <= k < r ==> (#[trigger] self@.books[k]).id < id,
            r < self@.books.len() ==> self@.books[r as int].id >= id,
    {
        let mut i: usize = 0;
        while i < self.books.len()
            invariant
                i <= self@.books.len(),
                forall|k: int| 0 <= k < i ==> (#[trigger] self@.books[k]).id < id,
            decreases self@.books.len() - i,
        {
            if self.books[i].id >= id {
                return i;
            }
            i = i + 1;
        }
        i
    }

    /// Looks up a record by identifier, handing back a copy that aliases
    /// no store-internal state.
    pub fn _get_book(&self, id: &u64) -> (r: Option<Book>)
        requires
            self.wf(),
        ensures
            match r {
                Some(b) => has_book(self@.books, *id) && b@ == book_at(self@.books, *id),
                None => !has_book(self@.books, *id),
            },
    {
        match self.find_index(*id) {
            Some(i) => {
                proof {
                    lemma_increasing_implies_distinct(self@.books);
                    lemma_index_unique(self@.books, i as int, *id);
                }
                Some(self.books[i].clone())
            },
            None => None,
        }
    }

    /// Reads the record stored under `id`.
    pub fn get_book(&self, id: u64) -> (r: Result<Book, Error>)
        requires
            self.wf(),
        ensures
            r is Ok <==> has_book(self@.books, id),
            match r {
                Ok(b) => b@ == book_at(self@.books, id),
                Err(e) => e == Error::NotFound,
            },
    {
        match self._get_book(&id) {
            Some(book) => Ok(book),
            None => Err(Error::NotFound),
        }
    }

    /// Reads the record stored under `id` (an alias of `get_book` kept on
    /// the query surface).
    pub fn view_book(&self, id: u64) -> (r: Result<Book, Error>)
        requires
            self.wf(),
        ensures
            r is Ok <==> has_book(self@.books, id),
            match r {
                Ok(b) => b@ == book_at(self@.books, id),
                Err(e) => e == Error::NotFound,
            },
    {
        self.get_book(id)
    }

    /// A snapshot of every stored record, in creation order.
    pub fn list_books(&self) -> (r: Vec<Book>)
        ensures
            views_of(r@) =~= self@.books,
    {
        let mut out: Vec<Book> = Vec::new();
        let mut i: usize = 0;
        while i < self.books.len()
            invariant
                i <= self@.books.len(),
                views_of(out@) =~= self@.books.take(i as int),
            decreases self@.books.len() - i,
        {
            let b = self.books[i].clone();
            let ghost prev = out@;
            out.push(b);
            proof {
                assert(views_of(prev).len() == prev.len());
                assert(self@.books.take(i as int).len() == i as int);
                assert(prev.len() == i as int);
                assert forall|k: int| 0 <= k < out@.len()
                    implies views_of(out@)[k] == self@.books.take(i as int + 1)[k] by {
                    assert(self@.books.take(i as int + 1)[k] == self@.books[k]);
                    assert(views_of(out@)[k] == out@[k]@);
                    if k < i as int {
                        assert(out@[k] == prev[k]);
                        assert(views_of(prev)[k] == prev[k]@);
                        assert(views_of(prev)[k] == self@.books.take(i as int)[k]);
                        assert(self@.books.take(i as int)[k] == self@.books[k]);
                    } else {
                        assert(out@[k] == b);
                        assert(self@.books[i as int] == self.books@[i as int]@);
                    }
                };
                assert(views_of(out@).len() == out@.len());
                assert(self@.books.take(i as int + 1).len() == i + 1);
                assert(views_of(out@) =~= self@.books.take(i as int + 1));
            }
            i = i + 1;
        }
        assert(self@.books.take(self@.books.len() as int) =~= self@.books);
        out
    }

    /// Whether the record stored under `id` is currently borrowed; false
    /// (not an error) when no record exists.
    pub fn is_book_borrowed(&self, id: u64) -> (r: bool)
        requires
            self.wf(),
        ensures
            r == (has_book(self@.books, id) && book_at(self@.books, id).borrowed),
    {
        match self.get_book(id) {
            Ok(book) => book.borrowed,
            Err(_) => false,
        }
    }

    /// Whether the record stored under `id` is currently available; false
    /// (not an error) when no record exists.
    pub fn is_book_available(&self, id: u64) -> (r: bool)
        requires
            self.wf(),
        ensures
            r == (has_book(self@.books, id) && !book_at(self@.books, id).borrowed),
    {
        match self.get_book(id) {
            Ok(book) => !book.borrowed,
            Err(_) => false,
        }
    }

    /// The return timestamps recorded for `book_id`, in insertion order.
    pub fn get_return_history(&self, book_id: u64) -> (r: Vec<u64>)
        ensures
            r@ =~= timestamps_for(self@.history, book_id),
    {
        let mut out: Vec<u64> = Vec::new();
        let mut i: usize = 0;
        while i < self.history.len()
            invariant
                i <= self.history@.len(),
                out@ =~= timestamps_for(self.history@.take(i as int), book_id),
            decreases self.history@.len() - i,
        {
            let entry = self.history[i];
            if entry.book_id == book_id {
                out.push(entry.returned_at);
            }
            proof {
                let pre = self.history@.take(i as int);
                let cur = self.history@.take(i as int + 1);
                assert(cur.drop_last() =~= pre);
                assert(cur.last() == self.history@[i as int]);
                assert(timestamps_for(cur, book_id) == if entry.book_id == book_id {
                    timestamps_for(pre, book_id).push(entry.returned_at)
                } else {
                    timestamps_for(pre, book_id)
                });
            }
            i = i + 1;
        }
        assert(self.history@.take(self.history@.len() as int) =~= self.history@);
        out
    }

    /// Inserts a record under its identifier, replacing in full any
    /// record already stored there; the store never holds a partially
    /// updated value.
    pub fn do_insert_book(&mut self, book: &Book)
        requires
            old(self).wf(),
            book@.lending_wf(),
            1 <= book@.id <= old(self)@.counter,
        ensures
            final(self).wf(),
            has_book(final(self)@.books, book@.id),
            book_at(final(self)@.books, book@.id) == book@,
            forall|x: u64| #[trigger] has_book(final(self)@.books, x)
                <==> (has_book(old(self)@.books, x) || x == book@.id),
            forall|x: u64| x != book@.id && #[trigger] has_book(old(self)@.books, x)
                ==> book_at(final(self)@.books, x) == book_at(old(self)@.books, x),
            has_book(old(self)@.books, book@.id)
                ==> final(self)@.books.len() == old(self)@.books.len(),
            !has_book(old(self)@.books, book@.id)
                ==> final(self)@.books.len() == old(self)@.books.len() + 1,
            (forall|i: int| 0 <= i < old(self)@.books.len()
                ==> (#[trigger] old(self)@.books[i]).id < book@.id)
                ==> final(self)@.books =~= old(self)@.books.push(book@),
            final(self)@.counter == old(self)@.counter,
            final(self)@.history == old(self)@.history,
            final(self)@.authorized == old(self)@.authorized,
    {
        let pos = self.find_position(book.id);
        let ghost a = self@.books;
        if pos < self.books.len() && self.books[pos].id == book.id {
            proof {
                lemma_increasing_implies_distinct(a);
                lemma_index_unique(a, pos as int, book@.id);
            }
            self.books[pos] = book.clone();
            proof {
                let bseq = self@.books;
                assert forall|k: int| 0 <= k < bseq.len()
                    implies bseq[k] == a.update(pos as int, book@)[k] by {
                    assert(bseq[k] == self.books@[k]@);
                    if k != pos as int {
                        assert(self.books@[k] == old(self).books@[k]);
                        assert(a[k] == old(self).books@[k]@);
                    }
                };
                assert(bseq =~= a.update(pos as int, book@));
                lemma_replace_entry(a, bseq, pos as int, book@);
                assert forall|k: int| 0 <= k < bseq.len()
                    implies 1 <= (#[trigger] bseq[k]).id <= self@.counter
                        && bseq[k].lending_wf() by {
                    assert(1 <= a[k].id <= self@.counter);
                    assert(a[k].lending_wf());
                    if k != pos as int {
                        assert(bseq[k] == a[k]);
                    }
                };
            }
        } else {
            proof {
                lemma_increasing_implies_distinct(a);
                assert forall|k: int| 0 <= k < a.len() implies (#[trigger] a[k]).id != book@.id by {
                    if k >= pos as int && (pos as int) < a.len() && k > pos as int {
                        assert(a[pos as int].id < a[k].id);
                    }
                };
                assert(!has_book(a, book@.id));
            }
            self.books.insert(pos, book.clone());
            proof {
                let bseq = self@.books;
                assert forall|k: int| 0 <= k < bseq.len()
                    implies bseq[k] == a.insert(pos as int, book@)[k] by {
                    assert(bseq[k] == self.books@[k]@);
                    if k < pos as int {
                        assert(self.books@[k] == old(self).books@[k]);
                        assert(a[k] == old(self).books@[k]@);
                    } else if k > pos as int {
                        assert(self.books@[k] == old(self).books@[k - 1]);
                        assert(a[k - 1] == old(self).books@[k - 1]@);
                    }
                };
                assert(bseq =~= a.insert(pos as int, book@));
                lemma_insert_entry(a, pos as int, book@);
                assert forall|k: int, l: int| 0 <= k < l < bseq.len()
                    implies (#[trigger] bseq[k]).id < (#[trigger] bseq[l]).id by {
                    if k == pos as int {
                        assert(bseq[l] == a[l - 1]);
                        if l - 1 > pos as int {
                            assert(a[pos as int].id < a[l - 1].id);
                        }
                    } else if l == pos as int {
                        assert(bseq[k] == a[k]);
                    } else {
                        let ka: int = if k < pos as int { k } else { k - 1 };
                        let la: int = if l < pos as int { l } else { l - 1 };
                        assert(bseq[k] == a[ka]);
                        assert(bseq[l] == a[la]);
                        if ka < la {
                            assert(a[ka].id < a[la].id);
                        } else {
                            assert(ka == la && k == pos as int);
                        }
                    }
                };
                assert forall|k: int| 0 <= k < bseq.len()
                    implies 1 <= (#[trigger] bseq[k]).id <= self@.counter
                        && bseq[k].lending_wf() by {
                    if k != pos as int {
                        let ka: int = if k < pos as int { k } else { k - 1 };
                        assert(bseq[k] == a[ka]);
                        assert(1 <= a[ka].id <= self@.counter);
                        assert(a[ka].lending_wf());
                    }
                };
                if pos as int == a.len() {
                    assert(a.insert(a.len() as int, book@) =~= a.push(book@));
                }
            }
        }
    }

    /// Creates a record: consults the capability gate, validates the
    /// title, allocates the next identifier, and persists a record with
    /// the lending fields unset.
    pub fn add_book(&mut self, book: BookPayload) -> (r: Result<Book, Error>)
        requires
            old(self).wf(),
            old(self)@.counter < u64::MAX,
        ensures
            final(self).wf(),
            r is Ok <==> (old(self)@.authorized && book.title@.len() > 0),
            match r {
                Ok(b) => {
                    &&& b@ == (BookModel {
                            id: (old(self)@.counter + 1) as u64,
                            title: book.title@,
                            author: book.author@,
                            published_year: book.published_year,
                            borrowed: false,
                            borrowed_by: None,
                            borrowed_at: None,
                        })
                    &&& !has_book(old(self)@.books, b@.id)
                    &&& final(self)@.counter == old(self)@.counter + 1
                    &&& final(self)@.books =~= old(self)@.books.push(b@)
                    &&& final(self)@.history == old(self)@.history
                    &&& final(self)@.authorized == old(self)@.authorized
                },
                Err(e) => {
                    &&& final(self)@ == old(self)@
                    &&& (e == Error::UnauthorizedAccess <==> !old(self)@.authorized)
                    &&& (e == Error::Validation
                            <==> old(self)@.authorized && book.title@.len() == 0)
                },
            },
    {
        if !self.is_authorized_caller() {
            return Err(Error::UnauthorizedAccess);
        }
        if !text_is_valid(&book.title) {
            return Err(Error::Validation);
        }
        let id = self.counter + 1;
        self.counter = id;
        let new_book = Book {
            id: id,
            title: book.title,
            author: book.author,
            published_year: book.published_year,
            borrowed: false,
            borrowed_by: None,
            borrowed_at: None,
        };
        proof {
            assert forall|i: int| 0 <= i < self@.books.len()
                implies (#[trigger] self@.books[i]).id < new_book@.id by {
                assert(1 <= self@.books[i].id <= old(self)@.counter);
            };
            assert(!has_book(self@.books, new_book@.id));
        }
        self.do_insert_book(&new_book);
        Ok(new_book)
    }

    /// Borrows an available book for a named borrower, stamping the
    /// borrow timestamp; the read-check-write step is one atomic unit.
    pub fn borrow_book(&mut self, id: u64, borrower: String, now: u64) -> (r: Result<Book, Error>)
        requires
            old(self).wf(),
        ensures
            final(self).wf(),
            r is Ok <==> (old(self)@.authorized && borrower@.len() > 0
                && has_book(old(self)@.books, id)
                && !book_at(old(self)@.books, id).borrowed),
            match r {
                Ok(b) => {
                    &&& b@ == (BookModel {
                            id: book_at(old(self)@.books, id).id,
                            title: book_at(old(self)@.books, id).title,
                            author: book_at(old(self)@.books, id).author,
                            published_year: book_at(old(self)@.books, id).published_year,
                            borrowed: true,
                            borrowed_by: Some(borrower@),
                            borrowed_at: Some(now),
                        })
                    &&& b@.id == id
                    &&& final(self)@.books.len() == old(self)@.books.len()
                    &&& has_book(final(self)@.books, id)
                    &&& book_at(final(self)@.books, id) == b@
                    &&& (forall|x: u64| #[trigger] has_book(final(self)@.books, x)
                            <==> has_book(old(self)@.books, x))
                    &&& (forall|x: u64| x != id && #[trigger] has_book(old(self)@.books, x)
                            ==> book_at(final(self)@.books, x) == book_at(old(self)@.books, x))
                    &&& final(self)@.counter == old(self)@.counter
                    &&& final(self)@.history == old(self)@.history
                    &&& final(self)@.authorized == old(self)@.authorized
                },
                Err(e) => {
                    &&& final(self)@ == old(self)@
                    &&& (e == Error::UnauthorizedAccess <==> !old(self)@.authorized)
                    &&& (e == Error::Validation
                            <==> old(self)@.authorized && borrower@.len() == 0)
                    &&& (e == Error::NotFound <==> (old(self)@.authorized && borrower@.len() > 0
                            && !has_book(old(self)@.books, id)))
                    &&& (e == Error::BookAlreadyBorrowed
                            <==> (old(self)@.authorized && borrower@.len() > 0
                                && has_book(old(self)@.books, id)
                                && book_at(old(self)@.books, id).borrowed))
                },
            },
    {
        if !self.is_authorized_caller() {
            return Err(Error::UnauthorizedAccess);
        }
        if !text_is_valid(&borrower) {
            return Err(Error::Validation);
        }
        match self.find_index(id) {
            None => Err(Error::NotFound),
            Some(i) => {
                proof {
                    lemma_increasing_implies_distinct(self@.books);
                    lemma_index_unique(self@.books, i as int, id);
                }
                if self.books[i].borrowed {
                    return Err(Error::BookAlreadyBorrowed);
                }
                let prev_book = self.books[i].clone();
                let new_book = Book {
                    id: prev_book.id,
                    title: prev_book.title,
                    author: prev_book.author,
                    published_year: prev_book.published_year,
                    borrowed: true,
                    borrowed_by: Some(borrower),
                    borrowed_at: Some(now),
                };
                let result = new_book.clone();
                let ghost a = self@.books;
                self.books[i] = new_book;
                proof {
                    self.lemma_after_replace(a, i as int, result@);
                }
                Ok(result)
            },
        }
    }

    /// Returns a borrowed book: clears the lending fields and appends one
    /// entry to the return history log; the append happens only on a
    /// successful transition.
    pub fn return_book(&mut self, id: u64, now: u64) -> (r: Result<Book, Error>)
        requires
            old(self).wf(),
        ensures
            final(self).wf(),
            r is Ok <==> (old(self)@.authorized
                && has_book(old(self)@.books, id)
                && book_at(old(self)@.books, id).borrowed),
            match r {
                Ok(b) => {
                    &&& b@ == (BookModel {
                            id: book_at(old(self)@.books, id).id,
                            title: book_at(old(self)@.books, id).title,
                            author: book_at(old(self)@.books, id).author,
                            published_year: book_at(old(self)@.books, id).published_year,
                            borrowed: false,
                            borrowed_by: None,
                            borrowed_at: None,
                        })
                    &&& b@.id == id
                    &&& final(self)@.books.len() == old(self)@.books.len()
                    &&& has_book(final(self)@.books, id)
                    &&& book_at(final(self)@.books, id) == b@
                    &&& (forall|x: u64| #[trigger] has_book(final(self)@.books, x)
                            <==> has_book(old(self)@.books, x))
                    &&& (forall|x: u64| x != id && #[trigger] has_book(old(self)@.books, x)
                            ==> book_at(final(self)@.books, x) == book_at(old(self)@.books, x))
                    &&& final(self)@.counter == old(self)@.counter
                    &&& final(self)@.history =~= old(self)@.history.push(ReturnHistory { book_id: id, returned_at: now })
                    &&& final(self)@.authorized == old(self)@.authorized
                },
                Err(e) => {
                    &&& final(self)@ == old(self)@
                    &&& (e == Error::UnauthorizedAccess <==> !old(self)@.authorized)
                    &&& (e == Error::NotFound
                            <==> (old(self)@.authorized && !has_book(old(self)@.books, id)))
                    &&& (e == Error::BookNotBorrowed
                            <==> (old(self)@.authorized && has_book(old(self)@.books, id)
                                && !book_at(old(self)@.books, id).borrowed))
                },
            },
    {
        if !self.is_authorized_caller() {
            return Err(Error::UnauthorizedAccess);
        }
        match self.find_index(id) {
            None => Err(Error::NotFound),
            Some(i) => {
                proof {
                    lemma_increasing_implies_distinct(self@.books);
                    lemma_index_unique(self@.books, i as int, id);
                }
                if !self.books[i].borrowed {
                    return Err(Error::BookNotBorrowed);
                }
                let prev_book = self.books[i].clone();
                let new_book = Book {
                    id: prev_book.id,
                    title: prev_book.title,
                    author: prev_book.author,
                    published_year: prev_book.published_year,
                    borrowed: false,
                    borrowed_by: None,
                    borrowed_at: None,
                };
                let result = new_book.clone();
                let ghost a = self@.books;
                self.books[i] = new_book;
                proof {
                    self.lemma_after_replace(a, i as int, result@);
                }
                self.record_return_history(id, now);
                Ok(result)
            },
        }
    }

    /// Updates the three descriptive fields of a record, leaving the
    /// lending fields untouched, as one atomic replacement.
    pub fn update_book(&mut self, id: u64, updated_book: BookPayload) -> (r: Result<Book, Error>)
        requires
            old(self).wf(),
        ensures
            final(self).wf(),
            r is Ok <==> (old(self)@.authorized && updated_book.title@.len() > 0
                && has_book(old(self)@.books, id)),
            match r {
                Ok(b) => {
                    &&& b@ == (BookModel {
                            id: book_at(old(self)@.books, id).id,
                            title: updated_book.title@,
                            author: updated_book.author@,
                            published_year: updated_book.published_year,
                            borrowed: book_at(old(self)@.books, id).borrowed,
                            borrowed_by: book_at(old(self)@.books, id).borrowed_by,
                            borrowed_at: book_at(old(self)@.books, id).borrowed_at,
                        })
                    &&& b@.id == id
                    &&& final(self)@.books.len() == old(self)@.books.len()
                    &&& has_book(final(self)@.books, id)
                    &&& book_at(final(self)@.books, id) == b@
                    &&& (forall|x: u64| #[trigger] has_book(final(self)@.books, x)
                            <==> has_book(old(self)@.books, x))
                    &&& (forall|x: u64| x != id && #[trigger] has_book(old(self)@.books, x)
                            ==> book_at(final(self)@.books, x) == book_at(old(self)@.books, x))
                    &&& final(self)@.counter == old(self)@.counter
                    &&& final(self)@.history == old(self)@.history
                    &&& final(self)@.authorized == old(self)@.authorized
                },
                Err(e) => {
                    &&& final(self)@ == old(self)@
                    &&& (e == Error::UnauthorizedAccess <==> !old(self)@.authorized)
                    &&& (e == Error::Validation
                            <==> old(self)@.authorized && updated_book.title@.len() == 0)
                    &&& (e == Error::NotFound
                            <==> (old(self)@.authorized && updated_book.title@.len() > 0
                                && !has_book(old(self)@.books, id)))
                },
            },
    {
        if !self.is_authorized_caller() {
            return Err(Error::UnauthorizedAccess);
        }
        if !text_is_valid(&updated_book.title) {
            return Err(Error::Validation);
        }
        match self.find_index(id) {
            None => Err(Error::NotFound),
            Some(i) => {
                proof {
                    lemma_increasing_implies_distinct(self@.books);
                    lemma_index_unique(self@.books, i as int, id);
                }
                let prev_book = self.books[i].clone();
                let new_book = Book {
                    id: prev_book.id,
                    title: updated_book.title,
                    author: updated_book.author,
                    published_year: updated_book.published_year,
                    borrowed: prev_book.borrowed,
                    borrowed_by: prev_book.borrowed_by,
                    borrowed_at: prev_book.borrowed_at,
                };
                let result = new_book.clone();
                let ghost a = self@.books;
                self.books[i] = new_book;
                proof {
                    self.lemma_after_replace(a, i as int, result@);
                }
                Ok(result)
            },
        }
    }

    /// After the record at position `i` was replaced in place by a record
    /// with the same identifier satisfying the lending invariant, lookup
    /// and well-formedness carry over.
    proof fn lemma_after_replace(self, a: Seq<BookModel>, i: int, m: BookModel)
        requires
            0 <= i < a.len(),
            self@.books.len() == a.len(),
            forall|k: int| 0 <= k < a.len() && k != i ==> #[trigger] self@.books[k] == a[k],
            self@.books[i] == m,
            m.id == a[i].id,
            m.lending_wf(),
            ids_increasing(a),
            forall|k: int| 0 <= k < a.len() ==> 1 <= (#[trigger] a[k]).id <= self@.counter,
            forall|k: int| 0 <= k < a.len() ==> (#[trigger] a[k]).lending_wf(),
        ensures
            self.wf(),
            has_book(self@.books, m.id),
            book_at(self@.books, m.id) == m,
            forall|x: u64| #[trigger] has_book(self@.books, x) <==> has_book(a, x),
            forall|x: u64| x != m.id && #[trigger] has_book(a, x)
                ==> book_at(self@.books, x) == book_at(a, x),
    {
        let bseq = self@.books;
        assert forall|k: int| 0 <= k < bseq.len() implies bseq[k] == a.update(i, m)[k] by {};
        assert(bseq =~= a.update(i, m));
        lemma_replace_entry(a, bseq, i, m);
        assert forall|k: int| 0 <= k < bseq.len()
            implies 1 <= (#[trigger] bseq[k]).id <= self@.counter && bseq[k].lending_wf() by {
            assert(1 <= a[k].id <= self@.counter);
            assert(a[k].lending_wf());
            if k != i {
                assert(bseq[k] == a[k]);
            }
        };
    }

    /// Law: in a well-formed catalog the stored identifiers are pairwise
    /// distinct, strictly increasing in creation order, and bounded by
    /// the allocator's counter; since create hands out the incremented
    /// counter, identifiers returned by successive creates are pairwise
    /// distinct and strictly increasing in call order.
    pub proof fn lemma_ids_distinct_and_increasing(self)
        requires
            self.wf(),
        ensures
            ids_increasing(self@.books),
            ids_distinct(self@.books),
            forall|i: int| 0 <= i < self@.books.len()
                ==> (#[trigger] self@.books[i]).id <= self@.counter,
    {
        lemma_increasing_implies_distinct(self@.books);
    }

    /// Appends one immutable entry to the return history log.
    pub fn record_return_history(&mut self, book_id: u64, now: u64)
        requires
            old(self).wf(),
        ensures
            final(self).wf(),
            final(self)@.books == old(self)@.books,
            final(self)@.counter == old(self)@.counter,
            final(self)@.authorized == old(self)@.authorized,
            final(self)@.history =~= old(self)@.history.push(ReturnHistory { book_id: book_id, returned_at: now }),
    {
        self.history.push(ReturnHistory { book_id: book_id, returned_at: now });
    }
}

} // verus!
