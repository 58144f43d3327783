//! The mathematical model of the durable key-value store: a sequence of
//! records in creation order, looked up by identifier. The lemmas here
//! relate identifier-based lookup to pointwise changes of the sequence.

use vstd::prelude::*;
use crate::book::BookModel;

verus! {

/// True when some record in `books` carries identifier `id`.
pub open spec fn has_book(books: Seq<BookModel>, id: u64) -> bool {
    exists|i: int| 0 <= i < books.len() && (#[trigger] books[i]).id == id
}

/// The position of a record carrying identifier `id`; meaningful when
/// `has_book` holds (and unique when identifiers are distinct).
pub open spec fn index_of(books: Seq<BookModel>, id: u64) -> int {
    choose|i: int| 0 <= i < books.len() && (#[trigger] books[i]).id == id
}

/// The record stored under identifier `id`.
pub open spec fn book_at(books: Seq<BookModel>, id: u64) -> BookModel {
    books[index_of(books, id)]
}

/// Identifiers are strictly increasing along the sequence.
pub open spec fn ids_increasing(books: Seq<BookModel>) -> bool {
    forall|i: int, j: int| 0 <= i < j < books.len()
        ==> (#[trigger] books[i]).id < (#[trigger] books[j]).id
}

/// Strictly increasing identifiers are in particular pairwise distinct.
pub open spec fn ids_distinct(books: Seq<BookModel>) -> bool {
    forall|i: int, j: int| 0 <= i < j < books.len()
        ==> (#[trigger] books[i]).id != (#[trigger] books[j]).id
}

pub proof fn lemma_increasing_implies_distinct(books: Seq<BookModel>)
    requires
        ids_increasing(books),
    ensures
        ids_distinct(books),
{
}

/// With distinct identifiers, any position holding `id` is the position
/// that lookup chooses.
pub proof fn lemma_index_unique(books: Seq<BookModel>, i: int, id: u64)
    requires
        ids_distinct(books),
        0 <= i < books.len(),
        books[i].id == id,
    ensures
        has_book(books, id),
        index_of(books, id) == i,
        book_at(books, id) == books[i],
{
    assert(has_book(books, id));
    let j = index_of(books, id);
    assert(0 <= j < books.len() && books[j].id == id);
    if i < j {
        assert(books[i].id != books[j].id);
    }
    if j < i {
        assert(books[j].id != books[i].id);
    }
}

/// Replacing the record at one position by a record with the same
/// identifier preserves lookup everywhere else.
pub proof fn lemma_replace_entry(a: Seq<BookModel>, b: Seq<BookModel>, i: int, m: BookModel)
    requires
        0 <= i < a.len(),
        b == a.update(i, m),
        m.id == a[i].id,
        ids_increasing(a),
    ensures
        ids_increasing(b),
        ids_distinct(b),
        has_book(b, m.id),
        book_at(b, m.id) == m,
        forall|x: u64| #[trigger] has_book(b, x) <==> has_book(a, x),
        forall|x: u64| x != m.id && #[trigger] has_book(a, x) ==> book_at(b, x) == book_at(a, x),
        forall|k: int| 0 <= k < a.len() && (#[trigger] a[k]).id != m.id ==> b[k] == a[k],
{
    lemma_increasing_implies_distinct(a);
    assert(forall|k: int| 0 <= k < b.len() ==> (#[trigger] b[k]).id == a[k].id);
    assert(ids_increasing(b));
    lemma_increasing_implies_distinct(b);
    lemma_index_unique(b, i, m.id);
    assert forall|x: u64| #[trigger] has_book(b, x) <==> has_book(a, x) by {
        if has_book(a, x) {
            let k = index_of(a, x);
            assert(0 <= k < a.len() && a[k].id == x);
            assert(b[k].id == x);
            assert(has_book(b, x));
        }
        if has_book(b, x) {
            let k = index_of(b, x);
            assert(0 <= k < b.len() && b[k].id == x);
            assert(a[k].id == x);
            assert(has_book(a, x));
        }
    };
    assert forall|x: u64| x != m.id && #[trigger] has_book(a, x) implies book_at(b, x) == book_at(a, x) by {
        let k = index_of(a, x);
        assert(0 <= k < a.len() && a[k].id == x);
        lemma_index_unique(a, k, x);
        assert(b[k].id == x);
        lemma_index_unique(b, k, x);
        assert(k != i);
        assert(b[k] == a[k]);
    };
}

/// Inserting a record with a fresh identifier makes that record visible
/// under its identifier and preserves lookup everywhere else.
pub proof fn lemma_insert_entry(a: Seq<BookModel>, i: int, m: BookModel)
    requires
        0 <= i <= a.len(),
        ids_distinct(a),
        !has_book(a, m.id),
    ensures
        ids_distinct(a.insert(i, m)),
        has_book(a.insert(i, m), m.id),
        book_at(a.insert(i, m), m.id) == m,
        forall|x: u64| x != m.id ==> (#[trigger] has_book(a.insert(i, m), x) <==> has_book(a, x)),
        forall|x: u64| x != m.id && #[trigger] has_book(a, x)
            ==> book_at(a.insert(i, m), x) == book_at(a, x),
{
    let b = a.insert(i, m);
    assert(b.len() == a.len() + 1);
    assert(b[i] == m);
    assert(forall|k: int| 0 <= k < i ==> b[k] == a[k]);
    assert(forall|k: int| i < k < b.len() ==> b[k] == a[k - 1]);
    assert forall|k: int, l: int| 0 <= k < l < b.len() implies (#[trigger] b[k]).id != (#[trigger] b[l]).id by {
        if k == i {
            assert(b[l] == a[l - 1]);
            assert(a[l - 1].id != m.id);
        } else if l == i {
            assert(b[k] == a[k]);
            assert(a[k].id != m.id);
        } else {
            let ka: int = if k < i { k } else { k - 1 };
            let la: int = if l < i { l } else { l - 1 };
            assert(b[k] == a[ka]);
            assert(b[l] == a[la]);
            assert(ka < la);
            assert(a[ka].id != a[la].id);
        }
    };
    lemma_index_unique(b, i, m.id);
    assert forall|x: u64| x != m.id implies (#[trigger] has_book(b, x) <==> has_book(a, x)) by {
        if has_book(a, x) {
            let k = index_of(a, x);
            assert(0 <= k < a.len() && a[k].id == x);
            let kb: int = if k < i { k } else { k + 1 };
            assert(b[kb] == a[k]);
            assert(has_book(b, x));
        }
        if has_book(b, x) {
            let k = index_of(b, x);
            assert(0 <= k < b.len() && b[k].id == x);
            assert(k != i);
            let ka: int = if k < i { k } else { k - 1 };
            assert(a[ka] == b[k]);
            assert(has_book(a, x));
        }
    };
    assert forall|x: u64| x != m.id && #[trigger] has_book(a, x) implies book_at(b, x) == book_at(a, x) by {
        let k = index_of(a, x);
        assert(0 <= k < a.len() && a[k].id == x);
        lemma_index_unique(a, k, x);
        let kb: int = if k < i { k } else { k + 1 };
        assert(b[kb] == a[k]);
        lemma_index_unique(b, kb, x);
    };
}

/// A strict increase between every pair of neighbours extends to all
/// pairs of positions.
pub proof fn lemma_adjacent_increasing(books: Seq<BookModel>)
    requires
        forall|i: int| 1 <= i < books.len() ==> (#[trigger] books[i]).id > books[i - 1].id,
    ensures
        ids_increasing(books),
{
    assert forall|i: int, j: int| 0 <= i < j < books.len()
        implies (#[trigger] books[i]).id < (#[trigger] books[j]).id by {
        lemma_chain_increasing(books, i, j);
    };
}

proof fn lemma_chain_increasing(books: Seq<BookModel>, i: int, j: int)
    requires
        forall|k: int| 1 <= k < books.len() ==> (#[trigger] books[k]).id > books[k - 1].id,
        0 <= i < j < books.len(),
    ensures
        books[i].id < books[j].id,
    decreases j - i,
{
    if i + 1 < j {
        lemma_chain_increasing(books, i, j - 1);
    }
    assert(books[j].id > books[j - 1].id);
}

/// Law: a record whose identifier is absent is, after being appended,
/// read back unchanged under that identifier.
pub proof fn lemma_fresh_book_read_back(books: Seq<BookModel>, b: BookModel)
    requires
        !has_book(books, b.id),
    ensures
        has_book(books.push(b), b.id),
        book_at(books.push(b), b.id) == b,
{
    let n = books.push(b);
    assert(n[books.len() as int] == b);
    assert(has_book(n, b.id));
    let j = index_of(n, b.id);
    assert(0 <= j < n.len() && n[j].id == b.id);
    if j < books.len() {
        assert(n[j] == books[j]);
        assert(has_book(books, b.id));
    }
    assert(j == books.len());
}

} // verus!
