use lending_catalog::book::{Book, BookPayload};
use lending_catalog::catalog::Catalog;
use lending_catalog::error::Error;

fn payload(title: &str, author: &str, year: u32) -> BookPayload {
    BookPayload {
        title: title.to_string(),
        author: author.to_string(),
        published_year: year,
    }
}

#[test]
fn create_ids_distinct_and_increasing() {
    let mut c = Catalog::new(true);
    let mut ids: Vec<u64> = Vec::new();
    for k in 0..5 {
        let b = c.add_book(payload(&format!("t{}", k), "a", 2000)).unwrap();
        ids.push(b.id);
    }
    for i in 0..ids.len() {
        for j in (i + 1)..ids.len() {
            assert!(ids[i] < ids[j]);
            assert_ne!(ids[i], ids[j]);
        }
    }
    assert_eq!(ids, vec![1, 2, 3, 4, 5]);
}

#[test]
fn create_empty_title_fails_and_persists_nothing() {
    let mut c = Catalog::new(true);
    let r = c.add_book(payload("", "somebody", 1999));
    assert_eq!(r.unwrap_err(), Error::Validation);
    assert_eq!(c.list_books().len(), 0);
    let r2 = c.add_book(payload("ok", "somebody", 1999));
    assert_eq!(r2.unwrap().id, 1);
}

#[test]
fn created_book_reads_back_equal_and_available() {
    let mut c = Catalog::new(true);
    let b = c.add_book(payload("Dune", "Herbert", 1965)).unwrap();
    let got = c.get_book(b.id).unwrap();
    assert_eq!(got.id, b.id);
    assert_eq!(got.title, b.title);
    assert_eq!(got.author, b.author);
    assert_eq!(got.published_year, b.published_year);
    assert_eq!(got.borrowed, b.borrowed);
    assert_eq!(got.borrowed_by, b.borrowed_by);
    assert_eq!(got.borrowed_at, b.borrowed_at);
    assert!(c.is_book_available(b.id));
    assert!(!c.is_book_borrowed(b.id));
    assert!(!b.borrowed);
    assert_eq!(b.borrowed_by, None);
    assert_eq!(b.borrowed_at, None);
}

#[test]
fn borrow_empty_borrower_fails_whatever_the_state() {
    let mut c = Catalog::new(true);
    let b = c.add_book(payload("Dune", "Herbert", 1965)).unwrap();
    assert_eq!(c.borrow_book(b.id, String::new(), 10).unwrap_err(), Error::Validation);
    c.borrow_book(b.id, "ann".to_string(), 11).unwrap();
    assert_eq!(c.borrow_book(b.id, String::new(), 12).unwrap_err(), Error::Validation);
    assert_eq!(c.borrow_book(999, String::new(), 13).unwrap_err(), Error::Validation);
}

#[test]
fn borrow_sets_lending_fields_and_second_borrow_fails() {
    let mut c = Catalog::new(true);
    let b = c.add_book(payload("Dune", "Herbert", 1965)).unwrap();
    let lent = c.borrow_book(b.id, "alice".to_string(), 42).unwrap();
    assert!(lent.borrowed);
    assert_eq!(lent.borrowed_by.as_deref(), Some("alice"));
    assert_eq!(lent.borrowed_at, Some(42));
    let again = c.borrow_book(b.id, "bob".to_string(), 43);
    assert_eq!(again.unwrap_err(), Error::BookAlreadyBorrowed);
    let still = c.get_book(b.id).unwrap();
    assert!(still.borrowed);
    assert_eq!(still.borrowed_by.as_deref(), Some("alice"));
    assert_eq!(still.borrowed_at, Some(42));
}

#[test]
fn return_on_available_fails_and_on_borrowed_clears_and_logs() {
    let mut c = Catalog::new(true);
    let b = c.add_book(payload("Dune", "Herbert", 1965)).unwrap();
    assert_eq!(c.return_book(b.id, 5).unwrap_err(), Error::BookNotBorrowed);
    let unchanged = c.get_book(b.id).unwrap();
    assert!(!unchanged.borrowed);
    assert_eq!(unchanged.borrowed_by, None);
    assert_eq!(unchanged.borrowed_at, None);
    assert_eq!(c.get_return_history(b.id).len(), 0);
    c.borrow_book(b.id, "ann".to_string(), 6).unwrap();
    let back = c.return_book(b.id, 7).unwrap();
    assert!(!back.borrowed);
    assert_eq!(back.borrowed_by, None);
    assert_eq!(back.borrowed_at, None);
    assert_eq!(c.get_return_history(b.id), vec![7]);
}

#[test]
fn history_counts_every_return_in_order() {
    let mut c = Catalog::new(true);
    let b = c.add_book(payload("Dune", "Herbert", 1965)).unwrap();
    let other = c.add_book(payload("Emma", "Austen", 1815)).unwrap();
    let mut stamps: Vec<u64> = Vec::new();
    for n in 0..4 {
        let t_borrow = 100 + 10 * n;
        let t_return = 105 + 10 * n;
        c.borrow_book(b.id, "ann".to_string(), t_borrow).unwrap();
        c.return_book(b.id, t_return).unwrap();
        stamps.push(t_return);
    }
    assert_eq!(c.get_return_history(b.id), stamps);
    assert_eq!(c.get_return_history(other.id).len(), 0);
}

#[test]
fn update_on_borrowed_book_keeps_lending_fields() {
    let mut c = Catalog::new(true);
    let b = c.add_book(payload("Dune", "Herbert", 1965)).unwrap();
    c.borrow_book(b.id, "carol".to_string(), 77).unwrap();
    let updated = c.update_book(b.id, payload("Dune (revised)", "F. Herbert", 1966)).unwrap();
    assert_eq!(updated.id, b.id);
    assert_eq!(updated.title, "Dune (revised)");
    assert_eq!(updated.author, "F. Herbert");
    assert_eq!(updated.published_year, 1966);
    assert!(updated.borrowed);
    assert_eq!(updated.borrowed_by.as_deref(), Some("carol"));
    assert_eq!(updated.borrowed_at, Some(77));
    let stored = c.get_book(b.id).unwrap();
    assert!(stored.borrowed);
    assert_eq!(stored.borrowed_by.as_deref(), Some("carol"));
    assert_eq!(stored.borrowed_at, Some(77));
}

#[test]
fn update_empty_title_fails() {
    let mut c = Catalog::new(true);
    let b = c.add_book(payload("Dune", "Herbert", 1965)).unwrap();
    assert_eq!(c.update_book(b.id, payload("", "x", 1)).unwrap_err(), Error::Validation);
    let stored = c.get_book(b.id).unwrap();
    assert_eq!(stored.title, "Dune");
}

#[test]
fn missing_id_reports_not_found_or_false() {
    let mut c = Catalog::new(true);
    assert_eq!(c.get_book(12).unwrap_err(), Error::NotFound);
    assert_eq!(c.view_book(12).unwrap_err(), Error::NotFound);
    assert_eq!(c.borrow_book(12, "ann".to_string(), 1).unwrap_err(), Error::NotFound);
    assert_eq!(c.return_book(12, 1).unwrap_err(), Error::NotFound);
    assert_eq!(c.update_book(12, payload("t", "a", 1)).unwrap_err(), Error::NotFound);
    assert!(!c.is_book_borrowed(12));
    assert!(!c.is_book_available(12));
    assert!(c._get_book(&12).is_none());
    assert_eq!(c.get_return_history(12).len(), 0);
}

#[test]
fn unauthorized_caller_is_refused_every_mutation() {
    let mut c = Catalog::new(false);
    assert!(!c.is_authorized_caller());
    assert_eq!(c.add_book(payload("t", "a", 1)).unwrap_err(), Error::UnauthorizedAccess);
    assert_eq!(c.borrow_book(1, "ann".to_string(), 1).unwrap_err(), Error::UnauthorizedAccess);
    assert_eq!(c.return_book(1, 1).unwrap_err(), Error::UnauthorizedAccess);
    assert_eq!(c.update_book(1, payload("t", "a", 1)).unwrap_err(), Error::UnauthorizedAccess);
    assert_eq!(c.list_books().len(), 0);
}

#[test]
fn end_to_end_lifecycle() {
    let mut c = Catalog::new(true);
    let b = c.add_book(payload("Dune", "Herbert", 1965)).unwrap();
    assert_eq!(b.id, 1);
    let lent = c.borrow_book(1, "ann".to_string(), 1000).unwrap();
    assert!(lent.borrowed);
    let back = c.return_book(1, 1001).unwrap();
    assert!(!back.borrowed);
    assert_eq!(c.get_return_history(1), vec![1001]);
    let lent2 = c.borrow_book(1, "bob".to_string(), 1002).unwrap();
    assert!(lent2.borrowed);
    assert_eq!(lent2.borrowed_by.as_deref(), Some("bob"));
    c.return_book(1, 1003).unwrap();
    assert_eq!(c.get_return_history(1), vec![1001, 1003]);
}

#[test]
fn list_books_snapshots_all_records_in_creation_order() {
    let mut c = Catalog::new(true);
    assert_eq!(c.list_books().len(), 0);
    c.add_book(payload("a", "x", 1)).unwrap();
    c.add_book(payload("b", "y", 2)).unwrap();
    c.add_book(payload("c", "z", 3)).unwrap();
    let all = c.list_books();
    assert_eq!(all.len(), 3);
    assert_eq!(all[0].title, "a");
    assert_eq!(all[1].title, "b");
    assert_eq!(all[2].title, "c");
    assert_eq!(all[0].id, 1);
    assert_eq!(all[1].id, 2);
    assert_eq!(all[2].id, 3);
}

#[test]
fn get_and_view_agree_with_helper() {
    let mut c = Catalog::new(true);
    let b = c.add_book(payload("Dune", "Herbert", 1965)).unwrap();
    let via_get = c.get_book(b.id).unwrap();
    let via_view = c.view_book(b.id).unwrap();
    let via_helper = c._get_book(&b.id).unwrap();
    assert_eq!(via_get.title, via_view.title);
    assert_eq!(via_view.title, via_helper.title);
    assert_eq!(via_helper.title, "Dune");
}

#[test]
fn do_insert_book_replaces_the_stored_record() {
    let mut c = Catalog::new(true);
    let b = c.add_book(payload("Dune", "Herbert", 1965)).unwrap();
    let replacement = Book {
        id: b.id,
        title: "Dune Messiah".to_string(),
        author: "Herbert".to_string(),
        published_year: 1969,
        borrowed: false,
        borrowed_by: None,
        borrowed_at: None,
    };
    c.do_insert_book(&replacement);
    let stored = c.get_book(b.id).unwrap();
    assert_eq!(stored.title, "Dune Messiah");
    assert_eq!(stored.published_year, 1969);
    assert_eq!(c.list_books().len(), 1);
}

#[test]
fn record_return_history_appends_per_book() {
    let mut c = Catalog::new(true);
    c.record_return_history(4, 100);
    c.record_return_history(9, 101);
    c.record_return_history(4, 102);
    assert_eq!(c.get_return_history(4), vec![100, 102]);
    assert_eq!(c.get_return_history(9), vec![101]);
    assert_eq!(c.get_return_history(5).len(), 0);
}

#[test]
fn text_validation_accepts_exactly_nonempty() {
    assert!(lending_catalog::book::text_is_valid(&"x".to_string()));
    assert!(!lending_catalog::book::text_is_valid(&String::new()));
}
