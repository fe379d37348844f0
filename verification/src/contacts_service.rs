//! The service surface the command loop talks to: the same capability set as
//! the repository layer, with identical contracts, so a service can stand in
//! for any repository backend in tests and callers depend on behavior alone.

use vstd::prelude::*;

use crate::errors::ValidationError;
use crate::models::contact::{Contact, ContactView};
use crate::patterns::{email_shape, parsed_u64, parses_to_u64, phone_shape};
use crate::repositories::contacts::{get_valid_email, get_valid_name, get_valid_phone_no};
use crate::store::{
    contact_views, lemma_lookup_name, lemma_views_len, lookup, opt_view, page, remove_name,
    sorted_by_name, store_all, store_lookup, store_page, store_remove, store_upsert,
    store_upsert_all, upsert, upsert_all,
};

verus! {

/// The operations a contact service offers to the command layer. The
/// contracts are the same as the repository trait's: callers observe only
/// the ascending-by-name record set.
pub trait ContactsService: Sized {
    /// The stored record set, ascending by name.
    spec fn contacts(&self) -> Seq<ContactView>;

    /// Validates all three fields, then inserts or replaces the record under
    /// `name`. An existing name is overwritten, never an error.
    fn add(&mut self, name: String, phone_no_as_string: String, email: String) -> (r: Result<
        (),
        ValidationError,
    >)
        requires
            sorted_by_name(old(self).contacts()),
        ensures
            sorted_by_name(final(self).contacts()),
            name@.len() == 0 ==> r == Err::<(), ValidationError>(ValidationError::EmptyName)
                && final(self).contacts() == old(self).contacts(),
            name@.len() > 0 && !email_shape(email@) ==> r == Err::<(), ValidationError>(
                ValidationError::InvalidEmail,
            ) && final(self).contacts() == old(self).contacts(),
            name@.len() > 0 && email_shape(email@) && !phone_shape(phone_no_as_string@) ==> r
                == Err::<(), ValidationError>(ValidationError::InvalidPhoneFormat)
                && final(self).contacts() == old(self).contacts(),
            name@.len() > 0 && email_shape(email@) && phone_shape(phone_no_as_string@)
                && !parses_to_u64(phone_no_as_string@) ==> r == Err::<(), ValidationError>(
                ValidationError::PhoneOverflow,
            ) && final(self).contacts() == old(self).contacts(),
            name@.len() > 0 && email_shape(email@) && phone_shape(phone_no_as_string@)
                && parses_to_u64(phone_no_as_string@) ==> r == Ok::<(), ValidationError>(())
                && final(self).contacts() == upsert(
                old(self).contacts(),
                (ContactView {
                    name: name@,
                    phone_no: parsed_u64(phone_no_as_string@),
                    email: email@,
                }),
            ),
    ;

    /// Validates the new email first; reports by `bool` whether the name was
    /// present, replacing its stored email if so.
    fn update_email(&mut self, name: &str, new_email: String) -> (r: Result<
        bool,
        ValidationError,
    >)
        requires
            sorted_by_name(old(self).contacts()),
        ensures
            sorted_by_name(final(self).contacts()),
            !email_shape(new_email@) ==> r == Err::<bool, ValidationError>(
                ValidationError::InvalidEmail,
            ) && final(self).contacts() == old(self).contacts(),
            email_shape(new_email@) ==> match lookup(old(self).contacts(), name@) {
                Option::None => r == Ok::<bool, ValidationError>(false) && final(self).contacts()
                    == old(self).contacts(),
                Option::Some(c) => r == Ok::<bool, ValidationError>(true) && final(self).contacts()
                    == upsert(
                    old(self).contacts(),
                    (ContactView { name: name@, phone_no: c.phone_no, email: new_email@ }),
                ),
            },
    ;

    /// Validates the new phone number first; reports by `bool` whether the
    /// name was present, replacing its stored phone number if so.
    fn update_phone_no(&mut self, name: &str, new_phone_no_as_string: String) -> (r: Result<
        bool,
        ValidationError,
    >)
        requires
            sorted_by_name(old(self).contacts()),
        ensures
            sorted_by_name(final(self).contacts()),
            !phone_shape(new_phone_no_as_string@) ==> r == Err::<bool, ValidationError>(
                ValidationError::InvalidPhoneFormat,
            ) && final(self).contacts() == old(self).contacts(),
            phone_shape(new_phone_no_as_string@) && !parses_to_u64(new_phone_no_as_string@) ==> r
                == Err::<bool, ValidationError>(ValidationError::PhoneOverflow)
                && final(self).contacts() == old(self).contacts(),
            phone_shape(new_phone_no_as_string@) && parses_to_u64(new_phone_no_as_string@)
                ==> match lookup(old(self).contacts(), name@) {
                Option::None => r == Ok::<bool, ValidationError>(false) && final(self).contacts()
                    == old(self).contacts(),
                Option::Some(c) => r == Ok::<bool, ValidationError>(true) && final(self).contacts()
                    == upsert(
                    old(self).contacts(),
                    (ContactView {
                        name: name@,
                        phone_no: parsed_u64(new_phone_no_as_string@),
                        email: c.email,
                    }),
                ),
            },
    ;

    /// Removes and returns the record under `name`; absent names are not an
    /// error and return nothing.
    fn delete(&mut self, name: &str) -> (r: Option<Contact>)
        requires
            sorted_by_name(old(self).contacts()),
        ensures
            sorted_by_name(final(self).contacts()),
            final(self).contacts() == remove_name(old(self).contacts(), name@),
            opt_view(r) == lookup(old(self).contacts(), name@),
    ;

    /// Looks a name up without any validation; any string is a legal key.
    fn get(&self, name: &str) -> (r: Option<Contact>)
        requires
            sorted_by_name(self.contacts()),
        ensures
            opt_view(r) == lookup(self.contacts(), name@),
    ;

    /// The page at `page_no` of the ascending listing: skips `page_no *
    /// page_size` records and returns up to `page_size`. A page beyond the
    /// end, or a zero page size, yields the empty sequence.
    fn list(&self, page_no: usize, page_size: usize) -> (r: Vec<Contact>)
        requires
            sorted_by_name(self.contacts()),
        ensures
            contact_views(r@) == page(self.contacts(), page_no as int, page_size as int),
    ;

    /// How many records are stored.
    fn count(&self) -> (r: usize)
        ensures
            r == self.contacts().len(),
    ;

    /// The full record set in ascending name order, for bulk export.
    fn export_contacts(&self) -> (r: Vec<Contact>)
        requires
            sorted_by_name(self.contacts()),
        ensures
            contact_views(r@) == self.contacts(),
    ;

    /// Upserts every record of a decoded bulk file, in order, by the same
    /// key-replacement rule as `add`, without re-validating the fields.
    fn import_contacts(&mut self, items: &Vec<Contact>)
        requires
            sorted_by_name(old(self).contacts()),
        ensures
            sorted_by_name(final(self).contacts()),
            final(self).contacts() == upsert_all(old(self).contacts(), contact_views(items@)),
    ;
}

/// A service holding its records in one sorted vector.
pub struct InMemoryContactsService {
    entries: Vec<Contact>,
}

impl InMemoryContactsService {
    /// An empty service.
    pub fn new() -> (r: Self)
        ensures
            r.contacts() == Seq::<ContactView>::empty(),
            sorted_by_name(r.contacts()),
    {
        let r = InMemoryContactsService { entries: Vec::new() };
        proof {
            lemma_views_len(r.entries@);
            assert(contact_views(r.entries@) =~= Seq::<ContactView>::empty());
        }
        r
    }
}

impl Default for InMemoryContactsService {
    /// The default service is empty.
    fn default() -> (r: Self)
        ensures
            r.contacts() == Seq::<ContactView>::empty(),
            sorted_by_name(r.contacts()),
    {
        Self::new()
    }
}

impl ContactsService for InMemoryContactsService {
    closed spec fn contacts(&self) -> Seq<ContactView> {
        contact_views(self.entries@)
    }

    fn add(&mut self, name: String, phone_no_as_string: String, email: String) -> (r: Result<
        (),
        ValidationError,
    >) {
        let name: String = match get_valid_name(name.as_str()) {
            Ok(x) => x,
            Err(e) => return Err(e),
        };
        let email: String = match get_valid_email(email.as_str()) {
            Ok(x) => x,
            Err(e) => return Err(e),
        };
        let phone_no: u64 = match get_valid_phone_no(phone_no_as_string.as_str()) {
            Ok(x) => x,
            Err(e) => return Err(e),
        };
        store_upsert(&mut self.entries, Contact { name, phone_no, email });
        Ok(())
    }

    fn update_email(&mut self, name: &str, new_email: String) -> (r: Result<
        bool,
        ValidationError,
    >) {
        let new_email: String = match get_valid_email(new_email.as_str()) {
            Ok(x) => x,
            Err(e) => return Err(e),
        };
        let prior = match store_lookup(&self.entries, name) {
            Some(x) => x,
            None => return Ok(false),
        };
        proof {
            lemma_lookup_name(contact_views(self.entries@), name@);
        }
        store_upsert(
            &mut self.entries,
            Contact { name: prior.name, phone_no: prior.phone_no, email: new_email },
        );
        Ok(true)
    }

    fn update_phone_no(&mut self, name: &str, new_phone_no_as_string: String) -> (r: Result<
        bool,
        ValidationError,
    >) {
        let new_phone_no: u64 = match get_valid_phone_no(new_phone_no_as_string.as_str()) {
            Ok(x) => x,
            Err(e) => return Err(e),
        };
        let prior = match store_lookup(&self.entries, name) {
            Some(x) => x,
            None => return Ok(false),
        };
        proof {
            lemma_lookup_name(contact_views(self.entries@), name@);
        }
        store_upsert(
            &mut self.entries,
            Contact { name: prior.name, phone_no: new_phone_no, email: prior.email },
        );
        Ok(true)
    }

    fn delete(&mut self, name: &str) -> (r: Option<Contact>) {
        store_remove(&mut self.entries, name)
    }

    fn get(&self, name: &str) -> (r: Option<Contact>) {
        store_lookup(&self.entries, name)
    }

    fn list(&self, page_no: usize, page_size: usize) -> (r: Vec<Contact>) {
        store_page(&self.entries, page_no, page_size)
    }

    fn count(&self) -> (r: usize) {
        proof {
            lemma_views_len(self.entries@);
        }
        self.entries.len()
    }

    fn export_contacts(&self) -> (r: Vec<Contact>) {
        store_all(&self.entries)
    }

    fn import_contacts(&mut self, items: &Vec<Contact>) {
        store_upsert_all(&mut self.entries, items);
    }
}

} // verus!
