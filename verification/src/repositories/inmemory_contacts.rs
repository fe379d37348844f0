//! The in-process backend: an ordered container of contacts keyed by name,
//! giving deterministic lexicographic iteration with no extra bookkeeping.

use vstd::prelude::*;

use crate::errors::ValidationError;
use crate::models::contact::{Contact, ContactView};
use crate::repositories::contacts::{
    get_valid_email, get_valid_name, get_valid_phone_no, ContactsRepository,
};
use crate::store::{
    contact_views, lemma_lookup_name, lemma_views_len, sorted_by_name, store_all, store_lookup,
    store_page, store_remove, store_upsert, store_upsert_all,
};

verus! {

/// A repository holding its records in one sorted vector.
pub struct InMemoryContactsRepository {
    entries: Vec<Contact>,
}

impl InMemoryContactsRepository {
    /// An empty repository.
    pub fn new() -> (r: Self)
        ensures
            r.contacts() == Seq::<ContactView>::empty(),
            sorted_by_name(r.contacts()),
    {
        let r = InMemoryContactsRepository { entries: Vec::new() };
        proof {
            lemma_views_len(r.entries@);
            assert(contact_views(r.entries@) =~= Seq::<ContactView>::empty());
        }
        r
    }
}

impl Default for InMemoryContactsRepository {
    /// The default repository is empty.
    fn default() -> (r: Self)
        ensures
            r.contacts() == Seq::<ContactView>::empty(),
            sorted_by_name(r.contacts()),
    {
        Self::new()
    }
}

impl ContactsRepository for InMemoryContactsRepository {
    closed spec fn contacts(&self) -> Seq<ContactView> {
        contact_views(self.entries@)
    }

    fn add(&mut self, name: String, phone_no_as_string: String, email: String) -> (r: Result<
        (),
        ValidationError,
    >) {
        let name: String = match get_valid_name(name.as_str()) {
            Ok(x) => x,
            Err(e) => return Err(e),
        };
        let email: String = match get_valid_email(email.as_str()) {
            Ok(x) => x,
            Err(e) => return Err(e),
        };
        let phone_no: u64 = match get_valid_phone_no(phone_no_as_string.as_str()) {
            Ok(x) => x,
            Err(e) => return Err(e),
        };
        store_upsert(&mut self.entries, Contact { name, phone_no, email });
        Ok(())
    }

    fn update_email(&mut self, name: &str, new_email: String) -> (r: Result<
        bool,
        ValidationError,
    >) {
        let new_email: String = match get_valid_email(new_email.as_str()) {
            Ok(x) => x,
            Err(e) => return Err(e),
        };
        let prior = match store_lookup(&self.entries, name) {
            Some(x) => x,
            None => return Ok(false),
        };
        proof {
            lemma_lookup_name(contact_views(self.entries@), name@);
        }
        store_upsert(
            &mut self.entries,
            Contact { name: prior.name, phone_no: prior.phone_no, email: new_email },
        );
        Ok(true)
    }

    fn update_phone_no(&mut self, name: &str, new_phone_no_as_string: String) -> (r: Result<
        bool,
        ValidationError,
    >) {
        let new_phone_no: u64 = match get_valid_phone_no(new_phone_no_as_string.as_str()) {
            Ok(x) => x,
            Err(e) => return Err(e),
        };
        let prior = match store_lookup(&self.entries, name) {
            Some(x) => x,
            None => return Ok(false),
        };
        proof {
            lemma_lookup_name(contact_views(self.entries@), name@);
        }
        store_upsert(
            &mut self.entries,
            Contact { name: prior.name, phone_no: new_phone_no, email: prior.email },
        );
        Ok(true)
    }

    fn delete(&mut self, name: &str) -> (r: Option<Contact>) {
        store_remove(&mut self.entries, name)
    }

    fn get(&self, name: &str) -> (r: Option<Contact>) {
        store_lookup(&self.entries, name)
    }

    fn list(&self, page_no: usize, page_size: usize) -> (r: Vec<Contact>) {
        store_page(&self.entries, page_no, page_size)
    }

    fn count(&self) -> (r: usize) {
        proof {
            lemma_views_len(self.entries@);
        }
        self.entries.len()
    }

    fn export_contacts(&self) -> (r: Vec<Contact>) {
        store_all(&self.entries)
    }

    fn import_contacts(&mut self, items: &Vec<Contact>) {
        store_upsert_all(&mut self.entries, items);
    }
}

} // verus!
