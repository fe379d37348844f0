//! Field validation and the repository capability set. Every backend
//! satisfies the same contracts, stated over the ascending-by-name sequence
//! of stored records, so backends are interchangeable to their callers.

use vstd::prelude::*;

use crate::errors::ValidationError;
use crate::models::contact::{Contact, ContactView};
use crate::patterns::{
    email_matches, email_shape, parse_u64, parsed_u64, parses_to_u64, phone_matches, phone_shape,
};
use crate::store::{
    contact_views, lookup, opt_view, page, remove_name, sorted_by_name, upsert, upsert_all,
};

verus! {

/// Accepts any non-empty name; rejects the empty string.
pub fn get_valid_name(name: &str) -> (r: Result<String, ValidationError>)
    ensures
        name@.len() > 0 ==> (r matches Ok(s) && s@ == name@),
        name@.len() == 0 ==> r == Err::<String, ValidationError>(ValidationError::EmptyName),
{
    if name.is_empty() {
        Err(ValidationError::EmptyName)
    } else {
        Ok(name.to_owned())
    }
}

/// Accepts a string that carries the email shape at its start; rejects any
/// other.
pub fn get_valid_email(email: &str) -> (r: Result<String, ValidationError>)
    ensures
        email_shape(email@) ==> (r matches Ok(s) && s@ == email@),
        !email_shape(email@) ==> r == Err::<String, ValidationError>(ValidationError::InvalidEmail),
{
    if email_matches(email) {
        Ok(email.to_owned())
    } else {
        Err(ValidationError::InvalidEmail)
    }
}

/// Accepts a string that contains the phone shape and reads, as a whole, as
/// a decimal numeral within 64 bits; returns its value.
pub fn get_valid_phone_no(phone_no_as_string: &str) -> (r: Result<u64, ValidationError>)
    ensures
        !phone_shape(phone_no_as_string@) ==> r == Err::<u64, ValidationError>(
            ValidationError::InvalidPhoneFormat,
        ),
        phone_shape(phone_no_as_string@) && parses_to_u64(phone_no_as_string@) ==> r == Ok::<
            u64,
            ValidationError,
        >(parsed_u64(phone_no_as_string@)),
        phone_shape(phone_no_as_string@) && !parses_to_u64(phone_no_as_string@) ==> r == Err::<
            u64,
            ValidationError,
        >(ValidationError::PhoneOverflow),
{
    if !phone_matches(phone_no_as_string) {
        return Err(ValidationError::InvalidPhoneFormat);
    }
    match parse_u64(phone_no_as_string) {
        Some(v) => Ok(v),
        None => Err(ValidationError::PhoneOverflow),
    }
}

/// The capability set every contact backend offers. The model is the stored
/// record set as a sequence of views in ascending name order; each operation
/// pins the new model and the returned value, so any two backends behave
/// identically.
pub trait ContactsRepository: Sized {
    /// The stored record set, ascending by name.
    spec fn contacts(&self) -> Seq<ContactView>;

    /// Validates all three fields, then inserts or replaces the record under
    /// `name`. An existing name is overwritten, never an error.
    fn add(&mut self, name: String, phone_no_as_string: String, email: String) -> (r: Result<
        (),
        ValidationError,
    >)
        requires
            sorted_by_name(old(self).contacts()),
        ensures
            sorted_by_name(final(self).contacts()),
            name@.len() == 0 ==> r == Err::<(), ValidationError>(ValidationError::EmptyName)
                && final(self).contacts() == old(self).contacts(),
            name@.len() > 0 && !email_shape(email@) ==> r == Err::<(), ValidationError>(
                ValidationError::InvalidEmail,
            ) && final(self).contacts() == old(self).contacts(),
            name@.len() > 0 && email_shape(email@) && !phone_shape(phone_no_as_string@) ==> r
                == Err::<(), ValidationError>(ValidationError::InvalidPhoneFormat)
                && final(self).contacts() == old(self).contacts(),
            name@.len() > 0 && email_shape(email@) && phone_shape(phone_no_as_string@)
                && !parses_to_u64(phone_no_as_string@) ==> r == Err::<(), ValidationError>(
                ValidationError::PhoneOverflow,
            ) && final(self).contacts() == old(self).contacts(),
            name@.len() > 0 && email_shape(email@) && phone_shape(phone_no_as_string@)
                && parses_to_u64(phone_no_as_string@) ==> r == Ok::<(), ValidationError>(())
                && final(self).contacts() == upsert(
                old(self).contacts(),
                (ContactView {
                    name: name@,
                    phone_no: parsed_u64(phone_no_as_string@),
                    email: email@,
                }),
            ),
    ;

    /// Validates the new email first; reports by `bool` whether the name was
    /// present, replacing its stored email if so.
    fn update_email(&mut self, name: &str, new_email: String) -> (r: Result<
        bool,
        ValidationError,
    >)
        requires
            sorted_by_name(old(self).contacts()),
        ensures
            sorted_by_name(final(self).contacts()),
            !email_shape(new_email@) ==> r == Err::<bool, ValidationError>(
                ValidationError::InvalidEmail,
            ) && final(self).contacts() == old(self).contacts(),
            email_shape(new_email@) ==> match lookup(old(self).contacts(), name@) {
                Option::None => r == Ok::<bool, ValidationError>(false) && final(self).contacts()
                    == old(self).contacts(),
                Option::Some(c) => r == Ok::<bool, ValidationError>(true) && final(self).contacts()
                    == upsert(
                    old(self).contacts(),
                    (ContactView { name: name@, phone_no: c.phone_no, email: new_email@ }),
                ),
            },
    ;

    /// Validates the new phone number first; reports by `bool` whether the
    /// name was present, replacing its stored phone number if so.
    fn update_phone_no(&mut self, name: &str, new_phone_no_as_string: String) -> (r: Result<
        bool,
        ValidationError,
    >)
        requires
            sorted_by_name(old(self).contacts()),
        ensures
            sorted_by_name(final(self).contacts()),
            !phone_shape(new_phone_no_as_string@) ==> r == Err::<bool, ValidationError>(
                ValidationError::InvalidPhoneFormat,
            ) && final(self).contacts() == old(self).contacts(),
            phone_shape(new_phone_no_as_string@) && !parses_to_u64(new_phone_no_as_string@) ==> r
                == Err::<bool, ValidationError>(ValidationError::PhoneOverflow)
                && final(self).contacts() == old(self).contacts(),
            phone_shape(new_phone_no_as_string@) && parses_to_u64(new_phone_no_as_string@)
                ==> match lookup(old(self).contacts(), name@) {
                Option::None => r == Ok::<bool, ValidationError>(false) && final(self).contacts()
                    == old(self).contacts(),
                Option::Some(c) => r == Ok::<bool, ValidationError>(true) && final(self).contacts()
                    == upsert(
                    old(self).contacts(),
                    (ContactView {
                        name: name@,
                        phone_no: parsed_u64(new_phone_no_as_string@),
                        email: c.email,
                    }),
                ),
            },
    ;

    /// Removes and returns the record under `name`; absent names are not an
    /// error and return nothing.
    fn delete(&mut self, name: &str) -> (r: Option<Contact>)
        requires
            sorted_by_name(old(self).contacts()),
        ensures
            sorted_by_name(final(self).contacts()),
            final(self).contacts() == remove_name(old(self).contacts(), name@),
            opt_view(r) == lookup(old(self).contacts(), name@),
    ;

    /// Looks a name up without any validation; any string is a legal key.
    fn get(&self, name: &str) -> (r: Option<Contact>)
        requires
            sorted_by_name(self.contacts()),
        ensures
            opt_view(r) == lookup(self.contacts(), name@),
    ;

    /// The page at `page_no` of the ascending listing: skips `page_no *
    /// page_size` records and returns up to `page_size`. A page beyond the
    /// end, or a zero page size, yields the empty sequence.
    fn list(&self, page_no: usize, page_size: usize) -> (r: Vec<Contact>)
        requires
            sorted_by_name(self.contacts()),
        ensures
            contact_views(r@) == page(self.contacts(), page_no as int, page_size as int),
    ;

    /// How many records are stored.
    fn count(&self) -> (r: usize)
        ensures
            r == self.contacts().len(),
    ;

    /// The full record set in ascending name order, for bulk export.
    fn export_contacts(&self) -> (r: Vec<Contact>)
        requires
            sorted_by_name(self.contacts()),
        ensures
            contact_views(r@) == self.contacts(),
    ;

    /// Upserts every record of a decoded bulk file, in order, by the same
    /// key-replacement rule as `add`; the fields are trusted as already
    /// valid and are not validated again.
    fn import_contacts(&mut self, items: &Vec<Contact>)
        requires
            sorted_by_name(old(self).contacts()),
        ensures
            sorted_by_name(final(self).contacts()),
            final(self).contacts() == upsert_all(old(self).contacts(), contact_views(items@)),
    ;
}

} // verus!
