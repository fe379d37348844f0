//! The contact record: the one shape shared by every backend and by the bulk
//! import and export paths.

use vstd::prelude::*;

verus! {

/// A stored contact. The name acts as the unique key within a repository;
/// the phone number is kept as the parsed 64-bit value of its digit string.
pub struct Contact {
    pub name: String,
    pub phone_no: u64,
    pub email: String,
}

/// The mathematical image of a [`Contact`]: its strings as character
/// sequences, its phone number as the plain value.
pub struct ContactView {
    pub name: Seq<char>,
    pub phone_no: u64,
    pub email: Seq<char>,
}

impl View for Contact {
    type V = ContactView;

    open spec fn view(&self) -> ContactView {
        ContactView { name: self.name@, phone_no: self.phone_no, email: self.email@ }
    }
}

impl Clone for Contact {
    /// The copy carries the same name, phone number and email.
    fn clone(&self) -> (r: Self)
        ensures
            r == *self,
    {
        Contact { name: self.name.clone(), phone_no: self.phone_no, email: self.email.clone() }
    }
}

} // verus!
