//! The computing half of the external hash-store backend. The store persists
//! each contact as a field set under the key `contacts:<name>`, with fields
//! `phone_no` (the decimal digits of the number) and `email`; the name lives
//! only in the key. The store itself orders nothing and is reached over a
//! connection, so the connection handling stays outside the library; what
//! stands here is everything the backend decides or computes: key layout,
//! reply validation, record reconstruction, and the reconstruct-then-sort
//! step that makes listings indistinguishable from the in-process backend.

use vstd::prelude::*;

use crate::errors::StoreError;
use crate::models::contact::{Contact, ContactView};
use crate::patterns::{parsed_u64, parses_to_u64};
use crate::store::{contact_views, sorted_by_name, store_upsert, upsert};

verus! {

/// The characters after the first `:` of a key; the whole key when it has
/// none.
pub open spec fn key_name(k: Seq<char>) -> Seq<char>
    decreases k.len(),
{
    if k.len() == 0 {
        Seq::empty()
    } else if k[0] == ':' {
        k.drop_first()
    } else {
        key_name(k.drop_first())
    }
}

/// A key whose characters up to position `i` hold no colon, with one at `i`,
/// names the characters after `i`.
proof fn lemma_key_name_at(k: Seq<char>, i: int)
    requires
        0 <= i < k.len(),
        k[i] == ':',
        forall|j: int| 0 <= j < i ==> k[j] != ':',
    ensures
        key_name(k) == k.subrange(i + 1, k.len() as int),
    decreases i,
{
    if i == 0 {
        assert(k.drop_first() =~= k.subrange(1, k.len() as int));
    } else {
        assert(k.drop_first()[i - 1] == ':');
        assert forall|j: int| 0 <= j < i - 1 implies k.drop_first()[j] != ':' by {
            assert(k.drop_first()[j] == k[j + 1]);
        }
        lemma_key_name_at(k.drop_first(), i - 1);
        assert(k.drop_first().subrange(i, k.drop_first().len() as int) =~= k.subrange(
            i + 1,
            k.len() as int,
        ));
    }
}

/// A key without a colon names the empty string.
proof fn lemma_key_name_none(k: Seq<char>)
    requires
        forall|j: int| 0 <= j < k.len() ==> k[j] != ':',
    ensures
        key_name(k) == Seq::<char>::empty(),
    decreases k.len(),
{
    if k.len() > 0 {
        assert forall|j: int| 0 <= j < k.drop_first().len() implies k.drop_first()[j] != ':' by {
            assert(k.drop_first()[j] == k[j + 1]);
        }
        lemma_key_name_none(k.drop_first());
    }
}

/// Builds the store key of a contact name: the namespace prefix, a colon,
/// then the name.
pub fn contact_key(name: &str) -> (k: String)
    ensures
        k@ == "contacts:"@ + name@,
{
    let mut k = String::from_str("contacts:");
    k.append(name);
    k
}

/// Recovers the contact name from a scanned key by stripping everything up
/// to and including the first colon.
pub fn name_from_key(key: &str) -> (r: String)
    ensures
        r@ == key_name(key@),
{
    let n: usize = key.unicode_len();
    let mut i: usize = 0;
    while i < n && key.get_char(i) != ':'
        invariant
            i <= n,
            n == key@.len(),
            forall|j: int| 0 <= j < i ==> key@[j] != ':',
        decreases n - i,
    {
        i = i + 1;
    }
    if i == n {
        proof {
            lemma_key_name_none(key@);
        }
        String::new()
    } else {
        proof {
            lemma_key_name_at(key@, i as int);
        }
        let tail = key.substring_char(i + 1, n);
        tail.to_owned()
    }
}

/// Checks the entry count a field-set command reported against the count the
/// operation wrote; any difference is a consistency failure.
pub fn check_store_count(expected: usize, actual: usize) -> (r: Result<(), StoreError>)
    ensures
        expected == actual ==> r == Ok::<(), StoreError>(()),
        expected != actual ==> r == Err::<(), StoreError>(
            (StoreError::FieldCountMismatch { expected, actual }),
        ),
{
    if expected == actual {
        Ok(())
    } else {
        Err(StoreError::FieldCountMismatch { expected, actual })
    }
}

/// Reads the deletion count a single-key delete reported: zero means the key
/// was absent, one that it was removed; anything more is a consistency
/// failure.
pub fn delete_outcome(removed: usize) -> (r: Result<bool, StoreError>)
    ensures
        removed == 0 ==> r == Ok::<bool, StoreError>(false),
        removed == 1 ==> r == Ok::<bool, StoreError>(true),
        removed > 1 ==> r == Err::<bool, StoreError>(
            (StoreError::FieldCountMismatch { expected: 1, actual: removed }),
        ),
{
    if removed == 0 {
        Ok(false)
    } else if removed == 1 {
        Ok(true)
    } else {
        Err(StoreError::FieldCountMismatch { expected: 1, actual: removed })
    }
}

/// Rebuilds a contact from a field listing of its key. The listing must
/// split into name/value pairs; an empty listing means the key was absent.
/// The phone field holds the decimal digits of the stored number.
pub fn contact_from_hash_fields(name: String, values: &Vec<String>) -> (r: Result<
    Option<Contact>,
    StoreError,
>)
    ensures
        values@.len() % 4 != 0 ==> r == Err::<Option<Contact>, StoreError>(
            StoreError::MalformedFieldList,
        ),
        values@.len() % 4 == 0 && values@.len() == 0 ==> r == Ok::<Option<Contact>, StoreError>(
            None,
        ),
        values@.len() % 4 == 0 && values@.len() > 0 ==> if parses_to_u64(values@[1]@) {
            r matches Ok(Some(c)) && c@ == (ContactView {
                name: name@,
                phone_no: parsed_u64(values@[1]@),
                email: values@[3]@,
            })
        } else {
            r == Err::<Option<Contact>, StoreError>(StoreError::BadStoredPhone)
        },
{
    if values.len() % 4 != 0 {
        return Err(StoreError::MalformedFieldList);
    }
    if values.len() == 0 {
        return Ok(None);
    }
    let phone_no: u64 = match crate::patterns::parse_u64(values[1].as_str()) {
        Some(x) => x,
        None => return Err(StoreError::BadStoredPhone),
    };
    let email: String = values[3].clone();
    Ok(Some(Contact { name, phone_no, email }))
}

/// The record set that a scan of the store assembles: each scanned key with
/// its field listing, walked in scan order, every reconstructed contact
/// upserted into an ascending-by-name sequence. Keys whose listing is empty
/// (deleted between scan and read) are passed over; a listing that cannot be
/// split into pairs, or a phone field that does not read back as a number,
/// fails the whole scan.
pub open spec fn assemble(
    entries: Seq<(String, Vec<String>)>,
    acc: Seq<ContactView>,
) -> Result<Seq<ContactView>, StoreError>
    decreases entries.len(),
{
    if entries.len() == 0 {
        Ok(acc)
    } else {
        let key = entries[0].0;
        let values = entries[0].1;
        if values@.len() % 4 != 0 {
            Err(StoreError::MalformedFieldList)
        } else if values@.len() == 0 {
            assemble(entries.drop_first(), acc)
        } else if !parses_to_u64(values@[1]@) {
            Err(StoreError::BadStoredPhone)
        } else {
            assemble(
                entries.drop_first(),
                upsert(
                    acc,
                    (ContactView {
                        name: key_name(key@),
                        phone_no: parsed_u64(values@[1]@),
                        email: values@[3]@,
                    }),
                ),
            )
        }
    }
}

/// Reconstructs and sorts the record set from a scan of the store: the
/// explicit reconstruct-then-sort step on which listing, counting and
/// exporting rest, since the store itself keeps no order.
pub fn assemble_listing(entries: &Vec<(String, Vec<String>)>) -> (r: Result<
    Vec<Contact>,
    StoreError,
>)
    ensures
        match r {
            Ok(v) => assemble(entries@, Seq::empty()) == Ok::<Seq<ContactView>, StoreError>(
                contact_views(v@),
            ) && sorted_by_name(contact_views(v@)),
            Err(e) => assemble(entries@, Seq::empty()) == Err::<Seq<ContactView>, StoreError>(e),
        },
{
    let mut out: Vec<Contact> = Vec::new();
    proof {
        crate::store::lemma_views_len(out@);
        assert(contact_views(out@) =~= Seq::<ContactView>::empty());
        assert(entries@.skip(0) =~= entries@);
    }
    let mut i: usize = 0;
    while i < entries.len()
        invariant
            i <= entries@.len(),
            sorted_by_name(contact_views(out@)),
            assemble(entries@, Seq::empty()) == assemble(
                entries@.skip(i as int),
                contact_views(out@),
            ),
        decreases entries@.len() - i,
    {
        proof {
            assert(entries@.skip(i as int)[0] == entries@[i as int]);
            assert(entries@.skip(i as int).drop_first() =~= entries@.skip(i as int + 1));
        }
        let values_len = entries[i].1.len();
        if values_len % 4 != 0 {
            return Err(StoreError::MalformedFieldList);
        }
        if values_len > 0 {
            let name = name_from_key(entries[i].0.as_str());
            let phone_no: u64 = match crate::patterns::parse_u64(entries[i].1[1].as_str()) {
                Some(x) => x,
                None => return Err(StoreError::BadStoredPhone),
            };
            let email: String = entries[i].1[3].clone();
            store_upsert(&mut out, Contact { name, phone_no, email });
        }
        i = i + 1;
    }
    proof {
        assert(entries@.skip(entries@.len() as int) =~= Seq::<(String, Vec<String>)>::empty());
    }
    Ok(out)
}

} // verus!
