use contacts_app::errors::StoreError;
use contacts_app::models::contact::Contact;
use contacts_app::repositories::db_contacts::{
    assemble_listing, check_store_count, contact_from_hash_fields, contact_key, delete_outcome,
    name_from_key,
};

fn hash_fields(phone: &str, email: &str) -> Vec<String> {
    vec![
        "phone_no".to_string(),
        phone.to_string(),
        "email".to_string(),
        email.to_string(),
    ]
}

#[test]
fn test_contact_key_layout() {
    assert_eq!("contacts:Bogdan", contact_key("Bogdan"));
    assert_eq!("contacts:", contact_key(""));
}

#[test]
fn test_name_from_key_strips_the_namespace() {
    assert_eq!("Bogdan", name_from_key("contacts:Bogdan"));
    assert_eq!("a:b", name_from_key("contacts:a:b"));
    assert_eq!("", name_from_key("contacts:"));
    assert_eq!("", name_from_key("no colon here"));
}

#[test]
fn test_contact_from_hash_fields_rebuilds_the_record() {
    let values = hash_fields("491234567890", "bogdan@mail.com");
    let c: Contact = contact_from_hash_fields("Bogdan".to_string(), &values)
        .unwrap()
        .unwrap();
    assert_eq!("Bogdan", c.name);
    assert_eq!(491234567890, c.phone_no);
    assert_eq!("bogdan@mail.com", c.email);
}

#[test]
fn test_contact_from_hash_fields_failures() {
    let empty: Vec<String> = Vec::new();
    assert!(contact_from_hash_fields("Bogdan".to_string(), &empty)
        .unwrap()
        .is_none());

    let odd = vec!["phone_no".to_string(), "491234567890".to_string()];
    assert!(matches!(
        contact_from_hash_fields("Bogdan".to_string(), &odd),
        Err(StoreError::MalformedFieldList)
    ));

    let bad_phone = hash_fields("not a number", "bogdan@mail.com");
    assert!(matches!(
        contact_from_hash_fields("Bogdan".to_string(), &bad_phone),
        Err(StoreError::BadStoredPhone)
    ));
}

#[test]
fn test_store_count_checks() {
    assert_eq!(Ok(()), check_store_count(2, 2));
    assert_eq!(
        Err(StoreError::FieldCountMismatch {
            expected: 2,
            actual: 1
        }),
        check_store_count(2, 1)
    );
    assert_eq!(Ok(false), delete_outcome(0));
    assert_eq!(Ok(true), delete_outcome(1));
    assert_eq!(
        Err(StoreError::FieldCountMismatch {
            expected: 1,
            actual: 3
        }),
        delete_outcome(3)
    );
}

#[test]
fn test_assemble_listing_reconstructs_and_sorts() {
    let entries = vec![
        (
            "contacts:Mmm".to_string(),
            hash_fields("491234567890", "m@mail.com"),
        ),
        (
            "contacts:Aaa".to_string(),
            hash_fields("490000000000", "a@mail.com"),
        ),
        // A key deleted between the scan and the read: passed over.
        ("contacts:Ghost".to_string(), Vec::new()),
        (
            "contacts:Ccc".to_string(),
            hash_fields("491111111111", "c@mail.com"),
        ),
        // A later entry for the same name replaces the earlier record.
        (
            "contacts:Aaa".to_string(),
            hash_fields("492222222222", "a2@mail.com"),
        ),
    ];
    let listing = assemble_listing(&entries).unwrap();
    let names: Vec<&str> = listing.iter().map(|c| c.name.as_str()).collect();
    assert_eq!(vec!["Aaa", "Ccc", "Mmm"], names);
    assert_eq!(492222222222, listing[0].phone_no);
    assert_eq!("a2@mail.com", listing[0].email);
}

#[test]
fn test_assemble_listing_surfaces_bad_entries() {
    let odd = vec![(
        "contacts:Aaa".to_string(),
        vec!["phone_no".to_string(), "49".to_string()],
    )];
    assert!(matches!(
        assemble_listing(&odd),
        Err(StoreError::MalformedFieldList)
    ));

    let bad = vec![(
        "contacts:Aaa".to_string(),
        hash_fields("oops", "a@mail.com"),
    )];
    assert!(matches!(assemble_listing(&bad), Err(StoreError::BadStoredPhone)));
}
