use contacts_app::contacts_service::{ContactsService, InMemoryContactsService};
use contacts_app::models::contact::Contact;

#[test]
fn mod_test_in_memory_contacts_service_add_get() {
    let mut contacts_service: InMemoryContactsService = InMemoryContactsService::new();

    let expected_name: String = "Bogdan".to_string();
    let expected_phone_no_as_string: String = "491234567890".to_string();
    let expected_email: String = "bogdan@mail.com".to_string();

    contacts_service
        .add(
            expected_name.clone(),
            expected_phone_no_as_string.clone(),
            expected_email.clone(),
        )
        .unwrap();

    let actual_contact: Contact = contacts_service.get("Bogdan").unwrap();

    assert_eq!(expected_name, actual_contact.name);
    assert_eq!(
        expected_phone_no_as_string,
        actual_contact.phone_no.to_string()
    );
    assert_eq!(expected_email, actual_contact.email);
}

#[test]
fn mod_test_in_memory_contacts_service_add_validations() {
    let mut contacts_service: InMemoryContactsService = InMemoryContactsService::new();

    let res_invalid_phone_no: Result<(), _> = contacts_service.add(
        "valid name".to_string(),
        "invalid phone no".to_string(),
        "validemail@mail.com".to_string(),
    );
    assert!(res_invalid_phone_no.is_err());

    let res_invalid_email: Result<(), _> = contacts_service.add(
        "valid name".to_string(),
        "491234567890".to_string(),
        "invalid email".to_string(),
    );
    assert!(res_invalid_email.is_err());
}

#[test]
fn mod_test_in_memory_contacts_service_updates() {
    let mut contacts_service: InMemoryContactsService = InMemoryContactsService::new();

    let expected_name: String = "Bogdan".to_string();
    let expected_phone_no_as_string: String = "491234567890".to_string();
    let expected_email: String = "bogdan@mail.com".to_string();

    contacts_service
        .add(
            expected_name.clone(),
            expected_phone_no_as_string,
            expected_email,
        )
        .unwrap();

    let new_expected_phone_no_as_string: String = "490123456789".to_string();
    contacts_service
        .update_phone_no("Bogdan", new_expected_phone_no_as_string.clone())
        .unwrap();

    let new_email: String = "new_bogdan@mail.com".to_string();
    contacts_service
        .update_email("Bogdan", new_email.clone())
        .unwrap();

    let actual_contact: Contact = contacts_service.get("Bogdan").unwrap();
    assert_eq!(expected_name, actual_contact.name);
    assert_eq!(
        new_expected_phone_no_as_string,
        actual_contact.phone_no.to_string()
    );
    assert_eq!(new_email, actual_contact.email);
}

#[test]
fn mod_test_in_memory_contacts_service_delete() {
    let mut contacts_service: InMemoryContactsService = InMemoryContactsService::new();

    let expected_name: String = "Bogdan".to_string();
    let expected_phone_no_as_string: String = "491234567890".to_string();
    let expected_email: String = "bogdan@mail.com".to_string();

    contacts_service
        .add(expected_name, expected_phone_no_as_string, expected_email)
        .unwrap();

    contacts_service.delete("Bogdan").unwrap();

    let res_get = contacts_service.get("Bogdan");
    assert!(res_get.is_none());
}

#[test]
fn mod_test_in_memory_contacts_service_list_count() {
    let mut contacts_service: InMemoryContactsService = InMemoryContactsService::new();
    contacts_service
        .add(
            "Eee".to_string(),
            "491234567890".to_string(),
            "mail@mail.com".to_string(),
        )
        .unwrap();
    contacts_service
        .add(
            "Mmm".to_string(),
            "491234567890".to_string(),
            "mail@mail.com".to_string(),
        )
        .unwrap();
    contacts_service
        .add(
            "Bbb".to_string(),
            "491234567890".to_string(),
            "mail@mail.com".to_string(),
        )
        .unwrap();
    contacts_service
        .add(
            "Ddd".to_string(),
            "491234567890".to_string(),
            "mail@mail.com".to_string(),
        )
        .unwrap();
    contacts_service
        .add(
            "Sss".to_string(),
            "491234567890".to_string(),
            "mail@mail.com".to_string(),
        )
        .unwrap();
    contacts_service
        .add(
            "Aaa".to_string(),
            "491234567890".to_string(),
            "mail@mail.com".to_string(),
        )
        .unwrap();
    contacts_service
        .add(
            "Eee".to_string(),
            "491234567890".to_string(),
            "mail@mail.com".to_string(),
        )
        .unwrap();
    contacts_service
        .add(
            "Lll".to_string(),
            "491234567890".to_string(),
            "mail@mail.com".to_string(),
        )
        .unwrap();
    contacts_service
        .add(
            "Ccc".to_string(),
            "491234567890".to_string(),
            "mail@mail.com".to_string(),
        )
        .unwrap();
    contacts_service
        .add(
            "Aaa2".to_string(),
            "491234567890".to_string(),
            "mail@mail.com".to_string(),
        )
        .unwrap();
    contacts_service
        .add(
            "Aaa3".to_string(),
            "491234567890".to_string(),
            "mail@mail.com".to_string(),
        )
        .unwrap();

    let page0: Vec<Contact> = contacts_service.list(0, 3);
    assert_eq!(3, page0.len());
    assert_eq!("Aaa", page0.get(0).unwrap().name);
    assert_eq!("Aaa2", page0.get(1).unwrap().name);
    assert_eq!("Aaa3", page0.get(2).unwrap().name);

    let page1: Vec<Contact> = contacts_service.list(1, 3);
    assert_eq!(3, page1.len());
    assert_eq!("Bbb", page1.get(0).unwrap().name);
    assert_eq!("Ccc", page1.get(1).unwrap().name);
    assert_eq!("Ddd", page1.get(2).unwrap().name);

    let page2: Vec<Contact> = contacts_service.list(2, 3);
    assert_eq!(3, page2.len());
    assert_eq!("Eee", page2.get(0).unwrap().name);
    assert_eq!("Lll", page2.get(1).unwrap().name);
    assert_eq!("Mmm", page2.get(2).unwrap().name);

    let page3: Vec<Contact> = contacts_service.list(3, 3);
    assert_eq!(1, page3.len());
    assert_eq!("Sss", page3.get(0).unwrap().name);

    assert_eq!(10, contacts_service.count());
}
