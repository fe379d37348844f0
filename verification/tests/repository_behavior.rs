use contacts_app::models::contact::Contact;
use contacts_app::repositories::contacts::ContactsRepository;
use contacts_app::repositories::inmemory_contacts::InMemoryContactsRepository;

fn filled(names: &[&str]) -> InMemoryContactsRepository {
    let mut repo = InMemoryContactsRepository::new();
    for name in names {
        repo.add(
            name.to_string(),
            "491234567890".to_string(),
            "mail@mail.com".to_string(),
        )
        .unwrap();
    }
    repo
}

#[test]
fn test_list_with_zero_page_size_is_empty() {
    let repo = filled(&["Aaa", "Bbb", "Ccc"]);
    assert!(repo.list(0, 0).is_empty());
    assert!(repo.list(5, 0).is_empty());
    assert!(repo.list(usize::MAX, 0).is_empty());
}

#[test]
fn test_list_past_the_end_is_empty() {
    let repo = filled(&["Aaa", "Bbb", "Ccc"]);
    assert!(repo.list(1, 3).is_empty());
    assert!(repo.list(100, 2).is_empty());
    assert!(repo.list(usize::MAX, usize::MAX).is_empty());
}

#[test]
fn test_pages_concatenate_to_the_full_ascending_listing() {
    let repo = filled(&["Eee", "Mmm", "Bbb", "Ddd", "Aaa", "Ccc", "Fff"]);
    for page_size in 1..9usize {
        let mut walked: Vec<String> = Vec::new();
        let mut page_no = 0usize;
        loop {
            let page = repo.list(page_no, page_size);
            if page.is_empty() {
                break;
            }
            walked.extend(page.into_iter().map(|c| c.name));
            page_no += 1;
        }
        assert_eq!(
            walked,
            vec!["Aaa", "Bbb", "Ccc", "Ddd", "Eee", "Fff", "Mmm"]
        );
    }
}

#[test]
fn test_add_overwrites_existing_name() {
    let mut repo = filled(&["Aaa", "Bbb"]);
    repo.add(
        "Aaa".to_string(),
        "490000000000".to_string(),
        "other@mail.com".to_string(),
    )
    .unwrap();
    assert_eq!(2, repo.count());
    let c = repo.get("Aaa").unwrap();
    assert_eq!(490000000000, c.phone_no);
    assert_eq!("other@mail.com", c.email);
}

#[test]
fn test_update_on_missing_name_reports_absence() {
    let mut repo = filled(&["Bogdan"]);
    assert_eq!(Ok(false), repo.update_email("Ghost", "x@mail.com".to_string()));
    assert_eq!(
        Ok(false),
        repo.update_phone_no("Ghost", "491234567890".to_string())
    );
    assert_eq!(1, repo.count());
}

#[test]
fn test_delete_twice_is_idempotent() {
    let mut repo = filled(&["Aaa", "Bbb"]);
    let first = repo.delete("Aaa");
    assert!(first.is_some());
    assert!(repo.get("Aaa").is_none());
    let second = repo.delete("Aaa");
    assert!(second.is_none());
    assert_eq!(1, repo.count());
}

#[test]
fn test_export_import_round_trip() {
    let source = filled(&["Eee", "Aaa", "Ccc", "Bbb"]);
    let exported: Vec<Contact> = source.export_contacts();
    assert_eq!(4, exported.len());

    let mut target = InMemoryContactsRepository::new();
    target.import_contacts(&exported);

    assert_eq!(source.count(), target.count());
    for name in ["Aaa", "Bbb", "Ccc", "Eee"] {
        let a = source.get(name).unwrap();
        let b = target.get(name).unwrap();
        assert_eq!(a.name, b.name);
        assert_eq!(a.phone_no, b.phone_no);
        assert_eq!(a.email, b.email);
    }
}

#[test]
fn test_import_upserts_by_name() {
    let mut repo = filled(&["Aaa"]);
    let items = vec![
        Contact {
            name: "Aaa".to_string(),
            phone_no: 490000000000,
            email: "new@mail.com".to_string(),
        },
        Contact {
            name: "Zzz".to_string(),
            phone_no: 491111111111,
            email: "z@mail.com".to_string(),
        },
    ];
    repo.import_contacts(&items);
    assert_eq!(2, repo.count());
    assert_eq!(490000000000, repo.get("Aaa").unwrap().phone_no);
    assert_eq!("z@mail.com", repo.get("Zzz").unwrap().email);
}

#[test]
fn test_update_scenario_keeps_other_fields() {
    let mut repo = InMemoryContactsRepository::new();
    repo.add(
        "Bogdan".to_string(),
        "491234567890".to_string(),
        "bogdan@mail.com".to_string(),
    )
    .unwrap();
    assert_eq!(491234567890, repo.get("Bogdan").unwrap().phone_no);

    assert_eq!(
        Ok(true),
        repo.update_phone_no("Bogdan", "490123456789".to_string())
    );
    let after_phone = repo.get("Bogdan").unwrap();
    assert_eq!(490123456789, after_phone.phone_no);
    assert_eq!("bogdan@mail.com", after_phone.email);

    assert_eq!(Ok(true), repo.update_email("Bogdan", "x@mail.com".to_string()));
    let after_email = repo.get("Bogdan").unwrap();
    assert_eq!(490123456789, after_email.phone_no);
    assert_eq!("x@mail.com", after_email.email);
}
