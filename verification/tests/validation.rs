use contacts_app::errors::ValidationError;
use contacts_app::repositories::contacts::{
    get_valid_email, get_valid_name, get_valid_phone_no,
};

#[test]
fn test_empty_name_is_rejected() {
    assert_eq!(get_valid_name(""), Err(ValidationError::EmptyName));
    assert_eq!(get_valid_name("Bogdan"), Ok("Bogdan".to_string()));
    assert_eq!(get_valid_name(" "), Ok(" ".to_string()));
}

#[test]
fn test_email_shapes_accepted() {
    assert_eq!(
        get_valid_email("bogdan@mail.com"),
        Ok("bogdan@mail.com".to_string())
    );
    assert_eq!(
        get_valid_email("a.b_c+d@my-mail.co.uk"),
        Ok("a.b_c+d@my-mail.co.uk".to_string())
    );
    // The shape is anchored only at the start: trailing text is accepted.
    assert_eq!(
        get_valid_email("a@mail.com!!! trailing"),
        Ok("a@mail.com!!! trailing".to_string())
    );
}

#[test]
fn test_email_shapes_rejected() {
    assert_eq!(
        get_valid_email("invalid email"),
        Err(ValidationError::InvalidEmail)
    );
    // Matching is case-sensitive: uppercase letters are outside the grammar.
    assert_eq!(
        get_valid_email("Bogdan@mail.com"),
        Err(ValidationError::InvalidEmail)
    );
    // The local part may not begin or end with a dot.
    assert_eq!(
        get_valid_email(".a@mail.com"),
        Err(ValidationError::InvalidEmail)
    );
    assert_eq!(
        get_valid_email("a.@mail.com"),
        Err(ValidationError::InvalidEmail)
    );
    // The top-level label needs at least two letters.
    assert_eq!(
        get_valid_email("a@mail.c"),
        Err(ValidationError::InvalidEmail)
    );
    // Separators inside the domain may not double up.
    assert_eq!(
        get_valid_email("a@mail..com"),
        Err(ValidationError::InvalidEmail)
    );
    assert_eq!(get_valid_email(""), Err(ValidationError::InvalidEmail));
    assert_eq!(get_valid_email("a@"), Err(ValidationError::InvalidEmail));
}

#[test]
fn test_phone_shapes() {
    // 49 followed by ten digits.
    assert_eq!(get_valid_phone_no("491234567890"), Ok(491234567890));
    // 49 followed by nine digits.
    assert_eq!(get_valid_phone_no("49123456789"), Ok(49123456789));
    // Too short: 49 followed by only eight digits.
    assert_eq!(
        get_valid_phone_no("4912345678"),
        Err(ValidationError::InvalidPhoneFormat)
    );
    assert_eq!(
        get_valid_phone_no("invalid phone no"),
        Err(ValidationError::InvalidPhoneFormat)
    );
    assert_eq!(
        get_valid_phone_no(""),
        Err(ValidationError::InvalidPhoneFormat)
    );
    // The shape is unanchored, so a longer digit string that contains it is
    // accepted and parsed whole.
    assert_eq!(get_valid_phone_no("0491234567890"), Ok(491234567890));
}

#[test]
fn test_phone_parse_failures() {
    // Contains the shape but overflows 64 bits when parsed whole.
    assert_eq!(
        get_valid_phone_no("49999999999999999999"),
        Err(ValidationError::PhoneOverflow)
    );
    // Contains the shape but the whole string is not a plain numeral.
    assert_eq!(
        get_valid_phone_no("a491234567890"),
        Err(ValidationError::PhoneOverflow)
    );
    assert_eq!(
        get_valid_phone_no("491234567890 "),
        Err(ValidationError::PhoneOverflow)
    );
}
