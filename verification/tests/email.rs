use mailmerge::email::process_recipient;
use mailmerge::email::Output;
use mailmerge::recipients::Recipient;
use mailmerge::vars::VarMap;

fn alice() -> Recipient {
    let mut variables = VarMap::new();
    variables.insert("name".to_string(), "Alice".to_string());
    variables.insert("age".to_string(), "30".to_string());
    Recipient {
        email: "a@example.com".to_string(),
        variables,
        sent: false,
    }
}

#[test]
fn test_process_recipient_renders_both_texts() {
    let recipient = alice();
    let (body, subject) = process_recipient(
        &recipient,
        "Hi {name}",
        "Dear {name}, you are {age} years old.",
    )
    .unwrap();
    assert_eq!(body, "Dear Alice, you are 30 years old.".to_string());
    assert_eq!(subject, "Hi Alice".to_string());
}

#[test]
fn test_process_recipient_reports_body_miss_first() {
    let recipient = alice();
    let err = process_recipient(&recipient, "Hi {nickname}", "Dear {color} {name}").unwrap_err();
    assert_eq!(err.keys(), &vec!["color".to_string()]);
}

#[test]
fn test_process_recipient_reports_subject_miss() {
    let recipient = alice();
    let err = process_recipient(&recipient, "Hi {nickname}", "Dear {name}").unwrap_err();
    assert_eq!(err.keys(), &vec!["nickname".to_string()]);
}

#[test]
fn test_output_record() {
    let line = Output {
        email: "a@example.com".to_string(),
        sent: true,
    };
    assert_eq!(line.email, "a@example.com".to_string());
    assert!(line.sent);
}
