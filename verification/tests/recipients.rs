use mailmerge::recipients::LoadError;
use mailmerge::recipients::Recipient;
use mailmerge::recipients::Recipients;
use mailmerge::recipients::RowCause;
use mailmerge::vars::VarMap;

#[test]
fn test_loader_success_ordering() {
    let data = "email,name\na@example.com,Alice\nb@example.com,Bob\nc@example.com,Carol\n";
    let batch = Recipients::from_csv(data).unwrap();
    assert_eq!(batch.len(), 3);
    let records = batch.into_vec();
    assert_eq!(records[0].email, "a@example.com".to_string());
    assert_eq!(records[1].email, "b@example.com".to_string());
    assert_eq!(records[2].email, "c@example.com".to_string());
    assert_eq!(
        records[0].variables.get(&"name".to_string()),
        Some(&"Alice".to_string())
    );
    assert_eq!(
        records[2].variables.get(&"name".to_string()),
        Some(&"Carol".to_string())
    );
    for r in &records {
        assert!(!r.sent);
        assert_eq!(r.variables.get(&"email".to_string()), None);
    }
}

#[test]
fn test_loader_row_isolation() {
    let data = "email,name\n\
                a@example.com,Alice\n\
                not an address,Bob\n\
                c@example.com,Carol\n\
                d@example.com,Dave\n\
                @@,Eve\n";
    let err = Recipients::from_csv(data).unwrap_err();
    match err {
        LoadError::InvalidRows(diagnostics) => {
            assert_eq!(diagnostics.len(), 2);
            assert_eq!(diagnostics[0].row, 2);
            assert_eq!(diagnostics[1].row, 5);
            assert!(matches!(diagnostics[0].cause, RowCause::BadAddress(_)));
            assert!(matches!(diagnostics[1].cause, RowCause::BadAddress(_)));
        }
        LoadError::Header(report) => panic!("unexpected header error: {}", report),
    }
}

#[test]
fn test_loader_rejects_malformed_row() {
    let data = "email,name\na@example.com,Alice,extra\nb@example.com,Bob\n";
    let err = Recipients::from_csv(data).unwrap_err();
    match err {
        LoadError::InvalidRows(diagnostics) => {
            assert_eq!(diagnostics.len(), 1);
            assert_eq!(diagnostics[0].row, 1);
            assert!(matches!(diagnostics[0].cause, RowCause::Csv(_)));
        }
        LoadError::Header(report) => panic!("unexpected header error: {}", report),
    }
}

#[test]
fn test_loader_quoted_field() {
    let data = "email,name\na@example.com,\"Last, First\"\n";
    let batch = Recipients::from_csv(data).unwrap();
    let records = batch.into_vec();
    assert_eq!(
        records[0].variables.get(&"name".to_string()),
        Some(&"Last, First".to_string())
    );
}

#[test]
fn test_loader_empty_input() {
    let batch = Recipients::from_csv("").unwrap();
    assert_eq!(batch.len(), 0);
}

#[test]
fn test_from_rows_field_count() {
    let headers = vec!["email".to_string(), "name".to_string()];
    let rows = vec![Ok(vec!["a@example.com".to_string()])];
    let err = Recipients::from_rows(&headers, rows).unwrap_err();
    match err {
        LoadError::InvalidRows(diagnostics) => {
            assert_eq!(diagnostics.len(), 1);
            assert_eq!(diagnostics[0].row, 1);
            assert!(matches!(
                diagnostics[0].cause,
                RowCause::FieldCount {
                    expected: 2,
                    found: 1
                }
            ));
        }
        LoadError::Header(report) => panic!("unexpected header error: {}", report),
    }
}

#[test]
fn test_from_rows_missing_address_column() {
    let headers = vec!["name".to_string()];
    let rows = vec![
        Ok(vec!["Alice".to_string()]),
        Ok(vec!["Bob".to_string()]),
    ];
    let err = Recipients::from_rows(&headers, rows).unwrap_err();
    match err {
        LoadError::InvalidRows(diagnostics) => {
            assert_eq!(diagnostics.len(), 2);
            assert_eq!(diagnostics[0].row, 1);
            assert_eq!(diagnostics[1].row, 2);
            assert!(matches!(
                diagnostics[0].cause,
                RowCause::MissingAddressColumn
            ));
        }
        LoadError::Header(report) => panic!("unexpected header error: {}", report),
    }
}

#[test]
fn test_from_rows_propagates_csv_error_text() {
    let headers = vec!["email".to_string()];
    let rows = vec![Err("decoder gave up".to_string())];
    let err = Recipients::from_rows(&headers, rows).unwrap_err();
    match err {
        LoadError::InvalidRows(diagnostics) => match &diagnostics[0].cause {
            RowCause::Csv(report) => assert_eq!(report, "decoder gave up"),
            other => panic!("unexpected cause: {:?}", other),
        },
        LoadError::Header(report) => panic!("unexpected header error: {}", report),
    }
}

#[test]
fn test_from_vec_and_len() {
    let mut variables = VarMap::new();
    variables.insert("name".to_string(), "Alice".to_string());
    let records = vec![Recipient {
        email: "a@example.com".to_string(),
        variables,
        sent: false,
    }];
    let batch = Recipients::from(records);
    assert_eq!(batch.len(), 1);
    let out = batch.into_vec();
    assert_eq!(out[0].email, "a@example.com".to_string());
}

#[test]
fn test_loader_accepts_display_name_address() {
    let data = "email,name\n\"Alice Doe <a@example.com>\",Alice\n";
    let batch = Recipients::from_csv(data).unwrap();
    let records = batch.into_vec();
    assert_eq!(records[0].email, "Alice Doe <a@example.com>".to_string());
}
