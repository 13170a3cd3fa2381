use mailmerge::replace::replace_variables;
use mailmerge::replace::ReplaceError;
use mailmerge::vars::VarMap;

fn john_vars() -> VarMap {
    let mut variables = VarMap::new();
    variables.insert("name".to_string(), "John".to_string());
    variables.insert("age".to_string(), "25".to_string());
    variables
}

#[test]
fn test_replace_variables_valid() {
    let variables = john_vars();
    let input = "Hello, {name}! You are {age} years old.";
    let result = replace_variables(input, &variables);
    assert_eq!(result, Ok("Hello, John! You are 25 years old.".to_string()));
}

#[test]
fn test_replace_variables_missing() {
    let variables = john_vars();
    let input_missing = "Hello, {name}! You are {height} years old.";
    let result_missing = replace_variables(input_missing, &variables);
    assert_eq!(
        result_missing,
        Err(ReplaceError::new(vec!["height".to_string()]))
    );
}

#[test]
fn test_replace_variables_nested() {
    let variables = john_vars();
    let input_nested = "Nested: {{name}} - {age}";
    let result_nested = replace_variables(input_nested, &variables);
    assert_eq!(result_nested, Ok("Nested: John - 25".to_string()));
}

#[test]
fn test_literal_only_round_trip() {
    let input = "No placeholders here, just text.";
    let empty = VarMap::new();
    assert_eq!(replace_variables(input, &empty), Ok(input.to_string()));
    let variables = john_vars();
    assert_eq!(replace_variables(input, &variables), Ok(input.to_string()));
}

#[test]
fn test_empty_template() {
    let variables = john_vars();
    assert_eq!(replace_variables("", &variables), Ok(String::new()));
}

#[test]
fn test_multiple_missing_reported() {
    let empty = VarMap::new();
    let result = replace_variables("{first} and {second}", &empty);
    assert_eq!(
        result,
        Err(ReplaceError::new(vec![
            "first".to_string(),
            "second".to_string()
        ]))
    );
}

#[test]
fn test_missing_reported_per_occurrence() {
    let empty = VarMap::new();
    let result = replace_variables("{x}-{x}", &empty);
    let err = result.unwrap_err();
    assert_eq!(err.keys(), &vec!["x".to_string(), "x".to_string()]);
}

#[test]
fn test_unterminated_placeholder_runs_to_end() {
    let variables = john_vars();
    assert_eq!(
        replace_variables("Hello, {name", &variables),
        Ok("Hello, John".to_string())
    );
}

#[test]
fn test_value_not_reexpanded() {
    let mut variables = VarMap::new();
    variables.insert("a".to_string(), "{b}".to_string());
    variables.insert("b".to_string(), "c".to_string());
    assert_eq!(replace_variables("{a}", &variables), Ok("{b}".to_string()));
}

#[test]
fn test_doubled_braces_anywhere() {
    let variables = john_vars();
    let single = "Dear {name}, you are {age} years old.";
    let doubled = "Dear {name}, you are {{age}} years old.";
    assert_eq!(
        replace_variables(single, &variables),
        replace_variables(doubled, &variables)
    );
}

#[test]
fn test_rendering_idempotent() {
    let variables = john_vars();
    let input = "Hello, {name}! You are {age} years old.";
    let first = replace_variables(input, &variables).unwrap();
    let second = replace_variables(input, &variables).unwrap();
    assert_eq!(first.as_bytes(), second.as_bytes());
}

#[test]
fn test_error_message_lists_all_keys() {
    let err = ReplaceError::new(vec!["a".to_string(), "b".to_string()]);
    assert_eq!(err.message(), "Could not find keys: 'a', 'b'".to_string());
}

#[test]
fn test_varmap_later_insert_shadows() {
    let mut variables = VarMap::new();
    variables.insert("x".to_string(), "1".to_string());
    variables.insert("x".to_string(), "2".to_string());
    assert_eq!(variables.get(&"x".to_string()), Some(&"2".to_string()));
    assert_eq!(variables.get(&"y".to_string()), None);
}
