use llm_udf::template::{
    expand_template, parse_template, validate_fold_template, validate_map_template,
    validate_template, TemplateError,
};

#[test]
fn test_valid_template() {
    assert!(validate_template("Hello {0}!", 1, true).is_ok());
    assert!(validate_template("Translate {0} to {1}", 2, true).is_ok());
    assert!(validate_template("{0} + {1} = {2}", 3, true).is_ok());
}

#[test]
fn test_missing_placeholder() {
    assert!(validate_template("Hello {0}!", 2, true).is_err());
    let result = validate_template("Hello {0}!", 2, false).unwrap();
    assert!(!result.is_empty());
}

#[test]
fn test_no_placeholders_with_args() {
    assert!(validate_template("Hello world!", 1, false).is_err());
    assert!(validate_template("Hello world!", 2, true).is_err());
}

#[test]
fn test_placeholder_out_of_range() {
    assert!(validate_template("Hello {5}!", 2, true).is_err());
}

#[test]
fn test_unclosed_placeholder() {
    assert!(validate_template("Hello {0!", 1, true).is_err());
}

#[test]
fn test_escaped_braces() {
    assert!(validate_template("Use {{0}} for literal braces", 0, true).is_ok());
}

#[test]
fn test_no_args_no_placeholders() {
    assert!(validate_template("Just a static prompt", 0, true).is_ok());
}

#[test]
fn test_fold_template() {
    assert!(validate_fold_template("Combine: {0} and {1}").is_ok());
    assert!(validate_fold_template("Only {0}").is_err());
    assert!(validate_fold_template("Only {1}").is_err());
}

#[test]
fn test_map_template() {
    assert!(validate_map_template("Process: {0}").is_ok());
    assert!(validate_map_template("No placeholder").is_err());
}

#[test]
fn exact_placeholders_give_no_warning() {
    assert_eq!(validate_template("{0} and {1} then {2}", 3, true).unwrap(), Vec::<String>::new());
    assert_eq!(validate_template("{1}{0}", 2, true).unwrap(), Vec::<String>::new());
    assert_eq!(validate_template("plain", 0, true).unwrap(), Vec::<String>::new());
}

#[test]
fn one_unused_argument_warns_when_lenient() {
    let warnings = validate_template("Hello {0}!", 2, false).unwrap();
    assert_eq!(warnings, vec!["Argument 1 is not used in template (missing {1})".to_string()]);
    assert_eq!(
        validate_template("Hello {0}!", 2, true).unwrap_err(),
        "Argument 1 is not used in template (missing {1})"
    );
}

#[test]
fn no_placeholder_is_an_error_in_both_modes() {
    let expected = "Template has no placeholders ({0}, {1}, etc.) but 1 argument(s) provided. Did you put the template in the wrong position? Usage: llm('template with {0}', arg0, arg1, ...)";
    assert_eq!(validate_template("Hello world!", 1, false).unwrap_err(), expected);
    assert_eq!(validate_template("Hello world!", 1, true).unwrap_err(), expected);
}

#[test]
fn out_of_range_is_an_error_in_both_modes() {
    let expected = "Template references {5} but only 2 argument(s) provided (indices 0-1)";
    assert_eq!(validate_template("Hello {5}!", 2, false).unwrap_err(), expected);
    assert_eq!(validate_template("Hello {5}!", 2, true).unwrap_err(), expected);
}

#[test]
fn escaped_braces_hold_no_placeholder() {
    assert_eq!(validate_template("Use {{0}} literal", 0, true).unwrap(), Vec::<String>::new());
    assert_eq!(validate_template("Use {{0}} literal", 0, false).unwrap(), Vec::<String>::new());
    let facts = parse_template("Use {{0}} literal");
    assert!(facts.placeholders_found.is_empty());
    assert_eq!(facts.max_placeholder, None);
}

#[test]
fn placeholders_with_no_arguments_are_an_error() {
    assert_eq!(
        validate_template("Hi {0}", 0, false).unwrap_err(),
        "Template has placeholders but no arguments provided"
    );
}

#[test]
fn parse_reports_errors_and_warnings() {
    let r = parse_template("a {x} b } c {} d {3}{10}");
    assert!(!r.is_valid());
    assert!(r.has_warnings());
    assert_eq!(r.errors, vec![TemplateError::InvalidPlaceholder(12)]);
    assert_eq!(
        r.warnings,
        vec![
            "Non-numeric placeholder '{x}' at position 2".to_string(),
            "Unmatched '}' at position 8".to_string(),
        ]
    );
    assert!(r.placeholders_found.contains(&3));
    assert!(r.placeholders_found.contains(&10));
    assert_eq!(r.placeholders_found.len(), 2);
    assert_eq!(r.max_placeholder, Some(10));
}

#[test]
fn parse_stops_at_unclosed_placeholder() {
    let r = parse_template("Hello {0!");
    assert_eq!(r.errors, vec![TemplateError::UnclosedPlaceholder(6)]);
    assert_eq!(
        validate_template("Hello {0!", 1, true).unwrap_err(),
        "Unclosed placeholder starting at position 6"
    );
}

#[test]
fn parse_errors_are_joined() {
    assert_eq!(
        validate_template("{} x {", 1, false).unwrap_err(),
        "Invalid placeholder '{}' at position 0 (expected a number); Unclosed placeholder starting at position 5"
    );
}

#[test]
fn signs_and_huge_numbers_are_not_indices() {
    let r = parse_template("{+1} {-2} {99999999999999999999999}");
    assert!(r.placeholders_found.is_empty());
    assert_eq!(r.warnings.len(), 3);
    let r = parse_template("{007}");
    assert!(r.placeholders_found.contains(&7));
}

#[test]
fn fold_and_map_messages() {
    assert_eq!(
        validate_fold_template("Only {1}").unwrap_err(),
        "Fold template must contain {0} for the first item"
    );
    assert_eq!(
        validate_fold_template("Only {0}").unwrap_err(),
        "Fold template must contain {1} for the second item"
    );
    assert_eq!(
        validate_fold_template("{0}{1}{4}").unwrap(),
        vec!["Fold template has placeholder {4} but only {0} and {1} are used".to_string()]
    );
    assert_eq!(
        validate_map_template("No placeholder").unwrap_err(),
        "Map template must contain {0} for the input value"
    );
    assert_eq!(
        validate_map_template("{0} {2}").unwrap(),
        vec!["Map template has placeholder {2} but only {0} is used".to_string()]
    );
}

fn strings(v: &[&str]) -> Vec<String> {
    v.iter().map(|s| s.to_string()).collect()
}

#[test]
fn expand_fills_positions() {
    let vals = strings(&["cat", "French"]);
    assert_eq!(expand_template("Translate {0} to {1}", &vals).unwrap(), "Translate cat to French");
    assert_eq!(expand_template("{{0}} is {0}}}", &vals).unwrap(), "{0} is cat}");
    assert_eq!(expand_template("keep {name} as is", &vals).unwrap(), "keep {name} as is");
    let tricky = strings(&["{1}", "x"]);
    assert_eq!(expand_template("{0}-{1}", &tricky).unwrap(), "{1}-x");
}

#[test]
fn expand_ranges() {
    let vals = strings(&["apple", "carrot", "banana"]);
    assert_eq!(
        expand_template("Classify:\n{0:\n}\nDone", &vals).unwrap(),
        "Classify:\napple\ncarrot\nbanana\nDone"
    );
    assert_eq!(expand_template("[{1:2, }]", &vals).unwrap(), "[carrot, banana]");
    assert_eq!(expand_template("[{0:2;}]", &vals).unwrap(), "[apple;carrot]");
    assert_eq!(expand_template("[{3:,}]", &vals).unwrap(), "[]");
}

#[test]
fn expand_errors() {
    let vals = strings(&["a", "b"]);
    assert_eq!(
        expand_template("{2}", &vals).unwrap_err(),
        TemplateError::PlaceholderOutOfRange(2, 2)
    );
    assert_eq!(
        expand_template("{1:5,}", &vals).unwrap_err(),
        TemplateError::PlaceholderOutOfRange(2, 2)
    );
    assert_eq!(
        expand_template("{4:,}", &vals).unwrap_err(),
        TemplateError::PlaceholderOutOfRange(4, 2)
    );
    assert_eq!(expand_template("x {} y", &vals).unwrap_err(), TemplateError::InvalidPlaceholder(2));
    assert_eq!(expand_template("x {0", &vals).unwrap_err(), TemplateError::UnclosedPlaceholder(2));
    assert_eq!(
        TemplateError::PlaceholderOutOfRange(2, 2).message(),
        "Placeholder {2} is out of range for 2 value(s)"
    );
    assert_eq!(
        TemplateError::MissingPlaceholder(1, 3).message(),
        "Missing placeholder {1} in template (have 3 arguments)"
    );
    assert_eq!(
        TemplateError::UnusedArgument(2, 1).message(),
        "Unused argument at position 2 (template only uses placeholders up to {1})"
    );
}
