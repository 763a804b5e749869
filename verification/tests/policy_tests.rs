use password_policy_convert::policy::{
    convert_query_to_rules, convert_rules_to_query, parse_query, parse_rules, to_query, to_rules,
    validate, PasswordPolicy, PolicyError,
};

fn sample_policy() -> PasswordPolicy {
    PasswordPolicy {
        min_length: 12,
        max_length: Some(64),
        require_upper: true,
        require_lower: true,
        require_digit: true,
        require_symbol: false,
        max_repeated_chars: Some(3),
        min_unique_chars: Some(6),
    }
}

#[test]
fn parses_full_rules_file() {
    let input = "min_length=12\nmax_length=64\nrequire_upper=true\n\
                  require_lower=true\nrequire_digit=true\nrequire_symbol=false\n\
                  max_repeated_chars=3\nmin_unique_chars=6\n";

    assert_eq!(parse_rules(input).unwrap(), sample_policy());
}

#[test]
fn rules_file_ignores_blank_lines_and_comments() {
    let input = "# password policy\nmin_length=10\n\nrequire_digit=true\n";
    let policy = parse_rules(input).unwrap();
    assert_eq!(policy.min_length, 10);
    assert!(policy.require_digit);
}

#[test]
fn rules_file_missing_min_length_is_an_error() {
    let err = parse_rules("require_digit=true\n").unwrap_err();
    assert_eq!(err, PolicyError::MissingRequiredField("min_length"));
}

#[test]
fn rules_file_rejects_unknown_key() {
    let err = parse_rules("min_length=8\nrequire_emoji=true\n").unwrap_err();
    assert_eq!(err, PolicyError::UnknownKey("require_emoji".to_string()));
}

#[test]
fn parses_full_query_string() {
    let input = "minLength=12&maxLength=64&upper=1&lower=1&digit=1&symbol=0&maxRepeat=3&minUnique=6";
    assert_eq!(parse_query(input).unwrap(), sample_policy());
}

#[test]
fn query_string_missing_min_length_is_an_error() {
    let err = parse_query("upper=1&lower=1").unwrap_err();
    assert_eq!(err, PolicyError::MissingRequiredField("minLength"));
}

#[test]
fn query_string_rejects_bad_bool_value() {
    let err = parse_query("minLength=8&upper=yes").unwrap_err();
    assert_eq!(
        err,
        PolicyError::InvalidValue {
            key: "upper".to_string(),
            value: "yes".to_string(),
        }
    );
}

#[test]
fn round_trips_rules_through_query() {
    let policy = sample_policy();
    let as_query = to_query(&policy);
    let back = parse_query(&as_query).unwrap();
    assert_eq!(policy, back);
}

#[test]
fn round_trips_query_through_rules() {
    let policy = sample_policy();
    let as_rules = to_rules(&policy);
    let back = parse_rules(&as_rules).unwrap();
    assert_eq!(policy, back);
}

#[test]
fn convert_rules_to_query_matches_manual_conversion() {
    let input = "min_length=8\nrequire_digit=true\n";
    let policy = parse_rules(input).unwrap();
    assert_eq!(convert_rules_to_query(input).unwrap(), to_query(&policy));
}

#[test]
fn omits_absent_optional_fields_in_both_formats() {
    let minimal = PasswordPolicy {
        min_length: 8,
        ..PasswordPolicy::default()
    };
    assert_eq!(
        to_rules(&minimal),
        "min_length=8\nrequire_upper=false\nrequire_lower=false\n\
         require_digit=false\nrequire_symbol=false"
    );
    assert_eq!(to_query(&minimal), "minLength=8&upper=0&lower=0&digit=0&symbol=0");
}
