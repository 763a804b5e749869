use password_policy_convert::policy::{
    convert_query_to_rules, convert_rules_to_query, parse_query, parse_rules, to_query, to_rules,
    validate, PasswordPolicy, PolicyError,
};

fn full_policy() -> PasswordPolicy {
    PasswordPolicy {
        min_length: 12,
        max_length: Some(64),
        require_upper: true,
        require_lower: true,
        require_digit: true,
        require_symbol: false,
        max_repeated_chars: Some(3),
        min_unique_chars: Some(6),
    }
}

fn policies() -> Vec<PasswordPolicy> {
    let mut all = Vec::new();
    for bits in 0u32..16 {
        for opt in 0u32..8 {
            all.push(PasswordPolicy {
                min_length: bits * 1000 + opt,
                max_length: if opt & 1 == 1 { Some(u32::MAX) } else { None },
                require_upper: bits & 1 == 1,
                require_lower: bits & 2 == 2,
                require_digit: bits & 4 == 4,
                require_symbol: bits & 8 == 8,
                max_repeated_chars: if opt & 2 == 2 { Some(0) } else { None },
                min_unique_chars: if opt & 4 == 4 { Some(opt * 7) } else { None },
            });
        }
    }
    all
}

#[test]
fn default_policy_values() {
    let d = PasswordPolicy::default();
    assert_eq!(d.min_length, 8);
    assert_eq!(d.max_length, None);
    assert!(!d.require_upper && !d.require_lower && !d.require_digit && !d.require_symbol);
    assert_eq!(d.max_repeated_chars, None);
    assert_eq!(d.min_unique_chars, None);
}

#[test]
fn renders_full_rules_file() {
    assert_eq!(
        to_rules(&full_policy()),
        "min_length=12\nmax_length=64\nrequire_upper=true\nrequire_lower=true\n\
         require_digit=true\nrequire_symbol=false\nmax_repeated_chars=3\nmin_unique_chars=6"
    );
}

#[test]
fn renders_full_query_string() {
    assert_eq!(
        to_query(&full_policy()),
        "minLength=12&maxLength=64&upper=1&lower=1&digit=1&symbol=0&maxRepeat=3&minUnique=6"
    );
}

#[test]
fn renders_extreme_numbers() {
    let p = PasswordPolicy {
        min_length: 0,
        max_length: Some(u32::MAX),
        ..PasswordPolicy::default()
    };
    assert_eq!(to_query(&p), "minLength=0&maxLength=4294967295&upper=0&lower=0&digit=0&symbol=0");
    assert_eq!(
        to_rules(&p),
        "min_length=0\nmax_length=4294967295\nrequire_upper=false\nrequire_lower=false\n\
         require_digit=false\nrequire_symbol=false"
    );
}

#[test]
fn every_sample_policy_round_trips_in_both_formats() {
    for p in policies() {
        assert_eq!(parse_rules(&to_rules(&p)).unwrap(), p);
        assert_eq!(parse_query(&to_query(&p)).unwrap(), p);
    }
}

#[test]
fn migrating_back_and_forth_keeps_every_field() {
    for p in policies() {
        let rules = to_rules(&p);
        let query = convert_rules_to_query(&rules).unwrap();
        assert_eq!(convert_query_to_rules(&query).unwrap(), rules);
        assert_eq!(convert_rules_to_query(&convert_query_to_rules(&query).unwrap()).unwrap(), query);
    }
}

#[test]
fn readme_query_to_rules_example() {
    assert_eq!(
        convert_query_to_rules("minLength=10&upper=1&digit=1\n").unwrap(),
        "min_length=10\nrequire_upper=true\nrequire_lower=false\nrequire_digit=true\nrequire_symbol=false"
    );
}

#[test]
fn readme_rules_to_query_example() {
    let input = "min_length=12\nrequire_upper=true\nrequire_lower=true\nrequire_digit=true\nrequire_symbol=false\n";
    assert_eq!(
        convert_rules_to_query(input).unwrap(),
        "minLength=12&upper=1&lower=1&digit=1&symbol=0"
    );
}

#[test]
fn rules_lines_are_trimmed_and_crlf_is_accepted() {
    let input = "  min_length = 10 \r\n\tmax_length=\u{00A0}20\r\n\u{3000}require_symbol = 1\u{2003}\r\n";
    let p = parse_rules(input).unwrap();
    assert_eq!(p.min_length, 10);
    assert_eq!(p.max_length, Some(20));
    assert!(p.require_symbol);
}

#[test]
fn indented_comments_are_skipped() {
    let p = parse_rules("   # comment\n#min_length=5\nmin_length=6\n\n\n").unwrap();
    assert_eq!(p.min_length, 6);
}

#[test]
fn later_directive_wins() {
    assert_eq!(parse_rules("min_length=8\nmin_length=9").unwrap().min_length, 9);
    assert_eq!(parse_query("minLength=8&minLength=3").unwrap().min_length, 3);
}

#[test]
fn empty_inputs_lack_min_length() {
    assert_eq!(parse_rules("").unwrap_err(), PolicyError::MissingRequiredField("min_length"));
    assert_eq!(parse_rules("\n# only\n").unwrap_err(), PolicyError::MissingRequiredField("min_length"));
    assert_eq!(parse_query(" \n\t").unwrap_err(), PolicyError::MissingRequiredField("minLength"));
    assert_eq!(parse_query("").unwrap_err(), PolicyError::MissingRequiredField("minLength"));
}

#[test]
fn missing_values_name_the_key() {
    assert_eq!(parse_rules("min_length=\n").unwrap_err(), PolicyError::MissingValue("min_length".to_string()));
    assert_eq!(parse_rules("min_length =   \n").unwrap_err(), PolicyError::MissingValue("min_length".to_string()));
    assert_eq!(parse_rules("  min_length  \n").unwrap_err(), PolicyError::MissingValue("min_length".to_string()));
    assert_eq!(parse_query("minLength=8&&upper=1").unwrap_err(), PolicyError::MissingValue(String::new()));
    assert_eq!(parse_query("minLength=8& upper ").unwrap_err(), PolicyError::MissingValue("upper".to_string()));
}

#[test]
fn numbers_follow_u32_parsing() {
    assert_eq!(parse_rules("min_length=+7").unwrap().min_length, 7);
    assert_eq!(parse_rules("min_length=007").unwrap().min_length, 7);
    assert_eq!(parse_rules("min_length=4294967295").unwrap().min_length, u32::MAX);
    for bad in ["4294967296", "-1", "+", "1 2", "12a", "99999999999999999999", "١٢"] {
        let input = format!("min_length={bad}");
        assert_eq!(
            parse_rules(&input).unwrap_err(),
            PolicyError::InvalidValue { key: "min_length".to_string(), value: bad.to_string() }
        );
    }
}

#[test]
fn value_may_hold_the_separator_of_pairs() {
    assert_eq!(
        parse_rules("min_length=1=2").unwrap_err(),
        PolicyError::InvalidValue { key: "min_length".to_string(), value: "1=2".to_string() }
    );
}

#[test]
fn both_bool_spellings_are_read_in_both_formats() {
    let p = parse_rules("min_length=1\nrequire_upper=1\nrequire_lower=0\nrequire_digit=true").unwrap();
    assert!(p.require_upper && !p.require_lower && p.require_digit);
    let q = parse_query("minLength=1&upper=true&lower=false&digit=1").unwrap();
    assert!(q.require_upper && !q.require_lower && q.require_digit);
    assert_eq!(
        parse_query("minLength=1&upper=TRUE").unwrap_err(),
        PolicyError::InvalidValue { key: "upper".to_string(), value: "TRUE".to_string() }
    );
}

#[test]
fn keys_belong_to_one_format_and_are_case_sensitive() {
    assert_eq!(parse_rules("Min_Length=8").unwrap_err(), PolicyError::UnknownKey("Min_Length".to_string()));
    assert_eq!(parse_query("min_length=8").unwrap_err(), PolicyError::UnknownKey("min_length".to_string()));
    assert_eq!(parse_rules("minLength=8").unwrap_err(), PolicyError::UnknownKey("minLength".to_string()));
}

#[test]
fn first_error_wins() {
    assert_eq!(
        parse_rules("min_length=x\nfoo=1").unwrap_err(),
        PolicyError::InvalidValue { key: "min_length".to_string(), value: "x".to_string() }
    );
    assert_eq!(parse_query("foo=1&minLength=").unwrap_err(), PolicyError::UnknownKey("foo".to_string()));
}

#[test]
fn conversion_errors_pass_through() {
    assert_eq!(convert_rules_to_query("require_digit=true").unwrap_err(), PolicyError::MissingRequiredField("min_length"));
    assert_eq!(convert_query_to_rules("upper=2&minLength=1").unwrap_err(),
        PolicyError::InvalidValue { key: "upper".to_string(), value: "2".to_string() });
}

#[test]
fn error_messages() {
    assert_eq!(PolicyError::UnknownKey("k".to_string()).message(), "unknown key 'k'");
    assert_eq!(PolicyError::MissingValue("k".to_string()).message(), "key 'k' has no value");
    assert_eq!(
        PolicyError::InvalidValue { key: "upper".to_string(), value: "yes".to_string() }.message(),
        "invalid value 'yes' for key 'upper'"
    );
    assert_eq!(PolicyError::MissingRequiredField("min_length").message(), "missing required field 'min_length'");
}

#[test]
fn validate_readme_example() {
    let p = parse_rules(
        "min_length=3\nmax_length=2\nrequire_upper=true\nrequire_lower=true\nrequire_digit=true\nrequire_symbol=true\n",
    )
    .unwrap();
    assert_eq!(
        validate(&p),
        vec![
            "max_length (2) is less than min_length (3); no password can satisfy both".to_string(),
            "4 character classes are required but min_length (3) is too short to fit one of each".to_string(),
        ]
    );
}

#[test]
fn validate_accepts_consistent_policies() {
    assert!(validate(&full_policy()).is_empty());
    let p = PasswordPolicy { min_length: 4, max_length: Some(4), require_upper: true, require_lower: true, require_digit: true, require_symbol: true, ..PasswordPolicy::default() };
    assert!(validate(&p).is_empty());
    let q = PasswordPolicy { min_length: 1, require_upper: true, require_digit: true, ..PasswordPolicy::default() };
    assert_eq!(validate(&q), vec!["2 character classes are required but min_length (1) is too short to fit one of each".to_string()]);
}
