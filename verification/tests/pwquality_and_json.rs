use password_policy_convert::json::{
    convert_json_to_query, convert_json_to_rules, convert_pwquality_to_json, convert_rules_to_json,
    parse_json, to_json,
};
use password_policy_convert::policy::{parse_query, parse_rules, PasswordPolicy, PolicyError};
use password_policy_convert::pwquality::{
    convert_pwquality_to_query, convert_pwquality_to_rules, parse_pwquality,
};

const README_PWQUALITY: &str = "minlen = 12\ndcredit = -1\nucredit = -1\nlcredit = -1\nocredit = -1\nmaxrepeat = 3\nminclass = 4\ndictcheck = 1\nretry = 3\n";

#[test]
fn readme_pwquality_example() {
    assert_eq!(
        convert_pwquality_to_rules(README_PWQUALITY).unwrap(),
        "min_length=12\nrequire_upper=true\nrequire_lower=true\nrequire_digit=true\nrequire_symbol=true\nmax_repeated_chars=3"
    );
    assert_eq!(
        convert_pwquality_to_query(README_PWQUALITY).unwrap(),
        "minLength=12&upper=1&lower=1&digit=1&symbol=1&maxRepeat=3"
    );
}

#[test]
fn pwquality_ignores_other_directives_flags_and_comments() {
    let input = "# settings\n\nenforce_for_root\nminclass=3\ndifok =\nminlen=10\n   local_users_only  \n";
    let p = parse_pwquality(input).unwrap();
    assert_eq!(p, PasswordPolicy { min_length: 10, ..PasswordPolicy::default() });
}

#[test]
fn pwquality_credits_require_only_when_negative() {
    let p = parse_pwquality("minlen=8\ndcredit=0\nucredit=2\nlcredit=-0\nocredit=+1").unwrap();
    assert!(!p.require_digit && !p.require_upper && !p.require_lower && !p.require_symbol);
    let q = parse_pwquality("minlen=8\nocredit=-2147483648\ndcredit=-3").unwrap();
    assert!(q.require_symbol && q.require_digit);
}

#[test]
fn pwquality_errors() {
    assert_eq!(parse_pwquality("dcredit=-1\n").unwrap_err(), PolicyError::MissingRequiredField("minlen"));
    assert_eq!(parse_pwquality("minlen =\n").unwrap_err(), PolicyError::MissingValue("minlen".to_string()));
    assert_eq!(
        parse_pwquality("minlen=8\nucredit=minus one").unwrap_err(),
        PolicyError::InvalidValue { key: "ucredit".to_string(), value: "minus one".to_string() }
    );
    assert_eq!(
        parse_pwquality("minlen=8\nlcredit=-2147483649").unwrap_err(),
        PolicyError::InvalidValue { key: "lcredit".to_string(), value: "-2147483649".to_string() }
    );
    assert_eq!(
        parse_pwquality("minlen=-1").unwrap_err(),
        PolicyError::InvalidValue { key: "minlen".to_string(), value: "-1".to_string() }
    );
}

#[test]
fn pwquality_later_directive_wins() {
    let p = parse_pwquality("minlen=8\nmaxrepeat=2\nmaxrepeat=5\nminlen=9").unwrap();
    assert_eq!(p.min_length, 9);
    assert_eq!(p.max_repeated_chars, Some(5));
}

#[test]
fn readme_json_example() {
    let rules = "min_length=12\nrequire_upper=true\nrequire_lower=true\nrequire_digit=true\nrequire_symbol=false\n";
    assert_eq!(
        convert_rules_to_json(rules).unwrap(),
        "{\"min_length\":12,\"max_length\":null,\"require_upper\":true,\"require_lower\":true,\"require_digit\":true,\"require_symbol\":false,\"max_repeated_chars\":null,\"min_unique_chars\":null}"
    );
}

#[test]
fn json_of_full_policy() {
    let p = PasswordPolicy {
        min_length: 12,
        max_length: Some(64),
        require_upper: false,
        require_lower: true,
        require_digit: false,
        require_symbol: true,
        max_repeated_chars: Some(3),
        min_unique_chars: Some(4294967295),
    };
    assert_eq!(
        to_json(&p),
        "{\"min_length\":12,\"max_length\":64,\"require_upper\":false,\"require_lower\":true,\"require_digit\":false,\"require_symbol\":true,\"max_repeated_chars\":3,\"min_unique_chars\":4294967295}"
    );
}

#[test]
fn json_conversions_pass_errors_through() {
    assert_eq!(convert_rules_to_json("foo=1").unwrap_err(), PolicyError::UnknownKey("foo".to_string()));
    assert_eq!(convert_pwquality_to_json("retry=3").unwrap_err(), PolicyError::MissingRequiredField("minlen"));
    assert!(convert_pwquality_to_json("minlen=5").unwrap().starts_with("{\"min_length\":5,"));
}

#[test]
fn flags_read_back_in_both_spellings() {
    for b in [true, false] {
        let word = if b { "true" } else { "false" };
        let digit = if b { "1" } else { "0" };
        assert_eq!(parse_rules(&format!("min_length=1\nrequire_upper={word}")).unwrap().require_upper, b);
        assert_eq!(parse_rules(&format!("min_length=1\nrequire_upper={digit}")).unwrap().require_upper, b);
        assert_eq!(parse_query(&format!("minLength=1&upper={word}")).unwrap().require_upper, b);
        assert_eq!(parse_query(&format!("minLength=1&upper={digit}")).unwrap().require_upper, b);
    }
}

#[test]
fn readme_json_to_rules_example() {
    assert_eq!(
        convert_json_to_rules("{\"min_length\":10,\"require_upper\":true}\n").unwrap(),
        "min_length=10\nrequire_upper=true\nrequire_lower=false\nrequire_digit=false\nrequire_symbol=false"
    );
    assert_eq!(
        convert_json_to_query("{\"min_length\":10,\"require_upper\":true}").unwrap(),
        "minLength=10&upper=1&lower=0&digit=0&symbol=0"
    );
}

#[test]
fn json_round_trips() {
    for bits in 0u32..16 {
        let p = PasswordPolicy {
            min_length: bits * 300_000_000,
            max_length: if bits & 1 == 1 { Some(bits) } else { None },
            require_upper: bits & 1 == 1,
            require_lower: bits & 2 == 2,
            require_digit: bits & 4 == 4,
            require_symbol: bits & 8 == 8,
            max_repeated_chars: if bits & 2 == 2 { Some(0) } else { None },
            min_unique_chars: if bits & 4 == 4 { Some(u32::MAX) } else { None },
        };
        assert_eq!(parse_json(&to_json(&p)).unwrap(), p);
    }
}

#[test]
fn json_accepts_whitespace_and_null_optionals() {
    let p = parse_json(" {\n  \"min_length\" : 12 ,\n  \"max_length\": null,\n  \"min_unique_chars\": 4\n}\n").unwrap();
    assert_eq!(p, PasswordPolicy { min_length: 12, min_unique_chars: Some(4), ..PasswordPolicy::default() });
}

#[test]
fn json_errors() {
    assert_eq!(parse_json("{}").unwrap_err(), PolicyError::MissingRequiredField("min_length"));
    assert_eq!(parse_json("{\"require_upper\":true}").unwrap_err(), PolicyError::MissingRequiredField("min_length"));
    assert_eq!(parse_json("[1]").unwrap_err(), PolicyError::MalformedJson("[1]".to_string()));
    assert_eq!(parse_json("  ").unwrap_err(), PolicyError::MalformedJson(String::new()));
    assert_eq!(parse_json("{\"min_length\":8,}").unwrap_err(), PolicyError::MalformedJson(String::new()));
    assert_eq!(parse_json("{min_length:8}").unwrap_err(), PolicyError::MalformedJson("min_length:8".to_string()));
    assert_eq!(parse_json("{\"min_length\" 8}").unwrap_err(), PolicyError::MalformedJson("\"min_length\" 8".to_string()));
    assert_eq!(parse_json("{\"min_length\":}").unwrap_err(), PolicyError::MissingValue("min_length".to_string()));
    assert_eq!(parse_json("{\"minLength\":8}").unwrap_err(), PolicyError::UnknownKey("minLength".to_string()));
    assert_eq!(
        parse_json("{\"min_length\":null}").unwrap_err(),
        PolicyError::InvalidValue { key: "min_length".to_string(), value: "null".to_string() }
    );
    assert_eq!(
        parse_json("{\"min_length\":8,\"require_digit\":1}").unwrap_err(),
        PolicyError::InvalidValue { key: "require_digit".to_string(), value: "1".to_string() }
    );
    assert_eq!(
        parse_json("{\"min_length\":-8}").unwrap_err(),
        PolicyError::InvalidValue { key: "min_length".to_string(), value: "-8".to_string() }
    );
    assert_eq!(PolicyError::MalformedJson("[1]".to_string()).message(), "malformed JSON '[1]'");
}

#[test]
fn inserting_comment_or_blank_lines_changes_nothing() {
    let lines = ["min_length=9", "require_digit=true", "max_length=20"];
    let base = lines.join("\n");
    for extra in ["", "   ", "# note", "  # indented = comment", "\r"] {
        for i in 0..=lines.len() {
            let mut with: Vec<&str> = lines.to_vec();
            with.insert(i, extra);
            assert_eq!(parse_rules(&with.join("\n")), parse_rules(&base));
        }
    }
    let bad = ["require_digit=true", "min_length=x"].join("\n");
    assert_eq!(
        parse_rules(&["# c", "require_digit=true", "", "min_length=x"].join("\n")),
        parse_rules(&bad)
    );
}
