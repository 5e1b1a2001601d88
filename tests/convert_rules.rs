use adblock2hosts::convert_rule;

#[test]
fn test_convert_unique_rules_only() {
    let rules = vec![
        "||example.com^",
        "||example.com^ # comment",
        "||test.com^",
        "||test.com^ # comment",
        "||invalid_domain^",
        "# just a comment",
    ];
    let mut unique_raw_rules = std::collections::HashSet::<String>::new();
    let mut deduped_rules = Vec::new();
    for rule in rules {
        if unique_raw_rules.insert(rule.to_string()) {
            deduped_rules.push(rule.to_string());
        }
    }
    let mut unique_converted = std::collections::HashSet::<String>::new();
    let mut converted_rules = Vec::new();
    for rule in deduped_rules {
        if let Some(converted) = convert_rule(&rule) {
            if unique_converted.insert(converted.clone()) {
                converted_rules.push(converted);
            }
        }
    }
    assert_eq!(
        converted_rules,
        vec![
            "0.0.0.0 example.com".to_string(),
            "0.0.0.0 test.com".to_string()
        ]
    );
}

#[test]
fn test_convert_rule_domain_with_dash() {
    let rule = "||my-domain.com^";
    assert_eq!(convert_rule(rule), Some("0.0.0.0 my-domain.com".to_string()));
}

#[test]
fn test_convert_rule_valid() {
    assert_eq!(convert_rule("||example.com^"), Some("0.0.0.0 example.com".to_string()));
}

#[test]
fn test_convert_rule_with_comment() {
    assert_eq!(
        convert_rule("||example.com^ # comment"),
        Some("0.0.0.0 example.com".to_string())
    );
}

#[test]
fn test_convert_rule_invalid_format() {
    assert_eq!(convert_rule("|example.com^"), None);
}

#[test]
fn test_convert_rule_empty() {
    assert_eq!(convert_rule("# just a comment"), None);
}

#[test]
fn test_convert_rule_invalid_domain() {
    assert_eq!(convert_rule("||invalid_domain^"), None);
}

#[test]
fn test_convert_rule_subdomain() {
    let rule = "||sub.example.com^";
    assert_eq!(convert_rule(rule), Some("0.0.0.0 sub.example.com".to_string()));
}

#[test]
fn test_convert_rule_multiple_carets() {
    let rule = "||example.com^$third-party";
    assert_eq!(convert_rule(rule), Some("0.0.0.0 example.com".to_string()));
}

#[test]
fn test_convert_rule_invalid_domain_format_delimiter_double_dot() {
    let rule = "||example..com^";
    assert_eq!(convert_rule(rule), None);
}

#[test]
fn test_convert_rule_invalid_domain_format_delimeter_dot_and_comma() {
    let rule = "||example,.com^";
    assert_eq!(convert_rule(rule), None);
}

#[test]
fn test_convert_rule_invalid_domain_format_delimeter_comma() {
    let rule = "||example,com^";
    assert_eq!(convert_rule(rule), None);
}

#[test]
fn test_convert_rule_with_whitespace() {
    let rule = "  ||example.com^  ";
    assert_eq!(convert_rule(rule), Some("0.0.0.0 example.com".to_string()));
}

#[test]
fn test_convert_rule_regex_error_handling() {
    let rule = "||example.com^";
    convert_rule(rule);
}

#[test]
fn blank_and_whitespace_lines_give_nothing() {
    assert_eq!(convert_rule(""), None);
    assert_eq!(convert_rule("   \t  "), None);
    assert_eq!(convert_rule("\u{a0}\u{3000}"), None);
}

#[test]
fn unicode_whitespace_is_trimmed() {
    assert_eq!(
        convert_rule("\u{a0}||example.com^\u{2003}"),
        Some("0.0.0.0 example.com".to_string())
    );
}

#[test]
fn rule_without_caret_is_rejected() {
    assert_eq!(convert_rule("||example.com"), None);
    assert_eq!(convert_rule("||example.com # ^ in a comment"), None);
}

#[test]
fn plain_domain_and_exception_rules_are_rejected() {
    assert_eq!(convert_rule("example.com"), None);
    assert_eq!(convert_rule("@@||example.com^"), None);
    assert_eq!(convert_rule("example.com##.ad"), None);
}

#[test]
fn options_after_dollar_are_dropped() {
    assert_eq!(
        convert_rule("||ads.example.org$important^"),
        Some("0.0.0.0 ads.example.org".to_string())
    );
}

#[test]
fn case_is_kept() {
    assert_eq!(convert_rule("||Ads.Example.COM^"), Some("0.0.0.0 Ads.Example.COM".to_string()));
}

#[test]
fn label_hyphens_must_be_inside() {
    assert_eq!(convert_rule("||-example.com^"), None);
    assert_eq!(convert_rule("||example-.com^"), None);
    assert_eq!(convert_rule("||a-b-c.d-e.com^"), Some("0.0.0.0 a-b-c.d-e.com".to_string()));
}

#[test]
fn top_label_is_two_or_more_letters() {
    assert_eq!(convert_rule("||example.c^"), None);
    assert_eq!(convert_rule("||example.c0m^"), None);
    assert_eq!(convert_rule("||example.com.^"), None);
    assert_eq!(convert_rule("||.example.com^"), None);
    assert_eq!(convert_rule("||com^"), None);
    assert_eq!(convert_rule("||1.2.3.4^"), None);
    assert_eq!(convert_rule("||x.io^"), Some("0.0.0.0 x.io".to_string()));
}

#[test]
fn digits_in_labels_are_accepted() {
    assert_eq!(convert_rule("||0.example9.net^"), Some("0.0.0.0 0.example9.net".to_string()));
}

#[test]
fn non_ascii_domain_is_rejected() {
    assert_eq!(convert_rule("||exämple.com^"), None);
}

#[test]
fn converting_twice_gives_the_same_result() {
    for rule in ["||example.com^", "|example.com^", "||bad_domain^", "# x", "||a.bc^$x"] {
        assert_eq!(convert_rule(rule), convert_rule(rule));
    }
}
