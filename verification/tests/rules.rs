use browser_handler::favorite::favorite_from_field;
use browser_handler::rules::{add_rule, list_rule_lines, remove_rule, Rule};

fn rule(pattern: &str, browser: &str, is_regex: Option<bool>) -> Rule {
    Rule { pattern: pattern.to_string(), browser: browser.to_string(), is_regex, compiled_regex: None }
}

#[test]
fn test_add_rule() {
    let mut rules: Vec<Rule> = Vec::new();

    // Add a rule
    add_rule(&mut rules, "example.com".to_string(), "chrome".to_string(), false);

    assert_eq!(rules.len(), 1);
    assert_eq!(rules[0].pattern, "example.com");
    assert_eq!(rules[0].browser, "chrome");
    assert_eq!(rules[0].is_regex, Some(false));

    // Add another rule
    add_rule(&mut rules, "regex.*".to_string(), "firefox".to_string(), true);

    assert_eq!(rules.len(), 2);
    assert_eq!(rules[1].pattern, "regex.*");
    assert_eq!(rules[1].browser, "firefox");
    assert_eq!(rules[1].is_regex, Some(true));
}

#[test]
fn test_remove_rule() {
    let mut rules = vec![rule("google.com", "chrome", None), rule("firefox.com", "firefox", None)];

    // Remove a rule
    assert!(remove_rule(&mut rules, "google.com"));
    assert_eq!(rules.len(), 1);
    assert_eq!(rules[0].pattern, "firefox.com");

    // Try to remove a non-existent rule
    assert!(!remove_rule(&mut rules, "nonexistent.com"));
    assert_eq!(rules.len(), 1);
    assert_eq!(rules[0].pattern, "firefox.com");
}

#[test]
fn remove_rule_by_pattern() {
    let mut rules = vec![rule("google.com", "chrome", None), rule("firefox.com", "firefox", None), rule("google.com", "edge", None)];
    assert!(remove_rule(&mut rules, "google.com"));
    assert_eq!(rules.len(), 1);
    assert_eq!(rules[0].pattern, "firefox.com");
    assert!(!remove_rule(&mut rules, "nonexistent.com"));
    assert_eq!(rules.len(), 1);
    assert_eq!(rules[0].pattern, "firefox.com");
}

#[test]
fn compile_regex_only_for_regex_rules() {
    let mut r = rule("^https://.*\\.example\\.com", "chrome", Some(true));
    r.compile_regex();
    assert!(r.compiled_regex.as_ref().unwrap().is_match("https://a.example.com"));
    let mut bad = rule("(unclosed", "chrome", Some(true));
    bad.compile_regex();
    assert!(bad.compiled_regex.is_none());
    let mut plain = rule("(unclosed", "chrome", None);
    plain.compile_regex();
    assert!(plain.compiled_regex.is_none());
}

#[test]
fn rule_listing_lines() {
    assert_eq!(list_rule_lines(&[]), vec!["No rules defined.".to_string()]);
    let mut rules = Vec::new();
    for i in 0..12 {
        rules.push(rule(&format!("p{}", i), "b", if i == 11 { Some(true) } else { None }));
    }
    let lines = list_rule_lines(&rules);
    assert_eq!(lines[0], "0: Pattern: p0, Browser: b, Is Regex: false");
    assert_eq!(lines[11], "11: Pattern: p11, Browser: b, Is Regex: true");
}

#[test]
fn favorite_field_empty_means_none() {
    assert_eq!(favorite_from_field(Some("/usr/bin/firefox".to_string())), Some("/usr/bin/firefox".to_string()));
    assert_eq!(favorite_from_field(Some(String::new())), None);
    assert_eq!(favorite_from_field(None), None);
}
