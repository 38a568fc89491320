use ipv6_pool_proxy::domain::{domain_matches_suffix, normalize_domain_rule, DomainRules};
use ipv6_pool_proxy::error::ErrorKind;

fn rules(content: &str) -> DomainRules {
    match DomainRules::parse(content) {
        Ok(rules) => rules,
        Err(e) => panic!("{}", e.message),
    }
}

fn refusal(content: &str) -> String {
    match DomainRules::parse(content) {
        Ok(_) => panic!("{:?} was read", content),
        Err(e) => {
            assert_eq!(e.kind, ErrorKind::InvalidInput);
            e.message
        }
    }
}

#[test]
fn exact_rule_picks_the_name_only() {
    let r = rules("google.com\n");
    assert!(r.is_match("google.com"));
    assert!(!r.is_match("www.google.com"));
    assert!(!r.is_match("google.com.example.net"));
    assert!(rules("exact:google.com").is_match("google.com"));
}

#[test]
fn suffix_rule_picks_the_name_and_names_below() {
    let r = rules("suffix:google.com");
    assert!(r.is_match("google.com"));
    assert!(r.is_match("www.google.com"));
    assert!(r.is_match("a.b.google.com"));
    assert!(!r.is_match("google.com.example.net"));
    assert!(!r.is_match("notgoogle.com"));
    assert!(!r.is_match("com"));
}

#[test]
fn keyword_rule_picks_names_that_hold_it() {
    let r = rules("keyword:google");
    assert!(r.is_match("www.google.com"));
    assert!(r.is_match("googleapis.com"));
    assert!(r.is_match("google"));
    assert!(!r.is_match("example.com"));
    assert!(!r.is_match("goog"));
}

#[test]
fn tld_rule_picks_names_below_it() {
    for content in ["tld:com", "tld:.com", "tld: ..COM. "] {
        let r = rules(content);
        assert!(r.is_match("example.com"));
        assert!(r.is_match("a.b.com"));
        assert!(r.is_match("com"));
        assert!(!r.is_match("example.net"));
        assert!(!r.is_match("examplecom"));
    }
}

#[test]
fn comments_case_white_space_and_line_ends() {
    let r = rules("# head\r\n\r\n  Google.COM.  # tail\r\nSUFFIX : Example.org \r\n#last");
    assert!(r.is_match("google.com"));
    assert!(r.is_match("GOOGLE.com."));
    assert!(r.is_match("  google.com\t"));
    assert!(r.is_match("www.EXAMPLE.org.."));
    assert!(!r.is_match("head"));
    assert!(!r.is_match("last"));
}

#[test]
fn names_without_letters_are_never_picked() {
    let r = rules("keyword:a\ntld:com\nsuffix:b\nc");
    assert!(!r.is_match(""));
    assert!(!r.is_match(" . "));
    assert!(!r.is_match("..."));
    assert!(!r.is_normalized_match(""));
    assert!(!DomainRules::default().is_match("a"));
}

#[test]
fn normalized_names_are_compared_as_they_stand() {
    let r = rules("google.com");
    assert!(r.is_normalized_match("google.com"));
    assert!(!r.is_normalized_match("Google.com"));
    assert!(!r.is_normalized_match("google.com."));
}

#[test]
fn empty_rule_is_refused_with_its_line() {
    assert_eq!(refusal("a\nsuffix:\n"), "empty domain rule at line 2");
    assert_eq!(refusal("tld:."), "empty domain rule at line 1");
    assert_eq!(refusal("..."), "empty domain rule at line 1");
    assert_eq!(refusal(":"), "empty domain rule at line 1");
    assert_eq!(refusal("#\n#\n#\n#\n#\n#\n#\n#\n#\n\nkeyword: # x"), "empty domain rule at line 11");
}

#[test]
fn unknown_kind_is_refused_with_its_line() {
    assert_eq!(refusal("\nRegex : a.b"), "unsupported domain rule type 'Regex' at line 2");
    assert_eq!(refusal(":a"), "unsupported domain rule type '' at line 1");
    assert_eq!(refusal("http://a\nsuffix:"), "unsupported domain rule type 'http' at line 1");
}

#[test]
fn suffixes_end_at_a_dot() {
    assert!(domain_matches_suffix("google.com", "google.com"));
    assert!(domain_matches_suffix("a.google.com", "google.com"));
    assert!(domain_matches_suffix(".google.com", "google.com"));
    assert!(!domain_matches_suffix("agoogle.com", "google.com"));
    assert!(!domain_matches_suffix("com", "google.com"));
    assert!(domain_matches_suffix("b\u{fc}cher.de", "de"));
    assert!(!domain_matches_suffix("\u{fc}de", "de"));
}

#[test]
fn normal_form_of_names() {
    assert_eq!(normalize_domain_rule("  A.b.C..  "), "a.b.c");
    assert_eq!(normalize_domain_rule("\u{3000}X\u{a0}"), "x");
    assert_eq!(normalize_domain_rule("\u{c4}."), "\u{c4}");
    assert_eq!(normalize_domain_rule("a ."), "a ");
    assert_eq!(normalize_domain_rule(" .. "), "");
}

#[test]
fn more_rules_are_alternatives() {
    let r = rules("one.org\nsuffix:two.org\nkeyword:three\ntld:four");
    for name in ["one.org", "x.two.org", "athreeb", "y.four"] {
        assert!(r.is_match(name), "{}", name);
    }
    for name in ["x.one.org", "twoo.org", "thre", "four.y"] {
        assert!(!r.is_match(name), "{}", name);
    }
}
