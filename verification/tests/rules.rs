use kirby_core::rules::{
    byte_length, find_equal, find_match, find_shorter, insert_sorted, RobotsTxtRule,
};

fn strings(items: &[&str]) -> Vec<String> {
    items.iter().map(|s| s.to_string()).collect()
}

fn chars_of(s: &str) -> Vec<char> {
    s.chars().collect()
}

#[test]
fn byte_length_counts_utf8_bytes() {
    assert_eq!(byte_length(""), 0);
    assert_eq!(byte_length("/private/"), 9);
    assert_eq!(byte_length("/"), 1);
    assert_eq!(byte_length("/é"), 3);
    assert_eq!(byte_length("日本"), 6);
}

#[test]
fn find_shorter_gives_the_place_behind_equal_lengths() {
    let v = strings(&["/ccc", "/bb", "/aa", "/"]);
    assert_eq!(find_shorter(&v, 5), 0);
    assert_eq!(find_shorter(&v, 4), 1);
    assert_eq!(find_shorter(&v, 3), 3);
    assert_eq!(find_shorter(&v, 2), 3);
    assert_eq!(find_shorter(&v, 1), 4);
    assert_eq!(find_shorter(&v, 0), 4);
    assert_eq!(find_shorter(&Vec::new(), 3), 0);
}

#[test]
fn find_equal_gives_the_index_or_the_length() {
    let v = strings(&["KirbyBot", "Kirby", "*"]);
    assert_eq!(find_equal(&v, &"KirbyBot".to_string()), 0);
    assert_eq!(find_equal(&v, &"*".to_string()), 2);
    assert_eq!(find_equal(&v, &"kirby".to_string()), 3);
    assert_eq!(find_equal(&Vec::new(), &"*".to_string()), 0);
}

#[test]
fn find_match_gives_the_first_pattern_that_matches() {
    let v = strings(&["/private/*.html", "/private/", "/p", "/"]);
    assert_eq!(find_match(&v, &chars_of("/private/a.html")), 0);
    assert_eq!(find_match(&v, &chars_of("/private/a.png")), 1);
    assert_eq!(find_match(&v, &chars_of("/public")), 2);
    assert_eq!(find_match(&v, &chars_of("/x")), 3);
    assert_eq!(find_match(&v, &chars_of("x")), 4);
}

#[test]
fn insert_sorted_keeps_longest_first_and_ties_in_order() {
    let mut v: Vec<String> = Vec::new();
    for p in ["/b", "/a", "/ccc", "/", "/dd", "/c", "/eee"] {
        insert_sorted(&mut v, p.to_string());
    }
    assert_eq!(v, vec!["/ccc", "/eee", "/dd", "/b", "/a", "/c", "/"]);
}

#[test]
fn insert_sorted_goes_by_bytes() {
    let mut v: Vec<String> = Vec::new();
    insert_sorted(&mut v, "/aaaa".to_string());
    insert_sorted(&mut v, "/ééé".to_string());
    assert_eq!(v, vec!["/ééé", "/aaaa"]);
}

#[test]
fn empty_rule_allows_everything() {
    let rule = RobotsTxtRule::new();
    assert!(rule.allow().is_empty());
    assert!(rule.disallow().is_empty());
    assert!(rule.is_allowed("/"));
    assert!(rule.is_allowed(""));
}

#[test]
fn rule_add_fills_the_named_list() {
    let mut rule = RobotsTxtRule::new();
    rule.add("/".to_string(), true);
    rule.add("/private/".to_string(), false);
    rule.add("/something".to_string(), true);
    assert_eq!(*rule.allow(), vec!["/something", "/"]);
    assert_eq!(*rule.disallow(), vec!["/private/"]);
}

#[test]
fn rule_decision_table() {
    let mut rule = RobotsTxtRule::new();
    rule.add("/open/".to_string(), true);
    rule.add("/shut/".to_string(), false);
    rule.add("/both/".to_string(), true);
    rule.add("/both/".to_string(), false);
    rule.add("/deep/".to_string(), false);
    rule.add("/deep/er/".to_string(), true);
    rule.add("/wide/".to_string(), true);
    rule.add("/wide/r/".to_string(), false);
    // allow only
    assert!(rule.is_allowed("/open/x"));
    // disallow only
    assert!(!rule.is_allowed("/shut/x"));
    // neither
    assert!(rule.is_allowed("/else"));
    // both, of one length: disallow wins
    assert!(!rule.is_allowed("/both/x"));
    // both, allow longer
    assert!(rule.is_allowed("/deep/er/x"));
    assert!(!rule.is_allowed("/deep/x"));
    // both, disallow longer
    assert!(!rule.is_allowed("/wide/r/x"));
    assert!(rule.is_allowed("/wide/x"));
    assert!(rule.allows_chars(&chars_of("/open/x")));
    assert!(!rule.allows_chars(&chars_of("/shut/x")));
}

#[test]
fn rule_lengths_are_compared_in_bytes() {
    let mut rule = RobotsTxtRule::new();
    // four characters and seven bytes against five characters and five bytes
    rule.add("/ééé".to_string(), true);
    rule.add("/ééé*".to_string(), false);
    assert!(!rule.is_allowed("/éééx"));
    let mut rule = RobotsTxtRule::new();
    rule.add("/ééé".to_string(), true);
    rule.add("/*a*a".to_string(), false);
    assert!(rule.is_allowed("/éééaa"));
}

#[test]
fn default_rule_is_empty() {
    let rule = RobotsTxtRule::default();
    assert!(rule.allow().is_empty());
    assert!(rule.disallow().is_empty());
    assert!(rule.is_allowed("/anything"));
}

#[test]
fn cloned_rule_holds_the_same_patterns() {
    let mut rule = RobotsTxtRule::new();
    rule.add("/a".to_string(), true);
    rule.add("/bb".to_string(), false);
    let copy = rule.clone();
    rule.add("/ccc".to_string(), false);
    assert_eq!(*copy.allow(), vec!["/a"]);
    assert_eq!(*copy.disallow(), vec!["/bb"]);
    assert_eq!(*rule.disallow(), vec!["/ccc", "/bb"]);
}
