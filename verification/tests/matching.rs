use kirby_core::pattern::{match_chars, match_pattern, wildcard_matches};

fn chars_of(s: &str) -> Vec<char> {
    s.chars().collect()
}

fn backtrack(p: &[char], s: &[char]) -> bool {
    match (p.first(), s.first()) {
        (None, None) => true,
        (Some('*'), _) => backtrack(&p[1..], s) || (!s.is_empty() && backtrack(p, &s[1..])),
        (Some(pc), Some(sc)) if pc == sc => backtrack(&p[1..], &s[1..]),
        _ => false,
    }
}

fn words(alphabet: &[char], max_len: usize) -> Vec<Vec<char>> {
    let mut all: Vec<Vec<char>> = vec![Vec::new()];
    let mut last: Vec<Vec<char>> = vec![Vec::new()];
    for _ in 0..max_len {
        let mut next = Vec::new();
        for w in &last {
            for c in alphabet {
                let mut longer = w.clone();
                longer.push(*c);
                next.push(longer);
            }
        }
        all.extend(next.iter().cloned());
        last = next;
    }
    all
}

#[test]
fn html_suffix_pattern() {
    assert!(match_pattern("*.html", "/a/b/index.html"));
    assert!(match_pattern("*.html", "index.html"));
    assert!(!match_pattern("*.html", "/a/b/index.htm"));
    assert!(!match_pattern("*.html", "/"));
}

#[test]
fn wildcard_spans_path_segments() {
    assert!(match_pattern("/test/*/file.txt", "/test/anything/file.txt"));
    assert!(match_pattern("/test/*/file.txt", "/test/a/b/c/file.txt"));
    assert!(!match_pattern("/test/*/file.txt", "/test/file.txt"));
}

#[test]
fn pattern_without_wildcard_is_a_prefix() {
    assert!(match_pattern("/a", "/ab"));
    assert!(match_pattern("/a", "/a"));
    assert!(match_pattern("", "anything"));
    assert!(match_pattern("", ""));
    assert!(!match_pattern("/ab", "/a"));
    assert!(!match_pattern("/a", ""));
    assert!(!match_pattern("/a", "x/a"));
    assert!(!match_pattern("/A", "/a"));
}

#[test]
fn wildcard_pattern_must_use_up_the_candidate() {
    assert!(match_pattern("/a*b", "/ab"));
    assert!(match_pattern("/a*b", "/axxb"));
    assert!(!match_pattern("/a*b", "/axxbc"));
    assert!(!match_pattern("/a*", "a"));
    assert!(match_pattern("/a*", "/a"));
    assert!(match_pattern("/a*", "/a/b/c"));
}

#[test]
fn lone_wildcard_matches_everything() {
    assert!(match_pattern("*", ""));
    assert!(match_pattern("*", "KirbyBot/1.0"));
    assert!(match_pattern("**", ""));
    assert!(match_pattern("***", "x"));
    assert!(!match_pattern("*a", ""));
}

#[test]
fn a_star_in_the_candidate_is_an_ordinary_character() {
    assert!(match_pattern("/a", "/a*"));
    assert!(match_pattern("/*", "/*"));
    assert!(!match_pattern("/b", "/*"));
}

#[test]
fn matching_goes_by_characters() {
    assert!(match_pattern("/é*", "/éa"));
    assert!(match_pattern("/é", "/éa"));
    assert!(!match_pattern("/e*", "/éa"));
    assert!(match_pattern("*é", "/日本é"));
}

#[test]
fn match_chars_agrees_with_match_pattern() {
    assert!(match_chars(&chars_of("/x/*.png"), &chars_of("/x/y/z.png")));
    assert!(!match_chars(&chars_of("/x/*.png"), &chars_of("/x/y/z.jpg")));
    assert!(match_chars(&chars_of("/x"), &chars_of("/x/y")));
}

#[test]
fn wildcard_matches_agrees_with_backtracking() {
    let patterns = words(&['a', 'b', '*'], 4);
    let candidates = words(&['a', 'b'], 5);
    for p in &patterns {
        for s in &candidates {
            assert_eq!(wildcard_matches(p, s), backtrack(p, s), "{:?} on {:?}", p, s);
        }
    }
}

#[test]
fn match_chars_agrees_with_prefix_or_backtracking() {
    let patterns = words(&['a', '/', '*'], 4);
    let candidates = words(&['a', '/', '*'], 4);
    for p in &patterns {
        for s in &candidates {
            let expected = if p.contains(&'*') { backtrack(p, s) } else { s.starts_with(p) };
            assert_eq!(match_chars(p, s), expected, "{:?} on {:?}", p, s);
        }
    }
}

#[test]
fn many_wildcards_on_a_long_candidate() {
    let pattern = "*a*a*a*a*a*a*a*a*a*a*a*a*a*a*a*a*b";
    let candidate = "a".repeat(400);
    assert!(!match_pattern(pattern, &candidate));
    let mut ending = candidate.clone();
    ending.push('b');
    assert!(match_pattern(pattern, &ending));
}
