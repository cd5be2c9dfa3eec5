use kirby_core::pattern::match_pattern;
use kirby_core::robotstxt::RobotsTxt;

#[test]
fn parse_well_formatted_robotstxt() {
    let robotstxt_file = r#"
        # Prevent everyone from crawling anything
        User-agent: *
        Disallow: /
        
        # Allow KirbyBot to crawl everything but /prevented/
        User-agent: KirbyBot
        Allow: /
        Disallow: /prevented/

        Sitemap: https://www.example.com/sitemap.xml
        "#;

    let robotstxt = RobotsTxt::parse(robotstxt_file);

    assert_eq!(robotstxt.agents_ordered().len(), 2);
    assert!(robotstxt.rules_of("*").is_some());
    assert!(robotstxt.rules_of("KirbyBot").is_some());

    let wildcard_rules = robotstxt.rules_of("*").unwrap();
    assert_eq!(*wildcard_rules.allow(), Vec::<String>::new());
    assert_eq!(*wildcard_rules.disallow(), vec!["/"]);

    let kirby_rules = robotstxt.rules_of("KirbyBot").unwrap();
    assert_eq!(*kirby_rules.allow(), vec!["/"]);
    assert_eq!(*kirby_rules.disallow(), vec!["/prevented/"]);

    assert_eq!(
        *robotstxt.sitemaps(),
        vec!["https://www.example.com/sitemap.xml"]
    );

    assert_eq!(*robotstxt.agents_ordered(), vec!["KirbyBot", "*"]);
}

#[test]
fn parse_badly_formatted_robotstxt() {
    let robotstxt_file = r#"
        This is just wrong
        // Definitely not a robots.txt comment...
        # The allow is ignored because no user-agent is provided yet
        Allow: /allowed
        # The sitemap will work as expected
        Sitemap: https://www.example.com/sitemap.xml

        # Mixing cases is allowed
        user-agent: Kirby
        ALLOW: /
        DisALLow: /
        Allow: /something
        "#;

    let robotstxt = RobotsTxt::parse(robotstxt_file);

    let user_agents = robotstxt
        .agents_ordered()
        .iter()
        .map(|a| a.as_str())
        .collect::<Vec<&str>>();
    assert_eq!(user_agents, vec!["Kirby"]);

    let kirby_rules = robotstxt.rules_of("Kirby").unwrap();
    assert_eq!(*kirby_rules.allow(), vec!["/something", "/"]);
    assert_eq!(*kirby_rules.disallow(), vec!["/"]);

    assert_eq!(
        *robotstxt.sitemaps(),
        vec!["https://www.example.com/sitemap.xml"]
    );

    assert_eq!(*robotstxt.agents_ordered(), vec!["Kirby"]);
}

#[test]
fn matches_patterns_correctly() {
    let pattern = "/test/*.txt";
    assert!(match_pattern(pattern, "/test/path/file.txt"));
    assert!(!match_pattern(pattern, "/test/path/file.png"));

    let pattern = "/test/*/something.html";
    assert!(match_pattern(
        pattern,
        "/test/some/long/path/something.html"
    ));
    assert!(!match_pattern(
        pattern,
        "/test/some/long/pathsomething.html"
    ));

    let pattern = "/";
    assert!(match_pattern(pattern, "/test/files/index.html"));
    assert!(match_pattern(pattern, "/"));
    assert!(!match_pattern(pattern, "test"));

    let pattern = "*.html";
    assert!(match_pattern(pattern, "/test/files/index.html"));
    assert!(match_pattern(pattern, "test.html"));
    assert!(!match_pattern(pattern, "/"));

    let pattern = "/test/*/middle/prefix*/file.txt";
    assert!(match_pattern(
        pattern,
        "/test/in/the/middle/prefixstillmatches/ok/file.txt"
    ));
    assert!(match_pattern(pattern, "/test/in/middle/prefix/file.txt"));
    assert!(!match_pattern(pattern, "/test/middle/prefix/file.txt"));
}

#[test]
fn find_matching_agent() {
    let robotstxt_file = r#"
        User-agent: T*
        Allow: /

        User-agent: KirbyBot/*
        Allow: /

        User-agent: Kirby*
        Allow: /

        User-agent: GoogleBot
        Disallow: /
        "#;

    let robotstxt = RobotsTxt::parse(robotstxt_file);
    assert_eq!(robotstxt.find_matching_agent("Kirby"), Some("Kirby*"));
    assert_eq!(robotstxt.find_matching_agent("KirbyBot"), Some("Kirby*"));
    assert_eq!(
        robotstxt.find_matching_agent("KirbyBot/1.0"),
        Some("KirbyBot/*")
    );
    assert_eq!(
        robotstxt.find_matching_agent("GoogleBot"),
        Some("GoogleBot")
    );
    assert_eq!(
        robotstxt.find_matching_agent("GoogleBot/1.0"),
        Some("GoogleBot")
    );
    assert_eq!(robotstxt.find_matching_agent("SomethingElse"), None);
}
