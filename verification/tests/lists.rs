use dns_templar::blacklist::list_entries;
use dns_templar::blacklist::Blacklist;
use dns_templar::classifier::{parse_whitelist, DomainLists, Outcome, Screening, Tier};

const BLACKLIST: &str = "# known DGA domains\n\n  Evil.com  \n*.Bad.org\r\nxkqjznmbvw.ru\n#*.commented.net\n*.\n";

#[test]
fn blacklist_exact_entries_match() {
    let b = Blacklist::parse(BLACKLIST);
    assert!(b.contains("evil.com"));
    assert!(b.contains("EVIL.COM."));
    assert!(b.contains("xkqjznmbvw.ru"));
    assert!(!b.contains("www.evil.com"));
    assert!(!b.contains("good.com"));
}

#[test]
fn blacklist_wildcards_cover_subdomains() {
    let b = Blacklist::parse(BLACKLIST);
    assert!(b.contains("bad.org"));
    assert!(b.contains("x.bad.org"));
    assert!(b.contains("a.b.BAD.ORG."));
    assert!(!b.contains("notbad.org"));
    assert!(!b.contains("bad.org.uk"));
}

#[test]
fn blacklist_comments_are_skipped() {
    let b = Blacklist::parse(BLACKLIST);
    assert!(!b.contains("commented.net"));
    assert!(!b.contains("# known DGA domains"));
    assert!(!b.contains("x.commented.net"));
}

#[test]
fn empty_blacklist_holds_nothing() {
    let b = Blacklist::parse("");
    assert!(!b.contains("evil.com"));
    assert!(!b.contains(""));
}

#[test]
fn whitelist_lines_are_trimmed_and_lowercased() {
    let w = parse_whitelist("Google.com\n  \n youtube.com \r\n");
    assert_eq!(w, vec!["google.com".to_string(), "youtube.com".to_string()]);
}

#[test]
fn screening_consults_blacklist_first() {
    let b = Blacklist::parse("google.com\n*.evil.net\n");
    let lists = DomainLists::new("google.com\nyoutube.com\nYouTube.com\nx.evil.net\n", b);
    assert_eq!(lists.screen("google.com"), Screening::Blacklisted);
    assert_eq!(lists.screen("x.evil.net"), Screening::Blacklisted);
    assert_eq!(lists.screen("youtube.com"), Screening::Whitelisted);
    assert_eq!(lists.screen("example.org"), Screening::Unlisted);
    assert_eq!(lists.whitelist_count(), 3);
    assert!(lists.blacklist().contains("evil.net"));
}

#[test]
fn screening_outcomes() {
    let w = Screening::Whitelisted.outcome().unwrap();
    assert_eq!(w.tier, Tier::Whitelisted);
    assert!(!w.is_dga && w.whitelisted);
    let b = Screening::Blacklisted.outcome().unwrap();
    assert_eq!(b.tier, Tier::Blacklisted);
    assert!(b.is_dga && !b.whitelisted);
    assert!(Screening::Unlisted.outcome().is_none());
}

#[test]
fn model_tiers() {
    assert_eq!(Tier::from_model(true, true), Tier::HighConfidence);
    assert_eq!(Tier::from_model(true, false), Tier::Suspicious);
    assert_eq!(Tier::from_model(false, false), Tier::Clean);
    assert_eq!(Tier::from_model(false, true), Tier::Clean);
    let o = Outcome::from_model(true, false);
    assert_eq!(o.tier, Tier::Suspicious);
    assert!(o.is_dga && !o.whitelisted);
}

#[test]
fn tier_labels() {
    assert_eq!(Tier::Blacklisted.label(), "[BLACKLISTED]      ");
    assert_eq!(Tier::HighConfidence.label(), "[DGA LIKELY]       ");
    assert_eq!(Tier::Suspicious.label(), "[DGA SUSPECTED]    ");
    assert_eq!(Tier::Whitelisted.label(), "[WHITELISTED]      ");
    assert_eq!(Tier::Clean.label(), "[CLEAN]            ");
}

#[test]
fn list_entries_are_kept_as_written() {
    let (exact, wild) = list_entries(BLACKLIST);
    assert_eq!(exact, vec!["Evil.com".to_string(), "xkqjznmbvw.ru".to_string()]);
    assert_eq!(wild, vec!["Bad.org".to_string(), "".to_string()]);
}

#[test]
fn blacklist_matches_names_as_given() {
    let b = Blacklist::parse("evil.com\n*.bad.org\n");
    assert!(b.matches("evil.com"));
    assert!(!b.matches("evil.com."));
    assert!(!b.matches("EVIL.COM"));
    assert!(b.matches("a.bad.org"));
    assert_eq!(b.exact_count(), 1);
    assert_eq!(Blacklist::parse("a.com\nA.com\na.com \n*.a.com\n").exact_count(), 1);
}

#[test]
fn blacklist_ignores_ascii_case_and_trailing_dots() {
    let b = Blacklist::parse(BLACKLIST);
    for x in ["evil.com", "x.bad.org", "good.com", "bad.org.uk"] {
        let up = x.to_ascii_uppercase();
        assert_eq!(b.contains(x), b.contains(&up));
        assert_eq!(b.contains(x), b.contains(&format!("{x}.")));
        assert_eq!(b.contains(x), b.contains(&format!("{x}..")));
    }
}

#[test]
fn wildcard_blocks_suffix_and_names_below() {
    let b = Blacklist::parse("*.Bad.ORG\n");
    assert!(b.contains("bad.org"));
    for s in ["a", "a.b", "WWW", "x-y"] {
        assert!(b.contains(&format!("{s}.bad.org")));
    }
}

#[test]
fn blacklist_counts_distinct_entries() {
    let b = Blacklist::parse("  Evil.com\nevil.com\n#evil.com\n\n*.evil.com\nother.net\n");
    assert_eq!(b.exact_count(), 2);
    let (exact, _) = list_entries("  Evil.com\nevil.com\n#x\n");
    for e in exact {
        assert!(!e.is_empty() && e.trim() == e && !e.starts_with('#') && !e.starts_with("*."));
    }
}
