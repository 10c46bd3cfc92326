use dns_templar::features::windows_of;
use dns_templar::features::{
    char_counts, contains_hyphen, digit_count, dot_count, extract_hostname, extract_tld,
    longest_consonant_run, ngrams, vowel_count,
};

#[test]
fn tld_is_text_after_last_dot() {
    assert_eq!(extract_tld("www.google.com"), "com");
    assert_eq!(extract_tld("example.co.uk"), "uk");
    assert_eq!(extract_tld("localhost"), "");
    assert_eq!(extract_tld("trailing."), "");
    assert_eq!(extract_tld(""), "");
}

#[test]
fn hostname_is_text_before_last_dot() {
    assert_eq!(extract_hostname("www.google.com"), "www.google");
    assert_eq!(extract_hostname("xkqjznmbvw.ru"), "xkqjznmbvw");
    assert_eq!(extract_hostname("localhost"), "localhost");
    assert_eq!(extract_hostname(".com"), "");
    assert_eq!(extract_hostname("bücher.de"), "bücher");
}

#[test]
fn hostname_dot_tld_rebuilds_domain() {
    for d in ["a.b", "www.example.com", "x.", ".y", "a.b.c.d"] {
        let rebuilt = format!("{}.{}", extract_hostname(d), extract_tld(d));
        assert_eq!(rebuilt, d);
        assert!(!extract_tld(d).contains('.'));
        assert_eq!(dot_count(d), dot_count(extract_hostname(d)) + 1);
    }
}

#[test]
fn dots_are_counted() {
    assert_eq!(dot_count("google.com"), 1);
    assert_eq!(dot_count("a.b.c.d."), 4);
    assert_eq!(dot_count("nodots"), 0);
    assert_eq!(dot_count(""), 0);
}

#[test]
fn longest_consonant_runs() {
    assert_eq!(longest_consonant_run("google"), 2);
    assert_eq!(longest_consonant_run("xkqjznmbvw"), 10);
    assert_eq!(longest_consonant_run("aeiou"), 0);
    assert_eq!(longest_consonant_run(""), 0);
    assert_eq!(longest_consonant_run("strengths"), 5);
    // upper case letters and digits are not consonants
    assert_eq!(longest_consonant_run("BCDfg1hjk"), 3);
}

#[test]
fn digits_and_vowels_are_counted() {
    assert_eq!(digit_count("abc123"), 3);
    assert_eq!(digit_count("no-digits"), 0);
    assert_eq!(vowel_count("google"), 3);
    assert_eq!(vowel_count("AEIOU"), 0);
    assert_eq!(vowel_count("xkqjznmbvw"), 0);
    let s = "a1e2i3zz";
    assert!(digit_count(s) + vowel_count(s) <= s.chars().count());
}

#[test]
fn hyphens_are_found() {
    assert!(contains_hyphen("my-site"));
    assert!(!contains_hyphen("mysite"));
    assert!(!contains_hyphen(""));
}

#[test]
fn char_counts_form_frequency_table() {
    let mut t = char_counts("google");
    t.sort();
    assert_eq!(t, vec![('e', 1), ('g', 2), ('l', 1), ('o', 2)]);
    assert_eq!(char_counts("").len(), 0);
    let s = "aaaaabbc";
    let t = char_counts(s);
    assert_eq!(t.len(), 3);
    assert_eq!(t.iter().map(|(_, n)| *n).sum::<usize>(), s.chars().count());
}

#[test]
fn ngrams_are_lowercased_windows() {
    assert_eq!(ngrams("GooGle", 3), vec!["goo", "oog", "ogl", "gle"]);
    assert_eq!(ngrams("ab", 3), Vec::<String>::new());
    assert_eq!(ngrams("abc", 3), vec!["abc"]);
    assert_eq!(ngrams("abcd", 1), vec!["a", "b", "c", "d"]);
    assert_eq!(ngrams("ÄBC", 2), vec!["äb", "bc"]);
}

#[test]
fn windows_keep_case() {
    assert_eq!(windows_of("AbC", 2), vec!["Ab", "bC"]);
    assert_eq!(windows_of("", 1), Vec::<String>::new());
}

#[test]
fn consonant_run_is_bounded_by_length() {
    for s in ["", "a", "b", "bcd", "abcdefgh", "zzzz1zz"] {
        let r = longest_consonant_run(s);
        assert!(r <= s.chars().count());
        assert_eq!(r == 0, !s.chars().any(|c| "bcdfghjklmnpqrstvwxyz".contains(c)));
    }
}

#[test]
fn consonant_runs_of_concatenations() {
    let parts = ["", "bcd", "xkqjz", "aeb", "strengths", "a1bb"];
    for a in parts {
        for b in parts {
            let (ra, rb) = (longest_consonant_run(a), longest_consonant_run(b));
            assert_eq!(longest_consonant_run(&format!("{a}a{b}")), ra.max(rb));
            let r = longest_consonant_run(&format!("{a}{b}"));
            assert!(ra.max(rb) <= r && r <= ra + rb);
        }
    }
}
