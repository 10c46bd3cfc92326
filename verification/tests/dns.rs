use dns_templar::blacklist::Blacklist;
use dns_templar::classifier::{DomainLists, Outcome, Tier};
use dns_templar::dns::{build_nxdomain, query_domain, reply_for, Reply};

fn query(name_labels: &[&str], qdcount: u8) -> Vec<u8> {
    let mut m = vec![0x12, 0x34, 0x01, 0x00, 0x00, qdcount, 0, 0, 0, 0, 0, 0];
    if qdcount > 0 {
        for l in name_labels {
            m.push(l.len() as u8);
            m.extend_from_slice(l.as_bytes());
        }
        m.push(0);
        m.extend_from_slice(&[0x00, 0x01, 0x00, 0x01]);
    }
    m
}

#[test]
fn nxdomain_sets_qr_and_rcode() {
    let raw = query(&["example", "com"], 1);
    let r = build_nxdomain(&raw);
    assert_eq!(r.len(), raw.len());
    assert_eq!(&r[0..2], &[0x12, 0x34]);
    assert_eq!(r[2], 0x81);
    assert_eq!(r[3], 0x03);
    assert_eq!(&r[4..], &raw[4..]);
    let r2 = build_nxdomain(&[0xab, 0xcd, 0x7f, 0xf5, 9]);
    assert_eq!(r2, vec![0xab, 0xcd, 0xff, 0xf3, 9]);
}

#[test]
fn nxdomain_of_short_input_is_unchanged() {
    assert_eq!(build_nxdomain(&[1, 2, 3]), vec![1, 2, 3]);
    assert_eq!(build_nxdomain(&[]), Vec::<u8>::new());
}

#[test]
fn nxdomain_is_idempotent() {
    let raw = query(&["a", "b"], 1);
    let once = build_nxdomain(&raw);
    assert_eq!(build_nxdomain(&once), once);
}

#[test]
fn query_name_is_read() {
    let raw = query(&["example", "com"], 1);
    let name = query_domain(&raw).unwrap();
    assert_eq!(name, Some("example.com.".to_string()));
}

#[test]
fn query_without_question_has_no_name() {
    let raw = query(&[], 0);
    assert_eq!(query_domain(&raw).unwrap(), None);
}

#[test]
fn malformed_query_is_an_error() {
    assert!(query_domain(&[0x00]).is_err());
    let mut raw = query(&["example", "com"], 1);
    raw.truncate(15);
    assert!(query_domain(&raw).is_err());
}

#[test]
fn replies_follow_the_verdict() {
    let raw = query(&["xkqjznmbvw", "ru"], 1);
    for tier in [Tier::Blacklisted, Tier::HighConfidence] {
        match reply_for(&raw, tier) {
            Reply::Nxdomain(b) => assert_eq!(b, build_nxdomain(&raw)),
            Reply::Forward => panic!("{:?} must be blocked", tier),
        }
    }
    for tier in [Tier::Suspicious, Tier::Whitelisted, Tier::Clean] {
        assert!(matches!(reply_for(&raw, tier), Reply::Forward));
    }
}

#[test]
fn lists_and_model_decide_replies() {
    let raw = query(&["evil", "com"], 1);
    let lists = DomainLists::new("google.com\nevil.com\n", Blacklist::parse("evil.com\n"));
    let blocked = lists.screen("evil.com").outcome().unwrap();
    assert!(matches!(reply_for(&raw, blocked.tier), Reply::Nxdomain(_)));
    let allowed = lists.screen("google.com").outcome().unwrap();
    assert!(matches!(reply_for(&raw, allowed.tier), Reply::Forward));
    assert!(lists.screen("example.org").outcome().is_none());
    let likely = Outcome::from_model(true, true);
    assert!(matches!(reply_for(&raw, likely.tier), Reply::Nxdomain(_)));
    let suspected = Outcome::from_model(true, false);
    assert!(suspected.is_dga);
    assert!(matches!(reply_for(&raw, suspected.tier), Reply::Forward));
    let clean = Outcome::from_model(false, false);
    assert!(matches!(reply_for(&raw, clean.tier), Reply::Forward));
}
