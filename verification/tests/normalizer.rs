use std::cell::RefCell;

use norm_email::cache::ResolveError;
use norm_email::providers::{Provider, RuleSet, Rules};
use norm_email::{MxRecord, Normalizer, NormalizerConfig, NormalizerError};

fn records(exchange: &str) -> Vec<MxRecord> {
    vec![(10, String::from(exchange))]
}

fn google_mx(_d: String) -> Result<Vec<MxRecord>, ResolveError> {
    Ok(records("alt1.gmail-smtp-in.l.google.com."))
}

fn icloud_mx(_d: String) -> Result<Vec<MxRecord>, ResolveError> {
    Ok(records("mx01.mail.icloud.com."))
}

fn fastmail_mx(_d: String) -> Result<Vec<MxRecord>, ResolveError> {
    Ok(records("in1-smtp.messagingengine.com."))
}

fn yahoo_mx(_d: String) -> Result<Vec<MxRecord>, ResolveError> {
    Ok(records("mta5.am0.yahoodns.net."))
}

fn outlook_mx(_d: String) -> Result<Vec<MxRecord>, ResolveError> {
    Ok(records("outlook-com.olc.protection.outlook.com."))
}

fn unmatched_mx(_d: String) -> Result<Vec<MxRecord>, ResolveError> {
    Ok(records("mx1.mail.nowhere.example."))
}

fn unreachable_mx(_d: String) -> Result<Vec<MxRecord>, ResolveError> {
    panic!("the resolver must not be consulted for this input");
}

#[test]
fn mx_records() {
    let mut n = Normalizer::new();
    let records = n.mx_records("gmail.com", google_mx, 0).unwrap();
    assert!(!records.is_empty());
    assert!(true)
}

#[test]
fn lookup_provider() {
    let mut n = Normalizer::new();
    let records = n.mx_records("gmail.com", google_mx, 0).unwrap();
    let provider = n.lookup_provider(&records[..]).unwrap();
    assert_eq!(provider.name, "GOOGLE");
    assert!(true)
}

#[test]
fn apple() {
    let local = uuid::Uuid::new_v4();
    let domain = "icloud.com";
    let mut normalizer = Normalizer::new();
    let result = normalizer
        .normalize(&format!("{}+test@{}", local, domain), icloud_mx, 0)
        .unwrap();
    assert_eq!(result.normalized_address, format!("{}@{}", local, domain));
}

#[test]
fn gmail() {
    let local = uuid::Uuid::new_v4();
    let domain = "gmail.com";
    let mut normalizer = Normalizer::new();
    let result = normalizer
        .normalize(&format!("{}+test@{}", local, domain), google_mx, 0)
        .unwrap();
    println!("{:?}", result.mx_records);
    println!("{:?}", result.mailbox_provider);
    assert_eq!(result.normalized_address, format!("{}@{}", local, domain));
}

#[test]
fn fastmail() {
    let local = uuid::Uuid::new_v4();
    let domain = "fastmail.com";
    let mut normalizer = Normalizer::new();
    let result = normalizer
        .normalize(&format!("{}+test@{}", local, domain), fastmail_mx, 0)
        .unwrap();
    println!("{:?}", result.mx_records);
    println!("{:?}", result.mailbox_provider);
    assert_eq!(result.normalized_address, format!("{}@{}", local, domain));
}

#[test]
fn fastmail_second() {
    let local = uuid::Uuid::new_v4();
    let domain_local = uuid::Uuid::new_v4();
    let domain = "fastmail.com";
    let mut normalizer = Normalizer::new();
    let result = normalizer
        .normalize(&format!("{}@{}.{}", local, domain_local, domain), fastmail_mx, 0)
        .unwrap();
    println!("{:?}", result.mx_records);
    println!("{:?}", result.mailbox_provider);
    assert_eq!(result.normalized_address, format!("{}@{}", domain_local, domain));
}

#[test]
fn yahoo() {
    let mut normalizer = Normalizer::new();
    let result = normalizer.normalize("a.b.c.d+tag@yahoo.com", unmatched_mx, 0).unwrap();
    assert_eq!("a.b.c.d+tag@yahoo.com", result.normalized_address);
}

#[test]
fn yahoo_second() {
    let mut normalizer = Normalizer::new();
    let result = normalizer.normalize("a-b.c-tag@yahoo.ro", yahoo_mx, 0).unwrap();
    assert_eq!("a@yahoo.ro", result.normalized_address);
}

#[test]
fn microsoft_first() {
    let mut normalizer = Normalizer::new();
    let result = normalizer.normalize("a.b.c+tag@outlook.com", outlook_mx, 0).unwrap();
    assert_eq!("a.b.c@outlook.com", result.normalized_address);
}

#[test]
fn microsoft_second() {
    let mut normalizer = Normalizer::new();
    let result = normalizer.normalize("a.b.c-tag@outlook.com", outlook_mx, 0).unwrap();
    assert_eq!("a.b.c-tag@outlook.com", result.normalized_address);
}

#[test]
fn gmail_dots_and_plus_stripped() {
    let mut normalizer = Normalizer::new();
    let result = normalizer.normalize("a.b+tag@gmail.com", google_mx, 0).unwrap();
    assert_eq!("ab@gmail.com", result.normalized_address);
    assert_eq!(result.mailbox_provider, Some(String::from("GOOGLE")));
}

#[test]
fn normalization_idempotent_for_gmail() {
    let mut normalizer = Normalizer::new();
    let once = normalizer.normalize("a.b+tag@gmail.com", google_mx, 0).unwrap();
    let twice = normalizer.normalize(&once.normalized_address, google_mx, 1).unwrap();
    assert_eq!(once.normalized_address, twice.normalized_address);
}

#[test]
fn hosted_subdomain_folded_then_plus_stripped() {
    let mut normalizer = Normalizer::new();
    let result = normalizer.normalize("anything+x@sub.example.com", fastmail_mx, 0).unwrap();
    assert_eq!("sub@example.com", result.normalized_address);
    assert_eq!(result.mailbox_provider, Some(String::from("FAST_MAIL")));
}

#[test]
fn unmatched_provider_passes_through() {
    let mut normalizer = Normalizer::new();
    let result = normalizer.normalize("user@unknown-corp.com", unmatched_mx, 0).unwrap();
    assert_eq!("user@unknown-corp.com", result.normalized_address);
    assert_eq!(result.mailbox_provider, None);
    assert_eq!(result.address, "user@unknown-corp.com");
    assert_eq!(result.mx_records, records("mx1.mail.nowhere.example."));
}

#[test]
fn malformed_address_fails_without_resolution() {
    let mut normalizer = Normalizer::new();
    let err = normalizer.normalize("no-at-sign", unreachable_mx, 0).unwrap_err();
    match err {
        NormalizerError::InvalidEmailAt { email } => assert_eq!(email, "no-at-sign"),
        other => panic!("unexpected error: {:?}", other),
    }
}

#[test]
fn two_at_signs_rejected() {
    let mut normalizer = Normalizer::new();
    let err = normalizer.normalize("a@b@c", unreachable_mx, 0).unwrap_err();
    match err {
        NormalizerError::InvalidEmailAt { email } => assert_eq!(email, "a@b@c"),
        other => panic!("unexpected error: {:?}", other),
    }
}

#[test]
fn split_lowercases_and_recombines() {
    let (local, domain) = Normalizer::get_local_and_domain("First.Last@Example.COM").unwrap();
    assert_eq!(local, "first.last");
    assert_eq!(domain, "example.com");
    assert_eq!(format!("{}@{}", local, domain), "first.last@example.com");
    assert!(Normalizer::get_local_and_domain("").is_err());
    assert!(Normalizer::get_local_and_domain("nodomain").is_err());
}

#[test]
fn local_part_as_hostname_folds_deep_domains() {
    let (l, d) = Normalizer::local_part_as_hostname("x", "a.b.c");
    assert_eq!(l, "a");
    assert_eq!(d, "b.c");
    let (l2, d2) = Normalizer::local_part_as_hostname("x", "a.com");
    assert_eq!(l2, "x");
    assert_eq!(d2, "a.com");
}

#[test]
fn suffix_match_requires_label_boundary() {
    let n = Normalizer::new();
    assert!(n.lookup_provider(&records("mx.evilgoogle.com.")[..]).is_none());
    let p = n.lookup_provider(&records("smtp.google.com.")[..]).unwrap();
    assert_eq!(p.name, "GOOGLE");
}

#[test]
fn suffix_match_is_case_insensitive() {
    let n = Normalizer::new();
    let p = n.lookup_provider(&records("SMTP.Google.COM.")[..]).unwrap();
    assert_eq!(p.name, "GOOGLE");
}

#[test]
fn registry_is_in_registration_order() {
    let n = Normalizer::new();
    let names: Vec<&str> = n.providers.iter().map(|p| p.name.as_str()).collect();
    assert_eq!(
        names,
        vec![
            "APPLE",
            "FAST_MAIL",
            "GOOGLE",
            "MICROSOFT",
            "PROTONMAIL",
            "RACKSPACE",
            "YAHOO",
            "YANDEX",
            "ZOHOO"
        ]
    );
}

fn test_config() -> NormalizerConfig {
    NormalizerConfig {
        cache_enabled: true,
        cache_capacity: 8,
        success_ttl: 100,
        failure_ttl: 10,
        cache_failures: true,
    }
}

#[test]
fn cache_serves_second_lookup_within_ttl() {
    let calls = RefCell::new(0u32);
    let resolver = |_d: String| -> Result<Vec<MxRecord>, ResolveError> {
        *calls.borrow_mut() += 1;
        Ok(records("alt1.gmail-smtp-in.l.google.com."))
    };
    let mut n = Normalizer::with_config(test_config());
    n.mx_records("gmail.com", resolver, 0).unwrap();
    n.mx_records("gmail.com", resolver, 50).unwrap();
    assert_eq!(*calls.borrow(), 1);
    n.mx_records("gmail.com", resolver, 100).unwrap();
    assert_eq!(*calls.borrow(), 2);
}

#[test]
fn cache_key_is_case_insensitive() {
    let calls = RefCell::new(0u32);
    let resolver = |_d: String| -> Result<Vec<MxRecord>, ResolveError> {
        *calls.borrow_mut() += 1;
        Ok(records("alt1.gmail-smtp-in.l.google.com."))
    };
    let mut n = Normalizer::with_config(test_config());
    n.mx_records("GMAIL.com", resolver, 0).unwrap();
    n.mx_records("gmail.COM", resolver, 1).unwrap();
    assert_eq!(*calls.borrow(), 1);
}

#[test]
fn cached_failure_honors_failure_ttl() {
    let calls = RefCell::new(0u32);
    let resolver = |d: String| -> Result<Vec<MxRecord>, ResolveError> {
        *calls.borrow_mut() += 1;
        Err(ResolveError { message: format!("no records for {}", d) })
    };
    let mut n = Normalizer::with_config(test_config());
    let first = n.mx_records("down.example", resolver, 0);
    let second = n.mx_records("down.example", resolver, 5);
    assert!(first.is_err());
    assert!(second.is_err());
    assert_eq!(*calls.borrow(), 1);
    let third = n.mx_records("down.example", resolver, 10);
    assert!(third.is_err());
    assert_eq!(*calls.borrow(), 2);
}

#[test]
fn failures_not_cached_when_disabled() {
    let calls = RefCell::new(0u32);
    let resolver = |_d: String| -> Result<Vec<MxRecord>, ResolveError> {
        *calls.borrow_mut() += 1;
        Err(ResolveError { message: String::from("transient") })
    };
    let mut cfg = test_config();
    cfg.cache_failures = false;
    let mut n = Normalizer::with_config(cfg);
    assert!(n.mx_records("down.example", resolver, 0).is_err());
    assert!(n.mx_records("down.example", resolver, 1).is_err());
    assert_eq!(*calls.borrow(), 2);
}

#[test]
fn disabled_cache_always_resolves() {
    let calls = RefCell::new(0u32);
    let resolver = |_d: String| -> Result<Vec<MxRecord>, ResolveError> {
        *calls.borrow_mut() += 1;
        Ok(records("alt1.gmail-smtp-in.l.google.com."))
    };
    let mut cfg = test_config();
    cfg.cache_enabled = false;
    let mut n = Normalizer::with_config(cfg);
    n.mx_records("gmail.com", resolver, 0).unwrap();
    n.mx_records("gmail.com", resolver, 1).unwrap();
    assert_eq!(*calls.borrow(), 2);
}

#[test]
fn eviction_removes_least_recently_accessed() {
    let log = RefCell::new(Vec::<String>::new());
    let resolver = |d: String| -> Result<Vec<MxRecord>, ResolveError> {
        log.borrow_mut().push(d);
        Ok(records("mx1.mail.nowhere.example."))
    };
    let mut cfg = test_config();
    cfg.cache_capacity = 2;
    let mut n = Normalizer::with_config(cfg);
    n.mx_records("a.example", resolver, 0).unwrap();
    n.mx_records("b.example", resolver, 1).unwrap();
    // Touch `a.example`, making `b.example` the least recently accessed.
    n.mx_records("a.example", resolver, 2).unwrap();
    // At capacity: storing `c.example` must evict `b.example`, not `a.example`.
    n.mx_records("c.example", resolver, 3).unwrap();
    n.mx_records("a.example", resolver, 4).unwrap();
    n.mx_records("b.example", resolver, 5).unwrap();
    let resolved = log.borrow().clone();
    assert_eq!(
        resolved,
        vec![
            String::from("a.example"),
            String::from("b.example"),
            String::from("c.example"),
            String::from("b.example")
        ]
    );
}

#[test]
fn dns_failure_surfaces_as_typed_error() {
    let resolver = |_d: String| -> Result<Vec<MxRecord>, ResolveError> {
        Err(ResolveError { message: String::from("NXDOMAIN") })
    };
    let mut cfg = test_config();
    cfg.cache_enabled = false;
    let mut n = Normalizer::with_config(cfg);
    let err = n.normalize("user@missing.example", resolver, 0).unwrap_err();
    match err {
        NormalizerError::DnsResolution { domain, message } => {
            assert_eq!(domain, "missing.example");
            assert_eq!(message, "NXDOMAIN");
        }
        other => panic!("unexpected error: {:?}", other),
    }
}

#[test]
fn earlier_registered_provider_wins_ties() {
    let shared = String::from("shared-mx.example");
    let mk = |name: &str| Provider {
        rules: RuleSet::empty().with(Rules::PlusAddressing),
        mx_domains: vec![shared.clone()],
        name: String::from(name),
    };
    let n = Normalizer::with_providers(test_config(), vec![mk("FIRST"), mk("SECOND")]);
    let recs = vec![
        (20, String::from("backup.shared-mx.example.")),
        (10, String::from("primary.shared-mx.example.")),
    ];
    let p = n.lookup_provider(&recs[..]).unwrap();
    assert_eq!(p.name, "FIRST");
    // The same records in the opposite order pick the same provider.
    let recs_rev = vec![
        (10, String::from("primary.shared-mx.example.")),
        (20, String::from("backup.shared-mx.example.")),
    ];
    let p2 = n.lookup_provider(&recs_rev[..]).unwrap();
    assert_eq!(p2.name, "FIRST");
}

#[test]
fn normalize_hit_is_served_from_cache() {
    let calls = RefCell::new(0u32);
    let resolver = |_d: String| -> Result<Vec<MxRecord>, ResolveError> {
        *calls.borrow_mut() += 1;
        Ok(records("alt1.gmail-smtp-in.l.google.com."))
    };
    let mut n = Normalizer::with_config(test_config());
    let first = n.normalize("a.b+tag@gmail.com", resolver, 0).unwrap();
    let second = n.normalize("other+x@GMAIL.com", resolver, 50).unwrap();
    assert_eq!(*calls.borrow(), 1);
    assert_eq!(first.normalized_address, "ab@gmail.com");
    assert_eq!(second.normalized_address, "other@gmail.com");
}

#[test]
fn empty_local_part_survives_rules() {
    let mut normalizer = Normalizer::new();
    let result = normalizer.normalize("@gmail.com", google_mx, 0).unwrap();
    assert_eq!(result.normalized_address, "@gmail.com");
    assert_eq!(result.mailbox_provider, Some(String::from("GOOGLE")));
}

#[test]
fn eviction_tie_broken_by_fewest_hits() {
    let log = RefCell::new(Vec::<String>::new());
    let resolver = |d: String| -> Result<Vec<MxRecord>, ResolveError> {
        log.borrow_mut().push(d);
        Ok(records("mx1.mail.nowhere.example."))
    };
    let mut cfg = test_config();
    cfg.cache_capacity = 2;
    let mut n = Normalizer::with_config(cfg);
    n.mx_records("a.example", resolver, 0).unwrap();
    n.mx_records("b.example", resolver, 0).unwrap();
    // Hit `a.example` at the same instant: both entries now share
    // `last_access` 0, but `a.example` has more hits.
    n.mx_records("a.example", resolver, 0).unwrap();
    // The tie must fall on `b.example`, the entry with fewer hits.
    n.mx_records("c.example", resolver, 0).unwrap();
    n.mx_records("a.example", resolver, 0).unwrap();
    n.mx_records("b.example", resolver, 0).unwrap();
    let resolved = log.borrow().clone();
    assert_eq!(
        resolved,
        vec![
            String::from("a.example"),
            String::from("b.example"),
            String::from("c.example"),
            String::from("b.example")
        ]
    );
}

#[test]
fn zero_capacity_cache_stores_nothing() {
    let calls = RefCell::new(0u32);
    let resolver = |_d: String| -> Result<Vec<MxRecord>, ResolveError> {
        *calls.borrow_mut() += 1;
        Ok(records("alt1.gmail-smtp-in.l.google.com."))
    };
    let mut cfg = test_config();
    cfg.cache_capacity = 0;
    let mut n = Normalizer::with_config(cfg);
    n.mx_records("gmail.com", resolver, 0).unwrap();
    n.mx_records("gmail.com", resolver, 0).unwrap();
    assert_eq!(*calls.borrow(), 2);
}
