use edge_doh::encode::{collapse_parent_shadowed, encode_domains};
use edge_doh::parser::{parse_adblock_plus, parse_domains, parse_wildcard_domains, ListFormat};
use edge_doh::{encode_domain_key, normalize_domain, Blocklist, CompiledList, Overlay};

#[test]
fn collapse_drops_children() {
    let collapsed = collapse_parent_shadowed(vec![
        String::from("ads.example.com"),
        String::from("example.com"),
        String::from("other.test"),
    ]);

    assert_eq!(collapsed, vec!["example.com", "other.test"]);
}

#[test]
fn encode_round_trips_lookup() {
    let bytes = encode_domains(&["example.com"]).unwrap();
    let list = CompiledList::from_bytes("test", bytes);

    assert!(list.matches("www.example.com"));
    assert!(!list.matches("example.net"));
}

#[test]
fn overlay_matches_exact_and_subdomains() {
    let blocklist = Blocklist::overlay_only("example.com, ads.test");

    assert!(blocklist.matches("example.com"));
    assert!(blocklist.matches("www.example.com."));
    assert!(blocklist.matches("x.ads.test"));
    assert!(!blocklist.matches("notexample.com"));
}

#[test]
fn overlay_ignores_comments_and_invalid_domains() {
    let overlay = Overlay::parse("#comment\nexample.com\n127.0.0.1\nbad_domain");

    assert_eq!(overlay.len(), 1);
    assert!(overlay.matches("example.com"));
}

#[test]
fn normalization_rejects_invalid_hosts() {
    assert_eq!(
        normalize_domain("Example.COM."),
        Some(String::from("example.com"))
    );
    assert_eq!(normalize_domain(""), None);
    assert_eq!(normalize_domain("-bad.example"), None);
    assert_eq!(normalize_domain("bad-.example"), None);
    assert_eq!(normalize_domain("127.0.0.1"), None);
}

#[test]
fn compiled_list_matches_parent_rules() {
    let trie = encode_domains(&["example.com", "ads.test"]).unwrap();
    let list = CompiledList::from_bytes("test", trie);

    assert!(list.matches("track.example.com"));
    assert!(list.matches("ads.test"));
    assert!(!list.matches("safe.test"));
}

#[test]
fn key_encoding_uses_reversed_labels() {
    assert_eq!(encode_domain_key("example.com"), b"com\x01example\x01");
}

#[test]
fn parses_wildcard_domains() {
    let parsed = parse_wildcard_domains(
        r"
            # comment
            *.Example.com
            safe.test # inline comment
            ! comment
            127.0.0.1
            ",
    );

    assert_eq!(parsed, vec!["example.com", "safe.test"]);
}

#[test]
fn parses_dns_blockable_abp_rules() {
    let parsed = parse_adblock_plus(
        r"
            ! comment
            ||example.com^
            ||ads.example.net^$third-party
            @@||allowed.example^
            ||example.org/path
            ||example.test:8080^
            ||*.wild.example^
            example.com
            ##.ad
            ",
    );

    assert_eq!(parsed, vec!["example.com", "ads.example.net"]);
}

#[test]
fn dispatches_by_format() {
    assert_eq!(
        parse_domains("*.example.com", ListFormat::WildcardDomains),
        vec!["example.com"]
    );
}
