use edge_doh::blocklist::Overlay;
use edge_doh::domain::{
    check_hostname, normalize_ascii_or_idna, normalize_domain_ascii, parent_keys, LABEL_SEPARATOR,
};
use edge_doh::order::{holds_text, is_less, sort_range, sorted_distinct};
use edge_doh::text::{
    cut_at, find_any, has_prefix, has_text, joined, to_decimal, to_lower, trim_dots, trim_text,
};
use edge_doh::{encode_domain_key, normalize_domain, normalize_rule, Blocklist};

fn strings(items: &[&str]) -> Vec<String> {
    items.iter().map(|item| String::from(*item)).collect()
}

fn chars(text: &str) -> Vec<char> {
    text.chars().collect()
}

#[test]
fn internationalized_domains_become_punycode() {
    assert_eq!(
        normalize_domain("Bücher.Example"),
        Some(String::from("xn--bcher-kva.example"))
    );
    assert_eq!(
        normalize_domain("xn--bcher-kva.example"),
        Some(String::from("xn--bcher-kva.example"))
    );
    assert_eq!(
        normalize_ascii_or_idna("münchen.de"),
        Some(String::from("xn--mnchen-3ya.de"))
    );
    assert_eq!(normalize_ascii_or_idna("xn--\u{fc}.example"), None);
    assert_eq!(normalize_domain("xn--a.example"), None);
}

#[test]
fn ascii_normalization_has_no_form_for_other_scripts() {
    assert_eq!(normalize_domain_ascii("bücher.example"), None);
    assert_eq!(
        normalize_domain_ascii(" Example.COM.. "),
        Some(String::from("example.com"))
    );
    assert_eq!(normalize_domain_ascii("."), None);
}

#[test]
fn normalization_trims_white_space_and_trailing_dots() {
    assert_eq!(
        normalize_domain("\t\u{3000}example.com...\n"),
        Some(String::from("example.com"))
    );
    assert_eq!(normalize_domain("example.com. ."), None);
    assert_eq!(normalize_domain("..."), None);
    assert_eq!(normalize_domain(".example.com"), None);
    assert_eq!(normalize_domain("a..b"), None);
}

#[test]
fn normalization_is_case_insensitive_and_idempotent() {
    let once = normalize_domain("AdS.Example.COM").unwrap();
    assert_eq!(once, "ads.example.com");
    assert_eq!(normalize_domain(&once), Some(once.clone()));
    assert_eq!(normalize_domain("ads.example.com."), Some(once));
}

#[test]
fn punycode_labels_keep_their_form() {
    for domain in ["XN--Bcher-KVA.Example", "a.xn--BCHER-kva.example.", "xn--MNCHEN-3ya.de"] {
        let once = normalize_domain(domain).unwrap();
        assert_eq!(normalize_domain(&once), Some(once.clone()));
        assert_eq!(normalize_domain(&domain.to_ascii_lowercase()), Some(once));
    }
    assert_eq!(
        normalize_domain("XN--Bcher-KVA.Example"),
        Some(String::from("xn--bcher-kva.example"))
    );
    for domain in ["XN--A.example", "xn--a.example", "xn--.example", "xn--abc-.example"] {
        assert_eq!(normalize_domain(domain), None);
        assert_eq!(normalize_ascii_or_idna(domain), None);
    }
    assert_eq!(
        normalize_rule("XN--Bcher-KVA.Example"),
        normalize_domain("XN--Bcher-KVA.Example")
    );
}

#[test]
fn lowering_alone_agrees_on_ascii() {
    for domain in [" Ads.Example.COM. ", "a_b.test", "-a.test", "127.0.0.1", "", "localhost"] {
        assert_eq!(normalize_domain_ascii(domain), normalize_domain(domain));
    }
    assert_eq!(
        normalize_domain_ascii("XN--Bcher-KVA.example"),
        normalize_domain("XN--Bcher-KVA.example")
    );
    assert_eq!(normalize_domain("xn--a.example"), None);
    assert_eq!(
        normalize_domain_ascii("xn--a.example"),
        Some(String::from("xn--a.example"))
    );
}

#[test]
fn normalization_limits_lengths() {
    let label = "a".repeat(63);
    let longest = format!("{label}.{label}.{label}.{}", "a".repeat(61));
    assert_eq!(longest.len(), 253);
    assert_eq!(normalize_domain(&longest), Some(longest.clone()));
    assert_eq!(normalize_domain(&format!("{longest}b")), None);
    assert_eq!(normalize_domain(&format!("{label}a.test")), None);
    assert!(normalize_domain(&format!("{label}.test")).is_some());
}

#[test]
fn normalization_rejects_addresses_and_odd_characters() {
    assert_eq!(normalize_domain("255.255.255.255"), None);
    assert_eq!(normalize_domain("::1"), None);
    assert_eq!(normalize_domain("[::1]"), None);
    assert_eq!(normalize_domain("under_score.test"), None);
    assert_eq!(normalize_domain("two words.test"), None);
    assert_eq!(
        normalize_domain("1.2.3.256"),
        Some(String::from("1.2.3.256"))
    );
    assert_eq!(
        normalize_domain("01.2.3.4"),
        Some(String::from("01.2.3.4"))
    );
    assert_eq!(normalize_domain("1.2.3"), Some(String::from("1.2.3")));
}

#[test]
fn hostnames_are_checked_as_they_are() {
    assert_eq!(
        check_hostname(String::from("a-b.test")),
        Some(String::from("a-b.test"))
    );
    assert_eq!(check_hostname(String::from("A.test")), None);
    assert_eq!(check_hostname(String::new()), None);
    assert_eq!(check_hostname(String::from("0.0.0.0")), None);
}

#[test]
fn rules_may_be_comments() {
    assert_eq!(normalize_rule("# example.com"), None);
    assert_eq!(normalize_rule("#example.com"), None);
    assert_eq!(normalize_rule("  "), None);
    assert_eq!(
        normalize_rule(" Example.com. "),
        Some(String::from("example.com"))
    );
    assert_eq!(normalize_rule("bücher.example"), normalize_domain("bücher.example"));
}

#[test]
fn keys_of_parents_are_prefixes() {
    let keys = parent_keys("a.b.c");
    assert_eq!(
        keys,
        vec![
            b"c\x01b\x01a\x01".to_vec(),
            b"c\x01b\x01".to_vec(),
            b"c\x01".to_vec()
        ]
    );
    assert_eq!(LABEL_SEPARATOR, 1);
    for key in &keys {
        assert!(keys[0].starts_with(key));
    }
    assert_ne!(encode_domain_key("ab.c"), encode_domain_key("a.bc"));
    assert_eq!(encode_domain_key("bücher.test").len(), "bücher.test".len() + 1);
    let key = encode_domain_key("www.example.com");
    assert!(key.starts_with(&encode_domain_key("example.com")));
    assert!(!key.starts_with(&encode_domain_key("ample.com")));
}

#[test]
fn overlays_are_sorted_sets_of_rules() {
    let overlay = Overlay::parse("b.test,a.test\tB.TEST\r\n c.test.");
    assert_eq!(overlay.len(), 3);
    assert!(!overlay.is_empty());
    assert_eq!(overlay, Overlay::parse("c.test a.test b.test"));
    assert!(Overlay::default().is_empty());
    assert_eq!(Overlay::default(), Overlay::parse(" , "));
    assert!(!Overlay::default().matches("a.test"));
}

#[test]
fn overlay_rules_stand_between_commas_and_any_white_space() {
    let expected = Overlay::parse("example.com ads.test");
    assert_eq!(expected.len(), 2);
    for separator in [
        ',', '\u{9}', '\u{a}', '\u{b}', '\u{c}', '\u{d}', '\u{85}', '\u{a0}', '\u{1680}',
        '\u{2000}', '\u{200a}', '\u{2028}', '\u{2029}', '\u{202f}', '\u{205f}', '\u{3000}',
    ] {
        assert_eq!(Overlay::parse(&format!("example.com{separator}ads.test")), expected);
    }
    assert!(Overlay::parse("example.com;ads.test").is_empty());
}

#[test]
fn overlay_rules_cover_subdomains_only() {
    let overlay = Overlay::parse("example.com");
    assert!(overlay.matches_normalized("example.com"));
    assert!(overlay.matches_normalized("a.b.example.com"));
    assert!(!overlay.matches_normalized("example.com.test"));
    assert!(!overlay.matches_normalized("badexample.com"));
    assert!(!overlay.matches_normalized("com"));
    assert!(!overlay.matches("127.0.0.1"));
    assert!(overlay.matches("  WWW.Example.Com. "));
}

#[test]
fn blocklists_without_rules_block_nothing() {
    let blocklist = Blocklist::overlay_only("");
    assert!(blocklist.compiled_lists().is_empty());
    assert!(!blocklist.matches("example.com"));
    assert!(!blocklist.matches(""));
}

#[test]
fn text_is_searched_and_trimmed() {
    assert_eq!(find_any(&chars("ab^c"), &['$', '^']), 2);
    assert_eq!(find_any(&chars("abc"), &['$']), 3);
    assert_eq!(trim_text(&chars("\u{a0} a b\u{2028}")), chars("a b").as_slice());
    assert_eq!(trim_text(&chars(" \t ")), chars("").as_slice());
    assert_eq!(trim_dots(&chars("a.b..")), chars("a.b").as_slice());
    assert_eq!(cut_at(&chars("a#b#c"), '#'), chars("a").as_slice());
    assert!(has_prefix(&chars("||a"), &['|', '|']));
    assert!(!has_prefix(&chars("|"), &['|', '|']));
    assert!(has_text(&chars("a##b"), &['#', '#']));
    assert!(!has_text(&chars("a#b#"), &['#', '#']));
    assert_eq!(to_lower("AZaz-É"), "azaz-É");
    assert_eq!(joined("ab", "cd"), "abcd");
    assert_eq!(to_decimal(0), "0");
    assert_eq!(to_decimal(65535), "65535");
}

#[test]
fn texts_are_sorted_by_their_bytes() {
    let items = strings(&["b", "a", "b", "", "é", "z", "aa"]);
    let sorted = sorted_distinct(&items);
    assert_eq!(sorted, strings(&["", "a", "aa", "b", "z", "é"]));
    assert!(holds_text(&sorted, "aa"));
    assert!(!holds_text(&sorted, "ab"));
    assert!(!holds_text(&Vec::new(), ""));
    assert!(is_less(b"a", b"ab"));
    assert!(!is_less(b"ab", b"ab"));
    assert!(!is_less(b"b", b"ab"));
    assert_eq!(sort_range(&strings(&["c", "a", "b"]), 0, 3), vec![1, 2, 0]);
}
