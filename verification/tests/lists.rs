use edge_doh::encode::{collapse_parent_shadowed, encode_domains, parent_exists};
use edge_doh::parser::{
    parse_adblock_plus, parse_adblock_plus_line, parse_domains, parse_wildcard_domains,
    strip_adblock_line, strip_wildcard_line, ListFormat,
};
use edge_doh::trie::can_look_up;
use edge_doh::{normalize_domain, Blocklist, CompiledList, Overlay};

fn strings(items: &[&str]) -> Vec<String> {
    items.iter().map(|item| String::from(*item)).collect()
}

#[test]
fn formats_go_by_their_names() {
    assert_eq!(
        ListFormat::from_str("wildcard-domains"),
        Ok(ListFormat::WildcardDomains)
    );
    assert_eq!(
        ListFormat::from_str("adblock-plus"),
        Ok(ListFormat::AdblockPlus)
    );
    assert_eq!(
        ListFormat::from_str("hosts"),
        Err(String::from("unsupported list format: hosts"))
    );
    assert_eq!(
        "adblock-plus".parse::<ListFormat>(),
        Ok(ListFormat::AdblockPlus)
    );
    assert_eq!(
        "hosts".parse::<ListFormat>(),
        Err(String::from("unsupported list format: hosts"))
    );
}

#[test]
fn lists_name_at_most_one_domain_for_each_line() {
    let input = "a.test\n# note\n\nb.test c.test\nd.test";
    let parsed = parse_domains(input, ListFormat::WildcardDomains);
    assert_eq!(parsed, strings(&["a.test", "d.test"]));
    assert!(parsed.len() <= input.lines().count());
    for domain in &parsed {
        assert_eq!(normalize_domain(domain).as_ref(), Some(domain));
    }
}

#[test]
fn wildcard_lines_lose_prefixes_and_comments() {
    assert_eq!(strip_wildcard_line("  *.*.example.com  # x"), "example.com");
    assert_eq!(strip_wildcard_line("example.com!x#y"), "example.com");
    assert_eq!(strip_wildcard_line("! example.com"), "");
    assert_eq!(strip_wildcard_line("*example.com"), "*example.com");
    assert_eq!(
        strip_wildcard_line("example.com"),
        strip_wildcard_line("*.example.com")
    );
}

#[test]
fn wildcard_lists_end_lines_with_or_without_carriage_returns() {
    assert_eq!(
        parse_wildcard_domains("a.test\r\nb.test\n\nc.test\r"),
        strings(&["a.test", "b.test", "c.test"])
    );
    assert_eq!(parse_wildcard_domains(""), Vec::<String>::new());
    assert_eq!(
        parse_wildcard_domains("b.test\na.test\nb.test"),
        strings(&["b.test", "a.test", "b.test"])
    );
}

#[test]
fn adblock_lines_name_whole_domains_only() {
    assert_eq!(
        strip_adblock_line(" ||Example.com^ "),
        Some(String::from("Example.com"))
    );
    assert_eq!(strip_adblock_line("||example.com"), None);
    assert_eq!(strip_adblock_line("||example.com^/ads/banner.js"), None);
    assert_eq!(strip_adblock_line("||example.com^*/ads"), None);
    assert_eq!(strip_adblock_line("||example.com^:8080"), None);
    assert_eq!(strip_adblock_line("||example.com^|"), None);
    assert_eq!(
        strip_adblock_line("||example.com^$"),
        Some(String::from("example.com"))
    );
    assert_eq!(
        strip_adblock_line("||example.com^$third-party"),
        Some(String::from("example.com"))
    );
    assert_eq!(strip_adblock_line("||example.com^/path##"), None);
    assert_eq!(strip_adblock_line("||example.com#@#.ad"), None);
    assert_eq!(strip_adblock_line("||example.com#?#.ad"), None);
    assert_eq!(strip_adblock_line("||example.com$popup"), None);
    assert_eq!(strip_adblock_line("||^"), None);
    assert_eq!(strip_adblock_line("||"), None);
    assert_eq!(strip_adblock_line("|example.com^"), None);
    assert_eq!(strip_adblock_line("[Adblock Plus 2.0]"), None);
    assert_eq!(strip_adblock_line("/banner/"), None);
    assert_eq!(strip_adblock_line("! note"), None);
    assert_eq!(strip_adblock_line("@@||example.com^"), None);
    assert_eq!(strip_adblock_line(""), None);
}

#[test]
fn adblock_lines_are_normalized() {
    assert_eq!(
        parse_adblock_plus_line("||Ads.Example.NET^"),
        Some(String::from("ads.example.net"))
    );
    assert_eq!(parse_adblock_plus_line("||example.com"), None);
    assert_eq!(parse_adblock_plus_line("||example.com^/ads/banner.js"), None);
    assert_eq!(parse_adblock_plus_line("||192.168.0.1^"), None);
    assert_eq!(parse_adblock_plus_line("||bad_name.test^"), None);
    assert_eq!(
        parse_adblock_plus("||a.test^\r\n||b.test^"),
        strings(&["a.test", "b.test"])
    );
    assert_eq!(
        parse_domains("||a.test^\na.test", ListFormat::AdblockPlus),
        strings(&["a.test"])
    );
}

#[test]
fn collapsing_sorts_and_deduplicates() {
    let list = strings(&["z.test", "a.test", "b.a.test", "a.test", "com", "x.y.com", "aa.test"]);
    let collapsed = collapse_parent_shadowed(list.clone());
    assert_eq!(collapsed, strings(&["a.test", "aa.test", "com", "z.test"]));
    assert_eq!(collapse_parent_shadowed(collapsed.clone()), collapsed);
    let mut reversed = list;
    reversed.reverse();
    assert_eq!(collapse_parent_shadowed(reversed), collapsed);
    assert!(collapse_parent_shadowed(Vec::new()).is_empty());
}

#[test]
fn collapsing_keeps_what_is_covered() {
    let full = strings(&["a.test", "x.a.test", "y.x.a.test", "b.test"]);
    let collapsed = collapse_parent_shadowed(full.clone());
    let before = Overlay::parse(&full.join(","));
    let after = Overlay::parse(&collapsed.join(","));
    for domain in ["a.test", "x.a.test", "q.y.x.a.test", "b.test", "c.test", "test"] {
        assert_eq!(before.matches(domain), after.matches(domain));
    }
}

#[test]
fn parents_are_looked_up_behind_each_dot() {
    let parents = strings(&["b.c", "d"]);
    assert!(parent_exists(&parents, "a.b.c"));
    assert!(parent_exists(&parents, "x.y.d"));
    assert!(!parent_exists(&parents, "b.c"));
    assert!(!parent_exists(&parents, "xb.c"));
}

#[test]
fn encoded_lists_agree_with_inline_rules() {
    let names = ["example.com", "ads.test", "Example.COM", "127.0.0.1", "a.b.c.d"];
    let bytes = encode_domains(&names).unwrap();
    for key in [&b"com\x01example\x01"[..], b"com\x01", b"zzz", b""] {
        assert!(can_look_up(&bytes, key));
    }
    let list = CompiledList::from_bytes("fixture", bytes);
    let overlay = Overlay::parse(&names.join(" "));
    for domain in [
        "example.com",
        "www.example.com",
        "com",
        "ads.test",
        "xads.test",
        "b.c.d",
        "z.a.b.c.d",
        "127.0.0.1",
        "",
    ] {
        assert_eq!(list.matches(domain), overlay.matches(domain));
    }
}

#[test]
fn trie_values_number_the_domains() {
    let bytes = encode_domains(&["b.test", "a.test", "b.test"]).unwrap();
    let trie = zerotrie::ZeroTrieSimpleAscii::from_store(bytes);
    assert_eq!(trie.get(b"test\x01a\x01"), Some(2));
    assert_eq!(trie.get(b"test\x01b\x01"), Some(3));
    assert_eq!(trie.get(b"test\x01"), None);
}

#[test]
fn no_domains_encode_to_an_empty_trie() {
    let bytes = encode_domains(&["not a domain"]).unwrap();
    assert!(bytes.is_empty());
    assert!(can_look_up(&bytes, b"com\x01"));
    assert!(!CompiledList::from_bytes("empty", bytes).matches("example.com"));
}

#[test]
fn large_lists_are_looked_up() {
    let domains: Vec<String> = (0..3000)
        .map(|index| format!("blocked-{index}.fixture.test"))
        .collect();
    let slices: Vec<&str> = domains.iter().map(String::as_str).collect();
    let list = CompiledList::from_bytes("fixture", encode_domains(&slices).unwrap());
    assert_eq!(list.name(), "fixture");
    assert!(list.matches("blocked-0.fixture.test"));
    assert!(list.matches_normalized("x.blocked-2999.fixture.test"));
    assert!(!list.matches("blocked-3000.fixture.test"));
    assert!(!list.matches("fixture.test"));
    let blocklist = Blocklist::new(vec![list], Overlay::parse("other.test"));
    assert_eq!(blocklist.compiled_lists().len(), 1);
    assert!(blocklist.matches("blocked-17.fixture.test"));
    assert!(blocklist.matches("www.other.test"));
    assert!(!blocklist.matches("safe.test"));
}

#[test]
fn malformed_nodes_end_a_lookup() {
    // a span node
    assert!(!can_look_up(&[0xa1, 0x61], b"a"));
    // a value whose number goes on and is cut short
    assert!(!can_look_up(&[0x90], b""));
    // a value whose number does not fit
    assert!(!can_look_up(
        &[0x9f, 0xff, 0xff, 0xff, 0xff, 0xff, 0xff, 0xff, 0xff, 0xff, 0xff, 0x7f],
        b""
    ));
    // a branch without its search bytes
    assert!(!can_look_up(&[0xc2, 0x61], b"a"));
    // a branch whose search bytes are not sorted
    assert!(!can_look_up(&[0xc2, 0x62, 0x61, 0x01, 0x81, 0x82], b"a"));
    // a branch with an offset behind the end of its data
    assert!(!can_look_up(&[0xc2, 0x61, 0x62, 0x03, 0x81, 0x82], b"a"));
    // a branch without its offsets
    assert!(!can_look_up(&[0xc2, 0x61, 0x62], b"b"));
}

#[test]
fn malformed_nodes_off_the_path_do_not_matter() {
    assert!(can_look_up(&[0x61, 0x01, 0x80, 0xa0], b"a\x01"));
    assert!(!can_look_up(&[0x61, 0x01, 0x80, 0xa0], b"a\x01b\x01"));
    assert!(can_look_up(&[0x61, 0xa0], b"b\x01"));
    assert!(can_look_up(&[0xc2, 0x61, 0x62, 0x03, 0x81, 0x82], b"c"));
    assert!(can_look_up(&[0xc2, 0x61, 0x62, 0x01, 0x81, 0xa0], b"a"));
    assert!(!can_look_up(&[0xc2, 0x61, 0x62, 0x01, 0x81, 0xa0], b"b"));
    let list = CompiledList::from_bytes("odd", vec![0x61, 0x01, 0x80, 0xa0]);
    assert_eq!(list.bytes(), [0x61, 0x01, 0x80, 0xa0]);
    assert!(list.matches("a"));
    assert!(list.matches_normalized("a"));
    assert!(list.matches("b.a"));
    assert!(list.matches("c.b.a"));
    assert!(!list.matches("b"));
    assert!(!list.matches("a.b"));
}

#[test]
fn malformed_lists_leave_others_in_force() {
    let bad = CompiledList::from_bytes("bad", vec![0xa0]);
    assert!(!bad.matches("example.com"));
    assert!(!bad.matches_normalized("example.com"));
    let good = CompiledList::from_bytes("good", encode_domains(&["example.com"]).unwrap());
    assert_eq!(good.clone(), good);
    let blocklist = Blocklist::new(vec![bad, good], Overlay::parse("ads.test"));
    assert!(blocklist.matches("Example.COM."));
    assert!(blocklist.matches("www.example.com"));
    assert!(blocklist.matches("WWW.Deep.example.com"));
    assert!(blocklist.matches("ads.test"));
    assert!(!blocklist.matches("safe.test"));
}

#[test]
fn blocklists_match_what_their_parts_match() {
    let list = CompiledList::from_bytes("one", encode_domains(&["bücher.example"]).unwrap());
    let overlay = Overlay::parse("ads.test");
    let blocklist = Blocklist::new(vec![list.clone()], overlay.clone());
    for domain in ["BÜCHER.example.", "www.xn--bcher-kva.example", "x.ads.test", "test", "-"] {
        assert_eq!(
            blocklist.matches(domain),
            list.matches(domain) || overlay.matches(domain)
        );
    }
}

#[test]
fn small_tries_are_looked_up() {
    assert!(can_look_up(&[], b"a"));
    assert!(can_look_up(b"abc", b"abcd"));
    assert!(can_look_up(&[0x61, 0x81, 0x62, 0x82], b"ab"));
    assert!(can_look_up(&[0xc2, 0x61, 0x62, 0x01, 0x81, 0x82], b"a"));
    assert!(can_look_up(&[0xc2, 0x61, 0x62, 0x01, 0x81, 0x82], b"b"));
    assert!(can_look_up(&[0x90, 0x00], b"x"));
}
