use edge_doh::dns::{DnsMessage, DnsQuestion};
use edge_doh::encode::encode_domains;
use edge_doh::resolve::{
    blocked_response, decide, is_any_blocked, nxdomain_response, question_names,
};
use edge_doh::service::{
    action_for, asset_url, assemble_blocklist, check_asset_status, query_source, route,
    serve_query, upstream, ListLoader, ListSummary, PolicyCache, QueryAction, QuerySource,
    RequestMethod, Route, VersionSummary,
};
use edge_doh::{
    decode_get_query, resolve_query, Blocklist, CompiledList, ListEntry, Manifest, Overlay,
    ResolveDecision, ResolveError, DEFAULT_UPSTREAM_DOH, DNS_MESSAGE_CONTENT_TYPE,
};

fn query(labels: &[&str]) -> Vec<u8> {
    let mut bytes = vec![0x12, 0x34, 0x01, 0x00, 0, 1, 0, 0, 0, 0, 0, 0];
    for label in labels {
        bytes.push(label.len() as u8);
        bytes.extend_from_slice(label.as_bytes());
    }
    bytes.extend_from_slice(&[0, 0, 1, 0, 1]);
    bytes
}

fn message(names: &[&[&str]]) -> DnsMessage {
    DnsMessage {
        id: 7,
        is_response: false,
        op_code: 0,
        recursion_desired: false,
        recursion_available: false,
        response_code: 0,
        questions: names
            .iter()
            .map(|labels| DnsQuestion {
                labels: labels.iter().map(|label| label.as_bytes().to_vec()).collect(),
                query_type: 28,
                query_class: 1,
            })
            .collect(),
    }
}

fn entry(name: &str) -> ListEntry {
    ListEntry {
        name: String::from(name),
        source_url: String::from("https://lists.test/a"),
        format: String::from("wildcard-domains"),
        license: String::from("MIT"),
        license_url: String::from("https://lists.test/license"),
        artifact_path: format!("{name}.zerotrie"),
        source_sha256: String::from("aa"),
        artifact_sha256: String::from("bb"),
        entry_count: 2,
        stale: false,
    }
}

#[test]
fn blocked_queries_are_answered_with_nxdomain() {
    let blocklist = Blocklist::overlay_only("example.com");
    let asked = query(&["www", "Example", "com"]);
    let mut expected = asked.clone();
    expected[2] = 0x81;
    expected[3] = 0x83;
    assert_eq!(
        resolve_query(&asked, &blocklist),
        Ok(ResolveDecision::Block { response: expected })
    );
}

#[test]
fn other_queries_are_forwarded_unchanged() {
    let blocklist = Blocklist::overlay_only("example.com");
    let mut asked = query(&["www", "example", "net"]);
    asked[3] = 0x10;
    assert_eq!(
        resolve_query(&asked, &blocklist),
        Ok(ResolveDecision::Forward {
            query: asked.clone()
        })
    );
    let root = query(&[]);
    assert_eq!(
        resolve_query(&root, &blocklist),
        Ok(ResolveDecision::Forward {
            query: root.clone()
        })
    );
}

#[test]
fn compiled_lists_decide_queries_too() {
    let bytes = encode_domains(&["xn--bcher-kva.example"]).unwrap();
    let list = CompiledList::from_bytes("test", bytes);
    let blocklist = Blocklist::new(vec![list], Overlay::default());
    let asked = query(&["www", "xn--bcher-kva", "example"]);
    assert!(matches!(
        resolve_query(&asked, &blocklist),
        Ok(ResolveDecision::Block { .. })
    ));
}

#[test]
fn undecodable_queries_are_errors() {
    let blocklist = Blocklist::overlay_only("example.com");
    let error = resolve_query(&[1, 2, 3], &blocklist).unwrap_err();
    assert!(matches!(error, ResolveError::Decode { .. }));
    assert!(error.message().starts_with("failed to decode DNS message: "));
    assert!(error.message().len() > "failed to decode DNS message: ".len());
}

#[test]
fn one_blocked_question_is_enough() {
    let blocklist = Blocklist::overlay_only("ads.test");
    let mixed = message(&[&["safe", "test"], &["x", "ads", "test"]]);
    assert_eq!(question_names(&mixed), vec!["safe.test.", "x.ads.test."]);
    assert!(is_any_blocked(&question_names(&mixed), &blocklist));
    assert!(matches!(
        decide(b"raw", &mixed, &blocklist),
        Ok(ResolveDecision::Block { .. })
    ));
    let safe = message(&[&["safe", "test"]]);
    assert_eq!(
        decide(b"raw", &safe, &blocklist),
        Ok(ResolveDecision::Forward {
            query: b"raw".to_vec()
        })
    );
}

#[test]
fn names_are_shown_as_text() {
    let shown = message(&[&[], &["a_b", "c-d"], &["xn--bcher-kva", "example"]]);
    assert_eq!(
        question_names(&shown),
        vec![".", "a_b.c-d.", "bücher.example."]
    );
}

#[test]
fn answers_echo_the_query() {
    let mut asked = message(&[&["Ads", "test"]]);
    asked.op_code = 4;
    asked.recursion_desired = true;
    let answer = nxdomain_response(&asked);
    assert_eq!(answer.id, 7);
    assert!(answer.is_response);
    assert_eq!(answer.op_code, 4);
    assert!(answer.recursion_desired);
    assert!(answer.recursion_available);
    assert_eq!(answer.response_code, 3);
    assert_eq!(answer.questions, asked.questions);
    assert_eq!(
        blocked_response(&asked),
        Ok(vec![
            0, 7, 0xa1, 0x83, 0, 1, 0, 0, 0, 0, 0, 0, 3, b'A', b'd', b's', 4, b't', b'e', b's',
            b't', 0, 0, 28, 0, 1
        ])
    );
}

#[test]
fn answers_are_read_back_as_they_were_written() {
    let mut asked = message(&[
        &["www", "Example", "com"],
        &["WWW", "example", "com"],
        &["a", "www", "Example", "com"],
        &[],
    ]);
    asked.op_code = 15;
    asked.questions[1].query_type = 65535;
    asked.questions[1].query_class = 0;
    let bytes = blocked_response(&asked).unwrap();
    let read = hickory_proto::op::Message::from_vec(&bytes).unwrap();
    assert_eq!(read.metadata.id, 7);
    assert_eq!(u8::from(read.metadata.op_code), 15);
    assert_eq!(u16::from(read.metadata.response_code), 3);
    assert!(read.metadata.recursion_available);
    assert!(!read.metadata.authoritative);
    assert_eq!(read.queries.len(), 4);
    for (query, question) in read.queries.iter().zip(&asked.questions) {
        let labels: Vec<Vec<u8>> = query.name().iter().map(|label| label.to_vec()).collect();
        assert_eq!(labels, question.labels);
        assert_eq!(u16::from(query.query_type()), question.query_type);
        assert_eq!(u16::from(query.query_class()), question.query_class);
    }
}

#[test]
fn many_long_questions_fit_into_an_answer() {
    let long: Vec<Vec<String>> = (0..252)
        .map(|index| {
            vec![
                format!("{index:063}"),
                format!("{:063}", index + 1000),
                format!("{:063}", index + 2000),
                format!("{:061}", index + 3000),
            ]
        })
        .collect();
    let refs: Vec<Vec<&str>> = long
        .iter()
        .map(|labels| labels.iter().map(String::as_str).collect())
        .collect();
    let slices: Vec<&[&str]> = refs.iter().map(Vec::as_slice).collect();
    let asked = message(&slices);
    let bytes = blocked_response(&asked).unwrap();
    assert_eq!(bytes.len(), 12 + 252 * 259);
    let blocklist = Blocklist::overlay_only("example.com");
    assert!(matches!(
        resolve_query(&bytes, &blocklist),
        Ok(ResolveDecision::Forward { .. })
    ));
    let mut more = asked.clone();
    more.questions.extend(asked.questions.into_iter().map(|mut question| {
        question.labels[0][0] = b'x';
        question.labels[3][0] = b'x';
        question
    }));
    assert!(blocked_response(&more).is_err());
}

#[test]
fn answers_that_do_not_fit_are_errors() {
    let label = "a".repeat(63);
    let bad = message(&[&[&format!("{label}a")]]);
    let error = blocked_response(&bad).unwrap_err();
    assert!(matches!(error, ResolveError::Encode { .. }));
    assert!(error.message().starts_with("failed to encode DNS message: "));
}

#[test]
fn get_queries_are_unpadded_base64url() {
    assert_eq!(decode_get_query(""), Ok(Vec::new()));
    assert_eq!(decode_get_query("AAE"), Ok(vec![0, 1]));
    assert_eq!(decode_get_query("-_8A"), Ok(vec![0xfb, 0xff, 0]));
    for bad in ["A", "AA==", "AAF", "+/8A", "AA E"] {
        let error = decode_get_query(bad).unwrap_err();
        assert!(matches!(error, ResolveError::InvalidGetQuery { .. }));
        assert!(error.message().starts_with("failed to decode DoH GET query: "));
    }
}

#[test]
fn errors_say_what_failed() {
    let detail = String::from("detail");
    assert_eq!(
        ResolveError::Decode {
            source: detail.clone()
        }
        .message(),
        "failed to decode DNS message: detail"
    );
    assert_eq!(
        ResolveError::Encode {
            source: detail.clone()
        }
        .message(),
        "failed to encode DNS message: detail"
    );
    assert_eq!(
        ResolveError::InvalidGetQuery { source: detail }.message(),
        "failed to decode DoH GET query: detail"
    );
}

#[test]
fn paths_have_routes() {
    assert_eq!(route("/"), Route::DnsQuery);
    assert_eq!(route("/dns-query"), Route::DnsQuery);
    assert_eq!(route("/health"), Route::Health);
    assert_eq!(route("/version"), Route::Version);
    assert_eq!(route("/dns-query/"), Route::NotFound);
    assert_eq!(route(""), Route::NotFound);
}

#[test]
fn get_requests_carry_the_query_in_the_url() {
    let pairs = vec![
        (String::from("x"), String::from("y")),
        (String::from("dns"), String::from("AAE")),
        (String::from("dns"), String::from("!")),
    ];
    assert_eq!(
        query_source(RequestMethod::Get, &pairs, None),
        Ok(QuerySource::Url { query: vec![0, 1] })
    );
    let invalid = query_source(RequestMethod::Get, &pairs[2..].to_vec(), None).unwrap_err();
    assert_eq!(invalid.status, 400);
    assert_eq!(invalid.message, "invalid dns query parameter");
    let missing = query_source(RequestMethod::Get, &pairs[..1].to_vec(), None).unwrap_err();
    assert_eq!(missing.status, 400);
    assert_eq!(missing.message, "missing dns query parameter");
}

#[test]
fn post_requests_need_the_dns_media_type() {
    let none = Vec::new();
    for accepted in ["application/dns-message", "application/dns-message; q=1"] {
        assert_eq!(
            query_source(RequestMethod::Post, &none, Some(String::from(accepted))),
            Ok(QuerySource::Body)
        );
    }
    for refused in [None, Some(String::from("text/plain"))] {
        let refusal = query_source(RequestMethod::Post, &none, refused).unwrap_err();
        assert_eq!(refusal.status, 415);
        assert_eq!(refusal.message, "unsupported content type");
    }
    let other = query_source(RequestMethod::Other, &none, None).unwrap_err();
    assert_eq!(other.status, 405);
    assert_eq!(other.message, "method not allowed");
    assert_eq!(DNS_MESSAGE_CONTENT_TYPE, "application/dns-message");
}

#[test]
fn decisions_become_actions() {
    assert_eq!(
        action_for(Ok(ResolveDecision::Block { response: vec![1] })),
        QueryAction::Answer { response: vec![1] }
    );
    assert_eq!(
        action_for(Ok(ResolveDecision::Forward { query: vec![2] })),
        QueryAction::Forward { query: vec![2] }
    );
    let blocklist = Blocklist::overlay_only("example.com");
    assert!(matches!(
        serve_query(&query(&["example", "com"]), &blocklist),
        QueryAction::Answer { .. }
    ));
    let refused = serve_query(&[], &blocklist);
    assert!(matches!(
        refused,
        QueryAction::Refuse { refusal } if refusal.status == 400
            && refusal.message == "invalid dns message"
    ));
}

#[test]
fn the_upstream_has_a_default() {
    assert_eq!(upstream(None), "https://cloudflare-dns.com/dns-query");
    assert_eq!(upstream(None), DEFAULT_UPSTREAM_DOH);
    assert_eq!(upstream(Some(String::from("https://dns.test"))), "https://dns.test");
}

#[test]
fn assets_need_a_status_of_success() {
    assert_eq!(asset_url("one.zerotrie"), "https://blocklist-assets/one.zerotrie");
    assert_eq!(check_asset_status("a", 200), Ok(()));
    assert_eq!(check_asset_status("a", 299), Ok(()));
    assert_eq!(
        check_asset_status("a", 300),
        Err(String::from("asset fetch failed for a: 300"))
    );
    assert_eq!(
        check_asset_status("a", 199),
        Err(String::from("asset fetch failed for a: 199"))
    );
}

#[test]
fn lists_are_loaded_in_order() {
    let mut loader = ListLoader::new(vec![entry("one"), entry("two"), entry("bad")]);
    assert_eq!(loader.next_path(), Some(String::from("one.zerotrie")));
    assert_eq!(
        loader.accept(404, Vec::new()),
        Err(String::from("asset fetch failed for one.zerotrie: 404"))
    );
    assert_eq!(loader.accept(200, encode_domains(&["a.test"]).unwrap()), Ok(()));
    assert_eq!(loader.next_path(), Some(String::from("two.zerotrie")));
    assert_eq!(loader.accept(200, encode_domains(&["b.test"]).unwrap()), Ok(()));
    assert_eq!(loader.accept(200, vec![0xa0]), Ok(()));
    assert_eq!(loader.next_path(), None);
    let lists = loader.finish();
    assert_eq!(lists[0].name(), "one");
    assert_eq!(lists[1].name(), "two");
    assert_eq!(lists[2].name(), "bad");
    assert_eq!(lists[2].bytes(), [0xa0]);
    let blocklist = assemble_blocklist(Some(String::from("c.test")), Some(lists));
    for domain in ["a.test", "b.test", "c.test"] {
        assert!(blocklist.matches(domain));
    }
    assert!(!assemble_blocklist(None, Some(Vec::new())).matches("c.test"));
}

#[test]
fn inline_rules_apply_without_compiled_lists() {
    let blocklist = assemble_blocklist(Some(String::from("ads.test, c.test")), None);
    assert!(blocklist.compiled_lists().is_empty());
    assert!(blocklist.matches("www.ads.test"));
    assert!(blocklist.matches("c.test"));
    assert!(!blocklist.matches("safe.test"));
    let nothing = assemble_blocklist(None, None);
    assert!(nothing.compiled_lists().is_empty());
    assert!(!nothing.matches("ads.test"));
}

#[test]
fn the_policy_is_built_once() {
    let manifest = Manifest {
        schema: 1,
        generated_at: String::from("2024-01-01T00:00:00Z"),
        lists: vec![entry("one")],
    };
    let list = CompiledList::from_bytes("one", encode_domains(&["a.test"]).unwrap());
    let mut cache = PolicyCache::new();
    assert!(cache.policy().is_none());
    assert!(cache.manifest().is_none());
    cache.install(Some(String::from("b.test")), Some((manifest.clone(), vec![list])));
    assert_eq!(cache.manifest(), Some(&manifest));
    assert!(cache.policy().unwrap().matches("x.a.test"));
    assert!(cache.policy().unwrap().matches("b.test"));
    let before = cache.clone();
    cache.install(Some(String::from("c.test")), None);
    assert_eq!(cache, before);
    assert!(!cache.policy().unwrap().matches("c.test"));
}

#[test]
fn a_failed_load_is_kept_too() {
    let mut cache = PolicyCache::new();
    cache.install(Some(String::from("b.test")), None);
    assert!(cache.manifest().is_none());
    assert!(cache.policy().unwrap().compiled_lists().is_empty());
    assert!(cache.policy().unwrap().matches("b.test"));
    let list = CompiledList::from_bytes("one", encode_domains(&["a.test"]).unwrap());
    let manifest = Manifest {
        schema: 1,
        generated_at: String::from("2024-01-01T00:00:00Z"),
        lists: vec![entry("one")],
    };
    cache.install(None, Some((manifest, vec![list])));
    assert!(cache.manifest().is_none());
    assert!(!cache.policy().unwrap().matches("a.test"));
    assert!(cache.policy().unwrap().matches("b.test"));
}

#[test]
fn the_version_report_describes_each_list() {
    let mut second = entry("two");
    second.stale = true;
    let manifest = Manifest {
        schema: 1,
        generated_at: String::from("2024-01-01T00:00:00Z"),
        lists: vec![entry("one"), second],
    };
    let report = VersionSummary::from_manifest(&manifest);
    assert_eq!(report.generated_at, "2024-01-01T00:00:00Z");
    assert_eq!(
        report.lists,
        vec![
            ListSummary {
                name: "one",
                source_url: "https://lists.test/a",
                license: "MIT",
                license_url: "https://lists.test/license",
                entry_count: 2,
                artifact_sha256: "bb",
                source_sha256: "aa",
                stale: false,
            },
            ListSummary::from_entry(&manifest.lists[1]),
        ]
    );
    assert!(report.lists[1].stale);
}
