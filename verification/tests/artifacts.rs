use edge_doh::artifact::{
    artifact_path, compile_source, compile_text, new_manifest, reuses_artifact, sha256_hex,
    stale_entry, timestamp, BuildError, Config, Retry, SourceConfig, MAX_ATTEMPTS, SCHEMA,
};
use edge_doh::parser::ListFormat;
use edge_doh::CompiledList;

fn source() -> SourceConfig {
    SourceConfig {
        name: String::from("demo"),
        url: String::from("https://lists.test/demo"),
        format: String::from("wildcard-domains"),
        license: String::from("MIT"),
        license_url: String::from("https://lists.test/license"),
    }
}

#[test]
fn digests_are_lower_case_hexadecimal() {
    assert_eq!(
        sha256_hex(b""),
        "e3b0c44298fc1c149afbf4c8996fb92427ae41e4649b934ca495991b7852b855"
    );
    assert_eq!(
        sha256_hex(b"abc"),
        "ba7816bf8f01cfea414140de5dae2223b00361a396177a9cb410ff61f20015ad"
    );
}

#[test]
fn only_the_known_schema_is_accepted() {
    let mut config = Config {
        schema: SCHEMA,
        list: vec![source()],
    };
    assert_eq!(config.check_schema(), Ok(()));
    config.schema = 12;
    assert_eq!(
        config.check_schema(),
        Err(String::from("unsupported blocklists.toml schema: 12"))
    );
}

#[test]
fn sources_compile_to_artifacts_and_entries() {
    let raw = b"*.b.test\na.test # note\nx.a.test\na.test\n".to_vec();
    let (entry, artifact) =
        compile_source(&source(), ListFormat::WildcardDomains, raw.clone(), 2).unwrap();
    assert_eq!(entry.name, "demo");
    assert_eq!(entry.source_url, "https://lists.test/demo");
    assert_eq!(entry.format, "wildcard-domains");
    assert_eq!(entry.license, "MIT");
    assert_eq!(entry.license_url, "https://lists.test/license");
    assert_eq!(entry.artifact_path, "demo.zerotrie");
    assert_eq!(entry.artifact_path, artifact_path("demo"));
    assert_eq!(entry.source_sha256, sha256_hex(&raw));
    assert_eq!(entry.artifact_sha256, sha256_hex(&artifact));
    assert_eq!(entry.entry_count, 2);
    assert!(!entry.stale);
    let list = CompiledList::from_bytes("demo", artifact);
    assert!(list.matches("a.test"));
    assert!(list.matches("x.a.test"));
    assert!(list.matches("deep.b.test"));
    assert!(!list.matches("c.test"));
}

#[test]
fn short_sources_are_errors() {
    let error = compile_text(&source(), ListFormat::WildcardDomains, b"raw", "a.test", 2)
        .unwrap_err();
    assert_eq!(
        error,
        BuildError::TooFewEntries {
            name: String::from("demo"),
            found: 1,
            minimum: 2
        }
    );
    assert_eq!(error.message(), "demo yielded 1 entries, below minimum 2");
    let trie = BuildError::Trie {
        source: String::from("full"),
    };
    assert_eq!(trie.message(), "full");
}

#[test]
fn sources_have_to_be_text() {
    let error = compile_source(&source(), ListFormat::AdblockPlus, vec![0xff, 0x41], 0)
        .unwrap_err();
    assert!(matches!(&error, BuildError::NotUtf8 { source } if !source.is_empty()));
    assert_eq!(error.message(), "source is not UTF-8 text");
    let empty = compile_source(&source(), ListFormat::AdblockPlus, Vec::new(), 0).unwrap();
    assert_eq!(empty.0.entry_count, 0);
    assert!(empty.1.is_empty());
}

#[test]
fn internationalized_sources_compile() {
    let raw = "bücher.example\n".as_bytes().to_vec();
    let (entry, artifact) =
        compile_source(&source(), ListFormat::WildcardDomains, raw, 1).unwrap();
    assert_eq!(entry.entry_count, 1);
    let list = CompiledList::from_bytes("demo", artifact);
    assert!(list.matches("www.xn--bcher-kva.example"));
    assert!(list.matches("BÜCHER.example"));
}

#[test]
fn artifacts_match_what_ascii_sources_name() {
    let text = "*.XN--Bcher-KVA.Example # bücher\nads.test\nxn--a.example\n";
    let raw = text.as_bytes().to_vec();
    let (entry, artifact) =
        compile_source(&source(), ListFormat::WildcardDomains, raw, 2).unwrap();
    assert_eq!(entry.entry_count, 2);
    let list = CompiledList::from_bytes("demo", artifact);
    for domain in ["xn--bcher-kva.example", "www.xn--bcher-kva.example", "ads.test"] {
        assert!(list.matches(domain));
    }
    for domain in ["example", "xn--a.example", "test", "xads.test"] {
        assert!(!list.matches(domain));
    }
}

#[test]
fn stale_artifacts_reuse_the_last_entry_of_their_name() {
    let (mut first, _) =
        compile_text(&source(), ListFormat::WildcardDomains, b"1", "a.test", 0).unwrap();
    let (second, _) =
        compile_text(&source(), ListFormat::WildcardDomains, b"2", "b.test", 0).unwrap();
    first.license = String::from("other");
    let existing = vec![first, second.clone()];
    let reused = stale_entry("demo", &existing, b"artifact").unwrap();
    assert!(reused.stale);
    assert_eq!(reused.license, "MIT");
    assert_eq!(reused.source_sha256, second.source_sha256);
    assert_eq!(reused.artifact_sha256, sha256_hex(b"artifact"));
    assert_eq!(
        stale_entry("missing", &existing, b""),
        Err(String::from(
            "cannot reuse stale artifact for missing without an existing manifest entry"
        ))
    );
    let manifest = new_manifest(String::from("now"), existing);
    assert_eq!(manifest.schema, 1);
    assert_eq!(manifest.generated_at, "now");
    assert_eq!(manifest.lists.len(), 2);
}

#[test]
fn strict_runs_reuse_nothing() {
    assert!(reuses_artifact(true, true));
    assert!(!reuses_artifact(false, true));
    assert!(!reuses_artifact(true, false));
}

#[test]
fn timestamps_are_trimmed() {
    assert_eq!(
        timestamp(b"2024-01-01T00:00:00Z\n".to_vec()),
        Ok(String::from("2024-01-01T00:00:00Z"))
    );
    assert!(timestamp(vec![0xc0]).is_err());
}

#[test]
fn fetches_are_given_up_after_three_failures() {
    let mut retry = Retry::new();
    assert_eq!(
        retry.failure("https://x.test"),
        "failed to fetch https://x.test: unknown error"
    );
    let mut waits = Vec::new();
    while retry.may_try() {
        let attempt = waits.len();
        waits.push(retry.record_failure(format!("error {attempt}")));
    }
    assert_eq!(waits, vec![1, 2, 4]);
    assert_eq!(waits.len() as u32, MAX_ATTEMPTS);
    assert_eq!(
        retry.failure("https://x.test"),
        "failed to fetch https://x.test: error 2"
    );
}
