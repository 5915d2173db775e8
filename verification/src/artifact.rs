//! Building blocklist artifacts: from a downloaded source list to a serialized
//! trie and its manifest entry.

use crate::blocklist::{trie_blocks, ListEntry, Manifest};
use crate::domain::{covered, covers, normalized, valid_hostname};
use crate::encode::{
    blocks_exactly, collapse_keeps_coverage, collapse_parent_shadowed, collapsed, collapses,
    collapsing_drops_what_ends_in_another_entry,
    encode_domains, entries, lookup_forms, lookup_forms_come_from_domains, own_forms,
    own_forms_are_kept, slices, MAX_SURE_ENTRIES,
};
use crate::order::{text_less, texts};
use crate::parser::{
    ascii_named, lines, listed_domains, listed_domains_are_lookup_forms, parse_domains, ListFormat,
};
use crate::text::{
    append, chars_of, decimal, joined, same_text, string_of, text_view, to_decimal, trim,
    trim_text,
};
use crate::trie::{trie_bytes, trie_ok};
use sha2::Digest;
use vstd::arithmetic::power2::{lemma2_to64, pow2};
use vstd::prelude::*;
use vstd::utf8::{decode_utf8, encode_utf8, encode_utf8_decode_utf8, valid_utf8};

verus! {

/// The manifest and configuration schema that is understood.
pub const SCHEMA: u32 = 1;

/// One source list of the configuration.
#[derive(Debug, Clone, PartialEq, Eq)]
pub struct SourceConfig {
    /// Stable list name.
    pub name: String,
    /// Source URL.
    pub url: String,
    /// Name of the parser format.
    pub format: String,
    /// Source license name.
    pub license: String,
    /// Source license URL.
    pub license_url: String,
}

/// The source lists to build.
#[derive(Debug, Clone, PartialEq, Eq)]
pub struct Config {
    /// Configuration schema version.
    pub schema: u32,
    /// The source lists.
    pub list: Vec<SourceConfig>,
}

impl Config {
    /// Checks that the schema of the configuration is understood.
    ///
    /// # Errors
    ///
    /// Returns a message if it is not.
    pub fn check_schema(&self) -> (r: Result<(), String>)
        ensures
            match r {
                Ok(_) => self.schema == SCHEMA,
                Err(message) => {
                    &&& self.schema != SCHEMA
                    &&& message@ == "unsupported blocklists.toml schema: "@
                        + decimal(self.schema as nat)
                },
            },
    {
        if self.schema == SCHEMA {
            Ok(())
        } else {
            let number: String = to_decimal(self.schema as u64);
            Err(joined("unsupported blocklists.toml schema: ", number.as_str()))
        }
    }
}

/// The SHA-256 digest of some bytes.
pub uninterp spec fn sha256(bytes: Seq<u8>) -> Seq<u8>;

/// `sha2::Sha256::digest`: the digest of the bytes, named `sha256`, which depends
/// on them alone and is 32 bytes long.
#[verifier::external_body]
fn sha256_digest(bytes: &[u8]) -> (r: Vec<u8>)
    ensures
        r@ == sha256(bytes@),
        r@.len() == 32,
{
    sha2::Sha256::digest(bytes).to_vec()
}

/// The lower case hexadecimal digit for four bits.
pub open spec fn hex_digit(v: int) -> char {
    if v < 10 {
        ('0' as int + v) as char
    } else {
        ('a' as int + v - 10) as char
    }
}

/// Two hexadecimal digits for each byte, the high one first.
pub open spec fn hex_text(bytes: Seq<u8>) -> Seq<char> {
    Seq::new(
        2 * bytes.len(),
        |i: int|
            if i % 2 == 0 {
                hex_digit(bytes[i / 2] as int / 16)
            } else {
                hex_digit(bytes[i / 2] as int % 16)
            },
    )
}

/// `hex::encode`: the bytes as lower case hexadecimal digits.
#[verifier::external_body]
fn hex_encode(bytes: &[u8]) -> (r: String)
    ensures
        r@ == hex_text(bytes@),
{
    hex::encode(bytes)
}

/// The SHA-256 digest of some bytes in hexadecimal form.
#[must_use]
pub fn sha256_hex(bytes: &[u8]) -> (r: String)
    ensures
        r@ == hex_text(sha256(bytes@)),
        r@.len() == 64,
{
    let digest: Vec<u8> = sha256_digest(bytes);
    hex_encode(digest.as_slice())
}

/// What is reported of bytes that are not UTF-8.
pub uninterp spec fn utf8_error(bytes: Seq<u8>) -> Seq<char>;

/// `String::from_utf8`: the text whose UTF-8 form the bytes are. If there is none,
/// an error, named `utf8_error`, which depends on the bytes alone.
#[verifier::external_body]
fn text_from_utf8(bytes: Vec<u8>) -> (r: Result<String, String>)
    ensures
        match r {
            Ok(text) => valid_utf8(bytes@) && encode_utf8(text@) == bytes@,
            Err(message) => !valid_utf8(bytes@) && message@ == utf8_error(bytes@),
        },
{
    String::from_utf8(bytes).map_err(|error| error.to_string())
}

/// Why a source list could not be built.
#[derive(Debug, Clone, PartialEq, Eq)]
pub enum BuildError {
    /// The source is not UTF-8 text.
    NotUtf8 {
        /// Decoder error detail.
        source: String,
    },
    /// The source names too few domains.
    TooFewEntries {
        /// Name of the list.
        name: String,
        /// How many domains it names.
        found: usize,
        /// How many it has to name.
        minimum: usize,
    },
    /// The trie could not be built.
    Trie {
        /// What the trie builder reports.
        source: String,
    },
}

impl BuildError {
    /// What the error says.
    pub open spec fn text(&self) -> Seq<char> {
        match self {
            BuildError::NotUtf8 { source } => "source is not UTF-8 text"@,
            BuildError::TooFewEntries { name, found, minimum } => name@ + " yielded "@
                + decimal(*found as nat) + " entries, below minimum "@
                + decimal(*minimum as nat),
            BuildError::Trie { source } => source@,
        }
    }

    /// What the error says.
    #[must_use]
    pub fn message(&self) -> (r: String)
        ensures
            r@ == self.text(),
    {
        match self {
            BuildError::NotUtf8 { source } => "source is not UTF-8 text".to_owned(),
            BuildError::TooFewEntries { name, found, minimum } => {
                let found: String = to_decimal(*found as u64);
                let minimum: String = to_decimal(*minimum as u64);
                let mut out: String = joined(name.as_str(), " yielded ");
                append(&mut out, found.as_str());
                append(&mut out, " entries, below minimum ");
                append(&mut out, minimum.as_str());
                out
            },
            BuildError::Trie { source } => source.clone(),
        }
    }
}

/// The file name of the artifact of a list.
pub open spec fn artifact_name(name: Seq<char>) -> Seq<char> {
    name + ".zerotrie"@
}

/// The file name of the artifact of a list.
#[must_use]
pub fn artifact_path(name: &str) -> (r: String)
    ensures
        r@ == artifact_name(name@),
{
    joined(name, ".zerotrie")
}

/// The domains that a source list comes down to: those that it names, without
/// the ones that others of them shadow.
pub open spec fn effective_domains(text: Seq<char>, format: ListFormat) -> Seq<Seq<char>> {
    collapsed(listed_domains(text, format))
}

/// `entry` is the manifest entry of a list that was built just now from `raw`.
pub open spec fn describes(
    entry: ListEntry,
    source: SourceConfig,
    raw: Seq<u8>,
    artifact: Seq<u8>,
    count: int,
) -> bool {
    &&& entry.name@ == source.name@
    &&& entry.source_url@ == source.url@
    &&& entry.format@ == source.format@
    &&& entry.license@ == source.license@
    &&& entry.license_url@ == source.license_url@
    &&& entry.artifact_path@ == artifact_name(source.name@)
    &&& entry.source_sha256@ == hex_text(sha256(raw))
    &&& entry.artifact_sha256@ == hex_text(sha256(artifact))
    &&& entry.entry_count == count
    &&& !entry.stale
}

/// What comes of building a list from its text: an artifact that blocks what the
/// lookup forms of the effective domains cover, or an error.
pub open spec fn builds(
    source: SourceConfig,
    format: ListFormat,
    raw: Seq<u8>,
    text: Seq<char>,
    min_entries: usize,
    r: Result<(ListEntry, Vec<u8>), BuildError>,
) -> bool {
    let domains = effective_domains(text, format);
    &&& collapses(listed_domains(text, format), domains)
    &&& match r {
        Ok((entry, artifact)) => {
            &&& domains.len() >= min_entries
            &&& trie_bytes(entries(lookup_forms(domains))) == Ok::<Seq<u8>, Seq<char>>(artifact@)
            &&& trie_ok(artifact@)
            &&& blocks_exactly(artifact@, lookup_forms(domains))
            &&& describes(entry, source, raw, artifact@, domains.len() as int)
        },
        Err(BuildError::TooFewEntries { name, found, minimum }) => {
            &&& name@ == source.name@
            &&& found == domains.len()
            &&& minimum == min_entries
            &&& found < minimum
        },
        Err(BuildError::Trie { source: message }) => {
            &&& domains.len() >= min_entries
            &&& domains.len() > MAX_SURE_ENTRIES
            &&& trie_bytes(entries(lookup_forms(domains))) == Err::<Seq<u8>, Seq<char>>(message@)
        },
        Err(BuildError::NotUtf8 { source: _ }) => false,
    }
}

/// An artifact blocks what the domains that its source names cover: never more, and
/// no less if the source gives its domains in ASCII, or else if they are their own
/// lookup forms.
pub proof fn artifacts_block_what_sources_name(
    source: SourceConfig,
    format: ListFormat,
    raw: Seq<u8>,
    text: Seq<char>,
    min_entries: usize,
    r: Result<(ListEntry, Vec<u8>), BuildError>,
    d: Seq<char>,
)
    requires
        builds(source, format, raw, text, min_entries, r),
        r is Ok,
        valid_hostname(d),
    ensures
        trie_blocks(r->Ok_0.1@, d) ==> covered(listed_domains(text, format), d),
        ascii_named(lines(text), format) || own_forms(listed_domains(text, format)) ==> (
        trie_blocks(r->Ok_0.1@, d) <==> covered(listed_domains(text, format), d)),
{
    let listed = listed_domains(text, format);
    let kept = effective_domains(text, format);
    let forms = lookup_forms(kept);
    let artifact = r->Ok_0.1@;
    listed_domains_are_lookup_forms(text, format);
    assert forall|i: int| 0 <= i < kept.len() implies {
        let n = normalized(#[trigger] kept[i]);
        &&& n is None || n == Some(kept[i])
        &&& ascii_named(lines(text), format) || own_forms(listed) ==> n == Some(kept[i])
    } by {
        assert(kept.contains(kept[i]));
        let w = choose|w: int| 0 <= w < listed.len() && listed[w] == kept[i];
        assert(valid_hostname(listed[w]));
    }
    collapse_keeps_coverage(listed, kept, d);
    if ascii_named(lines(text), format) || own_forms(listed) {
        own_forms_are_kept(kept);
    }
    if trie_blocks(artifact, d) {
        lookup_forms_come_from_domains(kept);
        let x = choose|x: int| 0 <= x < forms.len() && covers(#[trigger] forms[x], d);
        let i = choose|i: int|
            0 <= i < kept.len() && normalized(#[trigger] kept[i]) == Some(forms[x]);
        assert(covers(kept[i], d));
    }
}

/// Builds the artifact of a list from its text, and its manifest entry. `raw` is
/// the source as it was downloaded.
///
/// # Errors
///
/// Returns a `BuildError` if the text names too few domains or the trie cannot be
/// built.
pub fn compile_text(
    source: &SourceConfig,
    format: ListFormat,
    raw: &[u8],
    text: &str,
    min_entries: usize,
) -> (r: Result<(ListEntry, Vec<u8>), BuildError>)
    ensures
        builds(*source, format, raw@, text@, min_entries, r),
{
    let domains: Vec<String> = collapse_parent_shadowed(parse_domains(text, format));
    let count: usize = domains.len();
    if count < min_entries {
        return Err(
            BuildError::TooFewEntries {
                name: source.name.clone(),
                found: count,
                minimum: min_entries,
            },
        );
    }
    let mut refs: Vec<&str> = Vec::new();
    let mut k: usize = 0;
    while k < domains.len()
        invariant
            k <= domains@.len(),
            refs@.len() == k,
            forall|i: int| 0 <= i < k ==> (#[trigger] refs@[i])@ == domains@[i]@,
        decreases domains@.len() - k,
    {
        refs.push(domains[k].as_str());
        k = k + 1;
    }
    proof {
        assert(slices(refs@) =~= texts(domains@));
    }
    match encode_domains(refs.as_slice()) {
        Ok(artifact) => {
            let entry: ListEntry = ListEntry {
                name: source.name.clone(),
                source_url: source.url.clone(),
                format: source.format.clone(),
                license: source.license.clone(),
                license_url: source.license_url.clone(),
                artifact_path: artifact_path(source.name.as_str()),
                source_sha256: sha256_hex(raw),
                artifact_sha256: sha256_hex(artifact.as_slice()),
                entry_count: count,
                stale: false,
            };
            Ok((entry, artifact))
        },
        Err(error) => {
            proof {
                lookup_forms_come_from_domains(texts(domains@));
            }
            Err(BuildError::Trie { source: error.message })
        },
    }
}

/// Builds the artifact of a downloaded list, and its manifest entry.
///
/// # Errors
///
/// Returns a `BuildError` if the source is not UTF-8 text, names too few domains,
/// or the trie cannot be built.
pub fn compile_source(
    source: &SourceConfig,
    format: ListFormat,
    raw: Vec<u8>,
    min_entries: usize,
) -> (r: Result<(ListEntry, Vec<u8>), BuildError>)
    ensures
        match r {
            Err(BuildError::NotUtf8 { source: message }) => {
                &&& !valid_utf8(raw@)
                &&& message@ == utf8_error(raw@)
            },
            _ => {
                &&& valid_utf8(raw@)
                &&& builds(*source, format, raw@, decode_utf8(raw@), min_entries, r)
            },
        },
{
    let mut copy: Vec<u8> = Vec::new();
    copy.extend_from_slice(raw.as_slice());
    proof {
        assert(copy@ =~= raw@);
    }
    match text_from_utf8(copy) {
        Ok(text) => {
            proof {
                encode_utf8_decode_utf8(text@);
            }
            compile_text(source, format, raw.as_slice(), text.as_str(), min_entries)
        },
        Err(message) => Err(BuildError::NotUtf8 { source: message }),
    }
}

/// Whether the artifact of an earlier run stands in for a source that could not be
/// fetched: only if that is allowed and the artifact is there. Otherwise the fetch
/// failure stands.
#[must_use]
pub fn reuses_artifact(allow_stale: bool, artifact_exists: bool) -> (r: bool)
    ensures
        r == (allow_stale && artifact_exists),
{
    allow_stale && artifact_exists
}

/// Which of the entries is the last with the given name; -1 if none is.
pub open spec fn last_entry(existing: Seq<ListEntry>, name: Seq<char>) -> int
    decreases existing.len(),
{
    if existing.len() == 0 {
        -1
    } else if existing.last().name@ == name {
        existing.len() - 1
    } else {
        last_entry(existing.drop_last(), name)
    }
}

/// `entry` is `existing`, reused for an artifact that could not be refreshed.
pub open spec fn reuses(entry: ListEntry, existing: ListEntry, artifact: Seq<u8>) -> bool {
    &&& entry.name@ == existing.name@
    &&& entry.source_url@ == existing.source_url@
    &&& entry.format@ == existing.format@
    &&& entry.license@ == existing.license@
    &&& entry.license_url@ == existing.license_url@
    &&& entry.artifact_path@ == existing.artifact_path@
    &&& entry.source_sha256@ == existing.source_sha256@
    &&& entry.artifact_sha256@ == hex_text(sha256(artifact))
    &&& entry.entry_count == existing.entry_count
    &&& entry.stale
}

/// The manifest entry of a list whose source could not be fetched, and whose
/// artifact is there from an earlier run: the entry that the earlier manifest
/// holds under its name, marked stale.
///
/// # Errors
///
/// Returns a message if the earlier manifest holds none.
pub fn stale_entry(name: &str, existing: &Vec<ListEntry>, artifact: &[u8]) -> (r: Result<
    ListEntry,
    String,
>)
    ensures
        match r {
            Ok(entry) => {
                let at = last_entry(existing@, name@);
                &&& at >= 0
                &&& reuses(entry, existing@[at], artifact@)
            },
            Err(message) => {
                &&& last_entry(existing@, name@) < 0
                &&& message@ == "cannot reuse stale artifact for "@ + name@
                    + " without an existing manifest entry"@
            },
        },
{
    let wanted: Vec<char> = chars_of(name);
    let mut k: usize = existing.len();
    proof {
        assert(existing@.take(k as int) =~= existing@);
    }
    while k > 0
        invariant
            k <= existing@.len(),
            wanted@ == name@,
            last_entry(existing@, name@) == last_entry(existing@.take(k as int), name@),
        decreases k,
    {
        let at: usize = k - 1;
        let found: Vec<char> = chars_of(existing[at].name.as_str());
        proof {
            assert(existing@.take(k as int).drop_last() =~= existing@.take(at as int));
        }
        if same_text(found.as_slice(), wanted.as_slice()) {
            let old_entry: &ListEntry = &existing[at];
            return Ok(
                ListEntry {
                    name: old_entry.name.clone(),
                    source_url: old_entry.source_url.clone(),
                    format: old_entry.format.clone(),
                    license: old_entry.license.clone(),
                    license_url: old_entry.license_url.clone(),
                    artifact_path: old_entry.artifact_path.clone(),
                    source_sha256: old_entry.source_sha256.clone(),
                    artifact_sha256: sha256_hex(artifact),
                    entry_count: old_entry.entry_count,
                    stale: true,
                },
            );
        }
        k = k - 1;
    }
    let mut message: String = joined("cannot reuse stale artifact for ", name);
    append(&mut message, " without an existing manifest entry");
    Err(message)
}

/// The manifest of the lists that were built.
#[must_use]
pub fn new_manifest(generated_at: String, lists: Vec<ListEntry>) -> (r: Manifest)
    ensures
        r.schema == SCHEMA,
        r.generated_at@ == generated_at@,
        r.lists@ == lists@,
{
    Manifest { schema: SCHEMA, generated_at, lists }
}

/// The generation time out of what a clock command printed.
///
/// # Errors
///
/// Returns a message if that is not UTF-8 text.
pub fn timestamp(printed: Vec<u8>) -> (r: Result<String, String>)
    ensures
        match r {
            Ok(text) => {
                &&& valid_utf8(printed@)
                &&& text@ == trim(decode_utf8(printed@))
            },
            Err(message) => !valid_utf8(printed@) && message@ == utf8_error(printed@),
        },
{
    match text_from_utf8(printed) {
        Ok(text) => {
            let chars: Vec<char> = chars_of(text.as_str());
            proof {
                encode_utf8_decode_utf8(text@);
            }
            Ok(string_of(trim_text(chars.as_slice())))
        },
        Err(message) => Err(message),
    }
}

/// How often a source is fetched before it is given up.
pub const MAX_ATTEMPTS: u32 = 3;

/// The state of fetching one source: how many attempts have failed, and how the
/// last one did.
#[derive(Debug, Clone, PartialEq, Eq)]
pub struct Retry {
    failed: u32,
    last_error: Option<String>,
}

impl Retry {
    /// How many attempts have failed.
    pub closed spec fn failures(&self) -> nat {
        self.failed as nat
    }

    /// How the last attempt failed.
    pub closed spec fn last(&self) -> Option<Seq<char>> {
        text_view(self.last_error)
    }

    /// The state before the first attempt.
    #[must_use]
    pub fn new() -> (r: Self)
        ensures
            r.failures() == 0,
            r.last() is None,
    {
        Retry { failed: 0, last_error: None }
    }

    /// Whether another attempt is to be made.
    #[must_use]
    pub fn may_try(&self) -> (r: bool)
        ensures
            r == (self.failures() < MAX_ATTEMPTS),
    {
        self.failed < MAX_ATTEMPTS
    }

    /// Takes note of a failed attempt. Gives how many seconds to wait after it:
    /// one after the first, and twice as many after each further one.
    pub fn record_failure(&mut self, error: String) -> (r: u64)
        requires
            old(self).failures() < MAX_ATTEMPTS,
        ensures
            final(self).failures() == old(self).failures() + 1,
            final(self).last() == Some(error@),
            r == pow2(old(self).failures()),
    {
        let seconds: u64 = if self.failed == 0 {
            1
        } else if self.failed == 1 {
            2
        } else {
            4
        };
        proof {
            lemma2_to64();
        }
        self.failed = self.failed + 1;
        self.last_error = Some(error);
        seconds
    }

    /// What is reported when no further attempt is made.
    #[must_use]
    pub fn failure(&self, url: &str) -> (r: String)
        ensures
            r@ == "failed to fetch "@ + url@ + ": "@ + (match self.last() {
                Some(error) => error,
                None => "unknown error"@,
            }),
    {
        let mut out: String = joined("failed to fetch ", url);
        append(&mut out, ": ");
        match &self.last_error {
            Some(error) => {
                append(&mut out, error.as_str());
            },
            None => {
                append(&mut out, "unknown error");
            },
        }
        out
    }
}

/// A further byte adds two hexadecimal digits, the high one first, in lower case.
pub proof fn bytes_have_two_hexadecimal_digits(bytes: Seq<u8>, b: u8)
    ensures
        hex_text(Seq::empty()) == Seq::<char>::empty(),
        ({
            let s = hex_text(bytes.push(b));
            let (high, low) = (b as int / 16, b as int % 16);
            let n = 2 * bytes.len() as int;
            &&& s.len() == n + 2
            &&& s.take(n) == hex_text(bytes)
            &&& s[n] as u32 == (if high < 10 {
                48 + high
            } else {
                87 + high
            })
            &&& s[n + 1] as u32 == (if low < 10 {
                48 + low
            } else {
                87 + low
            })
        }),
{
    let s = hex_text(bytes.push(b));
    let n = 2 * bytes.len() as int;
    assert forall|i: int| 0 <= i < n implies s[i] == #[trigger] hex_text(bytes)[i] by {
        assert(bytes.push(b)[i / 2] == bytes[i / 2]);
    }
    assert(s.take(n) =~= hex_text(bytes));
    assert(bytes.push(b)[n / 2] == b);
    assert(n % 2 == 0 && (n + 1) % 2 == 1 && (n + 1) / 2 == n / 2);
    assert(hex_text(Seq::empty()) =~= Seq::<char>::empty());
}

/// The artifact of a list has its name.
pub proof fn artifacts_are_named_after_their_list(name: Seq<char>)
    ensures
        artifact_name(name) == name + ".zerotrie"@,
{
}

/// A list is built from the domains that its text names without those that end in a dot
/// and another one of them: if these are too few, that is the error, and else the artifact
/// blocks what their lookup forms cover, and the entry says where it comes from and what
/// it holds.
pub proof fn builds_follow_their_source(
    source: SourceConfig,
    format: ListFormat,
    raw: Seq<u8>,
    text: Seq<char>,
    min_entries: usize,
    r: Result<(ListEntry, Vec<u8>), BuildError>,
    t: Seq<char>,
)
    requires
        builds(source, format, raw, text, min_entries, r),
    ensures
        ({
            let listed = listed_domains(text, format);
            let domains = effective_domains(text, format);
            &&& domains.contains(t) <==> listed.contains(t) && forall|u: Seq<char>, front: Seq<
                char,
            >| #[trigger]
                listed.contains(u) ==> t != #[trigger] (front.push('.') + u)
            &&& forall|i: int|
                0 < i < domains.len() ==> text_less(domains[i - 1], #[trigger] domains[i])
            &&& (r is Err && r->Err_0 is TooFewEntries) <==> domains.len() < min_entries
            &&& r matches Err(BuildError::TooFewEntries { name, found, minimum }) ==> name@
                == source.name@ && found == domains.len() && minimum == min_entries
            &&& !(r matches Err(BuildError::NotUtf8 { source: _ }))
            &&& r matches Err(BuildError::Trie { source: message }) ==> domains.len() > 1_000_000
                && trie_bytes(entries(lookup_forms(domains))) == Err::<Seq<u8>, Seq<char>>(message@)
            &&& r matches Ok((entry, artifact)) ==> {
                &&& trie_bytes(entries(lookup_forms(domains))) == Ok::<Seq<u8>, Seq<char>>(
                    artifact@,
                )
                &&& entry.name@ == source.name@
                &&& entry.source_url@ == source.url@
                &&& entry.format@ == source.format@
                &&& entry.license@ == source.license@
                &&& entry.license_url@ == source.license_url@
                &&& entry.artifact_path@ == source.name@ + ".zerotrie"@
                &&& entry.source_sha256@ == hex_text(sha256(raw))
                &&& entry.artifact_sha256@ == hex_text(sha256(artifact@))
                &&& entry.entry_count == domains.len()
                &&& !entry.stale
            }
        }),
{
    collapsing_drops_what_ends_in_another_entry(
        listed_domains(text, format),
        effective_domains(text, format),
        t,
    );
}

/// A reused entry is the earlier one, but for its digest and that it is stale.
pub proof fn reused_entries_are_marked_stale(entry: ListEntry, existing: ListEntry, artifact: Seq<u8>)
    requires
        reuses(entry, existing, artifact),
    ensures
        entry.name@ == existing.name@,
        entry.source_url@ == existing.source_url@,
        entry.format@ == existing.format@,
        entry.license@ == existing.license@,
        entry.license_url@ == existing.license_url@,
        entry.artifact_path@ == existing.artifact_path@,
        entry.source_sha256@ == existing.source_sha256@,
        entry.artifact_sha256@ == hex_text(sha256(artifact)),
        entry.entry_count == existing.entry_count,
        entry.stale,
{
}

/// Of the entries with a name, the last one counts.
pub proof fn the_last_entry_of_a_name_counts(existing: Seq<ListEntry>, name: Seq<char>)
    ensures
        -1 <= last_entry(existing, name) < existing.len(),
        last_entry(existing, name) >= 0 ==> existing[last_entry(existing, name)].name@ == name,
        forall|i: int|
            last_entry(existing, name) < i < existing.len() ==> (#[trigger] existing[i]).name@
                != name,
    decreases existing.len(),
{
    if existing.len() > 0 && existing.last().name@ != name {
        let front = existing.drop_last();
        the_last_entry_of_a_name_counts(front, name);
        assert forall|i: int| last_entry(existing, name) < i < existing.len() implies (
        #[trigger] existing[i]).name@ != name by {
            if i < front.len() {
                assert(front[i] == existing[i]);
            }
        }
    }
}

/// What a build error says.
pub proof fn build_errors_say_what_failed(e: BuildError)
    ensures
        e is NotUtf8 ==> e.text() == "source is not UTF-8 text"@,
        e matches BuildError::TooFewEntries { name, found, minimum } ==> e.text() == name@
            + " yielded "@ + decimal(found as nat) + " entries, below minimum "@ + decimal(
            minimum as nat,
        ),
        e matches BuildError::Trie { source } ==> e.text() == source@,
{
}

} // verus!
