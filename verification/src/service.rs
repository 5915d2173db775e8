//! The HTTP side of the resolver: which requests are served and how, loading
//! compiled lists, and the version report.

use crate::base64url::base64url;
use crate::blocklist::{parses_to, Blocklist, CompiledList, ListEntry, Manifest, Overlay};
use crate::dns::{dns_decode, dns_encode, MessageView};
use crate::resolve::{
    any_blocked, asked_names, decode_get_query, nxdomain_answer, resolve_query,
    DEFAULT_UPSTREAM_DOH, DNS_MESSAGE_CONTENT_TYPE, ResolveDecision, ResolveError,
};
use crate::text::{
    append, chars_of, decimal, has_prefix, joined, same_text, starts_with, to_decimal,
};
use vstd::prelude::*;

verus! {

/// What a request path asks for.
#[derive(Debug, Clone, Copy, PartialEq, Eq, Structural)]
pub enum Route {
    /// DNS over HTTPS.
    DnsQuery,
    /// Whether the service is up.
    Health,
    /// Which lists are in use.
    Version,
    /// Nothing that is served.
    NotFound,
}

/// The route of a path.
pub open spec fn path_route(path: Seq<char>) -> Route {
    if path == "/"@ || path == "/dns-query"@ {
        Route::DnsQuery
    } else if path == "/health"@ {
        Route::Health
    } else if path == "/version"@ {
        Route::Version
    } else {
        Route::NotFound
    }
}

/// Whether two strings are the same.
fn is_text(a: &str, b: &str) -> (r: bool)
    ensures
        r == (a@ == b@),
{
    let left: Vec<char> = chars_of(a);
    let right: Vec<char> = chars_of(b);
    same_text(left.as_slice(), right.as_slice())
}

/// The route of a path.
#[must_use]
pub fn route(path: &str) -> (r: Route)
    ensures
        r == path_route(path@),
{
    if is_text(path, "/") || is_text(path, "/dns-query") {
        Route::DnsQuery
    } else if is_text(path, "/health") {
        Route::Health
    } else if is_text(path, "/version") {
        Route::Version
    } else {
        Route::NotFound
    }
}

/// The method of a request, as far as the service tells methods apart.
#[derive(Debug, Clone, Copy, PartialEq, Eq, Structural)]
pub enum RequestMethod {
    /// The query is in the URL.
    Get,
    /// The query is in the body.
    Post,
    /// Not served.
    Other,
}

/// A refusal: its HTTP status and what it says.
#[derive(Debug, Clone, PartialEq, Eq)]
pub struct Refusal {
    /// HTTP status.
    pub status: u16,
    /// Response body.
    pub message: String,
}

/// The refusal `r` has this status and message.
pub open spec fn refuses(r: Refusal, status: int, message: Seq<char>) -> bool {
    r.status == status && r.message@ == message
}

fn refusal(status: u16, message: &str) -> (r: Refusal)
    ensures
        refuses(r, status as int, message@),
{
    Refusal { status, message: message.to_owned() }
}

/// Where the query of a request comes from.
#[derive(Debug, Clone, PartialEq, Eq)]
pub enum QuerySource {
    /// From the URL: these bytes.
    Url {
        /// DNS wire-format query.
        query: Vec<u8>,
    },
    /// From the body of the request, still to be read.
    Body,
}

/// Which of the query pairs of a URL is the first named `dns`; their number if
/// none is.
pub open spec fn dns_pair(pairs: Seq<(String, String)>) -> int
    decreases pairs.len(),
{
    if pairs.len() == 0 || pairs[0].0@ == "dns"@ {
        0
    } else {
        1 + dns_pair(pairs.skip(1))
    }
}

/// Finds the first pair named `dns`.
fn find_dns_pair(pairs: &Vec<(String, String)>) -> (r: usize)
    ensures
        r == dns_pair(pairs@),
        r <= pairs@.len(),
{
    let mut k: usize = 0;
    proof {
        assert(pairs@.skip(0) =~= pairs@);
    }
    while k < pairs.len()
        invariant
            k <= pairs@.len(),
            dns_pair(pairs@) == k + dns_pair(pairs@.skip(k as int)),
        decreases pairs@.len() - k,
    {
        if is_text(pairs[k].0.as_str(), "dns") {
            return k;
        }
        proof {
            assert(pairs@.skip(k as int).skip(1) =~= pairs@.skip(k + 1));
        }
        k = k + 1;
    }
    k
}

/// Decides how the query of a DNS request is obtained, or refuses the request.
/// `pairs` are the decoded query pairs of its URL, `content_type` is its header of
/// that name.
///
/// # Errors
///
/// Returns the refusal: of a GET request without a valid `dns` pair, of a POST
/// request with another content type, and of any other method.
pub fn query_source(
    method: RequestMethod,
    pairs: &Vec<(String, String)>,
    content_type: Option<String>,
) -> (r: Result<QuerySource, Refusal>)
    ensures
        match method {
            RequestMethod::Get => if dns_pair(pairs@) == pairs@.len() {
                r matches Err(e) && refuses(e, 400, "missing dns query parameter"@)
            } else {
                let value = pairs@[dns_pair(pairs@)].1@;
                match r {
                    Ok(QuerySource::Url { query }) => base64url(query@) == value,
                    Ok(QuerySource::Body) => false,
                    Err(e) => {
                        &&& forall|b: Seq<u8>| #[trigger] base64url(b) != value
                        &&& refuses(e, 400, "invalid dns query parameter"@)
                    },
                }
            },
            RequestMethod::Post => if content_type is Some && starts_with(
                content_type->0@,
                DNS_MESSAGE_CONTENT_TYPE@,
            ) {
                r matches Ok(QuerySource::Body)
            } else {
                r matches Err(e) && refuses(e, 415, "unsupported content type"@)
            },
            RequestMethod::Other => r matches Err(e) && refuses(e, 405, "method not allowed"@),
        },
{
    match method {
        RequestMethod::Get => {
            let at: usize = find_dns_pair(pairs);
            if at == pairs.len() {
                return Err(refusal(400, "missing dns query parameter"));
            }
            match decode_get_query(pairs[at].1.as_str()) {
                Ok(query) => Ok(QuerySource::Url { query }),
                Err(_) => Err(refusal(400, "invalid dns query parameter")),
            }
        },
        RequestMethod::Post => {
            let wanted: Vec<char> = chars_of(DNS_MESSAGE_CONTENT_TYPE);
            let given: Vec<char> = match content_type {
                Some(value) => chars_of(value.as_str()),
                None => Vec::new(),
            };
            proof {
                reveal_strlit("application/dns-message");
            }
            if has_prefix(given.as_slice(), wanted.as_slice()) {
                Ok(QuerySource::Body)
            } else {
                Err(refusal(415, "unsupported content type"))
            }
        },
        RequestMethod::Other => Err(refusal(405, "method not allowed")),
    }
}

/// What is done with a query.
#[derive(Debug, Clone, PartialEq, Eq)]
pub enum QueryAction {
    /// It is answered with a DNS message and status 200.
    Answer {
        /// DNS wire-format response.
        response: Vec<u8>,
    },
    /// It is sent to the upstream resolver.
    Forward {
        /// DNS wire-format query.
        query: Vec<u8>,
    },
    /// It is refused.
    Refuse {
        /// The refusal.
        refusal: Refusal,
    },
}

/// What a decision of the resolver leads to.
pub open spec fn acts_on(
    decision: Result<ResolveDecision, ResolveError>,
    action: QueryAction,
) -> bool {
    match decision {
        Ok(ResolveDecision::Block { response }) => action == (QueryAction::Answer { response }),
        Ok(ResolveDecision::Forward { query }) => action == (QueryAction::Forward { query }),
        Err(_) => action matches QueryAction::Refuse { refusal } && refuses(
            refusal,
            400,
            "invalid dns message"@,
        ),
    }
}

/// What a decision of the resolver leads to.
#[must_use]
pub fn action_for(decision: Result<ResolveDecision, ResolveError>) -> (r: QueryAction)
    ensures
        acts_on(decision, r),
{
    match decision {
        Ok(ResolveDecision::Block { response }) => QueryAction::Answer { response },
        Ok(ResolveDecision::Forward { query }) => QueryAction::Forward { query },
        Err(_) => QueryAction::Refuse { refusal: refusal(400, "invalid dns message") },
    }
}

/// Decides what is done with a query: forwarded as it is if no name that it asks
/// for is blocked, answered with NXDOMAIN if one is, and refused if it cannot be
/// decoded or answered.
#[must_use]
pub fn serve_query(query: &[u8], blocklist: &Blocklist) -> (r: QueryAction)
    ensures
        match dns_decode(query@) {
            Ok(m) => if any_blocked(blocklist, asked_names(m)) {
                match r {
                    QueryAction::Answer { response } => {
                        &&& dns_encode(nxdomain_answer(m)) == Ok::<Seq<u8>, Seq<char>>(response@)
                        &&& dns_decode(response@) == Ok::<MessageView, Seq<char>>(
                            nxdomain_answer(m),
                        )
                    },
                    QueryAction::Forward { query: _ } => false,
                    QueryAction::Refuse { refusal } => {
                        &&& refuses(refusal, 400, "invalid dns message"@)
                        &&& dns_encode(nxdomain_answer(m)) is Err
                        &&& 12 + 259 * m.questions.len() > 65535
                    },
                }
            } else {
                r matches QueryAction::Forward { query: q } && q@ == query@
            },
            Err(_) => r matches QueryAction::Refuse { refusal } && refuses(
                refusal,
                400,
                "invalid dns message"@,
            ),
        },
{
    action_for(resolve_query(query, blocklist))
}

/// The upstream resolver: the configured one, or the default.
#[must_use]
pub fn upstream(configured: Option<String>) -> (r: String)
    ensures
        r@ == (match configured {
            Some(url) => url@,
            None => DEFAULT_UPSTREAM_DOH@,
        }),
{
    match configured {
        Some(url) => url,
        None => DEFAULT_UPSTREAM_DOH.to_owned(),
    }
}

/// The URL under which an asset is fetched.
#[must_use]
pub fn asset_url(path: &str) -> (r: String)
    ensures
        r@ == "https://blocklist-assets/"@ + path@,
{
    joined("https://blocklist-assets/", path)
}

/// Checks the status with which an asset came.
///
/// # Errors
///
/// Returns a message unless the status is one of success.
pub fn check_asset_status(path: &str, status: u16) -> (r: Result<(), String>)
    ensures
        match r {
            Ok(_) => 200 <= status < 300,
            Err(message) => {
                &&& !(200 <= status < 300)
                &&& message@ == "asset fetch failed for "@ + path@ + ": "@
                    + decimal(status as nat)
            },
        },
{
    if 200 <= status && status < 300 {
        return Ok(());
    }
    let number: String = to_decimal(status as u64);
    let mut message: String = joined("asset fetch failed for ", path);
    append(&mut message, ": ");
    append(&mut message, number.as_str());
    Err(message)
}

/// The compiled lists that a manifest names, while they are being fetched in its
/// order.
#[derive(Debug, Clone, PartialEq, Eq)]
pub struct ListLoader {
    entries: Vec<ListEntry>,
    compiled: Vec<CompiledList>,
}

impl ListLoader {
    /// The entries of the manifest.
    pub closed spec fn wanted(&self) -> Seq<ListEntry> {
        self.entries@
    }

    /// The lists that have been fetched.
    pub closed spec fn loaded(&self) -> Seq<CompiledList> {
        self.compiled@
    }

    /// What has been fetched are the first lists of the manifest, each under its
    /// name.
    pub open spec fn wf(&self) -> bool {
        &&& self.loaded().len() <= self.wanted().len()
        &&& forall|i: int|
            0 <= i < self.loaded().len() ==> (#[trigger] self.loaded()[i]).title()
                == self.wanted()[i].name@
    }

    /// Starts to load lists.
    #[must_use]
    pub fn new(entries: Vec<ListEntry>) -> (r: Self)
        ensures
            r.wf(),
            r.wanted() == entries@,
            r.loaded() == Seq::<CompiledList>::empty(),
    {
        ListLoader { entries, compiled: Vec::new() }
    }

    /// The path of the asset to fetch next, if there is one.
    #[must_use]
    pub fn next_path(&self) -> (r: Option<String>)
        requires
            self.wf(),
        ensures
            match r {
                Some(path) => {
                    &&& self.loaded().len() < self.wanted().len()
                    &&& path@ == self.wanted()[self.loaded().len() as int].artifact_path@
                },
                None => self.loaded().len() == self.wanted().len(),
            },
    {
        if self.compiled.len() < self.entries.len() {
            Some(self.entries[self.compiled.len()].artifact_path.clone())
        } else {
            None
        }
    }

    /// Takes the asset that was asked for, whatever its bytes are.
    ///
    /// # Errors
    ///
    /// Returns a message, and leaves the lists as they are, if the status is not
    /// one of success.
    pub fn accept(&mut self, status: u16, bytes: Vec<u8>) -> (r: Result<(), String>)
        requires
            old(self).wf(),
            old(self).loaded().len() < old(self).wanted().len(),
        ensures
            final(self).wf(),
            final(self).wanted() == old(self).wanted(),
            match r {
                Ok(_) => {
                    &&& 200 <= status < 300
                    &&& final(self).loaded().len() == old(self).loaded().len() + 1
                    &&& final(self).loaded().drop_last() == old(self).loaded()
                    &&& final(self).loaded().last()@ == bytes@
                },
                Err(message) => {
                    let path = old(self).wanted()[old(self).loaded().len() as int].artifact_path@;
                    &&& !(200 <= status < 300)
                    &&& final(self).loaded() == old(self).loaded()
                    &&& message@ == "asset fetch failed for "@ + path + ": "@ + decimal(
                        status as nat,
                    )
                },
            },
    {
        let at: usize = self.compiled.len();
        match check_asset_status(self.entries[at].artifact_path.as_str(), status) {
            Ok(_) => {},
            Err(message) => {
                return Err(message);
            },
        }
        let list: CompiledList = CompiledList::from_bytes(self.entries[at].name.as_str(), bytes);
        self.compiled.push(list);
        proof {
            assert(self.loaded().drop_last() =~= old(self).loaded());
            assert forall|i: int| 0 <= i < self.loaded().len() implies (
            #[trigger] self.loaded()[i]).title() == self.wanted()[i].name@ by {
                if i < at {
                    assert(self.loaded()[i] == old(self).loaded()[i]);
                }
            }
        }
        Ok(())
    }

    /// The lists, once all of them have been fetched.
    #[must_use]
    pub fn finish(self) -> (r: Vec<CompiledList>)
        ensures
            r@ == self.loaded(),
    {
        self.compiled
    }
}

/// `rules` are those of the `BLOCKLIST` variable; none if it is not set.
pub open spec fn inline_rules(variable: Option<String>, rules: Seq<Seq<char>>) -> bool {
    match variable {
        Some(input) => parses_to(input@, rules),
        None => rules == Seq::<Seq<char>>::empty(),
    }
}

/// The policy of the service: the rules of the `BLOCKLIST` variable, if it is set,
/// on top of the compiled lists. If these could not be loaded, there are none, and
/// the rules apply all the same.
#[must_use]
pub fn assemble_blocklist(variable: Option<String>, loaded: Option<Vec<CompiledList>>) -> (r:
    Blocklist)
    ensures
        r.lists() == (match loaded {
            Some(compiled) => compiled@,
            None => Seq::<CompiledList>::empty(),
        }),
        inline_rules(variable, r.rules()),
{
    let overlay: Overlay = match variable {
        Some(input) => Overlay::parse(input.as_str()),
        None => Overlay::default(),
    };
    match loaded {
        Some(compiled) => Blocklist::new(compiled, overlay),
        None => Blocklist::new(Vec::new(), overlay),
    }
}

/// The policy of the service, which is built once, and the manifest of its lists.
#[derive(Debug, Clone, PartialEq, Eq)]
pub struct PolicyCache {
    policy: Option<Blocklist>,
    manifest: Option<Manifest>,
}

impl PolicyCache {
    /// The policy, once it is built.
    pub closed spec fn blocklist(&self) -> Option<Blocklist> {
        self.policy
    }

    /// The manifest of the lists of the policy, if they could be loaded.
    pub closed spec fn source(&self) -> Option<Manifest> {
        self.manifest
    }

    /// The state before the policy is built.
    #[must_use]
    pub fn new() -> (r: Self)
        ensures
            r.blocklist() is None,
            r.source() is None,
    {
        PolicyCache { policy: None, manifest: None }
    }

    /// Returns the policy, once it is built.
    #[must_use]
    pub fn policy(&self) -> (r: Option<&Blocklist>)
        ensures
            match r {
                Some(policy) => self.blocklist() == Some(*policy),
                None => self.blocklist() is None,
            },
    {
        match &self.policy {
            Some(policy) => Some(policy),
            None => None,
        }
    }

    /// Returns the manifest of the lists of the policy, if they could be loaded.
    #[must_use]
    pub fn manifest(&self) -> (r: Option<&Manifest>)
        ensures
            match r {
                Some(manifest) => self.source() == Some(*manifest),
                None => self.source() is None,
            },
    {
        match &self.manifest {
            Some(manifest) => Some(manifest),
            None => None,
        }
    }

    /// Builds the policy out of the `BLOCKLIST` variable, if it is set, and of the
    /// compiled lists with their manifest, if they could be loaded. A policy that is
    /// built already stays as it is.
    pub fn install(
        &mut self,
        variable: Option<String>,
        loaded: Option<(Manifest, Vec<CompiledList>)>,
    )
        ensures
            old(self).blocklist() is Some ==> *final(self) == *old(self),
            old(self).blocklist() is None ==> {
                &&& final(self).blocklist() matches Some(policy)
                &&& inline_rules(variable, policy.rules())
                &&& match loaded {
                    Some((manifest, compiled)) => {
                        &&& policy.lists() == compiled@
                        &&& final(self).source() == Some(manifest)
                    },
                    None => {
                        &&& policy.lists() == Seq::<CompiledList>::empty()
                        &&& final(self).source() is None
                    },
                }
            },
    {
        if self.policy.is_some() {
            return;
        }
        match loaded {
            Some((manifest, compiled)) => {
                self.policy = Some(assemble_blocklist(variable, Some(compiled)));
                self.manifest = Some(manifest);
            },
            None => {
                self.policy = Some(assemble_blocklist(variable, None));
                self.manifest = None;
            },
        }
    }
}

/// What the version report says of one list.
#[derive(Debug, Clone, PartialEq, Eq)]
pub struct ListSummary<'a> {
    /// Stable list name.
    pub name: &'a str,
    /// Source URL.
    pub source_url: &'a str,
    /// Source license name.
    pub license: &'a str,
    /// Source license URL.
    pub license_url: &'a str,
    /// Number of effective entries.
    pub entry_count: usize,
    /// SHA-256 of the serialized artifact.
    pub artifact_sha256: &'a str,
    /// SHA-256 of the raw downloaded source.
    pub source_sha256: &'a str,
    /// Whether a stale artifact was reused.
    pub stale: bool,
}

/// `summary` says of a list what its manifest entry does.
pub open spec fn summarizes(summary: ListSummary<'_>, entry: ListEntry) -> bool {
    &&& summary.name@ == entry.name@
    &&& summary.source_url@ == entry.source_url@
    &&& summary.license@ == entry.license@
    &&& summary.license_url@ == entry.license_url@
    &&& summary.entry_count == entry.entry_count
    &&& summary.artifact_sha256@ == entry.artifact_sha256@
    &&& summary.source_sha256@ == entry.source_sha256@
    &&& summary.stale == entry.stale
}

impl<'a> ListSummary<'a> {
    /// What the version report says of the list of a manifest entry.
    #[must_use]
    pub fn from_entry(entry: &'a ListEntry) -> (r: Self)
        ensures
            summarizes(r, *entry),
    {
        ListSummary {
            name: entry.name.as_str(),
            source_url: entry.source_url.as_str(),
            license: entry.license.as_str(),
            license_url: entry.license_url.as_str(),
            entry_count: entry.entry_count,
            artifact_sha256: entry.artifact_sha256.as_str(),
            source_sha256: entry.source_sha256.as_str(),
            stale: entry.stale,
        }
    }
}

/// The version report.
#[derive(Debug, Clone, PartialEq, Eq)]
pub struct VersionSummary<'a> {
    /// Artifact generation timestamp.
    pub generated_at: &'a str,
    /// The lists in use.
    pub lists: Vec<ListSummary<'a>>,
}

impl<'a> VersionSummary<'a> {
    /// The version report for a manifest: its lists, in its order.
    #[must_use]
    pub fn from_manifest(manifest: &'a Manifest) -> (r: Self)
        ensures
            r.generated_at@ == manifest.generated_at@,
            r.lists@.len() == manifest.lists@.len(),
            forall|i: int|
                0 <= i < r.lists@.len() ==> summarizes(#[trigger] r.lists@[i], manifest.lists@[i]),
    {
        let mut lists: Vec<ListSummary<'a>> = Vec::new();
        let mut k: usize = 0;
        while k < manifest.lists.len()
            invariant
                k <= manifest.lists@.len(),
                lists@.len() == k,
                forall|i: int| 0 <= i < k ==> summarizes(#[trigger] lists@[i], manifest.lists@[i]),
            decreases manifest.lists@.len() - k,
        {
            lists.push(ListSummary::from_entry(&manifest.lists[k]));
            k = k + 1;
        }
        VersionSummary { generated_at: manifest.generated_at.as_str(), lists }
    }
}

/// A path is served under its name and under no other.
pub proof fn paths_have_one_route(path: Seq<char>)
    ensures
        path_route(path) == Route::DnsQuery <==> path == "/"@ || path == "/dns-query"@,
        path_route(path) == Route::Health <==> path == "/health"@,
        path_route(path) == Route::Version <==> path == "/version"@,
{
    reveal_strlit("/");
    reveal_strlit("/dns-query");
    reveal_strlit("/health");
    reveal_strlit("/version");
    assert("/health"@.len() == 7);
    assert("/version"@.len() == 8);
}

/// A refusal has its status and message.
pub proof fn refusals_have_status_and_message(r: Refusal, status: int, message: Seq<char>)
    ensures
        refuses(r, status, message) <==> r.status == status && r.message@ == message,
{
}

/// The first pair named `dns` counts.
pub proof fn the_first_dns_pair_counts(pairs: Seq<(String, String)>)
    ensures
        0 <= dns_pair(pairs) <= pairs.len(),
        dns_pair(pairs) < pairs.len() ==> pairs[dns_pair(pairs)].0@ == "dns"@,
        forall|i: int| 0 <= i < dns_pair(pairs) ==> (#[trigger] pairs[i]).0@ != "dns"@,
    decreases pairs.len(),
{
    if pairs.len() > 0 && pairs[0].0@ != "dns"@ {
        let rest = pairs.skip(1);
        the_first_dns_pair_counts(rest);
        assert forall|i: int| 0 <= i < dns_pair(pairs) implies (#[trigger] pairs[i]).0@
            != "dns"@ by {
            if i > 0 {
                assert(rest[i - 1] == pairs[i]);
            }
        }
        if dns_pair(pairs) < pairs.len() {
            assert(rest[dns_pair(rest)] == pairs[dns_pair(pairs)]);
        }
    }
}

/// A local answer is sent, a query that is passed on is sent upstream, and what cannot be
/// decided is refused.
pub proof fn decisions_are_acted_on(
    decision: Result<ResolveDecision, ResolveError>,
    action: QueryAction,
)
    requires
        acts_on(decision, action),
    ensures
        decision matches Ok(ResolveDecision::Block { response }) ==> action == (
        QueryAction::Answer { response }),
        decision matches Ok(ResolveDecision::Forward { query }) ==> action == (
        QueryAction::Forward { query }),
        decision is Err ==> action is Refuse && action->refusal.status == 400
            && action->refusal.message@ == "invalid dns message"@,
{
}

/// A set variable gives its rules, one that is not set gives none.
pub proof fn variables_give_their_rules(variable: Option<String>, rules: Seq<Seq<char>>)
    ensures
        variable matches Some(input) ==> (inline_rules(variable, rules) <==> parses_to(
            input@,
            rules,
        )),
        variable is None ==> (inline_rules(variable, rules) <==> rules.len() == 0),
{
    if rules.len() == 0 {
        assert(rules =~= Seq::<Seq<char>>::empty());
    }
}

/// What the version report says of a list is what its manifest entry says.
pub proof fn summaries_repeat_their_entry(summary: ListSummary<'_>, entry: ListEntry)
    requires
        summarizes(summary, entry),
    ensures
        summary.name@ == entry.name@,
        summary.source_url@ == entry.source_url@,
        summary.license@ == entry.license@,
        summary.license_url@ == entry.license_url@,
        summary.entry_count == entry.entry_count,
        summary.artifact_sha256@ == entry.artifact_sha256@,
        summary.source_sha256@ == entry.source_sha256@,
        summary.stale == entry.stale,
{
}

/// The lists that have been fetched are the first ones of the manifest, each under its
/// name there.
pub proof fn loaded_lists_are_the_first_of_the_manifest(loader: ListLoader)
    ensures
        loader.wf() <==> loader.loaded().len() <= loader.wanted().len() && forall|i: int|
            0 <= i < loader.loaded().len() ==> (#[trigger] loader.loaded()[i]).title()
                == loader.wanted()[i].name@,
{
}

} // verus!
