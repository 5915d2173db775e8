//! Blocklists: artifact metadata, inline rules, compiled lists and lookups.

use crate::domain::{
    bare, covered, covers, covers_transitive, key, lemma_parents_cover,
    normalization_is_idempotent, normalize_domain, normalize_rule, normalized, normalized_rule,
    parent_keys, valid_hostname, with_parents,
};
use crate::order::{sorted_distinct, sorted_lists_agree, strictly_sorted, texts};
use crate::text::{
    chars_of, find_any, has_prefix, is_space, lemma_split_step, pieces_stand_between_separators,
    separators_are_interchangeable, split, string_of, what_stands_between_separators_is_a_piece,
};
use crate::trie::{can_look_up, lookup_ok, trie_get, trie_lookup};
use vstd::prelude::*;
use vstd::slice::slice_subrange;
use vstd::utf8::is_ascii_chars;

verus! {

/// Metadata emitted beside blocklist artifacts.
#[derive(Debug, Clone, PartialEq, Eq)]
pub struct Manifest {
    /// Manifest schema version.
    pub schema: u32,
    /// Artifact generation timestamp.
    pub generated_at: String,
    /// Generated list entries.
    pub lists: Vec<ListEntry>,
}

/// Metadata for one generated source list.
#[derive(Debug, Clone, PartialEq, Eq)]
pub struct ListEntry {
    /// Stable list name.
    pub name: String,
    /// Source URL.
    pub source_url: String,
    /// Parser format used for this source.
    pub format: String,
    /// Source license name.
    pub license: String,
    /// Source license URL.
    pub license_url: String,
    /// Artifact filename relative to the assets directory.
    pub artifact_path: String,
    /// SHA-256 of the raw downloaded source.
    pub source_sha256: String,
    /// SHA-256 of the serialized artifact.
    pub artifact_sha256: String,
    /// Number of effective entries after normalization and parent collapse.
    pub entry_count: usize,
    /// Whether stale local artifacts were reused due to a source fetch failure.
    pub stale: bool,
}

/// The characters between which the rules of an overlay stand: the comma and all
/// white space.
pub open spec fn rule_separators() -> Seq<char> {
    seq![
        ',', '\u{9}', '\u{a}', '\u{b}', '\u{c}', '\u{d}', ' ', '\u{85}', '\u{a0}', '\u{1680}',
        '\u{2000}', '\u{2001}', '\u{2002}', '\u{2003}', '\u{2004}', '\u{2005}', '\u{2006}',
        '\u{2007}', '\u{2008}', '\u{2009}', '\u{200a}', '\u{2028}', '\u{2029}', '\u{202f}',
        '\u{205f}', '\u{3000}',
    ]
}

/// The rules of an overlay stand between commas and white space.
pub proof fn rules_stand_between_commas_and_white_space(c: char)
    ensures
        rule_separators().contains(c) <==> c == ',' || is_space(c),
{
    let seps = rule_separators();
    assert(seps[0] == ',');
    assert(seps[1] == '\u{9}' && seps[2] == '\u{a}' && seps[3] == '\u{b}');
    assert(seps[4] == '\u{c}' && seps[5] == '\u{d}' && seps[6] == ' ');
    assert(seps[7] == '\u{85}' && seps[8] == '\u{a0}' && seps[9] == '\u{1680}');
    assert(seps[10] == '\u{2000}' && seps[11] == '\u{2001}' && seps[12] == '\u{2002}');
    assert(seps[13] == '\u{2003}' && seps[14] == '\u{2004}' && seps[15] == '\u{2005}');
    assert(seps[16] == '\u{2006}' && seps[17] == '\u{2007}' && seps[18] == '\u{2008}');
    assert(seps[19] == '\u{2009}' && seps[20] == '\u{200a}' && seps[21] == '\u{2028}');
    assert(seps[22] == '\u{2029}' && seps[23] == '\u{202f}' && seps[24] == '\u{205f}');
    assert(seps[25] == '\u{3000}');
}

/// Whether one of `pieces` stands for the rule `t`.
pub open spec fn names_rule(pieces: Seq<Seq<char>>, t: Seq<char>) -> bool {
    exists|k: int|
        0 <= k < pieces.len() && normalized_rule(#[trigger] pieces[k]) == Some(t)
}

/// The overlay rules that `input` holds: in order, none twice, and exactly
/// those that a piece of `input` between separators stands for.
pub open spec fn parses_to(input: Seq<char>, rules: Seq<Seq<char>>) -> bool {
    &&& strictly_sorted(rules)
    &&& forall|t: Seq<char>| #[trigger]
        rules.contains(t) <==> names_rule(split(input, rule_separators()), t)
}

/// Whether a trie holds the key `k`. A lookup that meets malformed bytes finds
/// nothing.
pub open spec fn trie_holds(bytes: Seq<u8>, k: Seq<u8>) -> bool {
    lookup_ok(bytes, k) && trie_get(bytes, k) is Some
}

/// Whether a trie blocks the normalized domain `d`: it holds the key of `d` or of
/// a domain above it.
pub open spec fn trie_blocks(bytes: Seq<u8>, d: Seq<char>) -> bool {
    exists|p: Seq<char>| #[trigger] covers(p, d) && trie_holds(bytes, key(p))
}

/// Whether a compiled list blocks the domain `d`, once normalized.
pub open spec fn list_blocks(bytes: Seq<u8>, d: Seq<char>) -> bool {
    match normalized(d) {
        Some(n) => trie_blocks(bytes, n),
        None => false,
    }
}

/// Whether overlay rules block the domain `d`, once normalized.
pub open spec fn rules_block(rules: Seq<Seq<char>>, d: Seq<char>) -> bool {
    match normalized(d) {
        Some(n) => covered(rules, n),
        None => false,
    }
}

/// The pieces of `input` between the characters that are one of `seps`.
fn split_text(input: &str, seps: &[char]) -> (r: Vec<String>)
    ensures
        texts(r@) == split(input@, seps@),
{
    let chars: Vec<char> = chars_of(input);
    let n: usize = chars.len();
    let mut out: Vec<String> = Vec::new();
    let mut start: usize = 0;
    let ghost all = split(input@, seps@);
    proof {
        assert(chars@.skip(0) =~= input@);
        assert(texts(out@) + all =~= all);
        lemma_split_step(chars@.skip(0), seps@);
    }
    loop
        invariant_except_break
            all == texts(out@) + split(chars@.skip(start as int), seps@),
        invariant
            n == chars@.len(),
            start <= n,
        ensures
            texts(out@) == all,
        decreases n - start,
    {
        let rest: &[char] = slice_subrange(chars.as_slice(), start, n);
        let ghost prior = texts(out@);
        let i: usize = find_any(rest, seps);
        let piece: String = string_of(slice_subrange(rest, 0, i));
        proof {
            assert(rest@ =~= chars@.skip(start as int));
            lemma_split_step(rest@, seps@);
            assert(piece@ =~= rest@.take(i as int));
        }
        out.push(piece);
        proof {
            assert(texts(out@) =~= prior.push(rest@.take(i as int)));
        }
        if i == rest.len() {
            proof {
                assert(rest@.take(i as int) =~= rest@);
                assert(prior + seq![rest@] =~= texts(out@));
            }
            break;
        }
        proof {
            let tail = split(rest@.skip(i + 1), seps@);
            assert(rest@.skip(i + 1) =~= chars@.skip(start + i + 1));
            assert(prior + (seq![rest@.take(i as int)] + tail) =~= texts(out@) + tail);
        }
        start = start + i + 1;
    }
    out
}

/// Whether `rule` covers `domain`.
fn is_covered(rule: &[char], domain: &[char]) -> (r: bool)
    ensures
        r == covers(rule@, domain@),
{
    if rule.len() > domain.len() {
        return false;
    }
    let at: usize = domain.len() - rule.len();
    let tail: &[char] = slice_subrange(domain, at, domain.len());
    proof {
        assert(tail@ =~= domain@.skip(at as int));
        assert(tail@.take(rule@.len() as int) =~= tail@);
        assert(domain@.skip(0) =~= domain@);
    }
    has_prefix(tail, rule) && (at == 0 || domain[at - 1] == '.')
}

/// Inline env-var blocklist overlay.
#[derive(Debug, Clone, PartialEq, Eq)]
pub struct Overlay {
    domains: Vec<String>,
}

impl View for Overlay {
    type V = Seq<Seq<char>>;

    /// The rules of the overlay.
    closed spec fn view(&self) -> Seq<Seq<char>> {
        texts(self.domains@)
    }
}

impl Default for Overlay {
    /// The overlay without rules.
    fn default() -> (r: Self)
        ensures
            r@ == Seq::<Seq<char>>::empty(),
    {
        let r: Overlay = Overlay { domains: Vec::new() };
        proof {
            assert(r@ =~= Seq::empty());
        }
        r
    }
}

impl Overlay {
    /// Builds an overlay from newline, comma, or whitespace separated domain rules.
    #[must_use]
    pub fn parse(input: &str) -> (r: Self)
        ensures
            parses_to(input@, r@),
            forall|i: int| 0 <= i < r@.len() ==> valid_hostname(#[trigger] r@[i]),
    {
        let seps: [char; 26] = [
            ',', '\u{9}', '\u{a}', '\u{b}', '\u{c}', '\u{d}', ' ', '\u{85}', '\u{a0}',
            '\u{1680}', '\u{2000}', '\u{2001}', '\u{2002}', '\u{2003}', '\u{2004}', '\u{2005}',
            '\u{2006}', '\u{2007}', '\u{2008}', '\u{2009}', '\u{200a}', '\u{2028}', '\u{2029}',
            '\u{202f}', '\u{205f}', '\u{3000}',
        ];
        proof {
            assert(seps@ =~= rule_separators());
        }
        let pieces: Vec<String> = split_text(input, &seps);
        let ghost ps = texts(pieces@);
        let mut found: Vec<String> = Vec::new();
        let mut k: usize = 0;
        while k < pieces.len()
            invariant
                k <= pieces@.len(),
                ps == texts(pieces@),
                forall|i: int|
                    0 <= i < found@.len() ==> valid_hostname(#[trigger] texts(found@)[i]),
                forall|t: Seq<char>| #[trigger]
                    texts(found@).contains(t) <==> names_rule(ps.take(k as int), t),
            decreases pieces@.len() - k,
        {
            let ghost prior = texts(found@);
            let ghost (shorter, longer) = (ps.take(k as int), ps.take(k + 1));
            let ghost named = normalized_rule(ps[k as int]);
            match normalize_rule(pieces[k].as_str()) {
                Some(rule) => {
                    found.push(rule);
                    proof {
                        assert(texts(found@) =~= prior.push(rule@));
                        assert(named == Some(rule@));
                    }
                },
                None => {},
            }
            proof {
                assert forall|t: Seq<char>| #[trigger]
                    texts(found@).contains(t) <==> names_rule(longer, t) by {
                    if texts(found@).contains(t) {
                        let w = choose|w: int|
                            0 <= w < texts(found@).len() && texts(found@)[w] == t;
                        if w < prior.len() {
                            assert(prior[w] == t);
                            assert(prior.contains(t));
                            let j = choose|j: int|
                                0 <= j < shorter.len() && normalized_rule(
                                    #[trigger] shorter[j],
                                ) == Some(t);
                            assert(longer[j] == shorter[j]);
                        } else {
                            assert(normalized_rule(longer[k as int]) == Some(t));
                        }
                    }
                    if names_rule(longer, t) {
                        let j = choose|j: int|
                            0 <= j < longer.len() && normalized_rule(
                                #[trigger] longer[j],
                            ) == Some(t);
                        if j < k {
                            assert(shorter[j] == longer[j]);
                            assert(names_rule(shorter, t));
                            assert(prior.contains(t));
                            let w = choose|w: int| 0 <= w < prior.len() && prior[w] == t;
                            assert(texts(found@)[w] == t);
                        } else {
                            assert(texts(found@)[prior.len() as int] == t);
                        }
                    }
                }
            }
            k = k + 1;
        }
        let domains: Vec<String> = sorted_distinct(&found);
        proof {
            assert(ps.take(k as int) =~= ps);
            let all = texts(domains@);
            assert forall|i: int| 0 <= i < all.len() implies valid_hostname(#[trigger] all[i]) by {
                assert(all.contains(all[i]));
                let w = choose|w: int| 0 <= w < texts(found@).len() && texts(found@)[w] == all[i];
                assert(valid_hostname(texts(found@)[w]));
            }
        }
        Overlay { domains }
    }

    /// Returns `true` when `domain` is an exact or subdomain match for a rule.
    #[must_use]
    pub fn matches(&self, domain: &str) -> (r: bool)
        ensures
            r == rules_block(self@, domain@),
    {
        match normalize_domain(domain) {
            Some(name) => self.matches_normalized(name.as_str()),
            None => false,
        }
    }

    /// Number of overlay rules.
    #[must_use]
    pub fn len(&self) -> (r: usize)
        ensures
            r == self@.len(),
    {
        self.domains.len()
    }

    /// Returns whether the overlay is empty.
    #[must_use]
    pub fn is_empty(&self) -> (r: bool)
        ensures
            r == (self@.len() == 0),
    {
        self.domains.len() == 0
    }

    /// Returns `true` when the normalized `domain` is an exact or subdomain match
    /// for a rule.
    #[must_use]
    pub fn matches_normalized(&self, domain: &str) -> (r: bool)
        ensures
            r == covered(self@, domain@),
    {
        let chars: Vec<char> = chars_of(domain);
        let mut k: usize = 0;
        while k < self.domains.len()
            invariant
                k <= self.domains@.len(),
                chars@ == domain@,
                forall|j: int| 0 <= j < k ==> !covers(#[trigger] self@[j], domain@),
            decreases self.domains@.len() - k,
        {
            let rule: Vec<char> = chars_of(self.domains[k].as_str());
            proof {
                assert(self@[k as int] == rule@);
            }
            if is_covered(rule.as_slice(), chars.as_slice()) {
                return true;
            }
            k = k + 1;
        }
        false
    }
}

/// A serialized, zero-copy lookup list.
#[derive(Debug, Clone, PartialEq, Eq)]
pub struct CompiledList {
    name: String,
    bytes: Vec<u8>,
}

impl View for CompiledList {
    type V = Seq<u8>;

    /// The serialized trie.
    closed spec fn view(&self) -> Seq<u8> {
        self.bytes@
    }
}

impl CompiledList {
    /// The name of the list.
    pub closed spec fn title(&self) -> Seq<char> {
        self.name@
    }

    /// Creates a compiled list from its serialized bytes.
    #[must_use]
    pub fn from_bytes(name: &str, bytes: Vec<u8>) -> (r: Self)
        ensures
            r.title() == name@,
            r@ == bytes@,
    {
        CompiledList { name: name.to_owned(), bytes }
    }

    /// Stable list name.
    #[must_use]
    pub fn name(&self) -> (r: &str)
        ensures
            r@ == self.title(),
    {
        self.name.as_str()
    }

    /// Serialized trie bytes.
    #[must_use]
    pub fn bytes(&self) -> (r: &[u8])
        ensures
            r@ == self@,
    {
        self.bytes.as_slice()
    }

    /// Returns `true` when `domain` is blocked by this compiled trie.
    #[must_use]
    pub fn matches(&self, domain: &str) -> (r: bool)
        ensures
            r == list_blocks(self@, domain@),
    {
        match normalize_domain(domain) {
            Some(name) => self.matches_normalized(name.as_str()),
            None => false,
        }
    }

    /// Returns `true` when the normalized `domain` is blocked by this compiled
    /// trie. A key whose lookup meets malformed bytes is not found.
    #[must_use]
    pub fn matches_normalized(&self, domain: &str) -> (r: bool)
        ensures
            r == trie_blocks(self@, domain@),
    {
        let keys: Vec<Vec<u8>> = parent_keys(domain);
        let ghost above = with_parents(domain@);
        let mut k: usize = 0;
        while k < keys.len()
            invariant
                k <= keys@.len(),
                above == with_parents(domain@),
                keys@.len() == above.len(),
                forall|j: int| 0 <= j < keys@.len() ==> (#[trigger] keys@[j])@ == key(above[j]),
                forall|j: int| 0 <= j < k ==> !trie_holds(self@, #[trigger] keys@[j]@),
            decreases keys@.len() - k,
        {
            let bytes: &[u8] = self.bytes.as_slice();
            let wanted: &[u8] = keys[k].as_slice();
            if can_look_up(bytes, wanted) && trie_lookup(bytes, wanted).is_some() {
                proof {
                    let p = above[k as int];
                    assert(above.contains(p));
                    lemma_parents_cover(domain@, p);
                    assert(trie_holds(self@, key(p)));
                }
                return true;
            }
            k = k + 1;
        }
        proof {
            if trie_blocks(self@, domain@) {
                let p = choose|p: Seq<char>| #[trigger]
                    covers(p, domain@) && trie_holds(self@, key(p));
                lemma_parents_cover(domain@, p);
                let j = choose|j: int| 0 <= j < above.len() && above[j] == p;
                assert(keys@[j]@ == key(p));
            }
        }
        false
    }
}

/// Policy for deciding whether a DNS query should be blocked.
#[derive(Debug, Clone, PartialEq, Eq)]
pub struct Blocklist {
    compiled: Vec<CompiledList>,
    overlay: Overlay,
}

impl Blocklist {
    /// The compiled lists.
    pub closed spec fn lists(&self) -> Seq<CompiledList> {
        self.compiled@
    }

    /// The rules of the overlay.
    pub closed spec fn rules(&self) -> Seq<Seq<char>> {
        self.overlay@
    }

    /// Whether the domain `d` is blocked: normalized, it is blocked by a compiled
    /// list or covered by a rule of the overlay.
    pub open spec fn blocks(&self, d: Seq<char>) -> bool {
        match normalized(d) {
            Some(n) => {
                ||| exists|i: int|
                    0 <= i < self.lists().len() && list_blocks((#[trigger] self.lists()[i])@, n)
                ||| covered(self.rules(), n)
            },
            None => false,
        }
    }

    /// Builds a blocklist from compiled lists and an inline overlay.
    #[must_use]
    pub fn new(compiled: Vec<CompiledList>, overlay: Overlay) -> (r: Self)
        ensures
            r.lists() == compiled@,
            r.rules() == overlay@,
    {
        Blocklist { compiled, overlay }
    }

    /// Builds a blocklist with only the inline overlay.
    #[must_use]
    pub fn overlay_only(input: &str) -> (r: Self)
        ensures
            r.lists() == Seq::<CompiledList>::empty(),
            parses_to(input@, r.rules()),
    {
        Blocklist::new(Vec::new(), Overlay::parse(input))
    }

    /// Returns `true` when `domain` is an exact or subdomain match for a rule.
    #[must_use]
    pub fn matches(&self, domain: &str) -> (r: bool)
        ensures
            r == self.blocks(domain@),
    {
        let name: String = match normalize_domain(domain) {
            Some(name) => name,
            None => {
                return false;
            },
        };
        let mut k: usize = 0;
        while k < self.compiled.len()
            invariant
                k <= self.compiled@.len(),
                normalized(domain@) == Some(name@),
                forall|j: int| 0 <= j < k ==> !list_blocks((#[trigger] self.lists()[j])@, name@),
            decreases self.compiled@.len() - k,
        {
            if self.compiled[k].matches(name.as_str()) {
                proof {
                    assert(list_blocks(self.lists()[k as int]@, name@));
                }
                return true;
            }
            k = k + 1;
        }
        self.overlay.matches_normalized(name.as_str())
    }

    /// Returns the compiled lists backing this blocklist.
    #[must_use]
    pub fn compiled_lists(&self) -> (r: &[CompiledList])
        ensures
            r@ == self.lists(),
    {
        self.compiled.as_slice()
    }
}

/// What overlay rules cover, they cover with all its subdomains.
pub proof fn rules_cover_subdomains(rules: Seq<Seq<char>>, d: Seq<char>, sub: Seq<char>)
    requires
        covered(rules, d),
        covers(d, sub),
    ensures
        covered(rules, sub),
{
    let i = choose|i: int| 0 <= i < rules.len() && covers(#[trigger] rules[i], d);
    covers_transitive(rules[i], d, sub);
    assert(covers(rules[i], sub));
}

/// What a trie blocks, it blocks with all its subdomains.
pub proof fn tries_block_subdomains(bytes: Seq<u8>, d: Seq<char>, sub: Seq<char>)
    requires
        trie_blocks(bytes, d),
        covers(d, sub),
    ensures
        trie_blocks(bytes, sub),
{
    let p = choose|p: Seq<char>| #[trigger] covers(p, d) && trie_holds(bytes, key(p));
    covers_transitive(p, d, sub);
}

/// A blocklist that blocks a domain blocks its subdomains. What is left out is a
/// subdomain whose text is not ASCII and whose lookup form has no lookup form again.
pub proof fn blocklists_block_subdomains(blocklist: Blocklist, d: Seq<char>, sub: Seq<char>)
    requires
        normalized(d) is Some,
        normalized(sub) is Some,
        covers(normalized(d)->0, normalized(sub)->0),
        is_ascii_chars(bare(sub)) || normalized(normalized(sub)->0) is Some,
        blocklist.blocks(d),
    ensures
        blocklist.blocks(sub),
{
    let (n, m) = (normalized(d)->0, normalized(sub)->0);
    normalization_is_idempotent(d);
    normalization_is_idempotent(sub);
    if covered(blocklist.rules(), n) {
        rules_cover_subdomains(blocklist.rules(), n, m);
    } else {
        let i = choose|i: int|
            0 <= i < blocklist.lists().len() && list_blocks((#[trigger] blocklist.lists()[i])@, n);
        tries_block_subdomains(blocklist.lists()[i]@, n, m);
        assert(list_blocks(blocklist.lists()[i]@, m));
    }
}

/// A blocklist blocks what its compiled lists and its overlay block each for
/// themselves, and nothing that has no lookup form. The lists look up the lookup
/// form of the lookup form, which is the same again or, of text that is not ASCII,
/// perhaps none; where it is none they block nothing.
pub proof fn blocklists_block_what_their_parts_block(blocklist: Blocklist, d: Seq<char>)
    ensures
        ({
            let parts = rules_block(blocklist.rules(), d) || exists|i: int|
                0 <= i < blocklist.lists().len() && list_blocks(
                    (#[trigger] blocklist.lists()[i])@,
                    d,
                );
            &&& normalized(d) is None ==> !blocklist.blocks(d)
            &&& rules_block(blocklist.rules(), d) ==> blocklist.blocks(d)
            &&& blocklist.blocks(d) ==> parts
            &&& is_ascii_chars(bare(d)) ==> (blocklist.blocks(d) <==> parts)
            &&& (normalized(d) matches Some(n) ==> normalized(n) == Some(n)) ==> (
            blocklist.blocks(d) <==> parts)
        }),
{
    normalization_is_idempotent(d);
    if let Some(n) = normalized(d) {
        assert forall|i: int|
            0 <= i < blocklist.lists().len() && list_blocks(
                (#[trigger] blocklist.lists()[i])@,
                n,
            ) implies list_blocks(blocklist.lists()[i]@, d) by {}
        if normalized(n) == Some(n) {
            assert forall|i: int| 0 <= i < blocklist.lists().len() implies list_blocks(
                (#[trigger] blocklist.lists()[i])@,
                n,
            ) == list_blocks(blocklist.lists()[i]@, d) by {}
        }
    }
}

/// Which separator stands between the rules of an overlay does not matter.
pub proof fn overlay_separators_are_interchangeable(
    front: Seq<char>,
    back: Seq<char>,
    c: char,
    d: char,
    rules: Seq<Seq<char>>,
)
    requires
        c == ',' || is_space(c),
        d == ',' || is_space(d),
        parses_to(front.push(c) + back, rules),
    ensures
        parses_to(front.push(d) + back, rules),
{
    rules_stand_between_commas_and_white_space(c);
    rules_stand_between_commas_and_white_space(d);
    separators_are_interchangeable(front, back, rule_separators(), c, d);
}

/// The text of an overlay determines its rules.
pub proof fn overlay_rules_are_determined(
    input: Seq<char>,
    rules: Seq<Seq<char>>,
    other: Seq<Seq<char>>,
)
    requires
        parses_to(input, rules),
        parses_to(input, other),
    ensures
        rules == other,
{
    assert forall|t: Seq<char>| #[trigger] rules.contains(t) <==> other.contains(t) by {}
    sorted_lists_agree(rules, other);
}

/// A domain is blocked if a rule is its lookup form or what stands behind a dot of that,
/// or if the trie of a list holds the key of either. Lists look up the lookup form of the
/// lookup form; where there is none, the rules alone decide. Without a lookup form nothing
/// is blocked.
pub proof fn blocked_domains_have_a_rule_or_a_key(blocklist: Blocklist, d: Seq<char>)
    ensures
        normalized(d) is None ==> !blocklist.blocks(d),
        normalized(d) matches Some(n) ==> {
            let by_rule = exists|i: int|
                0 <= i < blocklist.rules().len() && covers(#[trigger] blocklist.rules()[i], n);
            let by_key = exists|i: int, p: Seq<char>|
                0 <= i < blocklist.lists().len() && #[trigger] covers(p, n) && lookup_ok(
                    (#[trigger] blocklist.lists()[i])@,
                    key(p),
                ) && trie_get(blocklist.lists()[i]@, key(p)) is Some;
            &&& by_rule ==> blocklist.blocks(d)
            &&& normalized(n) == Some(n) ==> (blocklist.blocks(d) <==> by_rule || by_key)
            &&& normalized(n) is None ==> (blocklist.blocks(d) <==> by_rule)
        },
{
    if let Some(n) = normalized(d) {
        if normalized(n) == Some(n) {
            if exists|i: int|
                0 <= i < blocklist.lists().len() && list_blocks(
                    (#[trigger] blocklist.lists()[i])@,
                    n,
                ) {
                let i = choose|i: int|
                    0 <= i < blocklist.lists().len() && list_blocks(
                        (#[trigger] blocklist.lists()[i])@,
                        n,
                    );
                let bytes = blocklist.lists()[i]@;
                let p = choose|p: Seq<char>| #[trigger] covers(p, n) && trie_holds(bytes, key(p));
                assert(covers(p, n) && lookup_ok(bytes, key(p)));
            }
            assert forall|i: int, p: Seq<char>|
                0 <= i < blocklist.lists().len() && #[trigger] covers(p, n) && lookup_ok(
                    (#[trigger] blocklist.lists()[i])@,
                    key(p),
                ) && trie_get(blocklist.lists()[i]@, key(p)) is Some implies blocklist.blocks(d) by {
                assert(trie_holds(blocklist.lists()[i]@, key(p)));
                assert(list_blocks(blocklist.lists()[i]@, n));
            }
        }
    }
}

/// Rules alone block a domain if one is its lookup form or what stands behind a dot of
/// that.
pub proof fn rules_block_what_they_cover(rules: Seq<Seq<char>>, d: Seq<char>)
    ensures
        normalized(d) is None ==> !rules_block(rules, d),
        normalized(d) matches Some(n) ==> (rules_block(rules, d) <==> exists|i: int|
            0 <= i < rules.len() && covers(#[trigger] rules[i], n)),
{
}

/// A trie blocks a domain if it holds the key of its lookup form or of what stands behind
/// a dot of that.
pub proof fn tries_block_what_they_hold(bytes: Seq<u8>, d: Seq<char>)
    ensures
        trie_blocks(bytes, d) <==> exists|p: Seq<char>| #[trigger]
            covers(p, d) && lookup_ok(bytes, key(p)) && trie_get(bytes, key(p)) is Some,
        normalized(d) is None ==> !list_blocks(bytes, d),
        normalized(d) matches Some(n) ==> (list_blocks(bytes, d) <==> exists|p: Seq<char>|
            #[trigger] covers(p, n) && lookup_ok(bytes, key(p)) && trie_get(bytes, key(p)) is Some),
{
    lemma_trie_blocks(bytes, d);
    if let Some(n) = normalized(d) {
        lemma_trie_blocks(bytes, n);
    }
}

proof fn lemma_trie_blocks(bytes: Seq<u8>, d: Seq<char>)
    ensures
        trie_blocks(bytes, d) <==> exists|p: Seq<char>| #[trigger]
            covers(p, d) && lookup_ok(bytes, key(p)) && trie_get(bytes, key(p)) is Some,
{
    if trie_blocks(bytes, d) {
        let p = choose|p: Seq<char>| #[trigger] covers(p, d) && trie_holds(bytes, key(p));
        assert(covers(p, d));
    }
    assert forall|p: Seq<char>| #[trigger]
        covers(p, d) && lookup_ok(bytes, key(p)) && trie_get(
            bytes,
            key(p),
        ) is Some implies trie_blocks(bytes, d) by {
        assert(trie_holds(bytes, key(p)));
    }
}

/// Whatever stands between two separators of an overlay's text, or between one and an
/// end of it, is looked at as a rule.
pub proof fn overlays_hold_each_rule_of_their_text(
    front: Seq<char>,
    piece: Seq<char>,
    back: Seq<char>,
    rules: Seq<Seq<char>>,
)
    requires
        parses_to(front + piece + back, rules),
        front.len() > 0 ==> front.last() == ',' || is_space(front.last()),
        back.len() > 0 ==> back[0] == ',' || is_space(back[0]),
        forall|i: int| 0 <= i < piece.len() ==> #[trigger] piece[i] != ',' && !is_space(piece[i]),
    ensures
        normalized_rule(piece) matches Some(t) ==> rules.contains(t),
{
    let seps = rule_separators();
    let input = front + piece + back;
    let (a, b) = (front.len() as int, front.len() as int + piece.len());
    if a > 0 {
        assert(input[a - 1] == front.last());
        rules_stand_between_commas_and_white_space(front.last());
    }
    if back.len() > 0 {
        assert(input[b] == back[0]);
        rules_stand_between_commas_and_white_space(back[0]);
    }
    assert forall|i: int| a <= i < b implies !seps.contains(#[trigger] input[i]) by {
        assert(input[i] == piece[i - a]);
        rules_stand_between_commas_and_white_space(piece[i - a]);
    }
    let k = what_stands_between_separators_is_a_piece(input, seps, a, b);
    assert(input.subrange(a, b) =~= piece);
    if let Some(t) = normalized_rule(piece) {
        assert(normalized_rule(split(input, seps)[k]) == Some(t));
        assert(names_rule(split(input, seps), t));
    }
}

/// An overlay holds no other rules: each stands in its text between two separators, or
/// between one and an end of it; `r` is where it starts and where it ends. They are
/// sorted by their bytes, and none occurs twice.
pub proof fn overlay_rules_stand_in_the_text(
    input: Seq<char>,
    rules: Seq<Seq<char>>,
    t: Seq<char>,
) -> (r: (int, int))
    requires
        parses_to(input, rules),
        rules.contains(t),
    ensures
        strictly_sorted(rules),
        0 <= r.0 <= r.1 <= input.len(),
        r.0 == 0 || input[r.0 - 1] == ',' || is_space(input[r.0 - 1]),
        r.1 == input.len() || input[r.1] == ',' || is_space(input[r.1]),
        forall|i: int| r.0 <= i < r.1 ==> #[trigger] input[i] != ',' && !is_space(input[i]),
        normalized_rule(input.subrange(r.0, r.1)) == Some(t),
{
    let seps = rule_separators();
    let pieces = split(input, seps);
    assert(names_rule(pieces, t));
    let k = choose|k: int|
        0 <= k < pieces.len() && normalized_rule(#[trigger] pieces[k]) == Some(t);
    let a = pieces_stand_between_separators(input, seps, k);
    let b = a + pieces[k].len();
    if a > 0 {
        rules_stand_between_commas_and_white_space(input[a - 1]);
    }
    if b < input.len() {
        rules_stand_between_commas_and_white_space(input[b]);
    }
    assert forall|i: int| a <= i < b implies #[trigger] input[i] != ',' && !is_space(input[i]) by {
        assert(pieces[k][i - a] == input[i]);
        rules_stand_between_commas_and_white_space(input[i]);
    }
    (a, b)
}

} // verus!
