# edge_doh

The core of a DNS over HTTPS resolver with blocklists, for Cloudflare Workers and
similar platforms, written in Verus. It accepts DNS wire-format queries, answers those
for blocked names with NXDOMAIN, and leaves the others to an upstream resolver. It also
builds the blocklist artifacts that the resolver looks names up in.

## Layout

`src/` is the library; Verus proves the contract of every function of it, except for the
small functions that call outside crates (see below).

- `text`, `order`: characters, splitting and trimming; byte order, sorting, searching.
- `domain`: normalization into DNS lookup form, coverage of subdomains, trie keys.
- `parser`: wildcard lists and Adblock Plus lists.
- `encode`: dropping shadowed entries, encoding a list as a trie.
- `trie`: what a lookup in serialized bytes meets, building and querying.
- `blocklist`: manifest entries, inline rules, compiled lists, the policy over both.
- `artifact`: from a downloaded source to an artifact and its manifest entry; retries.
- `base64url`, `dns`, `resolve`: the query parameter, messages, and what becomes of a query.
- `service`: routes, refusals, loading lists, building the policy once, the version report.

`app/` does the input and output: the command line tool that fetches sources and writes
artifacts, and the Worker.

## What is relied on

Calls into `idna`, `zerotrie`, `hickory-proto`, `base64`, `sha2` and `hex` stand in small
functions marked `external_body`. Their contracts are believed, not proved; the comment
above each says what is claimed. Results that take long to describe go by a name:
`idna_ascii`, `trie_bytes`, `trie_get`, `dns_decode`, `dns_encode`, `dns_name_text`,
`sha256`, and the error texts `base64url_error` and `utf8_error`.

The bytes of a compiled list may be anything. Before each lookup, `can_look_up` walks the
bytes that the lookup is going to read; a key whose lookup would meet malformed bytes is not
found. `encode_domains` makes tries in which no lookup does, and always succeeds for up to
`MAX_SURE_ENTRIES` domains.

## What is proved beyond the single functions

- Normalization ignores a trailing dot and, in ASCII, case; once is enough.
- A rule has the lookup form of the same text taken as a domain.
- The key of a domain determines the domain, and begins with the keys of the domains
  above it and of no others.
- Dropping shadowed entries changes nothing about what a list covers, depends on neither
  order nor repetition, and once is enough.
- A trie made of a list blocks what the list covers, and matches what inline rules for
  the same domains match.
- What is blocked is blocked with its subdomains, and a blocklist blocks what its parts
  block. An artifact blocks what its source names.
- A policy is built once; lists that could not be loaded leave the inline rules in force.
- The rules of an overlay stand between commas and white space, whichever.
- An Adblock Plus rule names a domain only as a whole; comments and wildcard prefixes do
  not change what a line of a wildcard list names.
- A blocked query is answered with its own questions and NXDOMAIN, any other is passed on
  unchanged.
- Different bytes have different base64url texts.

Where a law rests on a domain being its own lookup form, that is proved of all that is given
in ASCII, Punycode included. Of a name in other letters it is proved that its form has no
other form but itself; whether `idna` accepts that form again is up to its Unicode tables.
