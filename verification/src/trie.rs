//! Serialized lookup tries: what a lookup in one meets, building and querying.
//!
//! A trie is a sequence of nodes. A byte below `0x80` matches itself. A byte from
//! `0x80` to `0x9f` starts a value, one from `0xc0` on a branch; both hold a
//! number of variable length. A branch goes on with its sorted search bytes, with
//! tables of offsets, most significant byte first, and with the sub-tries that
//! those offsets delimit.

use vstd::prelude::*;
use vstd::slice::slice_subrange;

verus! {

/// Reads the trailing bytes of a number of variable length: seven bits each, the
/// high bit set on all but the last, and `latent` added at each step. Gives the
/// number and what follows it, or nothing if the bytes run out or the number does
/// not fit.
pub open spec fn number_tail(value: int, latent: int, rest: Seq<u8>) -> Option<(int, Seq<u8>)>
    decreases rest.len(),
{
    if rest.len() == 0 {
        None
    } else {
        let next = 128 * value + rest[0] as int % 128 + latent;
        if next > usize::MAX {
            None
        } else if rest[0] < 128 {
            Some((next, rest.skip(1)))
        } else {
            number_tail(next, latent, rest.skip(1))
        }
    }
}

/// Reads the number of a node whose first byte is `lead`. Its lowest bits, those
/// below `latent`, start the number; the bit above them says whether it goes on.
pub open spec fn number(lead: u8, latent: int, rest: Seq<u8>) -> Option<(int, Seq<u8>)> {
    if lead as int % (2 * latent) < latent {
        Some((lead as int % latent, rest))
    } else {
        number_tail(lead as int % latent, latent, rest)
    }
}

/// How many sub-tries a branch has.
pub open spec fn branch_count(v: int) -> int {
    if v % 256 == 0 {
        256
    } else {
        v % 256
    }
}

/// How many offset tables a branch has.
pub open spec fn branch_tables(v: int) -> int {
    v / 256 + 1
}

/// The number whose bytes stand at `i` in each of the first `k` tables of `n`
/// bytes, most significant first.
pub open spec fn table_value(tables: Seq<u8>, n: int, i: int, k: int) -> int
    decreases k,
{
    if k <= 0 {
        0
    } else {
        256 * table_value(tables, n, i, k - 1) + tables[(k - 1) * n + i] as int
    }
}

/// Where sub-trie `i` of a branch starts in its data; `i` may be one past the
/// last, for the end of the data. `body` is what follows the branch's number `v`.
pub open spec fn branch_offset(body: Seq<u8>, v: int, i: int) -> int {
    let count = branch_count(v);
    let n = count - 1;
    let len = body.len() - count - branch_tables(v) * n;
    if i <= 0 {
        0
    } else if i >= count {
        len
    } else {
        table_value(body.skip(count), n, i - 1, branch_tables(v))
    }
}

/// The search bytes of a branch: all there, and strictly ascending.
pub open spec fn search_ok(v: int, body: Seq<u8>) -> bool {
    &&& body.len() >= branch_count(v)
    &&& forall|i: int, j: int|
        0 <= i < j < branch_count(v) ==> #[trigger] body[i] < #[trigger] body[j]
}

/// How many bytes of a branch stand before its sub-tries.
pub open spec fn branch_head(v: int) -> int {
    branch_count(v) + branch_tables(v) * (branch_count(v) - 1)
}

/// The offsets of sub-trie `i` of a branch are there and delimit a part of its
/// data.
pub open spec fn child_ok(v: int, body: Seq<u8>, i: int) -> bool {
    &&& body.len() >= branch_head(v)
    &&& 0 <= branch_offset(body, v, i) <= branch_offset(body, v, i + 1) <= body.len()
        - branch_head(v)
}

/// Sub-trie `i` of a branch.
pub open spec fn child(v: int, body: Seq<u8>, i: int) -> Seq<u8> {
    body.skip(branch_head(v)).subrange(branch_offset(body, v, i), branch_offset(body, v, i + 1))
}

/// A lookup of `key` in `t` meets well-formed nodes only, as far as it goes.
pub open spec fn lookup_ok(t: Seq<u8>, key: Seq<u8>) -> bool
    decreases t.len(),
{
    if t.len() == 0 {
        true
    } else if t[0] < 0x80 {
        key.len() > 0 && key[0] == t[0] ==> lookup_ok(t.skip(1), key.skip(1))
    } else if t[0] < 0xa0 {
        match number(t[0], 16, t.skip(1)) {
            Some((v, rest)) => key.len() > 0 ==> rest.len() < t.len() && lookup_ok(rest, key),
            None => false,
        }
    } else if t[0] < 0xc0 {
        false
    } else {
        match number(t[0], 32, t.skip(1)) {
            Some((v, body)) => key.len() > 0 ==> {
                &&& branch_tables(v) <= 4
                &&& search_ok(v, body)
                &&& forall|i: int|
                    0 <= i < branch_count(v) && #[trigger] body[i] == key[0] ==> {
                        &&& child_ok(v, body, i)
                        &&& child(v, body, i).len() < t.len()
                        &&& lookup_ok(child(v, body, i), key.skip(1))
                    }
            },
            None => false,
        }
    }
}

/// Every lookup in `t` meets well-formed nodes only.
pub open spec fn trie_ok(t: Seq<u8>) -> bool {
    forall|key: Seq<u8>| #[trigger] lookup_ok(t, key)
}

/// What `zerotrie` finds under a key in a serialized trie.
pub uninterp spec fn trie_get(bytes: Seq<u8>, key: Seq<u8>) -> Option<usize>;

/// `ZeroTrieSimpleAscii::get` on the trie that `from_bytes` sees in `bytes`: the
/// value under `key`, named `trie_get`, which depends on the two alone. Lookups that
/// meet malformed bytes are left out: for those unexpected behavior is announced, and
/// the reader trips over its own debug assertions.
#[verifier::external_body]
pub(crate) fn trie_lookup(bytes: &[u8], key: &[u8]) -> (r: Option<usize>)
    requires
        lookup_ok(bytes@, key@),
    ensures
        r == trie_get(bytes@, key@),
{
    zerotrie::ZeroTrieSimpleAscii::<[u8]>::from_bytes(bytes).get(key)
}

/// No two entries have the same key.
pub open spec fn distinct_keys(pairs: Seq<(Vec<u8>, usize)>) -> bool {
    forall|i: int, j: int|
        0 <= i < j < pairs.len() ==> (#[trigger] pairs[i]).0@ != (#[trigger] pairs[j]).0@
}

/// Whether `pairs` holds the key `k` with the value `v`.
pub open spec fn holds_pair(pairs: Seq<(Vec<u8>, usize)>, k: Seq<u8>, v: usize) -> bool {
    exists|i: int| 0 <= i < pairs.len() && (#[trigger] pairs[i]).0@ == k && pairs[i].1 == v
}

/// The map from keys to values that entries with distinct keys make up.
pub open spec fn pairs_map(pairs: Seq<(Vec<u8>, usize)>) -> Map<Seq<u8>, usize> {
    Map::new(
        |k: Seq<u8>| exists|v: usize| holds_pair(pairs, k, v),
        |k: Seq<u8>| choose|v: usize| holds_pair(pairs, k, v),
    )
}

/// How many bytes the keys of some entries have together, and one more for each.
pub open spec fn key_bytes(pairs: Seq<(Vec<u8>, usize)>) -> int
    decreases pairs.len(),
{
    if pairs.len() == 0 {
        0
    } else {
        key_bytes(pairs.drop_last()) + pairs.last().0@.len() + 1
    }
}

/// Short keys have few bytes together.
pub proof fn lemma_key_bytes(pairs: Seq<(Vec<u8>, usize)>, most: int)
    requires
        forall|i: int| 0 <= i < pairs.len() ==> (#[trigger] pairs[i]).0@.len() <= most,
    ensures
        key_bytes(pairs) <= (most + 1) * pairs.len(),
    decreases pairs.len(),
{
    if pairs.len() > 0 {
        let front = pairs.drop_last();
        assert forall|i: int| 0 <= i < front.len() implies (#[trigger] front[i]).0@.len()
            <= most by {
            assert(front[i] == pairs[i]);
        }
        lemma_key_bytes(front, most);
        assert(pairs[pairs.len() - 1].0@.len() <= most);
        assert((most + 1) * pairs.len() == (most + 1) * front.len() + (most + 1)) by (nonlinear_arith)
            requires
                pairs.len() == front.len() + 1,
        ;
    }
}

/// The serialized trie that `zerotrie` makes of a map, or its error message.
pub uninterp spec fn trie_bytes(entries: Map<Seq<u8>, usize>) -> Result<Seq<u8>, Seq<char>>;

/// `ZeroTrieSimpleAscii::try_from` of a `BTreeMap`, then `into_store`: a
/// serialized trie, named `trie_bytes`, which depends on the entries alone. The
/// keys are distinct, so that the map holds each entry, and ASCII, since the
/// builder does not notice every byte that is not. Any lookup in a trie that is
/// built meets well-formed nodes, and finds what the map holds and nothing else. No
/// entries give no bytes. The builder refuses only a branch whose sub-tries come to
/// 2^32 bytes; a key byte and a value take less than 16 bytes each, so that many are
/// not reached by fewer than a sixteenth of as many key bytes and values. Which larger
/// maps are refused is not stated.
#[verifier::external_body]
pub(crate) fn build_trie(pairs: &Vec<(Vec<u8>, usize)>) -> (r: Result<Vec<u8>, String>)
    requires
        distinct_keys(pairs@),
        forall|i: int, p: int|
            0 <= i < pairs@.len() && 0 <= p < pairs@[i].0@.len() ==> #[trigger] pairs@[i].0@[p]
                < 128,
    ensures
        match r {
            Ok(bytes) => {
                &&& trie_bytes(pairs_map(pairs@)) == Ok::<Seq<u8>, Seq<char>>(bytes@)
                &&& trie_ok(bytes@)
                &&& pairs@.len() == 0 ==> bytes@.len() == 0
                &&& forall|k: Seq<u8>| #[trigger]
                    trie_get(bytes@, k) == (if pairs_map(pairs@).dom().contains(k) {
                        Some(pairs_map(pairs@)[k])
                    } else {
                        None
                    })
            },
            Err(message) => {
                &&& trie_bytes(pairs_map(pairs@)) == Err::<Seq<u8>, Seq<char>>(message@)
                &&& 16 * key_bytes(pairs@) >= 0x1_0000_0000
            },
        },
{
    let map: std::collections::BTreeMap<Vec<u8>, usize> = pairs.iter().cloned().collect();
    match zerotrie::ZeroTrieSimpleAscii::<Vec<u8>>::try_from(&map) {
        Ok(trie) => Ok(trie.into_store()),
        Err(error) => Err(error.to_string()),
    }
}

/// Reads the number of a node; gives it and how many bytes follow the lead byte.
fn read_number(lead: u8, latent: usize, rest: &[u8]) -> (r: Option<(usize, usize)>)
    requires
        latent == 16 || latent == 32,
    ensures
        match r {
            Some((v, used)) => {
                &&& used <= rest@.len()
                &&& number(lead, latent as int, rest@) == Some((v as int, rest@.skip(used as int)))
            },
            None => number(lead, latent as int, rest@) is None,
        },
{
    let wide: usize = lead as usize;
    let mut value: usize = wide % latent;
    if wide % (2 * latent) < latent {
        proof {
            assert(rest@.skip(0) == rest@);
        }
        return Some((value, 0));
    }
    let mut used: usize = 0;
    proof {
        assert(rest@.skip(0) == rest@);
    }
    while used < rest.len()
        invariant
            latent == 16 || latent == 32,
            used <= rest@.len(),
            number(lead, latent as int, rest@) == number_tail(
                value as int,
                latent as int,
                rest@.skip(used as int),
            ),
        decreases rest@.len() - used,
    {
        let byte: u8 = rest[used];
        let next: u128 = 128 * (value as u128) + (byte as u128) % 128 + latent as u128;
        proof {
            assert(rest@.skip(used as int).skip(1) == rest@.skip(used + 1));
            assert(rest@.skip(used as int)[0] == byte);
        }
        if next > usize::MAX as u128 {
            return None;
        }
        value = next as usize;
        used = used + 1;
        if byte < 128 {
            return Some((value, used));
        }
    }
    None
}

/// Reads an entry that is spread over `tables` tables of `n` bytes each.
fn read_entry(bytes: &[u8], n: usize, i: usize, tables: usize) -> (r: u64)
    requires
        i < n <= 255,
        1 <= tables <= 4,
        tables * n <= bytes@.len(),
    ensures
        r == table_value(bytes@, n as int, i as int, tables as int),
{
    let mut value: u64 = 0;
    let mut k: usize = 0;
    while k < tables
        invariant
            k <= tables,
            i < n <= 255,
            1 <= tables <= 4,
            tables * n <= bytes@.len(),
            value == table_value(bytes@, n as int, i as int, k as int),
            k == 0 ==> value == 0,
            k == 1 ==> value < 0x100,
            k == 2 ==> value < 0x1_0000,
            k == 3 ==> value < 0x100_0000,
            k == 4 ==> value < 0x1_0000_0000,
        decreases tables - k,
    {
        proof {
            assert(k * n + i < tables * n) by (nonlinear_arith)
                requires
                    k + 1 <= tables,
                    i < n,
            ;
            assert(k * n <= 4 * 255) by (nonlinear_arith)
                requires
                    k <= 4,
                    n <= 255,
            ;
        }
        let at: usize = k * n + i;
        value = value * 256 + bytes[at] as u64;
        k = k + 1;
    }
    value
}

/// Where a lookup goes on from a branch.
enum Step {
    /// The branch is malformed.
    Malformed,
    /// The key is not in the trie.
    Missing,
    /// To the sub-trie between two positions.
    Into(usize, usize),
}

/// Where the lookup of a key that goes on with `byte` goes on from the branch with
/// the number `v` whose body starts at `start` and ends at `end`.
fn branch_step(bytes: &[u8], start: usize, end: usize, v: usize, byte: u8) -> (r: Step)
    requires
        start <= end <= bytes@.len(),
    ensures
        ({
            let body = bytes@.subrange(start as int, end as int);
            let count = branch_count(v as int);
            let ok = branch_tables(v as int) <= 4 && search_ok(v as int, body);
            match r {
                Step::Malformed => !ok || exists|i: int|
                    0 <= i < count && #[trigger] body[i] == byte && !child_ok(v as int, body, i),
                Step::Missing => ok && forall|i: int| 0 <= i < count ==> #[trigger] body[i] != byte,
                Step::Into(from, to) => {
                    &&& ok
                    &&& start <= from <= to <= end
                    &&& exists|i: int|
                        0 <= i < count && #[trigger] body[i] == byte && child_ok(v as int, body, i)
                            && child(v as int, body, i) == bytes@.subrange(from as int, to as int)
                },
            }
        }),
{
    let body: &[u8] = slice_subrange(bytes, start, end);
    let count: usize = if v % 256 == 0 {
        256
    } else {
        v % 256
    };
    if v / 256 > 3 || body.len() < count {
        return Step::Malformed;
    }
    let tables: usize = v / 256 + 1;
    let mut at: usize = count;
    let mut i: usize = 0;
    while i < count
        invariant
            i <= count,
            count == branch_count(v as int),
            count <= body@.len(),
            body@ == bytes@.subrange(start as int, end as int),
            forall|a: int, b: int| 0 <= a < b < i ==> #[trigger] body@[a] < #[trigger] body@[b],
            at == count ==> forall|a: int| 0 <= a < i ==> #[trigger] body@[a] != byte,
            at != count ==> at < i && body@[at as int] == byte,
        decreases count - i,
    {
        if i > 0 && body[i - 1] >= body[i] {
            proof {
                let (a, b) = (i - 1, i as int);
                assert(body@[a] >= body@[b]);
            }
            return Step::Malformed;
        }
        if body[i] == byte {
            at = i;
        }
        i = i + 1;
    }
    if at == count {
        return Step::Missing;
    }
    proof {
        assert(0 <= tables * (count - 1) <= 4 * 255) by (nonlinear_arith)
            requires
                1 <= tables <= 4,
                1 <= count <= 256,
        ;
        assert(body@[at as int] == byte);
    }
    let head: usize = count + tables * (count - 1);
    if body.len() < head {
        return Step::Malformed;
    }
    let data: usize = body.len() - head;
    let rest: &[u8] = slice_subrange(body, count, body.len());
    proof {
        assert(rest@ == body@.skip(count as int));
    }
    let from: u64 = if at == 0 {
        0
    } else {
        read_entry(rest, count - 1, at - 1, tables)
    };
    let to: u64 = if at + 1 == count {
        data as u64
    } else {
        read_entry(rest, count - 1, at, tables)
    };
    if from > to || to > data as u64 {
        return Step::Malformed;
    }
    let base: usize = start + head;
    proof {
        assert(child(v as int, body@, at as int) =~= bytes@.subrange(base + from, base + to));
    }
    Step::Into(base + from as usize, base + to as usize)
}

/// Whether a lookup of `key` in `bytes` meets well-formed nodes only, as far as it
/// goes.
#[must_use]
pub fn can_look_up(bytes: &[u8], key: &[u8]) -> (r: bool)
    ensures
        r == lookup_ok(bytes@, key@),
{
    let mut start: usize = 0;
    let mut end: usize = bytes.len();
    let mut at: usize = 0;
    proof {
        assert(bytes@.subrange(0, end as int) =~= bytes@);
        assert(key@.skip(0) =~= key@);
    }
    while start < end
        invariant
            start <= end <= bytes@.len(),
            at <= key@.len(),
            lookup_ok(bytes@, key@) == lookup_ok(
                bytes@.subrange(start as int, end as int),
                key@.skip(at as int),
            ),
        decreases end - start,
    {
        let lead: u8 = bytes[start];
        let rest: &[u8] = slice_subrange(bytes, start + 1, end);
        let ghost t = bytes@.subrange(start as int, end as int);
        let ghost k = key@.skip(at as int);
        proof {
            assert(t[0] == lead);
            assert(rest@ =~= t.skip(1));
            assert(at < key@.len() ==> k[0] == key@[at as int] && k.skip(1) =~= key@.skip(at + 1));
        }
        if lead < 0x80 {
            if at == key.len() || key[at] != lead {
                return true;
            }
            proof {
                assert(t.skip(1) =~= bytes@.subrange(start + 1, end as int));
            }
            start = start + 1;
            at = at + 1;
        } else if lead < 0xa0 {
            match read_number(lead, 16, rest) {
                Some((_, used)) => {
                    if at == key.len() {
                        return true;
                    }
                    proof {
                        assert(rest@.skip(used as int) =~= bytes@.subrange(
                            start + 1 + used,
                            end as int,
                        ));
                    }
                    start = start + 1 + used;
                },
                None => {
                    return false;
                },
            }
        } else if lead < 0xc0 {
            return false;
        } else {
            match read_number(lead, 32, rest) {
                Some((v, used)) => {
                    if at == key.len() {
                        return true;
                    }
                    let ghost body = bytes@.subrange(start + 1 + used, end as int);
                    proof {
                        assert(rest@.skip(used as int) =~= body);
                    }
                    match branch_step(bytes, start + 1 + used, end, v, key[at]) {
                        Step::Malformed => {
                            return false;
                        },
                        Step::Missing => {
                            return true;
                        },
                        Step::Into(from, to) => {
                            proof {
                                let w = v as int;
                                let next = bytes@.subrange(from as int, to as int);
                                let i = choose|i: int|
                                    0 <= i < branch_count(w) && #[trigger] body[i] == k[0]
                                        && child_ok(w, body, i) && child(w, body, i) == next;
                                assert(lookup_ok(t, k) == lookup_ok(next, k.skip(1))) by {
                                    assert(body[i] == k[0]);
                                    assert forall|j: int|
                                        0 <= j < branch_count(w) && #[trigger] body[j]
                                            == k[0] implies j == i by {
                                        if j < i {
                                            assert(body[j] < body[i]);
                                        } else if i < j {
                                            assert(body[i] < body[j]);
                                        }
                                    }
                                }
                            }
                            start = from;
                            end = to;
                            at = at + 1;
                        },
                    }
                },
                None => {
                    return false;
                },
            }
        }
    }
    true
}

/// A number ends with the first byte below 128; each byte adds its lowest seven bits
/// behind those before, and the offset of its kind of node.
pub proof fn numbers_end_with_a_low_byte(value: int, latent: int, b: u8, rest: Seq<u8>)
    requires
        0 <= value,
        0 <= latent,
    ensures
        number_tail(value, latent, Seq::empty()) is None,
        b < 128 && 128 * value + b + latent <= usize::MAX ==> number_tail(
            value,
            latent,
            seq![b] + rest,
        ) == Some((128 * value + b + latent, rest)),
        b >= 128 && 128 * value + (b - 128) + latent <= usize::MAX ==> number_tail(
            value,
            latent,
            seq![b] + rest,
        ) == number_tail(128 * value + (b - 128) + latent, latent, rest),
        128 * value + b as int % 128 + latent > usize::MAX ==> number_tail(
            value,
            latent,
            seq![b] + rest,
        ) is None,
{
    let s = seq![b] + rest;
    assert(s[0] == b);
    assert(s.skip(1) =~= rest);
}

/// The first byte of a value holds four bits of its number, that of a branch five; the bit
/// above them says whether the number goes on.
pub proof fn lead_bytes_start_numbers(low: u8, rest: Seq<u8>)
    ensures
        low < 16 ==> number((128 + low) as u8, 16, rest) == Some((low as int, rest)),
        low < 16 ==> number((144 + low) as u8, 16, rest) == number_tail(low as int, 16, rest),
        low < 32 ==> number((192 + low) as u8, 32, rest) == Some((low as int, rest)),
        low < 32 ==> number((224 + low) as u8, 32, rest) == number_tail(low as int, 32, rest),
{
}

/// A branch has 1 to 256 sub-tries and one table more than its number counts.
pub proof fn branches_have_their_parts(v: int, body: Seq<u8>)
    requires
        0 <= v,
    ensures
        1 <= branch_count(v) <= 256,
        (v - branch_count(v)) % 256 == 0,
        256 * (branch_tables(v) - 1) <= v < 256 * branch_tables(v),
        branch_head(v) == branch_count(v) + branch_tables(v) * (branch_count(v) - 1),
        search_ok(v, body) <==> body.len() >= branch_count(v) && forall|i: int, j: int|
            0 <= i < j < branch_count(v) ==> #[trigger] body[i] < #[trigger] body[j],
{
}

/// A lookup follows the bytes that its key names: past a byte that stands for itself, past
/// a value that is not at the end of the key, and into the sub-trie of a branch. It ends
/// where the key does or where the bytes differ.
pub proof fn lookups_follow_their_key(c: u8, t: Seq<u8>, b: u8, key: Seq<u8>)
    ensures
        lookup_ok(Seq::empty(), key),
        c < 128 ==> lookup_ok(seq![c] + t, Seq::empty()),
        c < 128 && b != c ==> lookup_ok(seq![c] + t, seq![b] + key),
        c < 128 ==> (lookup_ok(seq![c] + t, seq![c] + key) <==> lookup_ok(t, key)),
        128 <= c < 160 ==> (lookup_ok(seq![c] + t, Seq::empty()) <==> number(c, 16, t) is Some),
        128 <= c < 160 ==> (lookup_ok(seq![c] + t, seq![b] + key) <==> (number(c, 16, t) matches Some(
            (v, rest),
        ) && lookup_ok(rest, seq![b] + key))),
        160 <= c < 192 ==> !lookup_ok(seq![c] + t, key),
        192 <= c ==> (lookup_ok(seq![c] + t, Seq::empty()) <==> number(c, 32, t) is Some),
        192 <= c ==> (lookup_ok(seq![c] + t, seq![b] + key) <==> (number(c, 32, t) matches Some(
            (v, body),
        ) && branch_tables(v) <= 4 && search_ok(v, body) && forall|i: int|
            0 <= i < branch_count(v) && #[trigger] body[i] == b ==> child_ok(v, body, i)
                && lookup_ok(child(v, body, i), key))),
{
    let s = seq![c] + t;
    let k = seq![b] + key;
    assert(s[0] == c && k[0] == b);
    assert(s.skip(1) =~= t);
    assert(k.skip(1) =~= key);
    let k2 = seq![c] + key;
    assert(k2[0] == c);
    assert(k2.skip(1) =~= key);
    lemma_number_rest(c, 16, t);
    lemma_number_rest(c, 32, t);
    if 192 <= c {
        if let Some((v, body)) = number(c, 32, t) {
            assert forall|i: int|
                0 <= i < branch_count(v) && #[trigger] body[i] == b && child_ok(
                    v,
                    body,
                    i,
                ) implies child(v, body, i).len() < s.len() by {}
        }
    }
}

proof fn lemma_number_rest(lead: u8, latent: int, rest: Seq<u8>)
    requires
        latent == 16 || latent == 32,
    ensures
        number(lead, latent, rest) matches Some((v, after)) ==> after.len() <= rest.len() && v >= 0,
{
    if lead as int % (2 * latent) >= latent {
        lemma_tail_rest(lead as int % latent, latent, rest);
    }
}

proof fn lemma_tail_rest(value: int, latent: int, rest: Seq<u8>)
    requires
        value >= 0,
        latent >= 0,
    ensures
        number_tail(value, latent, rest) matches Some((v, after)) ==> after.len() <= rest.len() && v
            >= 0,
    decreases rest.len(),
{
    if rest.len() > 0 {
        lemma_tail_rest(128 * value + rest[0] as int % 128 + latent, latent, rest.skip(1));
    }
}

/// A number in tables has its bytes at the same place in each, most significant first.
pub proof fn tables_hold_the_bytes_of_a_number(tables: Seq<u8>, n: int, i: int, k: int)
    ensures
        k > 0 ==> table_value(tables, n, i, k) == 256 * table_value(tables, n, i, k - 1) + tables[(k
            - 1) * n + i],
        k <= 0 ==> table_value(tables, n, i, k) == 0,
{
}

/// Sub-tries stand one behind the other: the first starts where the data does, the last
/// ends where it does, and the others at the offsets in the tables.
pub proof fn sub_tries_stand_between_their_offsets(v: int, body: Seq<u8>, i: int)
    requires
        0 <= v,
        0 <= i < branch_count(v),
    ensures
        branch_offset(body, v, 0) == 0,
        branch_offset(body, v, branch_count(v)) == body.len() - branch_head(v),
        i > 0 ==> branch_offset(body, v, i) == table_value(
            body.skip(branch_count(v)),
            branch_count(v) - 1,
            i - 1,
            branch_tables(v),
        ),
        child_ok(v, body, i) <==> {
            let (from, to) = (branch_offset(body, v, i), branch_offset(body, v, i + 1));
            branch_head(v) <= body.len() && 0 <= from <= to <= body.len() - branch_head(v)
        },
        child_ok(v, body, i) ==> child(v, body, i) == body.subrange(
            branch_head(v) + branch_offset(body, v, i),
            branch_head(v) + branch_offset(body, v, i + 1),
        ),
{
    if child_ok(v, body, i) {
        assert(branch_head(v) >= 1) by (nonlinear_arith)
            requires
                branch_head(v) == branch_count(v) + branch_tables(v) * (branch_count(v) - 1),
                branch_count(v) >= 1,
                branch_tables(v) >= 1,
        ;
        assert(child(v, body, i) =~= body.subrange(
            branch_head(v) + branch_offset(body, v, i),
            branch_head(v) + branch_offset(body, v, i + 1),
        ));
    }
}

/// A trie that is sound has no lookup that is not.
pub proof fn sound_tries_have_sound_lookups(t: Seq<u8>)
    ensures
        trie_ok(t) <==> forall|key: Seq<u8>| #[trigger] lookup_ok(t, key),
{
}

/// Entries with distinct keys make up a map that holds each of them and nothing else.
pub proof fn maps_hold_their_entries(pairs: Seq<(Vec<u8>, usize)>, k: Seq<u8>)
    ensures
        distinct_keys(pairs) <==> forall|i: int, j: int|
            0 <= i < j < pairs.len() ==> (#[trigger] pairs[i]).0@ != (#[trigger] pairs[j]).0@,
        pairs_map(pairs).dom().contains(k) <==> exists|i: int|
            0 <= i < pairs.len() && (#[trigger] pairs[i]).0@ == k,
        distinct_keys(pairs) ==> forall|i: int|
            0 <= i < pairs.len() ==> pairs_map(pairs)[(#[trigger] pairs[i]).0@] == pairs[i].1,
{
    if pairs_map(pairs).dom().contains(k) {
        let v = choose|v: usize| holds_pair(pairs, k, v);
        assert(holds_pair(pairs, k, v));
        let i = choose|i: int| 0 <= i < pairs.len() && (#[trigger] pairs[i]).0@ == k && pairs[i].1
            == v;
        assert(pairs[i].0@ == k);
    }
    assert forall|i: int| 0 <= i < pairs.len() implies pairs_map(pairs).dom().contains(
        (#[trigger] pairs[i]).0@,
    ) && holds_pair(pairs, pairs[i].0@, pairs[i].1) by {
        assert(holds_pair(pairs, pairs[i].0@, pairs[i].1));
    }
    if distinct_keys(pairs) {
        assert forall|i: int| 0 <= i < pairs.len() implies pairs_map(pairs)[(#[trigger] pairs[i]).0@]
            == pairs[i].1 by {
            assert(holds_pair(pairs, pairs[i].0@, pairs[i].1));
            let v = choose|v: usize| holds_pair(pairs, pairs[i].0@, v);
            let j = choose|j: int|
                0 <= j < pairs.len() && (#[trigger] pairs[j]).0@ == pairs[i].0@ && pairs[j].1 == v;
            if i < j {
                assert(pairs[i].0@ != pairs[j].0@);
            } else if j < i {
                assert(pairs[j].0@ != pairs[i].0@);
            }
        }
    }
}

/// A further entry adds the bytes of its key, and one.
pub proof fn key_bytes_add_up(pairs: Seq<(Vec<u8>, usize)>, pair: (Vec<u8>, usize))
    ensures
        key_bytes(Seq::empty()) == 0,
        key_bytes(pairs.push(pair)) == key_bytes(pairs) + pair.0@.len() + 1,
{
    assert(pairs.push(pair).drop_last() =~= pairs);
}

} // verus!
