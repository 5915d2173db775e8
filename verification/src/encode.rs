//! Preparing domain lists: dropping shadowed entries and encoding lookup tries.

use crate::blocklist::{
    list_blocks, rules_block, trie_blocks, trie_holds, tries_block_what_they_hold,
};
use crate::domain::{
    covered, covers, covers_transitive, encode_domain_key, key, key_determines_domain, key_length,
    lemma_hostname_ascii, lemma_key_ascii, lemma_parent_valid, lemma_valid_no_separator,
    normalize_domain, normalized, valid_hostname,
};
use crate::order::{
    before, bytes_less, holds_text, in_order, is_less, lemma_less_irreflexive, lemma_less_total,
    lemma_less_transitive, names_range, sort_range, sorted_distinct, sorted_lists_agree,
    strictly_sorted, text_less, texts, Ranked,
};
use crate::text::{chars_of, string_of};
use crate::trie::{
    build_trie, distinct_keys, holds_pair, lemma_key_bytes, lookup_ok, pairs_map, trie_bytes,
    trie_get, trie_ok,
};
use vstd::prelude::*;
use vstd::slice::slice_subrange;
use vstd::utf8::{encode_utf8, is_ascii_chars_encode_utf8};

verus! {

/// Whether a domain above `d` is in the list.
pub open spec fn shadowed(list: Seq<Seq<char>>, d: Seq<char>) -> bool {
    exists|i: int| 0 <= i < d.len() && #[trigger] d[i] == '.' && list.contains(d.skip(i + 1))
}

/// `kept` is `list` without the entries that another entry of it shadows.
pub open spec fn collapses(list: Seq<Seq<char>>, kept: Seq<Seq<char>>) -> bool {
    &&& strictly_sorted(kept)
    &&& forall|t: Seq<char>| #[trigger]
        kept.contains(t) <==> list.contains(t) && !shadowed(list, t)
}

/// `list` without the entries that another entry of it shadows.
pub open spec fn collapsed(list: Seq<Seq<char>>) -> Seq<Seq<char>> {
    choose|kept: Seq<Seq<char>>| collapses(list, kept)
}

/// There is only one way to collapse a list.
proof fn lemma_collapsed(list: Seq<Seq<char>>, kept: Seq<Seq<char>>)
    requires
        collapses(list, kept),
    ensures
        collapsed(list) == kept,
{
    let other = collapsed(list);
    assert(collapses(list, other));
    assert forall|t: Seq<char>| #[trigger] other.contains(t) <==> kept.contains(t) by {}
    sorted_lists_agree(other, kept);
}

/// Whether a domain above `domain` is in the sorted list `parents`.
pub fn parent_exists(parents: &Vec<String>, domain: &str) -> (r: bool)
    requires
        strictly_sorted(texts(parents@)),
    ensures
        r == shadowed(texts(parents@), domain@),
{
    let chars: Vec<char> = chars_of(domain);
    let n: usize = chars.len();
    let mut i: usize = 0;
    while i < n
        invariant
            n == chars@.len(),
            i <= n,
            chars@ == domain@,
            strictly_sorted(texts(parents@)),
            forall|j: int|
                0 <= j < i && #[trigger] domain@[j] == '.' ==> !texts(parents@).contains(
                    domain@.skip(j + 1),
                ),
        decreases n - i,
    {
        if chars[i] == '.' {
            let parent: String = string_of(slice_subrange(chars.as_slice(), i + 1, n));
            proof {
                assert(parent@ =~= domain@.skip(i + 1));
            }
            if holds_text(parents, parent.as_str()) {
                proof {
                    assert(domain@[i as int] == '.');
                }
                return true;
            }
        }
        i = i + 1;
    }
    false
}

/// Removes child entries when a parent domain is already present.
#[must_use]
pub fn collapse_parent_shadowed(domains: Vec<String>) -> (r: Vec<String>)
    ensures
        collapses(texts(domains@), texts(r@)),
        texts(r@) == collapsed(texts(domains@)),
{
    let sorted: Vec<String> = sorted_distinct(&domains);
    let mut kept: Vec<String> = Vec::new();
    let mut k: usize = 0;
    let ghost mut from: Seq<int> = Seq::empty();
    while k < sorted.len()
        invariant
            k <= sorted@.len(),
            strictly_sorted(texts(sorted@)),
            from.len() == kept@.len(),
            forall|i: int|
                0 <= i < kept@.len() ==> 0 <= #[trigger] from[i] < k && kept@[i]@
                    == sorted@[from[i]]@ && !shadowed(texts(sorted@), kept@[i]@),
            forall|i: int, j: int| 0 <= i < j < from.len() ==> from[i] < from[j],
            forall|i: int|
                0 <= i < k && !shadowed(texts(sorted@), #[trigger] texts(sorted@)[i]) ==> texts(
                    kept@,
                ).contains(texts(sorted@)[i]),
        decreases sorted@.len() - k,
    {
        let ghost before = texts(kept@);
        if !parent_exists(&sorted, sorted[k].as_str()) {
            let next: String = sorted[k].clone();
            kept.push(next);
            proof {
                from = from.push(k as int);
                assert(texts(kept@) =~= before.push(sorted@[k as int]@));
                assert(texts(kept@)[before.len() as int] == texts(sorted@)[k as int]);
            }
        }
        proof {
            assert forall|i: int|
                0 <= i < k + 1 && !shadowed(texts(sorted@), #[trigger] texts(sorted@)[i]) implies texts(
                kept@,
            ).contains(texts(sorted@)[i]) by {
                if i < k {
                    let w = choose|w: int| 0 <= w < before.len() && before[w] == texts(sorted@)[i];
                    assert(texts(kept@)[w] == texts(sorted@)[i]);
                }
            }
        }
        k = k + 1;
    }
    proof {
        let (all, src, out) = (texts(domains@), texts(sorted@), texts(kept@));
        assert forall|d: Seq<char>| shadowed(src, d) == shadowed(all, d) by {
            if shadowed(src, d) {
                let i = choose|i: int|
                    0 <= i < d.len() && #[trigger] d[i] == '.' && src.contains(d.skip(i + 1));
                assert(all.contains(d.skip(i + 1)));
                assert(d[i] == '.');
            }
            if shadowed(all, d) {
                let i = choose|i: int|
                    0 <= i < d.len() && #[trigger] d[i] == '.' && all.contains(d.skip(i + 1));
                assert(src.contains(d.skip(i + 1)));
                assert(d[i] == '.');
            }
        }
        assert forall|i: int, j: int| 0 <= i < j < out.len() implies #[trigger] text_less(
            out[i],
            out[j],
        ) by {
            assert(from[i] < from[j]);
            assert(out[i] == src[from[i]] && out[j] == src[from[j]]);
            assert(text_less(src[from[i]], src[from[j]]));
        }
        assert forall|t: Seq<char>| #[trigger]
            out.contains(t) <==> all.contains(t) && !shadowed(all, t) by {
            if out.contains(t) {
                let w = choose|w: int| 0 <= w < out.len() && out[w] == t;
                assert(src[from[w]] == t);
                assert(src.contains(t));
            }
            if all.contains(t) && !shadowed(all, t) {
                assert(src.contains(t));
                let w = choose|w: int| 0 <= w < src.len() && src[w] == t;
                assert(out.contains(src[w]));
            }
        }
        lemma_collapsed(all, out);
    }
    kept
}

/// An entry that a list shadows is covered by an entry that it does not shadow.
proof fn lemma_unshadowed_cover(list: Seq<Seq<char>>, t: Seq<char>) -> (u: Seq<char>)
    requires
        list.contains(t),
    ensures
        list.contains(u),
        !shadowed(list, u),
        covers(u, t),
    decreases t.len(),
{
    if shadowed(list, t) {
        let i = choose|i: int|
            0 <= i < t.len() && #[trigger] t[i] == '.' && list.contains(t.skip(i + 1));
        let p = t.skip(i + 1);
        let u = lemma_unshadowed_cover(list, p);
        assert(t[t.len() - p.len() - 1] == '.');
        assert(t.skip(t.len() - p.len()) =~= p);
        covers_transitive(u, p, t);
        u
    } else {
        t
    }
}

/// Dropping shadowed entries changes nothing about which domains are covered.
pub proof fn collapse_keeps_coverage(list: Seq<Seq<char>>, kept: Seq<Seq<char>>, d: Seq<char>)
    requires
        collapses(list, kept),
    ensures
        covered(kept, d) <==> covered(list, d),
{
    if covered(kept, d) {
        let i = choose|i: int| 0 <= i < kept.len() && covers(#[trigger] kept[i], d);
        assert(kept.contains(kept[i]));
        let j = choose|j: int| 0 <= j < list.len() && list[j] == kept[i];
        assert(covers(list[j], d));
    }
    if covered(list, d) {
        let i = choose|i: int| 0 <= i < list.len() && covers(#[trigger] list[i], d);
        assert(list.contains(list[i]));
        let u = lemma_unshadowed_cover(list, list[i]);
        covers_transitive(u, list[i], d);
        assert(kept.contains(u));
        let j = choose|j: int| 0 <= j < kept.len() && kept[j] == u;
        assert(covers(kept[j], d));
    }
}

/// No entry of a collapsed list covers another one, so collapsing it again
/// gives the same list.
pub proof fn collapse_is_idempotent(
    list: Seq<Seq<char>>,
    kept: Seq<Seq<char>>,
    again: Seq<Seq<char>>,
)
    requires
        collapses(list, kept),
        collapses(kept, again),
    ensures
        again == kept,
        forall|i: int, j: int|
            0 <= i < kept.len() && 0 <= j < kept.len() && i != j ==> !covers(kept[i], kept[j]),
{
    assert forall|t: Seq<char>| kept.contains(t) implies !shadowed(kept, t) by {
        if shadowed(kept, t) {
            let i = choose|i: int|
                0 <= i < t.len() && #[trigger] t[i] == '.' && kept.contains(t.skip(i + 1));
            assert(list.contains(t.skip(i + 1)));
            assert(shadowed(list, t));
        }
    }
    assert forall|t: Seq<char>| #[trigger] again.contains(t) <==> kept.contains(t) by {}
    sorted_lists_agree(again, kept);
    assert forall|i: int, j: int|
        0 <= i < kept.len() && 0 <= j < kept.len() && i != j implies !covers(kept[i], kept[j]) by {
        if covers(kept[i], kept[j]) {
            let (a, b) = (kept[i], kept[j]);
            if a == b {
                if i < j {
                    assert(text_less(kept[i], kept[j]));
                } else {
                    assert(text_less(kept[j], kept[i]));
                }
                lemma_less_irreflexive(encode_utf8(a));
            } else {
                let p = b.len() - a.len() - 1;
                assert(b[p] == '.');
                assert(b.skip(p + 1) == a);
                assert(kept.contains(a));
                assert(shadowed(kept, b));
                assert(kept.contains(b));
            }
        }
    }
}

/// Collapsing depends neither on the order of a list nor on how often an entry
/// occurs in it.
pub proof fn collapse_ignores_order(
    list: Seq<Seq<char>>,
    other: Seq<Seq<char>>,
    kept: Seq<Seq<char>>,
    other_kept: Seq<Seq<char>>,
)
    requires
        forall|t: Seq<char>| #[trigger] list.contains(t) <==> other.contains(t),
        collapses(list, kept),
        collapses(other, other_kept),
    ensures
        kept == other_kept,
{
    assert forall|d: Seq<char>| #[trigger] shadowed(list, d) == shadowed(other, d) by {
        if shadowed(list, d) {
            let i = choose|i: int|
                0 <= i < d.len() && #[trigger] d[i] == '.' && list.contains(d.skip(i + 1));
            assert(other.contains(d.skip(i + 1)));
            assert(d[i] == '.');
        }
        if shadowed(other, d) {
            let i = choose|i: int|
                0 <= i < d.len() && #[trigger] d[i] == '.' && other.contains(d.skip(i + 1));
            assert(list.contains(d.skip(i + 1)));
            assert(d[i] == '.');
        }
    }
    assert forall|t: Seq<char>| #[trigger] kept.contains(t) <==> other_kept.contains(t) by {
        assert(list.contains(t) <==> other.contains(t));
    }
    sorted_lists_agree(kept, other_kept);
}

/// Why a trie could not be built.
#[derive(Debug, Clone, PartialEq, Eq)]
pub struct TrieBuildError {
    /// What the trie builder reports.
    pub message: String,
}

/// The texts of a list of string slices.
pub open spec fn slices(v: Seq<&str>) -> Seq<Seq<char>> {
    Seq::new(v.len(), |i: int| v[i]@)
}

/// The lookup forms of those domains of a list that have one, in their order.
pub open spec fn lookup_forms(ds: Seq<Seq<char>>) -> Seq<Seq<char>>
    decreases ds.len(),
{
    if ds.len() == 0 {
        Seq::empty()
    } else {
        match normalized(ds.last()) {
            Some(n) => lookup_forms(ds.drop_last()).push(n),
            None => lookup_forms(ds.drop_last()),
        }
    }
}

/// There are no more lookup forms than domains, and each is the form of a domain.
pub proof fn lookup_forms_come_from_domains(ds: Seq<Seq<char>>)
    ensures
        lookup_forms(ds).len() <= ds.len(),
        forall|x: int|
            0 <= x < lookup_forms(ds).len() ==> exists|i: int|
                0 <= i < ds.len() && normalized(#[trigger] ds[i]) == Some(
                    #[trigger] lookup_forms(ds)[x],
                ),
    decreases ds.len(),
{
    if ds.len() > 0 {
        let front = ds.drop_last();
        let (fewer, forms) = (lookup_forms(front), lookup_forms(ds));
        lookup_forms_come_from_domains(front);
        assert forall|x: int| 0 <= x < forms.len() implies exists|i: int|
            0 <= i < ds.len() && normalized(#[trigger] ds[i]) == Some(#[trigger] forms[x]) by {
            if x < fewer.len() {
                let i = choose|i: int|
                    0 <= i < front.len() && normalized(#[trigger] front[i]) == Some(fewer[x]);
                assert(normalized(ds[i]) == Some(forms[x]));
            } else {
                assert(normalized(ds[ds.len() - 1]) == Some(forms[x]));
            }
        }
    }
}

/// The trie entries of a list of domains: each key with the number of its domain
/// in the list, counted from one; of a domain that occurs again, the later number.
pub open spec fn entries(names: Seq<Seq<char>>) -> Map<Seq<u8>, usize>
    decreases names.len(),
{
    if names.len() == 0 {
        Map::empty()
    } else {
        entries(names.drop_last()).insert(key(names.last()), names.len() as usize)
    }
}

/// `x` is the last domain of the list with the key `k`.
spec fn last_named(names: Seq<Seq<char>>, k: Seq<u8>, x: int) -> bool {
    &&& 0 <= x < names.len()
    &&& key(names[x]) == k
    &&& forall|y: int| x < y < names.len() ==> key(#[trigger] names[y]) != k
}

/// The entries of a list hold the keys of its domains, each with the number of
/// the last domain that has it.
proof fn lemma_entries(names: Seq<Seq<char>>, k: Seq<u8>) -> (x: int)
    ensures
        entries(names).dom().contains(k) ==> last_named(names, k, x) && entries(names)[k] == (x
            + 1) as usize,
        !entries(names).dom().contains(k) ==> forall|i: int|
            0 <= i < names.len() ==> key(#[trigger] names[i]) != k,
    decreases names.len(),
{
    if names.len() == 0 {
        0
    } else if key(names.last()) == k {
        names.len() - 1
    } else {
        let front = names.drop_last();
        let x = lemma_entries(front, k);
        if entries(names).dom().contains(k) {
            assert(names[x] == front[x]);
            assert forall|y: int| x < y < names.len() implies key(#[trigger] names[y]) != k by {
                if y < front.len() {
                    assert(front[y] == names[y]);
                }
            }
        } else {
            assert forall|i: int| 0 <= i < names.len() implies key(#[trigger] names[i]) != k by {
                if i < front.len() {
                    assert(front[i] == names[i]);
                }
            }
        }
        x
    }
}

impl Ranked for (Vec<u8>, usize) {
    open spec fn key_view(&self) -> Seq<u8> {
        self.0@
    }

    open spec fn rank_view(&self) -> int {
        self.1 as int
    }

    fn sort_key(&self) -> (r: &[u8]) {
        self.0.as_slice()
    }

    fn sort_rank(&self) -> (r: usize) {
        self.1
    }
}

/// No item that `order` names after `p` has the key of the item there.
spec fn last_of_key(items: Seq<(Vec<u8>, usize)>, order: Seq<usize>, p: int) -> bool {
    p + 1 == order.len() || items[order[p + 1] as int].0@ != items[order[p] as int].0@
}

/// In sorted order, what follows the last item of a key has greater keys.
proof fn lemma_greater_after(
    items: Seq<(Vec<u8>, usize)>,
    order: Seq<usize>,
    p: int,
    q: int,
)
    requires
        in_order(items, order),
        0 <= p < q < order.len(),
        last_of_key(items, order, p),
    ensures
        bytes_less(items[order[p] as int].0@, items[order[q] as int].0@),
{
    let a = items[order[p] as int];
    let b = items[order[p + 1] as int];
    let c = items[order[q] as int];
    assert(!before(b, a));
    lemma_less_total(a.0@, b.0@);
    assert(bytes_less(a.0@, b.0@));
    if p + 1 < q {
        assert(!before(c, b));
        lemma_less_total(b.0@, c.0@);
        if b.0@ != c.0@ {
            lemma_less_transitive(a.0@, b.0@, c.0@);
        }
    }
}

/// From each position on there is a last item of its key.
proof fn lemma_last_of_key(items: Seq<(Vec<u8>, usize)>, order: Seq<usize>, p: int) -> (q: int)
    requires
        0 <= p < order.len(),
    ensures
        p <= q < order.len(),
        last_of_key(items, order, q),
        items[order[q] as int].0@ == items[order[p] as int].0@,
    decreases order.len() - p,
{
    if last_of_key(items, order, p) {
        p
    } else {
        lemma_last_of_key(items, order, p + 1)
    }
}

/// Of the items with equal keys, keeps the last. The items are numbered from one.
fn keep_last(items: &Vec<(Vec<u8>, usize)>, Ghost(names): Ghost<Seq<Seq<char>>>) -> (r: Vec<
    (Vec<u8>, usize),
>)
    requires
        items@.len() == names.len(),
        forall|i: int|
            0 <= i < items@.len() ==> (#[trigger] items@[i]).0@ == key(names[i]) && items@[i].1 == i
                + 1,
    ensures
        distinct_keys(r@),
        r@.len() <= names.len(),
        pairs_map(r@) == entries(names),
        forall|i: int|
            0 <= i < r@.len() ==> exists|x: int|
                0 <= x < names.len() && (#[trigger] r@[i]).0@ == key(#[trigger] names[x]),
{
    let n: usize = items.len();
    let order: Vec<usize> = sort_range(items, 0, n);
    let mut out: Vec<(Vec<u8>, usize)> = Vec::new();
    let ghost mut from: Seq<int> = Seq::empty();
    let ghost (its, ord) = (items@, order@);
    let mut k: usize = 0;
    while k < order.len()
        invariant
            its == items@,
            ord == order@,
            n == its.len(),
            k <= ord.len(),
            ord.len() == n,
            names_range(ord, 0, n as int),
            in_order(its, ord),
            from.len() == out@.len(),
            out@.len() <= k,
            forall|i: int|
                0 <= i < from.len() ==> {
                    &&& 0 <= #[trigger] from[i] < k
                    &&& last_of_key(its, ord, from[i])
                    &&& out@[i].0@ == its[ord[from[i]] as int].0@
                    &&& out@[i].1 == its[ord[from[i]] as int].1
                },
            forall|i: int, j: int| 0 <= i < j < from.len() ==> from[i] < from[j],
            forall|p: int| 0 <= p < k && #[trigger] last_of_key(its, ord, p) ==> from.contains(p),
        decreases ord.len() - k,
    {
        let x: usize = order[k];
        let last: bool = if k + 1 == order.len() {
            true
        } else {
            let y: usize = order[k + 1];
            proof {
                assert(!before(its[ord[k + 1] as int], its[ord[k as int] as int]));
                lemma_less_total(its[x as int].0@, its[y as int].0@);
                lemma_less_irreflexive(its[x as int].0@);
            }
            is_less(items[x].0.as_slice(), items[y].0.as_slice())
        };
        let ghost prior = from;
        if last {
            let mut copy: Vec<u8> = Vec::new();
            copy.extend_from_slice(items[x].0.as_slice());
            proof {
                assert(copy@ =~= its[x as int].0@);
                from = from.push(k as int);
            }
            out.push((copy, items[x].1));
        }
        proof {
            assert(last == last_of_key(its, ord, k as int));
            assert forall|p: int|
                0 <= p < k + 1 && #[trigger] last_of_key(its, ord, p) implies from.contains(p) by {
                if p < k {
                    let w = choose|w: int| 0 <= w < prior.len() && prior[w] == p;
                    assert(from[w] == p);
                } else {
                    assert(from[prior.len() as int] == p);
                }
            }
        }
        k = k + 1;
    }
    proof {
        lemma_kept_last(its, ord, names, out@, from);
    }
    out
}

/// What `keep_last` keeps are the entries of the list.
proof fn lemma_kept_last(
    its: Seq<(Vec<u8>, usize)>,
    ord: Seq<usize>,
    names: Seq<Seq<char>>,
    out: Seq<(Vec<u8>, usize)>,
    from: Seq<int>,
)
    requires
        its.len() == names.len(),
        names.len() <= usize::MAX,
        forall|i: int|
            0 <= i < its.len() ==> (#[trigger] its[i]).0@ == key(names[i]) && its[i].1 == i + 1,
        names_range(ord, 0, its.len() as int),
        in_order(its, ord),
        from.len() == out.len(),
        forall|i: int|
            0 <= i < from.len() ==> {
                &&& 0 <= #[trigger] from[i] < ord.len()
                &&& last_of_key(its, ord, from[i])
                &&& out[i].0@ == its[ord[from[i]] as int].0@
                &&& out[i].1 == its[ord[from[i]] as int].1
            },
        forall|i: int, j: int| 0 <= i < j < from.len() ==> from[i] < from[j],
        forall|p: int|
            0 <= p < ord.len() && #[trigger] last_of_key(its, ord, p) ==> from.contains(p),
    ensures
        distinct_keys(out),
        pairs_map(out) == entries(names),
        forall|i: int|
            0 <= i < out.len() ==> exists|x: int|
                0 <= x < names.len() && (#[trigger] out[i]).0@ == key(#[trigger] names[x]),
{
    assert forall|i: int, j: int| 0 <= i < j < out.len() implies (#[trigger] out[i]).0@ != (
    #[trigger] out[j]).0@ by {
        assert(from[i] < from[j]);
        lemma_greater_after(its, ord, from[i], from[j]);
        lemma_less_irreflexive(out[i].0@);
    }
    assert forall|i: int| 0 <= i < out.len() implies exists|x: int|
        0 <= x < names.len() && (#[trigger] out[i]).0@ == key(#[trigger] names[x]) by {
        let x = ord[from[i]] as int;
        assert(out[i].0@ == key(names[x]));
    }
    let m = entries(names);
    // each kept item is the last of its key in the list
    assert forall|i: int| 0 <= i < out.len() implies m.dom().contains((#[trigger] out[i]).0@)
        && m[out[i].0@] == out[i].1 by {
        let p = from[i];
        let x = ord[p] as int;
        let k = out[i].0@;
        let z = lemma_entries(names, k);
        assert(key(names[x]) == k);
        if z > x {
            assert(its[z].0@ == k);
            assert(ord.contains(z as usize));
            let q = choose|q: int| 0 <= q < ord.len() && ord[q] == z as usize;
            if q < p {
                assert(!before(its[ord[p] as int], its[ord[q] as int]));
            } else {
                lemma_greater_after(its, ord, p, q);
                lemma_less_irreflexive(k);
            }
        }
    }
    assert forall|k: Seq<u8>| m.dom().contains(k) implies exists|v: usize| holds_pair(
        out,
        k,
        v,
    ) by {
        let x = lemma_entries(names, k);
        assert(ord.contains(x as usize));
        let p = choose|p: int| 0 <= p < ord.len() && ord[p] == x as usize;
        let q = lemma_last_of_key(its, ord, p);
        assert(from.contains(q));
        let i = choose|i: int| 0 <= i < from.len() && from[i] == q;
        assert(its[x].0@ == k);
        assert(out[i].0@ == k);
        assert(holds_pair(out, k, out[i].1));
    }
    assert(pairs_map(out).dom() =~= m.dom()) by {
        assert forall|k: Seq<u8>| pairs_map(out).dom().contains(k) implies m.dom().contains(k) by {
            let v = choose|v: usize| holds_pair(out, k, v);
            let i = choose|i: int|
                0 <= i < out.len() && (#[trigger] out[i]).0@ == k && out[i].1 == v;
            assert(m.dom().contains(out[i].0@));
        }
    }
    assert forall|k: Seq<u8>| m.dom().contains(k) implies pairs_map(out)[k] == m[k] by {
        let v = choose|v: usize| holds_pair(out, k, v);
        let i = choose|i: int| 0 <= i < out.len() && (#[trigger] out[i]).0@ == k && out[i].1 == v;
        assert(m[out[i].0@] == out[i].1);
    }
    assert(pairs_map(out) =~= m);
}

/// A trie with the entries of a list of domains blocks what the list covers.
proof fn lemma_trie_covers(bytes: Seq<u8>, names: Seq<Seq<char>>, d: Seq<char>)
    requires
        trie_ok(bytes),
        forall|k: Seq<u8>| #[trigger]
            trie_get(bytes, k) == (if entries(names).dom().contains(k) {
                Some(entries(names)[k])
            } else {
                None
            }),
        forall|i: int| 0 <= i < names.len() ==> valid_hostname(#[trigger] names[i]),
        valid_hostname(d),
    ensures
        trie_blocks(bytes, d) == covered(names, d),
{
    if covered(names, d) {
        let i = choose|i: int| 0 <= i < names.len() && covers(#[trigger] names[i], d);
        lemma_entries(names, key(names[i]));
        assert(lookup_ok(bytes, key(names[i])));
        assert(trie_holds(bytes, key(names[i])));
    }
    if trie_blocks(bytes, d) {
        let p = choose|p: Seq<char>| #[trigger] covers(p, d) && trie_holds(bytes, key(p));
        let x = lemma_entries(names, key(p));
        lemma_parent_valid(p, d);
        assert(valid_hostname(names[x]));
        lemma_valid_no_separator(p);
        lemma_valid_no_separator(names[x]);
        key_determines_domain(p, names[x]);
        assert(covers(names[x], d));
    }
}

/// Of the normalized domains, a trie blocks exactly those that the list covers.
pub open spec fn blocks_exactly(bytes: Seq<u8>, list: Seq<Seq<char>>) -> bool {
    forall|d: Seq<char>|
        valid_hostname(d) ==> #[trigger] trie_blocks(bytes, d) == covered(list, d)
}

/// A compiled list matches exactly what inline rules for the same domains match.
pub proof fn compiled_and_inline_rules_agree(bytes: Seq<u8>, names: Seq<Seq<char>>, d: Seq<char>)
    requires
        blocks_exactly(bytes, names),
    ensures
        list_blocks(bytes, d) == rules_block(names, d),
{
}

/// Every domain of the list is its own lookup form.
pub open spec fn own_forms(ds: Seq<Seq<char>>) -> bool {
    forall|i: int| 0 <= i < ds.len() ==> normalized(#[trigger] ds[i]) == Some(ds[i])
}

/// Domains that are their own lookup forms are kept as they are.
pub proof fn own_forms_are_kept(ds: Seq<Seq<char>>)
    requires
        own_forms(ds),
    ensures
        lookup_forms(ds) == ds,
    decreases ds.len(),
{
    if ds.len() > 0 {
        let front = ds.drop_last();
        assert forall|i: int| 0 <= i < front.len() implies normalized(#[trigger] front[i])
            == Some(front[i]) by {
            assert(front[i] == ds[i]);
        }
        own_forms_are_kept(front);
        assert(normalized(ds[ds.len() - 1]) == Some(ds[ds.len() - 1]));
        assert(front.push(ds.last()) =~= ds);
    } else {
        assert(lookup_forms(ds) =~= ds);
    }
}

/// Whether `k` is the key of the lookup form of a domain of the list.
pub open spec fn names_key(ds: Seq<Seq<char>>, k: Seq<u8>) -> bool {
    exists|i: int|
        0 <= i < ds.len() && (normalized(#[trigger] ds[i]) matches Some(n) && key(n) == k)
}

/// The lookup forms of a list are those of its domains.
proof fn lemma_lookup_forms(ds: Seq<Seq<char>>, k: Seq<u8>)
    ensures
        names_key(ds, k) <==> exists|x: int|
            0 <= x < lookup_forms(ds).len() && key(#[trigger] lookup_forms(ds)[x]) == k,
    decreases ds.len(),
{
    let forms = lookup_forms(ds);
    if ds.len() > 0 {
        let front = ds.drop_last();
        let fewer = lookup_forms(front);
        lemma_lookup_forms(front, k);
        if names_key(ds, k) {
            let i = choose|i: int|
                0 <= i < ds.len() && (normalized(#[trigger] ds[i]) matches Some(n) && key(n) == k);
            if i < front.len() {
                assert(front[i] == ds[i]);
                assert(names_key(front, k));
                let x = choose|x: int| 0 <= x < fewer.len() && key(#[trigger] fewer[x]) == k;
                assert(forms[x] == fewer[x]);
            } else {
                assert(key(forms[forms.len() - 1]) == k);
            }
        }
        if exists|x: int| 0 <= x < forms.len() && key(#[trigger] forms[x]) == k {
            let x = choose|x: int| 0 <= x < forms.len() && key(#[trigger] forms[x]) == k;
            if x < fewer.len() {
                assert(fewer[x] == forms[x]);
                let i = choose|i: int|
                    0 <= i < front.len() && (normalized(#[trigger] front[i]) matches Some(n)
                        && key(n) == k);
                assert(ds[i] == front[i]);
            } else {
                assert(normalized(ds[ds.len() - 1]) == Some(forms[x]));
            }
        }
    }
}

/// The trie of a list holds the keys of the lookup forms of its domains, and no
/// others; domains that have no lookup form are skipped.
pub proof fn entries_hold_the_keys_of_lookup_forms(ds: Seq<Seq<char>>, k: Seq<u8>)
    ensures
        entries(lookup_forms(ds)).dom().contains(k) <==> names_key(ds, k),
{
    lemma_lookup_forms(ds, k);
    lemma_entries(lookup_forms(ds), k);
}

/// A list of up to this many domains can always be encoded.
pub const MAX_SURE_ENTRIES: usize = 1_000_000;

/// Encodes domains into a serialized `ZeroTrieSimpleAscii`, which blocks what one
/// of the domains, normalized, covers. It succeeds for up to `MAX_SURE_ENTRIES`
/// domains with a lookup form.
///
/// # Errors
///
/// Returns a `TrieBuildError` if the normalized domain keys cannot be encoded into the trie.
pub fn encode_domains(domains: &[&str]) -> (r: Result<Vec<u8>, TrieBuildError>)
    ensures
        match r {
            Ok(bytes) => {
                let names = lookup_forms(slices(domains@));
                &&& trie_bytes(entries(names)) == Ok::<Seq<u8>, Seq<char>>(bytes@)
                &&& trie_ok(bytes@)
                &&& names.len() == 0 ==> bytes@.len() == 0
                &&& forall|k: Seq<u8>| #[trigger]
                    trie_get(bytes@, k) == (if entries(names).dom().contains(k) {
                        Some(entries(names)[k])
                    } else {
                        None
                    })
                &&& blocks_exactly(bytes@, names)
            },
            Err(error) => {
                let names = lookup_forms(slices(domains@));
                &&& trie_bytes(entries(names)) == Err::<Seq<u8>, Seq<char>>(error.message@)
                &&& names.len() > MAX_SURE_ENTRIES
            },
        },
{
    let mut items: Vec<(Vec<u8>, usize)> = Vec::new();
    let ghost mut names: Seq<Seq<char>> = Seq::empty();
    let ghost all = slices(domains@);
    let mut k: usize = 0;
    while k < domains.len()
        invariant
            k <= domains@.len(),
            all == slices(domains@),
            names == lookup_forms(all.take(k as int)),
            items@.len() == names.len(),
            items@.len() <= k,
            forall|i: int|
                0 <= i < items@.len() ==> (#[trigger] items@[i]).0@ == key(names[i]) && items@[i].1
                    == i + 1,
            forall|i: int| 0 <= i < names.len() ==> valid_hostname(#[trigger] names[i]),
        decreases domains@.len() - k,
    {
        proof {
            assert(all.take(k + 1).drop_last() =~= all.take(k as int));
            assert(all.take(k + 1).last() == domains@[k as int]@);
        }
        match normalize_domain(domains[k]) {
            Some(domain) => {
                let number: usize = items.len() + 1;
                let encoded: Vec<u8> = encode_domain_key(domain.as_str());
                items.push((encoded, number));
                proof {
                    names = names.push(domain@);
                }
            },
            None => {},
        }
        k = k + 1;
    }
    let pairs: Vec<(Vec<u8>, usize)> = keep_last(&items, Ghost(names));
    proof {
        assert forall|i: int| 0 <= i < pairs@.len() implies (#[trigger] pairs@[i]).0@.len()
            <= 254 by {
            let x = choose|x: int| 0 <= x < names.len() && pairs@[i].0@ == key(#[trigger] names[x]);
            lemma_hostname_ascii(names[x]);
            is_ascii_chars_encode_utf8(names[x]);
            key_length(names[x]);
        }
        lemma_key_bytes(pairs@, 254);
        assert(all.take(k as int) =~= all);
        assert forall|i: int, p: int|
            0 <= i < pairs@.len() && 0 <= p < pairs@[i].0@.len() implies #[trigger] pairs@[i].0@[p]
            < 128 by {
            let x = choose|x: int| 0 <= x < names.len() && pairs@[i].0@ == key(#[trigger] names[x]);
            lemma_key_ascii(names[x]);
        }
    }
    match build_trie(&pairs) {
        Ok(bytes) => {
            proof {
                assert forall|d: Seq<char>|
                    valid_hostname(d) implies #[trigger] trie_blocks(bytes@, d)
                    == covered(names, d) by {
                    lemma_trie_covers(bytes@, names, d);
                }
            }
            Ok(bytes)
        },
        Err(message) => Err(TrieBuildError { message }),
    }
}

/// A collapsed list holds those entries of a list that do not end in a dot and another
/// entry of it, each once, in the order of their bytes.
pub proof fn collapsing_drops_what_ends_in_another_entry(
    list: Seq<Seq<char>>,
    kept: Seq<Seq<char>>,
    t: Seq<char>,
)
    requires
        collapses(list, kept),
    ensures
        kept.contains(t) <==> list.contains(t) && forall|u: Seq<char>, front: Seq<char>|
            #[trigger] list.contains(u) ==> t != #[trigger] (front.push('.') + u),
        forall|i: int| 0 < i < kept.len() ==> text_less(kept[i - 1], #[trigger] kept[i]),
        collapsed(list) == kept,
{
    lemma_collapsed(list, kept);
    entries_are_shadowed_by_what_they_end_in(list, t);
}

/// Whether an entry is shadowed is a question of what stands behind its dots.
pub proof fn entries_are_shadowed_by_what_they_end_in(list: Seq<Seq<char>>, t: Seq<char>)
    ensures
        shadowed(list, t) <==> exists|u: Seq<char>, front: Seq<char>|
            #[trigger] list.contains(u) && t == #[trigger] (front.push('.') + u),
{
    if shadowed(list, t) {
        let i = choose|i: int|
            0 <= i < t.len() && #[trigger] t[i] == '.' && list.contains(t.skip(i + 1));
        let (u, front) = (t.skip(i + 1), t.take(i));
        assert(t =~= front.push('.') + u);
        assert(list.contains(u));
    }
    assert forall|u: Seq<char>, front: Seq<char>|
        #[trigger] list.contains(u) && t == #[trigger] (front.push('.') + u) implies shadowed(
        list,
        t,
    ) by {
        let i = front.len() as int;
        assert(t[i] == '.');
        assert(t.skip(i + 1) =~= u);
    }
}

/// A further domain adds its lookup form behind those of the others, or nothing.
pub proof fn lookup_forms_follow_the_domains(ds: Seq<Seq<char>>, d: Seq<char>)
    ensures
        lookup_forms(Seq::empty()) == Seq::<Seq<char>>::empty(),
        normalized(d) is None ==> lookup_forms(ds.push(d)) == lookup_forms(ds),
        normalized(d) matches Some(n) ==> lookup_forms(ds.push(d)) == lookup_forms(ds).push(n),
{
    assert(ds.push(d).drop_last() =~= ds);
}

/// A trie holds the keys of its domains and no others, each with the number of the last
/// domain that has it, counted from one.
pub proof fn entries_number_their_domains(names: Seq<Seq<char>>)
    requires
        names.len() <= usize::MAX,
    ensures
        forall|k: Seq<u8>| #[trigger]
            entries(names).dom().contains(k) <==> exists|i: int|
                0 <= i < names.len() && key(#[trigger] names[i]) == k,
        forall|i: int|
            0 <= i < names.len() && (forall|j: int|
                i < j < names.len() ==> key(#[trigger] names[j]) != key(names[i])) ==> entries(
                names,
            )[key(#[trigger] names[i])] == i + 1,
{
    assert forall|k: Seq<u8>| #[trigger]
        entries(names).dom().contains(k) <==> exists|i: int|
            0 <= i < names.len() && key(#[trigger] names[i]) == k by {
        let x = lemma_entries(names, k);
        if entries(names).dom().contains(k) {
            assert(key(names[x]) == k);
        }
    }
    assert forall|i: int|
        0 <= i < names.len() && (forall|j: int|
            i < j < names.len() ==> key(#[trigger] names[j]) != key(names[i])) implies entries(
        names,
    )[key(#[trigger] names[i])] == i + 1 by {
        let x = lemma_entries(names, key(names[i]));
        if x < i {
            assert(key(names[i]) != key(names[x]));
        }
    }
}

/// The texts of a list of string slices are those of its slices, in their order.
pub proof fn slices_have_their_texts(v: Seq<&str>)
    ensures
        slices(v).len() == v.len(),
        forall|i: int| 0 <= i < v.len() ==> #[trigger] slices(v)[i] == v[i]@,
{
}

/// A trie that blocks exactly what a list covers holds, of the normalized domains, the key
/// of one or of what stands behind a dot of it just where the list does.
pub proof fn exact_tries_hold_what_lists_hold(
    bytes: Seq<u8>,
    list: Seq<Seq<char>>,
    d: Seq<char>,
)
    requires
        blocks_exactly(bytes, list),
        valid_hostname(d),
    ensures
        (exists|p: Seq<char>| #[trigger]
            covers(p, d) && lookup_ok(bytes, key(p)) && trie_get(bytes, key(p)) is Some) <==> (
        exists|i: int| 0 <= i < list.len() && covers(#[trigger] list[i], d)),
{
    tries_block_what_they_hold(bytes, d);
    assert(trie_blocks(bytes, d) == covered(list, d));
}

} // verus!
