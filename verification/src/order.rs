//! Byte order on texts and keys, and sorting by it.

use vstd::prelude::*;
use vstd::utf8::{encode_utf8, encode_utf8_decode_utf8};

verus! {

/// Lexicographic order on byte sequences.
pub open spec fn bytes_less(a: Seq<u8>, b: Seq<u8>) -> bool
    decreases a.len(),
{
    if b.len() == 0 {
        false
    } else if a.len() == 0 {
        true
    } else if a[0] != b[0] {
        a[0] < b[0]
    } else {
        bytes_less(a.skip(1), b.skip(1))
    }
}

/// The order of strings: by their UTF-8 bytes.
pub open spec fn text_less(a: Seq<char>, b: Seq<char>) -> bool {
    bytes_less(encode_utf8(a), encode_utf8(b))
}

/// Each text stands before all later ones; so none occurs twice.
pub open spec fn strictly_sorted(s: Seq<Seq<char>>) -> bool {
    forall|i: int, j: int| 0 <= i < j < s.len() ==> #[trigger] text_less(s[i], s[j])
}

/// No byte sequence stands before itself.
pub proof fn lemma_less_irreflexive(a: Seq<u8>)
    ensures
        !bytes_less(a, a),
    decreases a.len(),
{
    if a.len() > 0 {
        lemma_less_irreflexive(a.skip(1));
    }
}

/// The byte order is transitive.
pub proof fn lemma_less_transitive(a: Seq<u8>, b: Seq<u8>, c: Seq<u8>)
    requires
        bytes_less(a, b),
        bytes_less(b, c),
    ensures
        bytes_less(a, c),
    decreases a.len(),
{
    if a.len() > 0 && a[0] == b[0] && b[0] == c[0] {
        lemma_less_transitive(a.skip(1), b.skip(1), c.skip(1));
    }
}

/// Two different byte sequences stand one before the other.
pub proof fn lemma_less_total(a: Seq<u8>, b: Seq<u8>)
    ensures
        a == b || bytes_less(a, b) || bytes_less(b, a),
    decreases a.len(),
{
    if a.len() > 0 && b.len() > 0 && a[0] == b[0] {
        lemma_less_total(a.skip(1), b.skip(1));
        if a.skip(1) == b.skip(1) {
            assert(a =~= seq![a[0]] + a.skip(1));
            assert(b =~= seq![b[0]] + b.skip(1));
        }
    } else if a.len() == 0 && b.len() == 0 {
        assert(a =~= b);
    }
}

/// Different texts have different UTF-8 bytes.
pub proof fn lemma_utf8_injective(a: Seq<char>, b: Seq<char>)
    requires
        encode_utf8(a) == encode_utf8(b),
    ensures
        a == b,
{
    encode_utf8_decode_utf8(a);
    encode_utf8_decode_utf8(b);
}

/// Whether `a` stands before `b` in the byte order.
pub fn is_less(a: &[u8], b: &[u8]) -> (r: bool)
    ensures
        r == bytes_less(a@, b@),
{
    let mut i: usize = 0;
    proof {
        assert(a@.skip(0) == a@);
        assert(b@.skip(0) == b@);
    }
    while i < a.len() && i < b.len()
        invariant
            i <= a@.len(),
            i <= b@.len(),
            bytes_less(a@, b@) == bytes_less(a@.skip(i as int), b@.skip(i as int)),
        decreases a@.len() - i,
    {
        if a[i] != b[i] {
            return a[i] < b[i];
        }
        proof {
            assert(a@.skip(i as int).skip(1) == a@.skip(i + 1));
            assert(b@.skip(i as int).skip(1) == b@.skip(i + 1));
        }
        i = i + 1;
    }
    i < b.len()
}

/// What can be sorted: a byte key, and a rank among equal keys.
pub trait Ranked {
    /// The bytes that decide first.
    spec fn key_view(&self) -> Seq<u8>;

    /// The number that decides between equal keys.
    spec fn rank_view(&self) -> int;

    /// The bytes that decide first.
    fn sort_key(&self) -> (r: &[u8])
        ensures
            r@ == self.key_view(),
    ;

    /// The number that decides between equal keys.
    fn sort_rank(&self) -> (r: usize)
        ensures
            r == self.rank_view(),
    ;
}

impl Ranked for String {
    open spec fn key_view(&self) -> Seq<u8> {
        encode_utf8(self@)
    }

    open spec fn rank_view(&self) -> int {
        0
    }

    fn sort_key(&self) -> (r: &[u8]) {
        self.as_str().as_bytes()
    }

    fn sort_rank(&self) -> (r: usize) {
        0
    }
}

/// Whether `a` sorts strictly before `b`.
pub open spec fn before<T: Ranked>(a: T, b: T) -> bool {
    bytes_less(a.key_view(), b.key_view()) || (a.key_view() == b.key_view() && a.rank_view()
        < b.rank_view())
}

/// The items named by `order` never step backwards.
pub open spec fn in_order<T: Ranked>(items: Seq<T>, order: Seq<usize>) -> bool {
    forall|i: int, j: int|
        0 <= i < j < order.len() ==> !#[trigger] before(items[order[j] as int], items[order[i] as int])
}

/// `order` names exactly the items from `lo` up to `hi`.
pub open spec fn names_range(order: Seq<usize>, lo: int, hi: int) -> bool {
    &&& forall|i: int| 0 <= i < order.len() ==> lo <= #[trigger] order[i] < hi
    &&& forall|k: usize| lo <= k < hi ==> #[trigger] order.contains(k)
}

proof fn lemma_not_before_transitive<T: Ranked>(a: T, b: T, c: T)
    requires
        !before(b, a),
        !before(c, b),
    ensures
        !before(c, a),
{
    let (ka, kb, kc) = (a.key_view(), b.key_view(), c.key_view());
    lemma_less_total(ka, kb);
    lemma_less_total(kb, kc);
    lemma_less_irreflexive(ka);
    if bytes_less(ka, kb) && bytes_less(kb, kc) {
        lemma_less_transitive(ka, kb, kc);
    }
    if bytes_less(kc, ka) {
        if bytes_less(ka, kc) {
            lemma_less_transitive(kc, ka, kc);
            lemma_less_irreflexive(kc);
        }
    }
    if kc == ka {
        if bytes_less(ka, kb) && bytes_less(kb, kc) {
            lemma_less_irreflexive(ka);
        }
    }
}

fn is_before<T: Ranked>(a: &T, b: &T) -> (r: bool)
    ensures
        r == before(*a, *b),
{
    let ka: &[u8] = a.sort_key();
    let kb: &[u8] = b.sort_key();
    if is_less(ka, kb) {
        return true;
    }
    if is_less(kb, ka) {
        proof {
            if ka@ == kb@ {
                lemma_less_irreflexive(ka@);
            }
        }
        return false;
    }
    proof {
        lemma_less_total(ka@, kb@);
    }
    a.sort_rank() < b.sort_rank()
}

/// Merges two sorted runs of item numbers.
fn merge<T: Ranked>(items: &Vec<T>, a: &Vec<usize>, b: &Vec<usize>) -> (r: Vec<usize>)
    requires
        in_order(items@, a@),
        in_order(items@, b@),
        forall|i: int| 0 <= i < a@.len() ==> #[trigger] a@[i] < items@.len(),
        forall|i: int| 0 <= i < b@.len() ==> #[trigger] b@[i] < items@.len(),
    ensures
        in_order(items@, r@),
        forall|i: int| 0 <= i < r@.len() ==> a@.contains(#[trigger] r@[i]) || b@.contains(r@[i]),
        forall|k: usize| a@.contains(k) || b@.contains(k) ==> #[trigger] r@.contains(k),
        r@.len() == a@.len() + b@.len(),
{
    let mut out: Vec<usize> = Vec::new();
    let mut i: usize = 0;
    let mut j: usize = 0;
    while i < a.len() || j < b.len()
        invariant
            in_order(items@, a@),
            in_order(items@, b@),
            forall|k: int| 0 <= k < a@.len() ==> #[trigger] a@[k] < items@.len(),
            forall|k: int| 0 <= k < b@.len() ==> #[trigger] b@[k] < items@.len(),
            i <= a@.len(),
            j <= b@.len(),
            out@.len() == i + j,
            in_order(items@, out@),
            forall|k: int|
                0 <= k < out@.len() ==> a@.contains(#[trigger] out@[k]) || b@.contains(out@[k]),
            forall|k: int| 0 <= k < i ==> out@.contains(#[trigger] a@[k]),
            forall|k: int| 0 <= k < j ==> out@.contains(#[trigger] b@[k]),
            forall|k: int, l: int|
                0 <= k < out@.len() && i <= l < a@.len() ==> !#[trigger] before(
                    items@[a@[l] as int],
                    items@[out@[k] as int],
                ),
            forall|k: int, l: int|
                0 <= k < out@.len() && j <= l < b@.len() ==> !#[trigger] before(
                    items@[b@[l] as int],
                    items@[out@[k] as int],
                ),
        decreases a@.len() - i + b@.len() - j,
    {
        let from_b: bool = if i == a.len() {
            true
        } else if j == b.len() {
            false
        } else {
            is_before(&items[b[j]], &items[a[i]])
        };
        let ghost old_out = out@;
        if from_b {
            let x: usize = b[j];
            out.push(x);
            proof {
                lemma_push_keeps(old_out, x);
                assert forall|l: int| i <= l < a@.len() implies !before(
                    items@[#[trigger] a@[l] as int],
                    items@[x as int],
                ) by {
                    if l > i {
                        assert(!before(items@[a@[l] as int], items@[a@[i as int] as int]));
                    }
                    lemma_before_asymmetric(items@[x as int], items@[a@[i as int] as int]);
                    if l > i {
                        lemma_not_before_transitive(
                            items@[x as int],
                            items@[a@[i as int] as int],
                            items@[a@[l] as int],
                        );
                    }
                }
                assert forall|l: int| j + 1 <= l < b@.len() implies !before(
                    items@[#[trigger] b@[l] as int],
                    items@[x as int],
                ) by {
                    assert(!before(items@[b@[l] as int], items@[b@[j as int] as int]));
                }
            }
            j = j + 1;
        } else {
            let x: usize = a[i];
            out.push(x);
            proof {
                lemma_push_keeps(old_out, x);
                assert forall|l: int| j <= l < b@.len() implies !before(
                    items@[#[trigger] b@[l] as int],
                    items@[x as int],
                ) by {
                    if l > j {
                        assert(!before(items@[b@[l] as int], items@[b@[j as int] as int]));
                        lemma_not_before_transitive(
                            items@[x as int],
                            items@[b@[j as int] as int],
                            items@[b@[l] as int],
                        );
                    }
                }
                assert forall|l: int| i + 1 <= l < a@.len() implies !before(
                    items@[#[trigger] a@[l] as int],
                    items@[x as int],
                ) by {
                    assert(!before(items@[a@[l] as int], items@[a@[i as int] as int]));
                }
            }
            i = i + 1;
        }
    }
    out
}

proof fn lemma_before_asymmetric<T: Ranked>(a: T, b: T)
    requires
        before(a, b),
    ensures
        !before(b, a),
{
    if bytes_less(a.key_view(), b.key_view()) && bytes_less(b.key_view(), a.key_view()) {
        lemma_less_transitive(a.key_view(), b.key_view(), a.key_view());
    }
    lemma_less_irreflexive(a.key_view());
}

proof fn lemma_push_keeps(s: Seq<usize>, x: usize)
    ensures
        s.push(x).contains(x),
        forall|y: usize| s.contains(y) ==> #[trigger] s.push(x).contains(y),
{
    assert(s.push(x)[s.len() as int] == x);
    assert forall|y: usize| s.contains(y) implies #[trigger] s.push(x).contains(y) by {
        let k = choose|k: int| 0 <= k < s.len() && s[k] == y;
        assert(s.push(x)[k] == y);
    }
}

/// The numbers of the items from `lo` up to `hi`, in sorted order.
pub fn sort_range<T: Ranked>(items: &Vec<T>, lo: usize, hi: usize) -> (r: Vec<usize>)
    requires
        lo <= hi <= items@.len(),
    ensures
        in_order(items@, r@),
        names_range(r@, lo as int, hi as int),
        r@.len() == hi - lo,
    decreases hi - lo,
{
    if hi - lo < 2 {
        let mut one: Vec<usize> = Vec::new();
        if lo < hi {
            one.push(lo);
            proof {
                assert(one@[0] == lo);
            }
        }
        return one;
    }
    let mid: usize = lo + (hi - lo) / 2;
    let a: Vec<usize> = sort_range(items, lo, mid);
    let b: Vec<usize> = sort_range(items, mid, hi);
    let r: Vec<usize> = merge(items, &a, &b);
    proof {
        assert forall|i: int| 0 <= i < r@.len() implies lo <= #[trigger] r@[i] < hi by {
            if a@.contains(r@[i]) {
                let k = choose|k: int| 0 <= k < a@.len() && a@[k] == r@[i];
                assert(lo <= a@[k] < mid);
            } else {
                let k = choose|k: int| 0 <= k < b@.len() && b@[k] == r@[i];
                assert(mid <= b@[k] < hi);
            }
        }
        assert forall|k: usize| lo <= k < hi implies #[trigger] r@.contains(k) by {
            if k < mid {
                assert(a@.contains(k));
            } else {
                assert(b@.contains(k));
            }
        }
    }
    r
}

/// The texts of a list of strings.
pub open spec fn texts(v: Seq<String>) -> Seq<Seq<char>> {
    Seq::new(v.len(), |i: int| v[i]@)
}

/// The strings of `items` in sorted order, each once.
pub fn sorted_distinct(items: &Vec<String>) -> (r: Vec<String>)
    ensures
        strictly_sorted(texts(r@)),
        forall|t: Seq<char>| #[trigger] texts(r@).contains(t) <==> texts(items@).contains(t),
{
    let n: usize = items.len();
    let order: Vec<usize> = sort_range(items, 0, n);
    let mut out: Vec<String> = Vec::new();
    let mut k: usize = 0;
    while k < order.len()
        invariant
            n == items@.len(),
            k <= order@.len(),
            in_order(items@, order@),
            names_range(order@, 0, n as int),
            strictly_sorted(texts(out@)),
            k == 0 ==> out@.len() == 0,
            k > 0 ==> out@.len() > 0 && out@[out@.len() - 1]@ == items@[order@[k - 1] as int]@,
            forall|i: int| 0 <= i < out@.len() ==> texts(items@).contains(#[trigger] texts(out@)[i]),
            forall|i: int|
                0 <= i < k ==> texts(out@).contains(items@[(#[trigger] order@[i]) as int]@),
        decreases order@.len() - k,
    {
        let x: usize = order[k];
        let m: usize = out.len();
        let ghost old_texts = texts(out@);
        let repeated: bool = m > 0 && out[m - 1] == items[x];
        if !repeated {
            let next: String = items[x].clone();
            out.push(next);
            proof {
                let t = items@[x as int]@;
                assert(texts(out@) =~= old_texts.push(t));
                if m > 0 {
                    let prev = items@[order@[k - 1] as int];
                    assert(!before(items@[order@[k as int] as int], prev));
                    lemma_less_total(encode_utf8(prev@), encode_utf8(t));
                    if encode_utf8(prev@) == encode_utf8(t) {
                        lemma_utf8_injective(prev@, t);
                    }
                    assert(text_less(prev@, t));
                    assert forall|i: int| 0 <= i < m implies #[trigger] text_less(
                        texts(out@)[i],
                        texts(out@)[m as int],
                    ) by {
                        if i < m - 1 {
                            assert(text_less(old_texts[i], old_texts[m - 1]));
                            lemma_less_transitive(
                                encode_utf8(old_texts[i]),
                                encode_utf8(prev@),
                                encode_utf8(t),
                            );
                        }
                    }
                }
                assert forall|i: int, j: int| 0 <= i < j < texts(out@).len() implies #[trigger] text_less(
                    texts(out@)[i],
                    texts(out@)[j],
                ) by {
                    if j < m {
                        assert(text_less(old_texts[i], old_texts[j]));
                    }
                }
                assert(texts(items@)[x as int] == t);
                assert forall|i: int| 0 <= i < out@.len() implies texts(items@).contains(
                    #[trigger] texts(out@)[i],
                ) by {
                    if i < m {
                        assert(texts(items@).contains(old_texts[i]));
                    }
                }
                assert forall|i: int| 0 <= i < k + 1 implies texts(out@).contains(
                    items@[(#[trigger] order@[i]) as int]@,
                ) by {
                    if i < k {
                        let u = items@[order@[i] as int]@;
                        let w = choose|w: int| 0 <= w < old_texts.len() && old_texts[w] == u;
                        assert(texts(out@)[w] == u);
                    } else {
                        assert(texts(out@)[m as int] == t);
                    }
                }
            }
        } else {
            proof {
                assert(texts(out@)[m - 1] == items@[x as int]@);
            }
        }
        k = k + 1;
    }
    proof {
        assert forall|t: Seq<char>| #[trigger] texts(out@).contains(t) <==> texts(
            items@,
        ).contains(t) by {
            if texts(items@).contains(t) {
                let i = choose|i: int| 0 <= i < items@.len() && texts(items@)[i] == t;
                assert(order@.contains(i as usize));
                let w = choose|w: int| 0 <= w < order@.len() && order@[w] == i as usize;
                assert(texts(out@).contains(items@[order@[w] as int]@));
            }
        }
    }
    out
}

/// Whether the sorted list `v` holds the text `t`.
pub fn holds_text(v: &Vec<String>, t: &str) -> (r: bool)
    requires
        strictly_sorted(texts(v@)),
    ensures
        r == texts(v@).contains(t@),
{
    let goal: &[u8] = t.as_bytes();
    let mut lo: usize = 0;
    let mut hi: usize = v.len();
    while lo < hi
        invariant
            goal@ == encode_utf8(t@),
            strictly_sorted(texts(v@)),
            lo <= hi <= v@.len(),
            forall|i: int| 0 <= i < lo ==> text_less(#[trigger] texts(v@)[i], t@),
            forall|i: int| hi <= i < v@.len() ==> text_less(t@, #[trigger] texts(v@)[i]),
        decreases hi - lo,
    {
        let mid: usize = lo + (hi - lo) / 2;
        let here: &[u8] = v[mid].as_str().as_bytes();
        proof {
            assert(texts(v@)[mid as int] == v@[mid as int]@);
        }
        if is_less(here, goal) {
            proof {
                assert forall|i: int| 0 <= i < mid + 1 implies text_less(
                    #[trigger] texts(v@)[i],
                    t@,
                ) by {
                    if i < mid {
                        assert(text_less(texts(v@)[i], texts(v@)[mid as int]));
                        lemma_less_transitive(
                            encode_utf8(texts(v@)[i]),
                            encode_utf8(texts(v@)[mid as int]),
                            encode_utf8(t@),
                        );
                    }
                }
            }
            lo = mid + 1;
        } else if is_less(goal, here) {
            proof {
                assert forall|i: int| mid <= i < v@.len() implies text_less(
                    t@,
                    #[trigger] texts(v@)[i],
                ) by {
                    if i > mid {
                        assert(text_less(texts(v@)[mid as int], texts(v@)[i]));
                        lemma_less_transitive(
                            encode_utf8(t@),
                            encode_utf8(texts(v@)[mid as int]),
                            encode_utf8(texts(v@)[i]),
                        );
                    }
                }
            }
            hi = mid;
        } else {
            proof {
                lemma_less_total(here@, goal@);
                lemma_utf8_injective(v@[mid as int]@, t@);
                assert(texts(v@)[mid as int] == t@);
            }
            return true;
        }
    }
    proof {
        lemma_less_irreflexive(encode_utf8(t@));
        assert forall|i: int| 0 <= i < v@.len() implies #[trigger] texts(v@)[i] != t@ by {
            if i < lo {
                assert(text_less(texts(v@)[i], t@));
            } else {
                assert(text_less(t@, texts(v@)[i]));
            }
        }
    }
    false
}

/// Two strictly sorted lists with the same texts are the same list.
pub proof fn sorted_lists_agree(a: Seq<Seq<char>>, b: Seq<Seq<char>>)
    requires
        strictly_sorted(a),
        strictly_sorted(b),
        forall|t: Seq<char>| #[trigger] a.contains(t) <==> b.contains(t),
    ensures
        a == b,
    decreases a.len(),
{
    if a.len() == 0 {
        if b.len() > 0 {
            assert(b.contains(b[0]));
            assert(a.contains(b[0]));
        }
        assert(a =~= b);
    } else {
        assert(a.contains(a.last()));
        assert(b.contains(a.last()));
        assert(b.len() > 0);
        assert(b.contains(b.last()));
        assert(a.contains(b.last()));
        let i = choose|i: int| 0 <= i < b.len() && b[i] == a.last();
        let j = choose|j: int| 0 <= j < a.len() && a[j] == b.last();
        if a.last() != b.last() {
            assert(text_less(b[i], b[b.len() - 1]));
            assert(text_less(a[j], a[a.len() - 1]));
            lemma_less_transitive(
                encode_utf8(a.last()),
                encode_utf8(b.last()),
                encode_utf8(a.last()),
            );
            lemma_less_irreflexive(encode_utf8(a.last()));
        }
        let (a1, b1) = (a.drop_last(), b.drop_last());
        assert forall|t: Seq<char>| #[trigger] a1.contains(t) <==> b1.contains(t) by {
            lemma_drop_last_contains(a, t);
            lemma_drop_last_contains(b, t);
            assert(a.contains(t) <==> b.contains(t));
        }
        assert forall|x: int, y: int| 0 <= x < y < a1.len() implies #[trigger] text_less(
            a1[x],
            a1[y],
        ) by {
            assert(text_less(a[x], a[y]));
        }
        assert forall|x: int, y: int| 0 <= x < y < b1.len() implies #[trigger] text_less(
            b1[x],
            b1[y],
        ) by {
            assert(text_less(b[x], b[y]));
        }
        sorted_lists_agree(a1, b1);
        assert(a =~= a1.push(a.last()));
        assert(b =~= b1.push(b.last()));
    }
}

proof fn lemma_drop_last_contains(a: Seq<Seq<char>>, t: Seq<char>)
    requires
        strictly_sorted(a),
        a.len() > 0,
    ensures
        a.drop_last().contains(t) <==> a.contains(t) && t != a.last(),
{
    lemma_less_irreflexive(encode_utf8(t));
    if a.drop_last().contains(t) {
        let k = choose|k: int| 0 <= k < a.len() - 1 && a.drop_last()[k] == t;
        assert(a[k] == t);
        assert(text_less(a[k], a[a.len() - 1]));
    }
    if a.contains(t) && t != a.last() {
        let k = choose|k: int| 0 <= k < a.len() && a[k] == t;
        assert(a.drop_last()[k] == t);
    }
}

/// Of two byte sequences that differ first in one byte, the one with the smaller byte
/// stands first; of two that begin alike, the shorter one.
pub proof fn first_difference_decides(p: Seq<u8>, x: u8, a: Seq<u8>, y: u8, b: Seq<u8>)
    ensures
        x != y ==> (bytes_less(p.push(x) + a, p.push(y) + b) <==> x < y),
        bytes_less(p, p.push(y) + b),
        !bytes_less(p.push(x) + a, p),
        !bytes_less(p, p),
    decreases p.len(),
{
    let (s, t) = (p.push(x) + a, p.push(y) + b);
    if p.len() > 0 {
        let q = p.skip(1);
        first_difference_decides(q, x, a, y, b);
        assert(s.skip(1) =~= q.push(x) + a);
        assert(t.skip(1) =~= q.push(y) + b);
        assert(s[0] == p[0] && t[0] == p[0]);
    } else {
        assert(s[0] == x && t[0] == y);
    }
}

/// Texts stand in the order of their UTF-8 bytes.
pub proof fn texts_stand_in_byte_order(a: Seq<char>, b: Seq<char>)
    ensures
        text_less(a, b) <==> {
            let (s, t) = (encode_utf8(a), encode_utf8(b));
            exists|n: int| {
                &&& 0 <= n <= s.len()
                &&& n < t.len()
                &&& #[trigger] s.take(n) == t.take(n)
                &&& n == s.len() || s[n] < t[n]
            }
        },
{
    let (s, t) = (encode_utf8(a), encode_utf8(b));
    lemma_less_by_position(s, t);
}

/// Where two byte sequences differ first decides which stands first.
proof fn lemma_less_by_position(s: Seq<u8>, t: Seq<u8>)
    ensures
        bytes_less(s, t) <==> exists|n: int| {
            &&& 0 <= n <= s.len()
            &&& n < t.len()
            &&& #[trigger] s.take(n) == t.take(n)
            &&& n == s.len() || s[n] < t[n]
        },
    decreases s.len(),
{
    let found = exists|n: int| {
        &&& 0 <= n <= s.len()
        &&& n < t.len()
        &&& #[trigger] s.take(n) == t.take(n)
        &&& n == s.len() || s[n] < t[n]
    };
    if t.len() > 0 && s.len() > 0 && s[0] == t[0] {
        let (a, b) = (s.skip(1), t.skip(1));
        lemma_less_by_position(a, b);
        if bytes_less(a, b) {
            let n = choose|n: int| {
                &&& 0 <= n <= a.len()
                &&& n < b.len()
                &&& #[trigger] a.take(n) == b.take(n)
                &&& n == a.len() || a[n] < b[n]
            };
            assert forall|j: int| 0 <= j < n + 1 implies s[j] == t[j] by {
                if j > 0 {
                    assert(a.take(n)[j - 1] == s[j]);
                    assert(b.take(n)[j - 1] == t[j]);
                }
            }
            assert(s.take(n + 1) =~= t.take(n + 1));
            assert(found);
        }
        if found {
            let n = choose|n: int| {
                &&& 0 <= n <= s.len()
                &&& n < t.len()
                &&& #[trigger] s.take(n) == t.take(n)
                &&& n == s.len() || s[n] < t[n]
            };
            assert(n > 0);
            assert forall|j: int| 0 <= j < n - 1 implies a[j] == b[j] by {
                assert(s.take(n)[j + 1] == a[j]);
                assert(t.take(n)[j + 1] == b[j]);
            }
            assert(a.take(n - 1) =~= b.take(n - 1));
        }
    } else if t.len() > 0 {
        assert(s.take(0) =~= t.take(0));
        if found {
            let n = choose|n: int| {
                &&& 0 <= n <= s.len()
                &&& n < t.len()
                &&& #[trigger] s.take(n) == t.take(n)
                &&& n == s.len() || s[n] < t[n]
            };
            if n > 0 {
                assert(s.take(n)[0] == s[0] && t.take(n)[0] == t[0]);
            }
        }
    }
}

/// A list is strictly sorted if each text stands before the next one.
pub proof fn neighbours_decide_sortedness(s: Seq<Seq<char>>)
    ensures
        strictly_sorted(s) <==> forall|i: int|
            0 < i < s.len() ==> text_less(s[i - 1], #[trigger] s[i]),
{
    if strictly_sorted(s) {
        assert forall|i: int| 0 < i < s.len() implies text_less(s[i - 1], #[trigger] s[i]) by {}
    }
    if forall|i: int| 0 < i < s.len() ==> text_less(s[i - 1], #[trigger] s[i]) {
        assert forall|i: int, j: int| 0 <= i < j < s.len() implies #[trigger] text_less(
            s[i],
            s[j],
        ) by {
            lemma_neighbours(s, i, j);
        }
    }
}

proof fn lemma_neighbours(s: Seq<Seq<char>>, i: int, j: int)
    requires
        forall|k: int| 0 < k < s.len() ==> text_less(s[k - 1], #[trigger] s[k]),
        0 <= i < j < s.len(),
    ensures
        text_less(s[i], s[j]),
    decreases j - i,
{
    assert(text_less(s[j - 1], s[j]));
    if i + 1 < j {
        lemma_neighbours(s, i, j - 1);
        lemma_less_transitive(encode_utf8(s[i]), encode_utf8(s[j - 1]), encode_utf8(s[j]));
    }
}

/// The texts of a list of strings are those of its strings, in their order.
pub proof fn strings_have_their_texts(v: Seq<String>)
    ensures
        texts(v).len() == v.len(),
        forall|i: int| 0 <= i < v.len() ==> #[trigger] texts(v)[i] == v[i]@,
{
}

/// A sorted order of all items names each of them, by key and then by rank.
pub proof fn sorted_orders_name_every_item<T: Ranked>(items: Seq<T>, order: Seq<usize>)
    requires
        names_range(order, 0, items.len() as int),
        in_order(items, order),
    ensures
        forall|k: usize| k < items.len() ==> #[trigger] order.contains(k),
        forall|i: int| 0 <= i < order.len() ==> #[trigger] order[i] < items.len(),
        forall|i: int, j: int|
            #![trigger order[i], order[j]]
            0 <= i < j < order.len() ==> {
                let (a, b) = (items[order[i] as int], items[order[j] as int]);
                &&& !bytes_less(b.key_view(), a.key_view())
                &&& a.key_view() == b.key_view() ==> a.rank_view() <= b.rank_view()
            },
{
    assert forall|i: int, j: int|
        #![trigger order[i], order[j]]
        0 <= i < j < order.len() implies {
        let (a, b) = (items[order[i] as int], items[order[j] as int]);
        &&& !bytes_less(b.key_view(), a.key_view())
        &&& a.key_view() == b.key_view() ==> a.rank_view() <= b.rank_view()
    } by {
        assert(!before(items[order[j] as int], items[order[i] as int]));
    }
}

} // verus!
