//! Domain names: normalization into DNS lookup form, and what it means for a
//! rule to cover a domain.

use crate::order::lemma_utf8_injective;
use crate::text::{
    chars_of, decimal, decimal_digits_have_their_values, find, find_any, is_space, lemma_find,
    lemma_find_is, lemma_part_ascii, lemma_split_step, lower, lower_char,
    pieces_stand_between_separators, split, starts_with, string_of, text_view, to_lower, trim,
    trim_dots, trim_end, trim_end_dots, trim_start, trim_text,
    trimming_dots_leaves_what_stands_before_them, trimming_leaves_what_white_space_surrounds,
    what_stands_between_separators_is_a_piece,
};
use vstd::prelude::*;
use vstd::slice::slice_subrange;
use vstd::utf8::{
    encode_scalar, encode_utf8, has_width_1_encoding, is_ascii_chars, is_ascii_chars_encode_utf8,
    last_continuation_byte, leading_byte_width_1, leading_byte_width_2, leading_byte_width_3,
    leading_byte_width_4, second_last_continuation_byte, third_last_continuation_byte,
};

verus! {

/// The one-character separator between the labels of a domain.
pub open spec fn dot() -> Seq<char> {
    seq!['.']
}

/// The labels of a domain, from left to right.
pub open spec fn labels(d: Seq<char>) -> Seq<Seq<char>> {
    split(d, dot())
}

/// Whether `c` may stand in a label of a normalized domain.
pub open spec fn label_char(c: char) -> bool {
    'a' <= c <= 'z' || '0' <= c <= '9' || c == '-'
}

/// A label of a normalized domain: 1 to 63 lower case letters, digits and
/// hyphens, with no hyphen at either end.
pub open spec fn valid_label(l: Seq<char>) -> bool {
    &&& 1 <= l.len() <= 63
    &&& l[0] != '-'
    &&& l.last() != '-'
    &&& forall|i: int| 0 <= i < l.len() ==> label_char(#[trigger] l[i])
}

/// The number that a sequence of decimal digits stands for.
pub open spec fn digits_value(l: Seq<char>) -> int
    decreases l.len(),
{
    if l.len() == 0 {
        0
    } else {
        10 * digits_value(l.drop_last()) + (l.last() as int - '0' as int)
    }
}

/// One number of an IPv4 address in dotted decimal form: up to three digits,
/// no superfluous leading zero, at most 255.
pub open spec fn octet(l: Seq<char>) -> bool {
    &&& 1 <= l.len() <= 3
    &&& forall|i: int| 0 <= i < l.len() ==> '0' <= #[trigger] l[i] <= '9'
    &&& l.len() > 1 ==> l[0] != '0'
    &&& digits_value(l) <= 255
}

/// Whether `d` is an IPv4 address in dotted decimal form.
pub open spec fn dotted_quad(d: Seq<char>) -> bool {
    labels(d).len() == 4 && forall|k: int| 0 <= k < 4 ==> octet(#[trigger] labels(d)[k])
}

/// Every label in the list is valid.
pub open spec fn all_valid(ls: Seq<Seq<char>>) -> bool {
    forall|k: int| 0 <= k < ls.len() ==> valid_label(#[trigger] ls[k])
}

/// A normalized domain: at most 253 characters, every label valid, and not an
/// IP address.
pub open spec fn valid_hostname(d: Seq<char>) -> bool {
    &&& d.len() <= 253
    &&& all_valid(labels(d))
    &&& !dotted_quad(d)
}

/// `d` itself if it is a normalized domain.
pub open spec fn hostname_or_none(d: Seq<char>) -> Option<Seq<char>> {
    if valid_hostname(d) {
        Some(d)
    } else {
        None
    }
}

/// `d` is ASCII and none of its labels has the `xn--` prefix of Punycode, in
/// either case.
pub open spec fn plain_ascii(d: Seq<char>) -> bool {
    &&& is_ascii_chars(d)
    &&& forall|k: int|
        0 <= k < labels(d).len() ==> !starts_with(
            lower(#[trigger] labels(d)[k]),
            seq!['x', 'n', '-', '-'],
        )
}

/// What `idna::domain_to_ascii` makes of a domain: its ASCII form, if it has
/// one.
pub uninterp spec fn idna_ascii(d: Seq<char>) -> Option<Seq<char>>;

/// `idna::domain_to_ascii`: UTS 46 ToASCII without a deny list and without
/// length checks. The result, named `idna_ascii`, depends on the text alone. An
/// ASCII form is ASCII. A text that is ASCII already comes back in lower case,
/// otherwise unchanged, or is refused for a Punycode label; which case its letters
/// have does not matter. A text without Punycode labels is not refused.
#[verifier::external_body]
fn domain_to_ascii(d: &str) -> (r: Option<String>)
    ensures
        text_view(r) == idna_ascii(d@),
        r is Some ==> is_ascii_chars(r->0@),
        is_ascii_chars(d@) ==> r is None || text_view(r) == Some(lower(d@)),
        is_ascii_chars(d@) ==> text_view(r) == idna_ascii(lower(d@)),
        plain_ascii(d@) ==> r is Some,
{
    idna::domain_to_ascii(d).ok()
}

/// The lower case ASCII form of a domain. ASCII text is lowered; whether its
/// Punycode labels are sound, and what becomes of other text, goes by `idna_ascii`.
pub open spec fn ascii_form(d: Seq<char>) -> Option<Seq<char>> {
    if is_ascii_chars(d) {
        if plain_ascii(d) || idna_ascii(lower(d)) is Some {
            Some(lower(d))
        } else {
            None
        }
    } else {
        match idna_ascii(d) {
            Some(a) => Some(lower(a)),
            None => None,
        }
    }
}

/// The part of a domain that normalization looks at: without surrounding white
/// space, then without trailing dots.
pub open spec fn bare(d: Seq<char>) -> Seq<char> {
    trim_end_dots(trim(d))
}

/// The DNS lookup form of a domain, if it has one.
pub open spec fn normalized(d: Seq<char>) -> Option<Seq<char>> {
    let t = bare(d);
    if t.len() == 0 || encode_utf8(t).len() > 253 {
        None
    } else {
        match ascii_form(t) {
            Some(a) => hostname_or_none(a),
            None => None,
        }
    }
}

/// The DNS lookup form of a domain, if it has one, by lowering its case alone.
pub open spec fn normalized_plain(d: Seq<char>) -> Option<Seq<char>> {
    let t = bare(d);
    if t.len() == 0 || encode_utf8(t).len() > 253 {
        None
    } else {
        hostname_or_none(lower(t))
    }
}

/// The DNS lookup form that an inline rule stands for, if it stands for one.
pub open spec fn normalized_rule(d: Seq<char>) -> Option<Seq<char>> {
    let t = bare(d);
    if t.len() == 0 || t[0] == '#' {
        None
    } else {
        normalized(t)
    }
}

fn is_label(l: &[char]) -> (r: bool)
    ensures
        r == valid_label(l@),
{
    let n: usize = l.len();
    if n == 0 || n > 63 {
        return false;
    }
    if l[0] == '-' || l[n - 1] == '-' {
        return false;
    }
    let mut i: usize = 0;
    while i < n
        invariant
            n == l@.len(),
            i <= n,
            forall|j: int| 0 <= j < i ==> label_char(#[trigger] l@[j]),
        decreases n - i,
    {
        let c: char = l[i];
        if !(('a' <= c && c <= 'z') || ('0' <= c && c <= '9') || c == '-') {
            proof {
                assert(!label_char(l@[i as int]));
            }
            return false;
        }
        i = i + 1;
    }
    true
}

fn is_octet(l: &[char]) -> (r: bool)
    ensures
        r == octet(l@),
{
    let n: usize = l.len();
    if n == 0 || n > 3 || (n > 1 && l[0] == '0') {
        return false;
    }
    let mut value: u32 = 0;
    let mut i: usize = 0;
    while i < n
        invariant
            n == l@.len(),
            i <= n <= 3,
            i == 0 ==> value == 0,
            i == 1 ==> value <= 9,
            i == 2 ==> value <= 99,
            i == 3 ==> value <= 999,
            value == digits_value(l@.take(i as int)),
            forall|j: int| 0 <= j < i ==> '0' <= #[trigger] l@[j] <= '9',
        decreases n - i,
    {
        let c: char = l[i];
        if !('0' <= c && c <= '9') {
            proof {
                assert(!('0' <= l@[i as int] <= '9'));
            }
            return false;
        }
        proof {
            assert(l@.take(i + 1).drop_last() == l@.take(i as int));
        }
        value = value * 10 + (c as u32 - '0' as u32);
        i = i + 1;
    }
    proof {
        assert(l@.take(n as int) == l@);
    }
    value <= 255
}

/// Whether `d` is a normalized domain.
fn is_hostname(d: &[char]) -> (r: bool)
    ensures
        r == valid_hostname(d@),
{
    if d.len() > 253 {
        return false;
    }
    let sep: [char; 1] = ['.'];
    let n: usize = d.len();
    let mut start: usize = 0;
    let mut count: usize = 0;
    let mut octets: bool = true;
    let mut more: bool = true;
    let ghost mut rest: Seq<Seq<char>> = labels(d@);
    proof {
        assert(sep@ =~= dot());
        assert(d@.skip(0) == d@);
    }
    while more
        invariant
            n == d@.len(),
            n <= 253,
            start <= n,
            count <= start + 1,
            more ==> count <= start,
            sep@ == dot(),
            more ==> rest == labels(d@.skip(start as int)),
            !more ==> rest == Seq::<Seq<char>>::empty(),
            count <= labels(d@).len(),
            rest == labels(d@).skip(count as int),
            all_valid(labels(d@).take(count as int)),
            octets == forall|k: int| 0 <= k < count ==> octet(#[trigger] labels(d@)[k]),
        decreases n - start + (if more { 1int } else { 0int }),
    {
        let tail: &[char] = slice_subrange(d, start, n);
        proof {
            assert(tail@ == d@.skip(start as int));
            lemma_split_step(tail@, dot());
        }
        let i: usize = find_any(tail, &sep);
        let label: &[char] = slice_subrange(tail, 0, i);
        proof {
            assert(label@ == tail@.take(i as int));
            assert(rest[0] == label@);
            assert(labels(d@)[count as int] == label@);
            assert(labels(d@).take(count + 1) == labels(d@).take(count as int).push(label@));
        }
        if !is_label(label) {
            return false;
        }
        let o: bool = is_octet(label);
        proof {
            assert(octet(labels(d@)[count as int]) == o);
        }
        octets = octets && o;
        count = count + 1;
        if i == tail.len() {
            more = false;
            proof {
                rest = rest.skip(1);
                assert(rest =~= Seq::empty());
            }
        } else {
            proof {
                assert(tail@.skip(i + 1) == d@.skip(start + i + 1));
                assert(rest.skip(1) =~= labels(tail@.skip(i + 1)));
                rest = rest.skip(1);
            }
            start = start + i + 1;
        }
    }
    proof {
        assert(labels(d@).take(count as int) =~= labels(d@));
    }
    !(count == 4 && octets)
}

/// Keeps `ascii`, the lower case ASCII form of a domain, if it can be looked up
/// in the DNS.
#[must_use]
pub fn check_hostname(ascii: String) -> (r: Option<String>)
    ensures
        text_view(r) == hostname_or_none(ascii@),
{
    let chars: Vec<char> = chars_of(ascii.as_str());
    if is_hostname(chars.as_slice()) {
        Some(ascii)
    } else {
        None
    }
}

/// Converts a domain to its lower case ASCII form with IDNA processing.
#[must_use]
pub fn normalize_ascii_or_idna(domain: &str) -> (r: Option<String>)
    ensures
        text_view(r) == ascii_form(domain@),
{
    proof {
        lemma_lower_twice(domain@);
    }
    match domain_to_ascii(domain) {
        Some(ascii) => Some(to_lower(ascii.as_str())),
        None => None,
    }
}

/// Normalizes a domain into its DNS lookup form.
#[must_use]
pub fn normalize_domain(domain: &str) -> (r: Option<String>)
    ensures
        text_view(r) == normalized(domain@),
{
    let chars: Vec<char> = chars_of(domain);
    let trimmed: String = string_of(trim_dots(trim_text(chars.as_slice())));
    let size: usize = trimmed.as_str().as_bytes().len();
    if trimmed.as_str().is_empty() || size > 253 {
        return None;
    }
    match normalize_ascii_or_idna(trimmed.as_str()) {
        Some(ascii) => check_hostname(ascii),
        None => None,
    }
}

/// Lower case text stays as it is.
pub proof fn lemma_lower_twice(s: Seq<char>)
    ensures
        lower(lower(s)) == lower(s),
{
    assert forall|i: int| 0 <= i < s.len() implies lower_char(#[trigger] lower(s)[i]) == lower(
        s,
    )[i] by {
        let c = s[i];
        if 'A' <= c <= 'Z' {
            assert(lower_char(c) as u32 == c as u32 + 32);
        }
    }
    assert(lower(lower(s)) =~= lower(s));
}

/// Normalizes a domain without IDNA processing, for a build that carries no
/// Unicode tables: text that is not ASCII has no lookup form.
#[must_use]
pub fn normalize_domain_ascii(domain: &str) -> (r: Option<String>)
    ensures
        text_view(r) == normalized_plain(domain@),
{
    let chars: Vec<char> = chars_of(domain);
    let trimmed: String = string_of(trim_dots(trim_text(chars.as_slice())));
    let size: usize = trimmed.as_str().as_bytes().len();
    if trimmed.as_str().is_empty() || size > 253 {
        return None;
    }
    if !trimmed.as_str().is_ascii() {
        proof {
            let i = choose|i: int|
                0 <= i < trimmed@.len() && !('\0' <= #[trigger] trimmed@[i] <= '\u{7f}');
            assert(lower(trimmed@)[i] == trimmed@[i]);
            if valid_hostname(lower(trimmed@)) {
                lemma_hostname_ascii(lower(trimmed@));
            }
        }
        return None;
    }
    check_hostname(to_lower(trimmed.as_str()))
}

/// Normalizes one inline rule.
#[must_use]
pub fn normalize_rule(rule: &str) -> (r: Option<String>)
    ensures
        text_view(r) == normalized_rule(rule@),
{
    let chars: Vec<char> = chars_of(rule);
    let trimmed: &[char] = trim_dots(trim_text(chars.as_slice()));
    if trimmed.len() == 0 || trimmed[0] == '#' {
        return None;
    }
    let text: String = string_of(trimmed);
    normalize_domain(text.as_str())
}

/// The first label of a domain, and the labels of what follows its first dot.
pub proof fn lemma_labels_step(d: Seq<char>)
    ensures
        0 <= find(d, dot()) <= d.len(),
        labels(d).len() >= 1,
        labels(d)[0] == d.take(find(d, dot())),
        find(d, dot()) == d.len() ==> labels(d) == seq![d],
        find(d, dot()) < d.len() ==> {
            &&& d[find(d, dot())] == '.'
            &&& labels(d) == seq![d.take(find(d, dot()))] + labels(d.skip(find(d, dot()) + 1))
            &&& labels(d).skip(1) == labels(d.skip(find(d, dot()) + 1))
            &&& d == d.take(find(d, dot())).push('.') + d.skip(find(d, dot()) + 1)
        },
        forall|j: int| 0 <= j < find(d, dot()) ==> #[trigger] d[j] != '.',
{
    lemma_split_step(d, dot());
    lemma_find(d, dot());
    let i = find(d, dot());
    if i < d.len() {
        assert(labels(d).skip(1) =~= labels(d.skip(i + 1)));
        assert(d[i] == '.');
        assert(d =~= d.take(i).push('.') + d.skip(i + 1));
    } else {
        assert(d.take(i) =~= d);
    }
    assert forall|j: int| 0 <= j < i implies #[trigger] d[j] != '.' by {
        assert(!dot().contains(d[j]));
        if d[j] == '.' {
            assert(dot()[0] == d[j]);
        }
    }
}

/// A domain with valid labels holds label characters and dots alone.
pub proof fn lemma_valid_chars(d: Seq<char>)
    requires
        all_valid(labels(d)),
    ensures
        d.len() > 0,
        forall|i: int| 0 <= i < d.len() ==> label_char(#[trigger] d[i]) || d[i] == '.',
    decreases d.len(),
{
    lemma_labels_step(d);
    let k = find(d, dot());
    assert(valid_label(labels(d)[0]));
    if k < d.len() {
        let rest = d.skip(k + 1);
        assert forall|j: int| 0 <= j < labels(rest).len() implies valid_label(
            #[trigger] labels(rest)[j],
        ) by {
            assert(labels(rest)[j] == labels(d)[j + 1]);
        }
        lemma_valid_chars(rest);
        assert forall|i: int| 0 <= i < d.len() implies label_char(#[trigger] d[i]) || d[i] == '.' by {
            if i < k {
                assert(d[i] == labels(d)[0][i]);
            } else if i > k {
                assert(d[i] == rest[i - k - 1]);
            }
        }
    } else {
        assert forall|i: int| 0 <= i < d.len() implies label_char(#[trigger] d[i]) || d[i] == '.' by {
            assert(d[i] == labels(d)[0][i]);
        }
    }
}

/// A normalized domain is ASCII.
pub proof fn lemma_hostname_ascii(d: Seq<char>)
    requires
        valid_hostname(d),
    ensures
        is_ascii_chars(d),
{
    lemma_valid_chars(d);
}

/// A domain with valid labels ends in a label character.
proof fn lemma_valid_end(d: Seq<char>)
    requires
        all_valid(labels(d)),
    ensures
        d.len() > 0,
        label_char(d[0]),
        label_char(d.last()),
    decreases d.len(),
{
    lemma_labels_step(d);
    let k = find(d, dot());
    let first = labels(d)[0];
    assert(valid_label(first));
    assert(first[0] == d[0] && label_char(first[0]));
    if k < d.len() {
        lemma_rest_valid(d);
        lemma_valid_end(d.skip(k + 1));
        assert(d.skip(k + 1).last() == d.last());
    } else {
        assert(first.last() == d.last());
        assert(label_char(first[first.len() - 1]));
    }
}

/// A normalized domain has no lookup form but itself. It has that one if its
/// Punycode labels, where there are any, are sound.
pub proof fn hostname_is_its_own_form(h: Seq<char>)
    requires
        valid_hostname(h),
    ensures
        bare(h) == h,
        lower(h) == h,
        normalized_plain(h) == Some(h),
        normalized(h) == (if plain_ascii(h) || idna_ascii(h) is Some {
            Some(h)
        } else {
            None
        }),
{
    lemma_valid_end(h);
    lemma_valid_chars(h);
    lemma_hostname_ascii(h);
    is_ascii_chars_encode_utf8(h);
    assert(bare(h) == h);
    assert forall|i: int| 0 <= i < h.len() implies lower_char(#[trigger] h[i]) == h[i] by {
        assert(label_char(h[i]) || h[i] == '.');
    }
    assert(lower(h) =~= h);
}

/// Normalizing once is enough: a lookup form has no lookup form but itself, and it
/// has that one where the text was ASCII, or where no label of the form is Punycode.
pub proof fn normalization_is_idempotent(d: Seq<char>)
    ensures
        normalized(d) matches Some(h) ==> {
            &&& normalized(h) is None || normalized(h) == Some(h)
            &&& is_ascii_chars(bare(d)) || plain_ascii(h) ==> normalized(h) == Some(h)
        },
        normalized_plain(d) matches Some(h) ==> normalized_plain(h) == Some(h),
{
    if let Some(h) = normalized(d) {
        hostname_is_its_own_form(h);
        if plain_ascii(bare(d)) {
            lemma_lower_plain(bare(d));
        }
    }
    if let Some(h) = normalized_plain(d) {
        hostname_is_its_own_form(h);
    }
}

/// Lowering the case alone gives ASCII text the lookup form that it has, and no
/// further one unless a label is Punycode.
pub proof fn lowering_normalizes_ascii(d: Seq<char>)
    ensures
        is_ascii_chars(bare(d)) ==> normalized(d) is None || normalized(d) == normalized_plain(d),
        plain_ascii(bare(d)) ==> normalized(d) == normalized_plain(d),
{
}

/// What is left of a text when white space at its start is dropped.
proof fn lemma_trim_start_first(s: Seq<char>)
    ensures
        trim_start(s).len() > 0 ==> !is_space(trim_start(s)[0]),
    decreases s.len(),
{
    if s.len() > 0 && is_space(s[0]) {
        lemma_trim_start_first(s.skip(1));
    }
}

/// What is left of a text when white space at its end is dropped.
pub proof fn lemma_trim_end_prefix(s: Seq<char>)
    ensures
        trim_end(s).len() <= s.len(),
        trim_end(s) == s.take(trim_end(s).len() as int),
    decreases s.len(),
{
    if s.len() > 0 && is_space(s.last()) {
        lemma_trim_end_prefix(s.drop_last());
        let n = trim_end(s).len() as int;
        assert(s.drop_last().take(n) =~= s.take(n));
    } else {
        assert(s.take(s.len() as int) =~= s);
    }
}

/// What is left of a text when dots at its end are dropped.
proof fn lemma_trim_dots_prefix(s: Seq<char>)
    ensures
        trim_end_dots(s).len() <= s.len(),
        trim_end_dots(s) == s.take(trim_end_dots(s).len() as int),
        trim_end_dots(s).len() > 0 ==> trim_end_dots(s).last() != '.',
        s.len() > 0 && s[0] != '.' ==> trim_end_dots(s).len() > 0,
    decreases s.len(),
{
    if s.len() > 0 && s.last() == '.' {
        lemma_trim_dots_prefix(s.drop_last());
        let n = trim_end_dots(s).len() as int;
        assert(s.drop_last().take(n) =~= s.take(n));
    } else {
        assert(s.take(s.len() as int) =~= s);
    }
}

/// What is left of ASCII text when white space at its start is dropped is ASCII.
proof fn lemma_trim_start_ascii(s: Seq<char>)
    requires
        is_ascii_chars(s),
    ensures
        is_ascii_chars(trim_start(s)),
    decreases s.len(),
{
    if s.len() > 0 && is_space(s[0]) {
        lemma_part_ascii(s, 1);
        lemma_trim_start_ascii(s.skip(1));
    }
}

/// ASCII text is ASCII without white space around it.
pub proof fn lemma_trim_ascii(s: Seq<char>)
    requires
        is_ascii_chars(s),
    ensures
        is_ascii_chars(trim(s)),
{
    lemma_trim_start_ascii(s);
    lemma_trim_end_prefix(trim_start(s));
    lemma_part_ascii(trim_start(s), trim(s).len() as int);
}

/// The bare part of ASCII text is ASCII.
pub proof fn lemma_bare_ascii(d: Seq<char>)
    requires
        is_ascii_chars(d),
    ensures
        is_ascii_chars(bare(d)),
{
    lemma_trim_ascii(d);
    lemma_trim_dots_prefix(trim(d));
    lemma_part_ascii(trim(d), bare(d).len() as int);
}

/// The bare part of a domain begins as what is left without white space, and is
/// its own bare part unless it ends in white space.
proof fn lemma_bare(d: Seq<char>)
    ensures
        bare(d).len() > 0 ==> trim(d).len() > 0 && bare(d)[0] == trim(d)[0],
        trim(d).len() > 0 && trim(d)[0] != '.' ==> bare(d).len() > 0,
        bare(d).len() > 0 && !is_space(bare(d).last()) ==> bare(bare(d)) == bare(d),
{
    let a = trim_start(d);
    let t = bare(d);
    lemma_trim_start_first(d);
    lemma_trim_end_prefix(a);
    lemma_trim_dots_prefix(trim(d));
    if t.len() > 0 {
        assert(t[0] == trim(d)[0]);
        assert(trim(d)[0] == a[0]);
        if !is_space(t.last()) {
            assert(trim_start(t) == t);
            assert(trim_end(t) == t);
            assert(trim_end_dots(t) == t);
        }
    }
}

/// A rule has the lookup form of the same text taken as a domain, and a comment
/// has none. What is left out is text that is not ASCII and, without white space
/// around it and dots behind it, begins with `#` or ends in white space. The form of
/// a rule has no lookup form but itself, and has that one if the rule is ASCII or no
/// label of the form is Punycode.
pub proof fn rules_have_domain_forms(rule: Seq<char>)
    ensures
        trim(rule).len() > 0 && trim(rule)[0] == '#' ==> normalized_rule(rule) is None,
        is_ascii_chars(bare(rule)) || (!is_space(bare(rule).last()) && bare(rule)[0] != '#') ==> (
        normalized(rule) matches Some(d) ==> normalized_rule(rule) == Some(d)),
        normalized_rule(rule) matches Some(d) ==> {
            &&& valid_hostname(d)
            &&& normalized(d) is None || normalized(d) == Some(d)
            &&& is_ascii_chars(bare(rule)) || plain_ascii(d) ==> normalized(d) == Some(d)
        },
{
    let t = bare(rule);
    lemma_bare(rule);
    if let Some(d) = normalized(rule) {
        if is_ascii_chars(t) {
            lemma_valid_end(d);
            assert(d[0] == lower_char(t[0]));
            assert(d.last() == lower_char(t.last()));
        }
    }
    if let Some(d) = normalized_rule(rule) {
        normalization_is_idempotent(t);
        if is_ascii_chars(t) {
            lemma_bare_ascii(t);
        }
    }
}

/// White space at the start does not depend on case.
proof fn lemma_lower_trim_start(s: Seq<char>)
    ensures
        trim_start(lower(s)) == lower(trim_start(s)),
    decreases s.len(),
{
    if s.len() > 0 {
        assert(is_space(lower(s)[0]) == is_space(s[0]));
        if is_space(s[0]) {
            lemma_lower_trim_start(s.skip(1));
            assert(lower(s).skip(1) =~= lower(s.skip(1)));
        }
    } else {
        assert(lower(s) =~= s);
    }
}

/// White space at the end does not depend on case.
proof fn lemma_lower_trim_end(s: Seq<char>)
    ensures
        trim_end(lower(s)) == lower(trim_end(s)),
    decreases s.len(),
{
    if s.len() > 0 {
        assert(is_space(lower(s).last()) == is_space(s.last()));
        if is_space(s.last()) {
            lemma_lower_trim_end(s.drop_last());
            assert(lower(s).drop_last() =~= lower(s.drop_last()));
        }
    } else {
        assert(lower(s) =~= s);
    }
}

/// Dots at the end do not depend on case.
proof fn lemma_lower_trim_dots(s: Seq<char>)
    ensures
        trim_end_dots(lower(s)) == lower(trim_end_dots(s)),
    decreases s.len(),
{
    if s.len() > 0 {
        assert((lower(s).last() == '.') == (s.last() == '.'));
        if s.last() == '.' {
            lemma_lower_trim_dots(s.drop_last());
            assert(lower(s).drop_last() =~= lower(s.drop_last()));
        }
    } else {
        assert(lower(s) =~= s);
    }
}

/// The UTF-8 form of a text is as long in lower case.
proof fn lemma_lower_length(s: Seq<char>)
    ensures
        encode_utf8(lower(s)).len() == encode_utf8(s).len(),
    decreases s.len(),
{
    reveal_with_fuel(encode_utf8, 2);
    if s.len() > 0 {
        lemma_lower_length(s.drop_first());
        assert(lower(s).drop_first() =~= lower(s.drop_first()));
        assert(lower(s)[0] == lower_char(s[0]));
    }
}

/// The labels of a domain in lower case are its labels, each in lower case.
proof fn lemma_lower_labels(d: Seq<char>)
    ensures
        labels(lower(d)).len() == labels(d).len(),
        forall|k: int| 0 <= k < labels(d).len() ==> #[trigger] labels(lower(d))[k] == lower(
            labels(d)[k],
        ),
    decreases d.len(),
{
    lemma_labels_step(d);
    lemma_labels_step(lower(d));
    let i = find(d, dot());
    assert forall|j: int| 0 <= j < i implies #[trigger] lower(d)[j] != '.' by {
        assert(d[j] != '.');
    }
    lemma_dot_at(lower(d), i);
    assert(lower(d).take(i) =~= lower(d.take(i)));
    if i < d.len() {
        let rest = d.skip(i + 1);
        lemma_lower_labels(rest);
        assert(lower(d).skip(i + 1) =~= lower(rest));
        assert forall|k: int| 0 <= k < labels(d).len() implies #[trigger] labels(lower(d))[k]
            == lower(labels(d)[k]) by {
            if k > 0 {
                assert(labels(d)[k] == labels(rest)[k - 1]);
                assert(labels(lower(d))[k] == labels(lower(rest))[k - 1]);
            }
        }
    } else {
        assert(lower(d).len() == d.len());
    }
}

/// ASCII text has Punycode labels in lower case if and only if it has some.
proof fn lemma_lower_plain(d: Seq<char>)
    requires
        is_ascii_chars(d),
    ensures
        is_ascii_chars(lower(d)),
        plain_ascii(lower(d)) == plain_ascii(d),
{
    lemma_lower_labels(d);
    let (before, after) = (labels(d), labels(lower(d)));
    assert forall|k: int| 0 <= k < before.len() implies lower(#[trigger] after[k]) == lower(
        before[k],
    ) by {
        lemma_lower_twice(before[k]);
    }
    if plain_ascii(lower(d)) {
        assert forall|k: int| 0 <= k < before.len() implies !starts_with(
            lower(#[trigger] before[k]),
            seq!['x', 'n', '-', '-'],
        ) by {
            assert(lower(after[k]) == lower(before[k]));
        }
    }
    assert forall|i: int| 0 <= i < d.len() implies '\0' <= #[trigger] lower(d)[i] <= '\u{7f}' by {
        assert('\0' <= d[i] <= '\u{7f}');
    }
}

/// Normalization does not tell upper from lower case in ASCII text.
pub proof fn normalization_ignores_case(d: Seq<char>)
    ensures
        normalized_plain(lower(d)) == normalized_plain(d),
        is_ascii_chars(bare(d)) ==> normalized(lower(d)) == normalized(d),
{
    lemma_lower_trim_start(d);
    lemma_lower_trim_end(trim_start(d));
    lemma_lower_trim_dots(trim(d));
    lemma_lower_length(bare(d));
    lemma_lower_twice(bare(d));
    if is_ascii_chars(bare(d)) {
        lemma_lower_plain(bare(d));
    }
}

/// Normalization ignores a dot at the end of a domain.
pub proof fn normalization_ignores_trailing_dot(d: Seq<char>)
    requires
        d.len() > 0,
        !is_space(d.last()),
    ensures
        normalized(d.push('.')) == normalized(d),
        normalized_plain(d.push('.')) == normalized_plain(d),
{
    lemma_trim_start_push(d, '.');
    let t = trim_start(d);
    assert(trim_end(t.push('.')) == t.push('.'));
    assert(trim_end(t) == t);
    assert(t.push('.').drop_last() =~= t);
    assert(trim_end_dots(t.push('.')) == trim_end_dots(t));
}

/// A character behind a text that does not end in white space does not change
/// what is trimmed off its start.
proof fn lemma_trim_start_push(s: Seq<char>, c: char)
    requires
        s.len() > 0,
        !is_space(s.last()),
    ensures
        trim_start(s.push(c)) == trim_start(s).push(c),
        trim_start(s).len() > 0,
        trim_start(s).last() == s.last(),
    decreases s.len(),
{
    if is_space(s[0]) {
        assert(s.len() > 1);
        lemma_trim_start_push(s.skip(1), c);
        assert(s.push(c).skip(1) =~= s.skip(1).push(c));
    }
}

/// Whether `rule` covers the domain `d`: `d` is `rule` or a subdomain of it.
pub open spec fn covers(rule: Seq<char>, d: Seq<char>) -> bool {
    ||| d == rule
    ||| {
        &&& d.len() > rule.len()
        &&& d[d.len() - rule.len() - 1] == '.'
        &&& d.skip(d.len() - rule.len()) == rule
    }
}

/// Whether one of `rules` covers the domain `d`.
pub open spec fn covered(rules: Seq<Seq<char>>, d: Seq<char>) -> bool {
    exists|i: int| 0 <= i < rules.len() && covers(#[trigger] rules[i], d)
}

/// `d` and the domains above it: what follows each of its dots, from left to
/// right.
pub open spec fn with_parents(d: Seq<char>) -> Seq<Seq<char>>
    decreases d.len(),
    via with_parents_decreases
{
    let i = find(d, dot());
    if i >= d.len() {
        seq![d]
    } else {
        seq![d] + with_parents(d.skip(i + 1))
    }
}

#[via_fn]
proof fn with_parents_decreases(d: Seq<char>) {
    lemma_find(d, dot());
}

/// The byte that ends each label of a trie key.
pub const LABEL_SEPARATOR: u8 = 1;

/// The trie key of a domain: its labels from right to left, each followed by
/// `LABEL_SEPARATOR`.
pub open spec fn key(d: Seq<char>) -> Seq<u8>
    decreases d.len(),
    via key_decreases
{
    let i = find(d, dot());
    if i >= d.len() {
        encode_utf8(d).push(LABEL_SEPARATOR)
    } else {
        key(d.skip(i + 1)) + encode_utf8(d.take(i)).push(LABEL_SEPARATOR)
    }
}

#[via_fn]
proof fn key_decreases(d: Seq<char>) {
    lemma_find(d, dot());
}

/// The domains above a domain are the rules that cover it.
pub proof fn lemma_parents_cover(d: Seq<char>, rule: Seq<char>)
    ensures
        with_parents(d).contains(rule) <==> covers(rule, d),
    decreases d.len(),
{
    lemma_labels_step(d);
    let i = find(d, dot());
    assert(with_parents(d)[0] == d);
    if i < d.len() {
        let rest = d.skip(i + 1);
        lemma_parents_cover(rest, rule);
        assert(with_parents(d) == seq![d] + with_parents(rest));
        if with_parents(d).contains(rule) {
            let k = choose|k: int| 0 <= k < with_parents(d).len() && with_parents(d)[k] == rule;
            if k > 0 {
                assert(with_parents(rest)[k - 1] == rule);
                assert(covers(rule, rest));
                if rest != rule {
                    assert(d.skip(d.len() - rule.len()) =~= rest.skip(rest.len() - rule.len()));
                }
            }
        }
        if covers(rule, d) && d != rule {
            let p = d.len() - rule.len() - 1;
            assert(d[p] == '.');
            assert(p >= i);
            if p == i {
                assert(rest == rule);
            } else {
                assert(rest[rest.len() - rule.len() - 1] == d[p]);
                assert(rest.skip(rest.len() - rule.len()) =~= d.skip(d.len() - rule.len()));
            }
            assert(covers(rule, rest));
            let k = choose|k: int|
                0 <= k < with_parents(rest).len() && with_parents(rest)[k] == rule;
            assert(with_parents(d)[k + 1] == rule);
        }
    } else {
        assert(with_parents(d) == seq![d]);
        if with_parents(d).contains(rule) {
        }
        if covers(rule, d) && d != rule {
            assert(d[d.len() - rule.len() - 1] != '.');
        }
    }
}

/// Writes the trie key of `domain` at the end of `out`.
fn append_key(out: &mut Vec<u8>, domain: &[char])
    ensures
        final(out)@ == old(out)@ + key(domain@),
{
    let n: usize = domain.len();
    let mut end: usize = n;
    let mut more: bool = true;
    while more
        invariant
            n == domain@.len(),
            end <= n,
            more && end == n ==> out@ == old(out)@,
            more && end < n ==> domain@[end as int] == '.' && out@ == old(out)@ + key(
                domain@.skip(end + 1),
            ),
            !more ==> out@ == old(out)@ + key(domain@),
        decreases end, more as int,
    {
        let mut start: usize = end;
        while 0 < start && domain[start - 1] != '.'
            invariant
                n == domain@.len(),
                start <= end <= n,
                forall|j: int| start <= j < end ==> #[trigger] domain@[j] != '.',
            decreases start,
        {
            start = start - 1;
        }
        let label: String = string_of(slice_subrange(domain, start, end));
        out.extend_from_slice(label.as_str().as_bytes());
        out.push(LABEL_SEPARATOR);
        proof {
            let t = domain@.skip(start as int);
            lemma_dot_at(t, end - start);
            assert(label@ =~= t.take(end - start));
            if end == n {
                assert(t.take(end - start) =~= t);
                assert(out@ =~= old(out)@ + key(t));
            } else {
                assert(t.skip(end - start + 1) =~= domain@.skip(end + 1));
                assert(out@ =~= old(out)@ + key(t));
            }
        }
        if start == 0 {
            proof {
                assert(domain@.skip(0) == domain@);
            }
            more = false;
        } else {
            end = start - 1;
        }
    }
}

/// The first dot of a domain determines where its first label ends.
proof fn lemma_dot_at(d: Seq<char>, i: int)
    requires
        0 <= i <= d.len(),
        forall|j: int| 0 <= j < i ==> #[trigger] d[j] != '.',
        i < d.len() ==> d[i] == '.',
    ensures
        find(d, dot()) == i,
{
    if i < d.len() {
        assert(dot()[0] == d[i]);
    }
    lemma_find_is(d, dot(), i);
}

/// Encodes a normalized domain into reversed-label trie key form.
#[must_use]
pub fn encode_domain_key(domain: &str) -> (r: Vec<u8>)
    ensures
        r@ == key(domain@),
{
    let chars: Vec<char> = chars_of(domain);
    let mut out: Vec<u8> = Vec::new();
    append_key(&mut out, chars.as_slice());
    out
}

/// The trie keys of `domain` and of each domain above it, from left to right.
pub fn parent_keys(domain: &str) -> (r: Vec<Vec<u8>>)
    ensures
        r@.len() == with_parents(domain@).len(),
        forall|k: int| 0 <= k < r@.len() ==> (#[trigger] r@[k])@ == key(with_parents(domain@)[k]),
{
    let chars: Vec<char> = chars_of(domain);
    let sep: [char; 1] = ['.'];
    let n: usize = chars.len();
    let mut out: Vec<Vec<u8>> = Vec::new();
    let mut start: usize = 0;
    let mut more: bool = true;
    let ghost all = with_parents(domain@);
    proof {
        assert(sep@ =~= dot());
        assert(chars@.skip(0) == chars@);
        assert(all.skip(0) =~= all);
    }
    while more
        invariant
            n == chars@.len(),
            start <= n,
            sep@ == dot(),
            out@.len() <= all.len(),
            forall|k: int| 0 <= k < out@.len() ==> (#[trigger] out@[k])@ == key(all[k]),
            more ==> all.skip(out@.len() as int) == with_parents(chars@.skip(start as int)),
            !more ==> out@.len() == all.len(),
        decreases n - start, more as int,
    {
        let tail: &[char] = slice_subrange(chars.as_slice(), start, n);
        proof {
            assert(tail@ =~= chars@.skip(start as int));
            lemma_find(tail@, dot());
            assert(with_parents(tail@).len() >= 1 && with_parents(tail@)[0] == tail@);
            assert(all.skip(out@.len() as int).len() == all.len() - out@.len());
            assert(all.skip(out@.len() as int)[0] == all[out@.len() as int]);
        }
        let mut one: Vec<u8> = Vec::new();
        append_key(&mut one, tail);
        proof {
            assert(one@ =~= key(tail@));
        }
        let ghost before = out@.len() as int;
        out.push(one);
        let i: usize = find_any(tail, &sep);
        if i == tail.len() {
            proof {
                assert(all.skip(before).len() == 1);
            }
            more = false;
        } else {
            proof {
                assert(tail@.skip(i + 1) =~= chars@.skip(start + i + 1));
                assert(all.skip(before + 1) =~= all.skip(before).skip(1));
                assert(all.skip(before).skip(1) =~= with_parents(tail@.skip(i + 1)));
            }
            start = start + i + 1;
        }
    }
    out
}

/// A trie key ends with the separator.
proof fn lemma_key_end(d: Seq<char>)
    ensures
        key(d).len() >= 1,
        key(d).last() == LABEL_SEPARATOR,
{
    lemma_find(d, dot());
}

/// Valid labels leave valid labels after the first dot.
proof fn lemma_rest_valid(d: Seq<char>)
    requires
        all_valid(labels(d)),
        find(d, dot()) < d.len(),
    ensures
        all_valid(labels(d.skip(find(d, dot()) + 1))),
{
    lemma_labels_step(d);
    let rest = labels(d.skip(find(d, dot()) + 1));
    assert forall|j: int| 0 <= j < rest.len() implies valid_label(#[trigger] rest[j]) by {
        assert(rest[j] == labels(d)[j + 1]);
    }
}

/// The separator of trie keys does not occur in `d`.
pub open spec fn no_separator(d: Seq<char>) -> bool {
    forall|i: int| 0 <= i < d.len() ==> #[trigger] d[i] as u32 != LABEL_SEPARATOR as u32
}

/// The separator does not occur in a domain with valid labels.
pub proof fn lemma_valid_no_separator(d: Seq<char>)
    requires
        all_valid(labels(d)),
    ensures
        no_separator(d),
{
    lemma_valid_chars(d);
    assert forall|i: int| 0 <= i < d.len() implies #[trigger] d[i] as u32 != LABEL_SEPARATOR as u32 by {
        assert(label_char(d[i]) || d[i] == '.');
    }
}

/// A character that is not the separator has no byte that is.
proof fn lemma_scalar_bytes(c: u32)
    requires
        c != LABEL_SEPARATOR as u32,
    ensures
        forall|p: int|
            0 <= p < encode_scalar(c).len() ==> #[trigger] encode_scalar(c)[p] != LABEL_SEPARATOR,
{
    if has_width_1_encoding(c) {
        assert(has_width_1_encoding(c) && c != 1 ==> leading_byte_width_1(c) != 1) by (bit_vector);
    } else {
        assert(leading_byte_width_2(c) >= 128) by (bit_vector);
        assert(leading_byte_width_3(c) >= 128) by (bit_vector);
        assert(leading_byte_width_4(c) >= 128) by (bit_vector);
        assert(last_continuation_byte(c) >= 128) by (bit_vector);
        assert(second_last_continuation_byte(c) >= 128) by (bit_vector);
        assert(third_last_continuation_byte(c) >= 128) by (bit_vector);
    }
}

/// A text without the separator has no byte that is the separator.
proof fn lemma_no_separator_byte(s: Seq<char>)
    requires
        no_separator(s),
    ensures
        forall|p: int|
            0 <= p < encode_utf8(s).len() ==> #[trigger] encode_utf8(s)[p] != LABEL_SEPARATOR,
    decreases s.len(),
{
    if s.len() > 0 {
        let first = encode_scalar(s[0] as u32);
        let rest = s.drop_first();
        assert forall|i: int| 0 <= i < rest.len() implies #[trigger] rest[i] as u32
            != LABEL_SEPARATOR as u32 by {
            assert(rest[i] == s[i + 1]);
        }
        lemma_no_separator_byte(rest);
        lemma_scalar_bytes(s[0] as u32);
        assert forall|p: int| 0 <= p < encode_utf8(s).len() implies #[trigger] encode_utf8(s)[p]
            != LABEL_SEPARATOR by {
            if p < first.len() {
                assert(encode_utf8(s)[p] == first[p]);
            } else {
                assert(encode_utf8(s)[p] == encode_utf8(rest)[p - first.len()]);
            }
        }
    }
}

/// The UTF-8 form of two texts in a row.
proof fn lemma_utf8_concat(a: Seq<char>, b: Seq<char>)
    ensures
        encode_utf8(a + b) == encode_utf8(a) + encode_utf8(b),
    decreases a.len(),
{
    if a.len() == 0 {
        assert(a + b =~= b);
        assert(encode_utf8(a) + encode_utf8(b) =~= encode_utf8(b));
    } else {
        lemma_utf8_concat(a.drop_first(), b);
        assert((a + b).drop_first() =~= a.drop_first() + b);
        assert((a + b)[0] == a[0]);
        let first = encode_scalar(a[0] as u32);
        assert(first + (encode_utf8(a.drop_first()) + encode_utf8(b)) =~= encode_utf8(a)
            + encode_utf8(b));
    }
}

/// A trie key taken apart: the key of what follows the first dot, then the
/// first label, then the separator.
proof fn lemma_key_parts(d: Seq<char>) -> (front: Seq<u8>)
    ensures
        0 <= find(d, dot()) <= d.len(),
        find(d, dot()) < d.len() ==> front == key(d.skip(find(d, dot()) + 1)),
        find(d, dot()) >= d.len() ==> front == Seq::<u8>::empty(),
        key(d) == front + encode_utf8(d.take(find(d, dot()))).push(LABEL_SEPARATOR),
        front.len() > 0 ==> front.last() == LABEL_SEPARATOR,
        find(d, dot()) < d.len() ==> front.len() > 0,
{
    lemma_labels_step(d);
    let i = find(d, dot());
    if i < d.len() {
        lemma_key_end(d.skip(i + 1));
        key(d.skip(i + 1))
    } else {
        assert(d.take(i) =~= d);
        assert(key(d) =~= Seq::<u8>::empty() + encode_utf8(d).push(LABEL_SEPARATOR));
        Seq::empty()
    }
}

/// Taking the start or the rest of a text brings no separator in.
proof fn lemma_parts_no_separator(d: Seq<char>, i: int)
    requires
        no_separator(d),
        0 <= i <= d.len(),
    ensures
        no_separator(d.take(i)),
        i < d.len() ==> no_separator(d.skip(i + 1)),
{
    assert forall|j: int| 0 <= j < i implies #[trigger] d.take(i)[j] as u32
        != LABEL_SEPARATOR as u32 by {
        assert(d.take(i)[j] == d[j]);
    }
    if i < d.len() {
        let rest = d.skip(i + 1);
        assert forall|j: int| 0 <= j < rest.len() implies #[trigger] rest[j] as u32
            != LABEL_SEPARATOR as u32 by {
            assert(rest[j] == d[j + i + 1]);
        }
    }
}

/// The trie key of a domain with valid labels is ASCII.
pub proof fn lemma_key_ascii(d: Seq<char>)
    requires
        all_valid(labels(d)),
    ensures
        forall|p: int| 0 <= p < key(d).len() ==> #[trigger] key(d)[p] < 128,
    decreases d.len(),
{
    let front = lemma_key_parts(d);
    lemma_labels_step(d);
    let i = find(d, dot());
    let first = d.take(i);
    assert(valid_label(labels(d)[0]));
    assert forall|j: int| 0 <= j < first.len() implies '\0' <= #[trigger] first[j] <= '\u{7f}' by {
        assert(label_char(labels(d)[0][j]));
    }
    is_ascii_chars_encode_utf8(first);
    if i < d.len() {
        lemma_rest_valid(d);
        lemma_key_ascii(d.skip(i + 1));
    }
    assert forall|p: int| 0 <= p < key(d).len() implies #[trigger] key(d)[p] < 128 by {
        if p < front.len() {
            assert(key(d)[p] == front[p]);
        } else if p < key(d).len() - 1 {
            let j = p - front.len();
            assert(key(d)[p] == encode_utf8(first)[j]);
            assert(encode_utf8(first)[j] == first[j] as u8);
        }
    }
}

/// A trie key is as long as the UTF-8 form of its domain, and one byte more.
pub proof fn key_length(d: Seq<char>)
    ensures
        key(d).len() == encode_utf8(d).len() + 1,
    decreases d.len(),
{
    let front = lemma_key_parts(d);
    let i = find(d, dot());
    lemma_labels_step(d);
    if i < d.len() {
        let (first, rest) = (d.take(i), d.skip(i + 1));
        key_length(rest);
        lemma_utf8_concat(first.push('.'), rest);
        lemma_utf8_concat(first, dot());
        assert(first + dot() =~= first.push('.'));
        is_ascii_chars_encode_utf8(dot());
    } else {
        assert(d.take(i) =~= d);
    }
}

/// Where the last label of a trie key starts is fixed by the key.
proof fn lemma_front_length(a: Seq<char>, b: Seq<char>, fa: Seq<u8>, fb: Seq<u8>)
    requires
        no_separator(a),
        no_separator(b),
        fa.len() > 0 ==> fa.last() == LABEL_SEPARATOR,
        fa + encode_utf8(a).push(LABEL_SEPARATOR) == fb + encode_utf8(b).push(LABEL_SEPARATOR),
    ensures
        fa.len() <= fb.len(),
{
    if fa.len() > fb.len() {
        lemma_no_separator_byte(b);
        let (ta, tb) = (encode_utf8(a).push(LABEL_SEPARATOR), encode_utf8(b).push(LABEL_SEPARATOR));
        let p = fa.len() - 1;
        assert((fa + ta).len() == fa.len() + encode_utf8(a).len() + 1);
        assert((fb + tb).len() == fb.len() + encode_utf8(b).len() + 1);
        assert((fa + ta)[p] == fa.last());
        assert((fb + tb)[p] == tb[p - fb.len()]);
        assert(tb[p - fb.len()] == encode_utf8(b)[p - fb.len()]);
    }
}

/// Two domains without the separator have the same trie key only if they are the
/// same domain.
pub proof fn key_determines_domain(a: Seq<char>, b: Seq<char>)
    requires
        no_separator(a),
        no_separator(b),
        key(a) == key(b),
    ensures
        a == b,
    decreases a.len(),
{
    let fa = lemma_key_parts(a);
    let fb = lemma_key_parts(b);
    let i = find(a, dot());
    let j = find(b, dot());
    let (la, lb) = (a.take(i), b.take(j));
    lemma_parts_no_separator(a, i);
    lemma_parts_no_separator(b, j);
    lemma_front_length(la, lb, fa, fb);
    lemma_front_length(lb, la, fb, fa);
    assert(fa =~= key(a).take(fa.len() as int));
    assert(fb =~= key(b).take(fb.len() as int));
    let n = key(a).len() - 1;
    assert(encode_utf8(la) =~= key(a).subrange(fa.len() as int, n));
    assert(encode_utf8(lb) =~= key(b).subrange(fb.len() as int, n));
    lemma_utf8_injective(la, lb);
    lemma_labels_step(a);
    lemma_labels_step(b);
    if i < a.len() {
        assert(j < b.len());
        key_determines_domain(a.skip(i + 1), b.skip(j + 1));
    } else {
        assert(j == b.len());
        assert(la =~= a);
        assert(lb =~= b);
    }
}

/// The trie key of a rule begins that of a domain only if the rule covers the
/// domain.
pub proof fn key_prefix_means_coverage(rule: Seq<char>, d: Seq<char>)
    requires
        no_separator(rule),
        no_separator(d),
    ensures
        (key(rule).len() <= key(d).len() && key(d).take(key(rule).len() as int) == key(rule))
            <==> covers(rule, d),
    decreases d.len(),
{
    if covers(rule, d) {
        parent_key_is_prefix(rule, d);
    }
    let n = key(rule).len() as int;
    if n <= key(d).len() && key(d).take(n) == key(rule) {
        if n == key(d).len() {
            assert(key(d).take(n) =~= key(d));
            key_determines_domain(rule, d);
        } else {
            let front = lemma_key_parts(d);
            let i = find(d, dot());
            lemma_labels_step(d);
            lemma_parts_no_separator(d, i);
            lemma_no_separator_byte(d.take(i));
            lemma_key_end(rule);
            assert(key(d)[n - 1] == key(d).take(n)[n - 1]);
            if n > front.len() {
                assert(key(d)[n - 1] == encode_utf8(d.take(i))[n - 1 - front.len()]);
            }
            let rest = d.skip(i + 1);
            assert(key(rest).take(n) =~= key(d).take(n));
            key_prefix_means_coverage(rule, rest);
            if rest != rule {
                assert(d.skip(d.len() - rule.len()) =~= rest.skip(rest.len() - rule.len()));
            }
        }
    }
}

/// The trie key of a domain begins with the key of each rule that covers it.
pub proof fn parent_key_is_prefix(rule: Seq<char>, d: Seq<char>)
    requires
        covers(rule, d),
    ensures
        key(rule).len() <= key(d).len(),
        key(d).take(key(rule).len() as int) == key(rule),
    decreases d.len(),
{
    lemma_labels_step(d);
    let i = find(d, dot());
    if d == rule {
        assert(key(d).take(key(d).len() as int) =~= key(d));
    } else {
        lemma_parents_cover(d, rule);
        let k = choose|k: int| 0 <= k < with_parents(d).len() && with_parents(d)[k] == rule;
        assert(k > 0);
        let rest = d.skip(i + 1);
        assert(with_parents(d) == seq![d] + with_parents(rest));
        assert(with_parents(rest)[k - 1] == rule);
        lemma_parents_cover(rest, rule);
        parent_key_is_prefix(rule, rest);
        assert(key(d).take(key(rule).len() as int) =~= key(rest).take(key(rule).len() as int));
    }
}

/// A rule that covers a rule covers what that rule covers.
pub proof fn covers_transitive(a: Seq<char>, b: Seq<char>, c: Seq<char>)
    requires
        covers(a, b),
        covers(b, c),
    ensures
        covers(a, c),
{
    if a != b && b != c {
        assert(c.skip(c.len() - b.len()).skip(b.len() - a.len()) =~= c.skip(c.len() - a.len()));
        assert(b[b.len() - a.len() - 1] == c.skip(c.len() - b.len())[b.len() - a.len() - 1]);
    }
}

/// Each domain above a domain with valid labels has valid labels.
pub proof fn lemma_parent_valid(rule: Seq<char>, d: Seq<char>)
    requires
        covers(rule, d),
        all_valid(labels(d)),
    ensures
        all_valid(labels(rule)),
    decreases d.len(),
{
    if d != rule {
        lemma_labels_step(d);
        let i = find(d, dot());
        lemma_parents_cover(d, rule);
        let k = choose|k: int| 0 <= k < with_parents(d).len() && with_parents(d)[k] == rule;
        assert(k > 0);
        let rest = d.skip(i + 1);
        assert(with_parents(d) == seq![d] + with_parents(rest));
        assert(with_parents(rest)[k - 1] == rule);
        lemma_parents_cover(rest, rule);
        lemma_rest_valid(d);
        lemma_parent_valid(rule, rest);
    }
}

/// A rule covers a domain if the domain is the rule, or is the rule with a label and
/// a dot, or several, before it.
pub proof fn rules_cover_what_ends_in_them(rule: Seq<char>, d: Seq<char>)
    ensures
        covers(rule, d) <==> d == rule || exists|front: Seq<char>|
            d == #[trigger] (front.push('.') + rule),
{
    if covers(rule, d) && d != rule {
        let front = d.take(d.len() - rule.len() - 1);
        assert(d =~= front.push('.') + d.skip(d.len() - rule.len()));
        assert(d == front.push('.') + rule);
    }
    if exists|front: Seq<char>| d == #[trigger] (front.push('.') + rule) {
        let front = choose|front: Seq<char>| d == #[trigger] (front.push('.') + rule);
        assert(d.skip(d.len() - rule.len()) =~= rule);
        assert(d[d.len() - rule.len() - 1] == '.');
    }
}

/// A list of rules covers a domain if it holds the domain or what stands behind one
/// of its dots.
pub proof fn lists_cover_what_ends_in_their_rules(rules: Seq<Seq<char>>, d: Seq<char>)
    ensures
        covered(rules, d) <==> rules.contains(d) || exists|i: int|
            0 <= i < d.len() && #[trigger] d[i] == '.' && rules.contains(d.skip(i + 1)),
{
    if covered(rules, d) {
        let k = choose|k: int| 0 <= k < rules.len() && covers(#[trigger] rules[k], d);
        let rule = rules[k];
        assert(rules.contains(rule));
        if d != rule {
            let i = d.len() - rule.len() - 1;
            assert(d[i] == '.');
            assert(d.skip(i + 1) == rule);
        }
    }
    if rules.contains(d) {
        let k = choose|k: int| 0 <= k < rules.len() && rules[k] == d;
        assert(covers(rules[k], d));
    }
    if exists|i: int|
        0 <= i < d.len() && #[trigger] d[i] == '.' && rules.contains(d.skip(i + 1)) {
        let i = choose|i: int|
            0 <= i < d.len() && #[trigger] d[i] == '.' && rules.contains(d.skip(i + 1));
        let rule = d.skip(i + 1);
        let k = choose|k: int| 0 <= k < rules.len() && rules[k] == rule;
        assert(d.len() - rule.len() - 1 == i);
        assert(covers(rules[k], d));
    }
}

/// The key of a domain is that of what follows its first dot, then its first label,
/// then the byte 1.
pub proof fn keys_hold_labels_from_right_to_left(label: Seq<char>, rest: Seq<char>)
    requires
        !label.contains('.'),
    ensures
        key(label) == encode_utf8(label).push(1u8),
        key(label.push('.') + rest) == key(rest) + encode_utf8(label).push(1u8),
{
    lemma_first_label(label, rest);
}

/// The labels of a domain stand between its dots.
pub proof fn dots_end_labels(label: Seq<char>, rest: Seq<char>)
    requires
        !label.contains('.'),
    ensures
        labels(label) == seq![label],
        labels(label.push('.') + rest) == seq![label] + labels(rest),
{
    lemma_first_label(label, rest);
    lemma_labels_step(label);
    lemma_labels_step(label.push('.') + rest);
}

proof fn lemma_first_label(label: Seq<char>, rest: Seq<char>)
    requires
        !label.contains('.'),
    ensures
        find(label, dot()) == label.len(),
        find(label.push('.') + rest, dot()) == label.len(),
        (label.push('.') + rest).take(label.len() as int) == label,
        (label.push('.') + rest).skip(label.len() as int + 1) == rest,
{
    let d = label.push('.') + rest;
    assert forall|j: int| 0 <= j < label.len() implies #[trigger] label[j] != '.' && d[j] != '.' by {
        assert(label.contains(label[j]));
        assert(d[j] == label[j]);
    }
    assert forall|j: int| 0 <= j < label.len() implies #[trigger] d[j] != '.' by {
        assert(label[j] != '.');
    }
    assert(d[label.len() as int] == '.');
    lemma_dot_at(label, label.len() as int);
    lemma_dot_at(d, label.len() as int);
    assert(d.take(label.len() as int) =~= label);
    assert(d.skip(label.len() as int + 1) =~= rest);
}

/// Valid labels make up text of lower case letters, digits, hyphens and dots, in which
/// no hyphen or dot stands at an end or beside a dot, and 64 characters in a row hold
/// a dot.
proof fn lemma_valid_shape(t: Seq<char>)
    requires
        all_valid(labels(t)),
    ensures
        t.len() > 0,
        forall|i: int|
            0 <= i < t.len() ==> 'a' <= #[trigger] t[i] <= 'z' || '0' <= t[i] <= '9' || t[i] == '-'
                || t[i] == '.',
        t[0] != '-',
        t.last() != '-',
        forall|i: int|
            0 <= i < t.len() && #[trigger] t[i] == '.' ==> {
                &&& 0 < i < t.len() - 1
                &&& t[i - 1] != '-' && t[i - 1] != '.'
                &&& t[i + 1] != '-' && t[i + 1] != '.'
            },
        forall|i: int| 0 <= i <= t.len() - 64 ==> (#[trigger] t.subrange(i, i + 64)).contains('.'),
    decreases t.len(),
{
    lemma_labels_step(t);
    lemma_valid_chars(t);
    lemma_valid_end(t);
    let k = find(t, dot());
    let first = labels(t)[0];
    assert(valid_label(first));
    assert forall|i: int| 0 <= i < t.len() implies 'a' <= #[trigger] t[i] <= 'z' || '0' <= t[i]
        <= '9' || t[i] == '-' || t[i] == '.' by {
        assert(label_char(t[i]) || t[i] == '.');
    }
    assert(t[0] == first[0]);
    if k < t.len() {
        let rest = t.skip(k + 1);
        lemma_rest_valid(t);
        lemma_valid_shape(rest);
        assert(rest.last() == t.last());
        assert forall|i: int| 0 <= i < t.len() && #[trigger] t[i] == '.' implies {
            &&& 0 < i < t.len() - 1
            &&& t[i - 1] != '-' && t[i - 1] != '.'
            &&& t[i + 1] != '-' && t[i + 1] != '.'
        } by {
            if i == k {
                assert(t[k - 1] == first.last());
                assert(label_char(first[k - 1]));
                assert(t[k + 1] == rest[0]);
                assert(rest[0] != '.');
            } else {
                assert(i > k);
                let j = i - k - 1;
                assert(rest[j] == '.');
                assert(rest[j - 1] == t[i - 1] && rest[j + 1] == t[i + 1]);
            }
        }
        assert forall|i: int| 0 <= i <= t.len() - 64 implies (#[trigger] t.subrange(
            i,
            i + 64,
        )).contains('.') by {
            if i <= k {
                assert(t.subrange(i, i + 64)[k - i] == '.');
            } else {
                let j = i - k - 1;
                assert(rest.subrange(j, j + 64).contains('.'));
                assert(rest.subrange(j, j + 64) =~= t.subrange(i, i + 64));
            }
        }
    } else {
        assert(t.last() == first.last());
    }
}

/// Text of that shape is made up of valid labels.
proof fn lemma_shape_valid(t: Seq<char>)
    requires
        t.len() > 0,
        forall|i: int|
            0 <= i < t.len() ==> 'a' <= #[trigger] t[i] <= 'z' || '0' <= t[i] <= '9' || t[i] == '-'
                || t[i] == '.',
        t[0] != '-',
        t.last() != '-',
        forall|i: int|
            0 <= i < t.len() && #[trigger] t[i] == '.' ==> {
                &&& 0 < i < t.len() - 1
                &&& t[i - 1] != '-' && t[i - 1] != '.'
                &&& t[i + 1] != '-' && t[i + 1] != '.'
            },
        forall|i: int| 0 <= i <= t.len() - 64 ==> (#[trigger] t.subrange(i, i + 64)).contains('.'),
    ensures
        all_valid(labels(t)),
    decreases t.len(),
{
    lemma_labels_step(t);
    let k = find(t, dot());
    let first = labels(t)[0];
    if k < t.len() {
        assert(t[k] == '.');
    }
    if k > 63 {
        let i: int = 0;
        let w = t.subrange(i, i + 64);
        assert(w.contains('.'));
        let j = choose|j: int| 0 <= j < w.len() && w[j] == '.';
        assert(t[j] == '.');
    }
    assert forall|i: int| 0 <= i < first.len() implies label_char(#[trigger] first[i]) by {
        assert(first[i] == t[i] && t[i] != '.');
    }
    assert(valid_label(first)) by {
        assert(first[0] == t[0]);
        assert(first.last() == t[k - 1]);
    }
    if k < t.len() {
        let rest = t.skip(k + 1);
        assert(rest[0] == t[k + 1]);
        assert(rest.last() == t.last());
        assert forall|i: int| 0 <= i < rest.len() implies 'a' <= #[trigger] rest[i] <= 'z' || '0'
            <= rest[i] <= '9' || rest[i] == '-' || rest[i] == '.' by {
            assert(rest[i] == t[i + k + 1]);
        }
        assert forall|i: int| 0 <= i < rest.len() && #[trigger] rest[i] == '.' implies {
            &&& 0 < i < rest.len() - 1
            &&& rest[i - 1] != '-' && rest[i - 1] != '.'
            &&& rest[i + 1] != '-' && rest[i + 1] != '.'
        } by {
            assert(t[i + k + 1] == '.');
        }
        assert forall|i: int| 0 <= i <= rest.len() - 64 implies (#[trigger] rest.subrange(
            i,
            i + 64,
        )).contains('.') by {
            let j = i + k + 1;
            assert(t.subrange(j, j + 64).contains('.'));
            assert(t.subrange(j, j + 64) =~= rest.subrange(i, i + 64));
        }
        lemma_shape_valid(rest);
        assert forall|j: int| 0 <= j < labels(t).len() implies valid_label(
            #[trigger] labels(t)[j],
        ) by {
            if j > 0 {
                assert(labels(t)[j] == labels(rest)[j - 1]);
            }
        }
    } else {
        assert(labels(t) =~= seq![t]);
        assert(first == t);
    }
}

/// The number that digits stand for has those digits as its decimal form, unless the
/// first of several is zero.
proof fn lemma_digits_decimal(l: Seq<char>)
    requires
        l.len() >= 1,
        forall|i: int| 0 <= i < l.len() ==> '0' <= #[trigger] l[i] <= '9',
        l.len() > 1 ==> l[0] != '0',
    ensures
        digits_value(l) >= 0,
        l[0] != '0' ==> digits_value(l) > 0,
        decimal(digits_value(l) as nat) == l,
    decreases l.len(),
{
    let front = l.drop_last();
    let ones = (l.last() as int - '0' as int) as nat;
    assert('0' <= l[l.len() - 1] <= '9');
    if l.len() == 1 {
        assert(front =~= Seq::empty());
        assert(digits_value(front) == 0);
        decimal_digits_have_their_values(0, ones);
        assert(decimal(ones) =~= l);
    } else {
        assert forall|i: int| 0 <= i < front.len() implies '0' <= #[trigger] front[i] <= '9' by {
            assert(front[i] == l[i]);
        }
        lemma_digits_decimal(front);
        decimal_digits_have_their_values(digits_value(front) as nat, ones);
        assert(front.push(l.last()) =~= l);
    }
}

/// The decimal form of a number up to 255 is an octet.
proof fn lemma_decimal_octet(n: nat)
    requires
        n <= 255,
    ensures
        octet(decimal(n)),
        digits_value(decimal(n)) == n,
        !decimal(n).contains('.'),
{
    lemma_decimal_value(n);
    let l = decimal(n);
    reveal_with_fuel(decimal, 4);
    assert(l.len() <= 3);
    if l.contains('.') {
        let i = choose|i: int| 0 <= i < l.len() && l[i] == '.';
        assert('0' <= l[i] <= '9');
    }
}

proof fn lemma_decimal_value(n: nat)
    ensures
        digits_value(decimal(n)) == n,
        decimal(n).len() >= 1,
        forall|i: int| 0 <= i < decimal(n).len() ==> '0' <= #[trigger] decimal(n)[i] <= '9',
        n > 0 ==> decimal(n)[0] != '0',
        decimal(n).len() > 1 ==> n > 0,
    decreases n,
{
    let l = decimal(n);
    if n < 10 {
        assert(l.drop_last() =~= Seq::empty());
        assert(digits_value(l.drop_last()) == 0);
    } else {
        lemma_decimal_value(n / 10);
        assert(l.drop_last() =~= decimal(n / 10));
        assert(l[0] == decimal(n / 10)[0]);
    }
}

/// A domain of several labels is its first label, a dot, and the domain of the others.
proof fn lemma_several_labels(t: Seq<char>) -> (rest: Seq<char>)
    requires
        labels(t).len() > 1,
    ensures
        t == labels(t)[0].push('.') + rest,
        labels(rest) == labels(t).skip(1),
{
    lemma_labels_step(t);
    t.skip(find(t, dot()) + 1)
}

/// A domain of four labels is these, with dots between them.
proof fn lemma_four_labels(t: Seq<char>)
    requires
        labels(t).len() == 4,
    ensures
        t == labels(t)[0].push('.') + labels(t)[1].push('.') + labels(t)[2].push('.')
            + labels(t)[3],
{
    let ls = labels(t);
    let t1 = lemma_several_labels(t);
    let t2 = lemma_several_labels(t1);
    let t3 = lemma_several_labels(t2);
    assert(labels(t3).len() == 1 && labels(t3)[0] == ls[3]);
    lemma_labels_step(t3);
    assert(t3 == ls[3]);
    let (a, b, c) = (ls[0].push('.'), ls[1].push('.'), ls[2].push('.'));
    assert(a + (b + (c + t3)) =~= a + b + c + t3);
}

/// A domain is an IPv4 address in dotted decimal form if it is the decimal forms of four
/// numbers up to 255, with dots between them.
pub proof fn addresses_are_four_numbers(t: Seq<char>)
    ensures
        dotted_quad(t) <==> exists|a: nat, b: nat, c: nat, e: nat|
            #![trigger decimal(a), decimal(b), decimal(c), decimal(e)]
            a <= 255 && b <= 255 && c <= 255 && e <= 255 && t == decimal(a).push('.') + decimal(
                b,
            ).push('.') + decimal(c).push('.') + decimal(e),
{
    if dotted_quad(t) {
        lemma_four_labels(t);
        let ls = labels(t);
        assert(octet(ls[0]) && octet(ls[1]) && octet(ls[2]) && octet(ls[3]));
        lemma_digits_decimal(ls[0]);
        lemma_digits_decimal(ls[1]);
        lemma_digits_decimal(ls[2]);
        lemma_digits_decimal(ls[3]);
        let a = digits_value(ls[0]) as nat;
        let b = digits_value(ls[1]) as nat;
        let c = digits_value(ls[2]) as nat;
        let e = digits_value(ls[3]) as nat;
        assert(t == decimal(a).push('.') + decimal(b).push('.') + decimal(c).push('.')
            + decimal(e));
    }
    assert forall|a: nat, b: nat, c: nat, e: nat|
        #![trigger decimal(a), decimal(b), decimal(c), decimal(e)]
        a <= 255 && b <= 255 && c <= 255 && e <= 255 && t == decimal(a).push('.') + decimal(
            b,
        ).push('.') + decimal(c).push('.') + decimal(e) implies dotted_quad(t) by {
        lemma_decimal_octet(a);
        lemma_decimal_octet(b);
        lemma_decimal_octet(c);
        lemma_decimal_octet(e);
        let (da, db, dc, de) = (decimal(a), decimal(b), decimal(c), decimal(e));
        let t2 = dc.push('.') + de;
        let t1 = db.push('.') + t2;
        dots_end_labels(dc, de);
        dots_end_labels(de, de);
        dots_end_labels(db, t2);
        dots_end_labels(da, t1);
        assert(t =~= da.push('.') + t1);
        let ls = labels(t);
        assert(ls[0] == da && ls[1] == db && ls[2] == dc && ls[3] == de);
        assert(ls.len() == 4);
    }
}

/// Each label of a domain stands at its start or behind a dot.
proof fn lemma_label_at(t: Seq<char>, k: int) -> (r: int)
    requires
        0 <= k < labels(t).len(),
    ensures
        0 <= r <= r + labels(t)[k].len() <= t.len(),
        r == 0 || t[r - 1] == '.',
        labels(t)[k] == t.subrange(r, r + labels(t)[k].len()),
{
    let r = pieces_stand_between_separators(t, dot(), k);
    if r > 0 {
        let j = choose|j: int| 0 <= j < dot().len() && dot()[j] == t[r - 1];
        assert(dot()[j] == '.');
    }
    r
}

/// What can be looked up is its own lookup form: up to 253 lower case letters, digits,
/// hyphens and dots, with no hyphen or dot at an end or beside a dot, at most 63
/// characters between dots, that are no IPv4 address. Labels that begin with `xn--` have
/// to be accepted by `idna`.
pub proof fn names_of_letters_and_digits_are_lookup_forms(t: Seq<char>)
    requires
        1 <= t.len() <= 253,
        forall|i: int|
            0 <= i < t.len() ==> 'a' <= #[trigger] t[i] <= 'z' || '0' <= t[i] <= '9' || t[i] == '-'
                || t[i] == '.',
        t[0] != '-',
        t.last() != '-',
        forall|i: int|
            0 <= i < t.len() && #[trigger] t[i] == '.' ==> {
                &&& 0 < i < t.len() - 1
                &&& t[i - 1] != '-' && t[i - 1] != '.'
                &&& t[i + 1] != '-' && t[i + 1] != '.'
            },
        forall|i: int| 0 <= i <= t.len() - 64 ==> (#[trigger] t.subrange(i, i + 64)).contains('.'),
        forall|a: nat, b: nat, c: nat, e: nat|
            #![trigger decimal(a), decimal(b), decimal(c), decimal(e)]
            a <= 255 && b <= 255 && c <= 255 && e <= 255 ==> t != decimal(a).push('.') + decimal(
                b,
            ).push('.') + decimal(c).push('.') + decimal(e),
    ensures
        valid_hostname(t),
        hostname_or_none(t) == Some(t),
        normalized_plain(t) == Some(t),
        (forall|i: int|
            0 <= i <= t.len() - 4 && (i == 0 || t[i - 1] == '.') ==> #[trigger] t.subrange(i, i + 4)
                != seq!['x', 'n', '-', '-']) ==> normalized(t) == Some(t),
        idna_ascii(t) is Some ==> normalized(t) == Some(t),
{
    lemma_shape_valid(t);
    addresses_are_four_numbers(t);
    hostname_is_its_own_form(t);
    if forall|i: int|
        0 <= i <= t.len() - 4 && (i == 0 || t[i - 1] == '.') ==> #[trigger] t.subrange(i, i + 4)
            != seq!['x', 'n', '-', '-'] {
        lemma_hostname_ascii(t);
        lemma_lower_labels(t);
        assert forall|k: int| 0 <= k < labels(t).len() implies !starts_with(
            lower(#[trigger] labels(t)[k]),
            seq!['x', 'n', '-', '-'],
        ) by {
            let l = labels(t)[k];
            assert(labels(lower(t))[k] == lower(l));
            assert(lower(l) == l);
            let r = lemma_label_at(t, k);
            if starts_with(l, seq!['x', 'n', '-', '-']) {
                assert(l.take(4) =~= t.subrange(r, r + 4));
            }
        }
    }
}

/// A lookup form is up to 253 lower case letters, digits, hyphens and dots, with no
/// hyphen or dot at an end or beside a dot and at most 63 characters between dots, and
/// no IPv4 address.
pub proof fn lookup_forms_are_names_of_letters_and_digits(d: Seq<char>, t: Seq<char>)
    requires
        normalized(d) == Some(t) || normalized_plain(d) == Some(t) || normalized_rule(d) == Some(t)
            || hostname_or_none(d) == Some(t) || d == t && valid_hostname(t),
    ensures
        1 <= t.len() <= 253,
        forall|i: int|
            0 <= i < t.len() ==> 'a' <= #[trigger] t[i] <= 'z' || '0' <= t[i] <= '9' || t[i] == '-'
                || t[i] == '.',
        t[0] != '-',
        t.last() != '-',
        forall|i: int|
            0 <= i < t.len() && #[trigger] t[i] == '.' ==> {
                &&& 0 < i < t.len() - 1
                &&& t[i - 1] != '-' && t[i - 1] != '.'
                &&& t[i + 1] != '-' && t[i + 1] != '.'
            },
        forall|i: int| 0 <= i <= t.len() - 64 ==> (#[trigger] t.subrange(i, i + 64)).contains('.'),
        forall|a: nat, b: nat, c: nat, e: nat|
            #![trigger decimal(a), decimal(b), decimal(c), decimal(e)]
            a <= 255 && b <= 255 && c <= 255 && e <= 255 ==> t != decimal(a).push('.') + decimal(
                b,
            ).push('.') + decimal(c).push('.') + decimal(e),
        hostname_or_none(d) == Some(t) ==> d == t,
{
    lemma_valid_shape(t);
    addresses_are_four_numbers(t);
}

/// White space around a domain and dots behind it play no part. Where nothing else is
/// there, there is no lookup form. A rule is looked up as a domain, unless it begins with
/// `#`.
pub proof fn normalization_ignores_what_surrounds_a_name(
    front: Seq<char>,
    t: Seq<char>,
    dots: Seq<char>,
    back: Seq<char>,
)
    requires
        forall|i: int| 0 <= i < front.len() ==> is_space(#[trigger] front[i]),
        forall|i: int| 0 <= i < dots.len() ==> #[trigger] dots[i] == '.',
        forall|i: int| 0 <= i < back.len() ==> is_space(#[trigger] back[i]),
        t.len() > 0 ==> !is_space(t[0]) && !is_space(t.last()) && t.last() != '.',
    ensures
        bare(front + t + dots + back) == t,
        normalized(front + t + dots + back) == normalized(t),
        normalized_plain(front + t + dots + back) == normalized_plain(t),
        t.len() == 0 ==> normalized(t) is None && normalized_plain(t) is None,
        t.len() > 0 && t[0] != '#' ==> normalized_rule(front + t + dots + back) == normalized(t),
        t.len() == 0 || t[0] == '#' ==> normalized_rule(front + t + dots + back) is None,
{
    lemma_bare_of(front, t, dots, back);
    let e = Seq::<char>::empty();
    assert(e + t + e + e =~= t);
    lemma_bare_of(e, t, e, e);
}

proof fn lemma_bare_of(front: Seq<char>, t: Seq<char>, dots: Seq<char>, back: Seq<char>)
    requires
        forall|i: int| 0 <= i < front.len() ==> is_space(#[trigger] front[i]),
        forall|i: int| 0 <= i < dots.len() ==> #[trigger] dots[i] == '.',
        forall|i: int| 0 <= i < back.len() ==> is_space(#[trigger] back[i]),
        t.len() > 0 ==> !is_space(t[0]) && t.last() != '.',
        t.len() > 0 && is_space(t.last()) ==> dots.len() > 0,
    ensures
        bare(front + t + dots + back) == t,
{
    let core = t + dots;
    assert(front + t + dots + back =~= front + core + back);
    if core.len() > 0 {
        if t.len() > 0 {
            assert(core[0] == t[0]);
        } else {
            assert(core[0] == dots[0]);
        }
        if dots.len() > 0 {
            assert(core.last() == dots[dots.len() - 1]);
        } else {
            assert(core.last() == t.last());
        }
    }
    trimming_leaves_what_white_space_surrounds(front, core, back);
    trimming_dots_leaves_what_stands_before_them(t, dots);
}

/// A rule that, with white space around it and dots behind it, ends in white space is
/// looked at once more as a domain.
pub proof fn rules_are_trimmed_twice(
    front: Seq<char>,
    t: Seq<char>,
    dots: Seq<char>,
    back: Seq<char>,
)
    requires
        forall|i: int| 0 <= i < front.len() ==> is_space(#[trigger] front[i]),
        forall|i: int| 0 <= i < dots.len() ==> #[trigger] dots[i] == '.',
        forall|i: int| 0 <= i < back.len() ==> is_space(#[trigger] back[i]),
        t.len() > 0,
        !is_space(t[0]),
        is_space(t.last()),
        dots.len() > 0,
    ensures
        t[0] != '#' ==> normalized_rule(front + t + dots + back) == normalized(t),
        t[0] == '#' ==> normalized_rule(front + t + dots + back) is None,
        is_ascii_chars(t) ==> normalized(front + t + dots + back) is None,
{
    lemma_bare_of(front, t, dots, back);
    if is_ascii_chars(t) {
        if let Some(h) = normalized(front + t + dots + back) {
            lemma_valid_end(h);
            assert(h.last() == lower_char(t.last()));
        }
    }
}

/// ASCII text has a lookup form only as that form, in either case, with white space
/// around it and dots behind it; `r` is where it starts.
pub proof fn ascii_lookup_forms_stand_in_the_text(d: Seq<char>, h: Seq<char>) -> (r: int)
    requires
        is_ascii_chars(d),
        normalized(d) == Some(h),
    ensures
        0 <= r <= r + h.len() <= d.len(),
        lower(d.subrange(r, r + h.len())) == h,
        forall|i: int| 0 <= i < r ==> is_space(#[trigger] d[i]),
        forall|i: int| r + h.len() <= i < d.len() ==> #[trigger] d[i] == '.' || is_space(d[i]),
        forall|i: int, j: int|
            r + h.len() <= i < j < d.len() && #[trigger] is_space(d[i]) ==> is_space(
                #[trigger] d[j],
            ),
{
    lemma_bare_ascii(d);
    let a = trim_start(d);
    let b = trim(d);
    let t = bare(d);
    lemma_trim_start_suffix(d);
    lemma_trim_end_prefix(a);
    lemma_trim_end_spaces(a);
    lemma_trim_dots_prefix(b);
    lemma_trim_dots_dots(b);
    let r = d.len() - a.len();
    assert(h == lower(t));
    assert(d.subrange(r, r + h.len()) =~= t);
    assert forall|i: int| r + h.len() <= i < d.len() implies #[trigger] d[i] == '.' || is_space(
        d[i],
    ) by {
        assert(d[i] == a[i - r]);
        if i - r < b.len() {
            assert(b[i - r] == a[i - r]);
        }
    }
    assert forall|i: int, j: int|
        r + h.len() <= i < j < d.len() && #[trigger] is_space(d[i]) implies is_space(
        #[trigger] d[j],
    ) by {
        assert(d[i] == a[i - r] && d[j] == a[j - r]);
        if i - r < b.len() {
            assert(b[i - r] == a[i - r]);
        }
    }
    r
}

/// What is trimmed off the start of a text is white space.
pub proof fn lemma_trim_start_suffix(s: Seq<char>)
    ensures
        trim_start(s).len() <= s.len(),
        trim_start(s) == s.skip(s.len() - trim_start(s).len()),
        forall|i: int| 0 <= i < s.len() - trim_start(s).len() ==> is_space(#[trigger] s[i]),
    decreases s.len(),
{
    if s.len() > 0 && is_space(s[0]) {
        let rest = s.skip(1);
        lemma_trim_start_suffix(rest);
        let n = trim_start(s).len();
        assert(rest.skip(rest.len() - n) =~= s.skip(s.len() - n));
        assert forall|i: int| 0 <= i < s.len() - n implies is_space(#[trigger] s[i]) by {
            if i > 0 {
                assert(rest[i - 1] == s[i]);
            }
        }
    } else {
        assert(s.skip(0) =~= s);
    }
}

/// What is trimmed off the end of a text is white space.
pub proof fn lemma_trim_end_spaces(s: Seq<char>)
    ensures
        forall|i: int| trim_end(s).len() <= i < s.len() ==> is_space(#[trigger] s[i]),
    decreases s.len(),
{
    if s.len() > 0 && is_space(s.last()) {
        let front = s.drop_last();
        lemma_trim_end_spaces(front);
        assert forall|i: int| trim_end(s).len() <= i < s.len() implies is_space(#[trigger] s[i]) by {
            if i < front.len() {
                assert(front[i] == s[i]);
            }
        }
    }
}

proof fn lemma_trim_dots_dots(s: Seq<char>)
    ensures
        forall|i: int| trim_end_dots(s).len() <= i < s.len() ==> #[trigger] s[i] == '.',
    decreases s.len(),
{
    if s.len() > 0 && s.last() == '.' {
        let front = s.drop_last();
        lemma_trim_dots_dots(front);
        assert forall|i: int| trim_end_dots(s).len() <= i < s.len() implies #[trigger] s[i]
            == '.' by {
            if i < front.len() {
                assert(front[i] == s[i]);
            }
        }
    }
}

/// Text beyond ASCII has the lookup form that its ASCII form by `idna` has in lower
/// case; Punycode in ASCII text has to be accepted by `idna`; and more than 253 bytes
/// have none. White space around the text and dots behind it play no part.
pub proof fn normalization_follows_idna(
    front: Seq<char>,
    t: Seq<char>,
    dots: Seq<char>,
    back: Seq<char>,
)
    requires
        forall|i: int| 0 <= i < front.len() ==> is_space(#[trigger] front[i]),
        forall|i: int| 0 <= i < dots.len() ==> #[trigger] dots[i] == '.',
        forall|i: int| 0 <= i < back.len() ==> is_space(#[trigger] back[i]),
        t.len() > 0,
        !is_space(t[0]),
        t.last() != '.',
        is_space(t.last()) ==> dots.len() > 0,
    ensures
        ({
            let d = front + t + dots + back;
            &&& encode_utf8(t).len() > 253 ==> normalized(d) is None && normalized_plain(d) is None
            &&& encode_utf8(t).len() <= 253 ==> normalized_plain(d) == hostname_or_none(lower(t))
            &&& !is_ascii_chars(t) && encode_utf8(t).len() <= 253 ==> (match idna_ascii(t) {
                Some(a) => normalized(d) == hostname_or_none(lower(a)),
                None => normalized(d) is None,
            })
            &&& is_ascii_chars(t) && encode_utf8(t).len() <= 253 && idna_ascii(lower(t)) is Some
                ==> normalized(d) == hostname_or_none(lower(t))
            &&& forall|i: int|
                0 <= i <= t.len() - 4 && (i == 0 || t[i - 1] == '.') && lower(
                    #[trigger] t.subrange(i, i + 4),
                ) == seq!['x', 'n', '-', '-'] && is_ascii_chars(t) && idna_ascii(lower(t)) is None
                    ==> normalized(d) is None
        }),
{
    let d = front + t + dots + back;
    lemma_bare_of(front, t, dots, back);
    assert forall|i: int|
        0 <= i <= t.len() - 4 && (i == 0 || t[i - 1] == '.') && lower(
            #[trigger] t.subrange(i, i + 4),
        ) == seq!['x', 'n', '-', '-'] && is_ascii_chars(t) && idna_ascii(
            lower(t),
        ) is None implies normalized(d) is None by {
        let b = i + find(t.skip(i), dot());
        lemma_find(t.skip(i), dot());
        assert forall|j: int| i <= j < b implies !dot().contains(#[trigger] t[j]) by {
            assert(t.skip(i)[j - i] == t[j]);
        }
        if b < t.len() {
            assert(t.skip(i)[b - i] == t[b]);
        }
        if i > 0 {
            assert(dot()[0] == t[i - 1]);
        }
        let k = what_stands_between_separators_is_a_piece(t, dot(), i, b);
        let l = labels(t)[k];
        let x = lower(t.subrange(i, i + 4));
        assert(x[0] == 'x' && x[1] == 'n' && x[2] == '-' && x[3] == '-');
        if b < i + 4 {
            assert(t[b] == '.');
            assert(x[b - i] == lower_char(t.subrange(i, i + 4)[b - i]));
        }
        assert(lower(l).take(4) =~= x);
    }
}

/// Text is plain if it is ASCII and no label begins with `xn--`, in either case.
pub proof fn punycode_labels_begin_with_their_mark(t: Seq<char>)
    ensures
        plain_ascii(t) <==> is_ascii_chars(t) && forall|k: int|
            0 <= k < labels(t).len() ==> !((#[trigger] labels(t)[k]).len() >= 4 && lower(
                labels(t)[k].take(4),
            ) == seq!['x', 'n', '-', '-']),
{
    assert forall|k: int| 0 <= k < labels(t).len() implies (starts_with(
        lower(#[trigger] labels(t)[k]),
        seq!['x', 'n', '-', '-'],
    ) <==> labels(t)[k].len() >= 4 && lower(labels(t)[k].take(4)) == seq!['x', 'n', '-', '-']) by {
        let l = labels(t)[k];
        if l.len() >= 4 {
            assert(lower(l).take(4) =~= lower(l.take(4)));
        }
    }
}

} // verus!
