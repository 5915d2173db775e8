//! Plain text helpers: searching, trimming, splitting and case folding over
//! sequences of characters.

use vstd::prelude::*;
use vstd::slice::slice_subrange;
use vstd::utf8::is_ascii_chars;

verus! {

/// `String::push` appends one character at the end of the string.
pub assume_specification[ String::push ](s: &mut String, c: char)
    ensures
        final(s)@ == old(s)@.push(c),
;

/// Whether `c` has the Unicode `White_Space` property.
pub open spec fn is_space(c: char) -> bool {
    ||| '\u{9}' <= c <= '\u{d}'
    ||| c == ' '
    ||| c == '\u{85}'
    ||| c == '\u{a0}'
    ||| c == '\u{1680}'
    ||| '\u{2000}' <= c <= '\u{200a}'
    ||| c == '\u{2028}'
    ||| c == '\u{2029}'
    ||| c == '\u{202f}'
    ||| c == '\u{205f}'
    ||| c == '\u{3000}'
}

/// `s` without the white space at its start.
pub open spec fn trim_start(s: Seq<char>) -> Seq<char>
    decreases s.len(),
{
    if s.len() > 0 && is_space(s[0]) {
        trim_start(s.skip(1))
    } else {
        s
    }
}

/// `s` without the white space at its end.
pub open spec fn trim_end(s: Seq<char>) -> Seq<char>
    decreases s.len(),
{
    if s.len() > 0 && is_space(s.last()) {
        trim_end(s.drop_last())
    } else {
        s
    }
}

/// `s` without the white space at either end.
pub open spec fn trim(s: Seq<char>) -> Seq<char> {
    trim_end(trim_start(s))
}

/// `s` without the dots at its end.
pub open spec fn trim_end_dots(s: Seq<char>) -> Seq<char>
    decreases s.len(),
{
    if s.len() > 0 && s.last() == '.' {
        trim_end_dots(s.drop_last())
    } else {
        s
    }
}

/// The index of the first character of `s` that is one of `seps`, or the
/// length of `s` if there is none.
pub open spec fn find(s: Seq<char>, seps: Seq<char>) -> int
    decreases s.len(),
{
    if s.len() == 0 || seps.contains(s[0]) {
        0
    } else {
        1 + find(s.skip(1), seps)
    }
}

/// The part of `s` before the first `c`; all of `s` if there is none.
pub open spec fn before_char(s: Seq<char>, c: char) -> Seq<char> {
    s.take(find(s, seq![c]))
}

/// The pieces of `s` between the characters that are one of `seps`.
pub open spec fn split(s: Seq<char>, seps: Seq<char>) -> Seq<Seq<char>>
    decreases s.len(),
    when s.len() >= 0
    via split_decreases
{
    let i = find(s, seps);
    if i >= s.len() {
        seq![s]
    } else {
        seq![s.take(i)] + split(s.skip(i + 1), seps)
    }
}

#[via_fn]
proof fn split_decreases(s: Seq<char>, seps: Seq<char>) {
    lemma_find(s, seps);
}

/// Whether `pattern` occurs somewhere in `s`.
pub open spec fn contains_text(s: Seq<char>, pattern: Seq<char>) -> bool {
    exists|i: int| 0 <= i <= s.len() - pattern.len() && #[trigger] s.subrange(i, i + pattern.len()) == pattern
}

/// Whether `s` begins with `prefix`.
pub open spec fn starts_with(s: Seq<char>, prefix: Seq<char>) -> bool {
    prefix.len() <= s.len() && s.take(prefix.len() as int) == prefix
}

/// The ASCII lower case of one character.
pub open spec fn lower_char(c: char) -> char {
    if 'A' <= c <= 'Z' {
        (c as u8 + 32) as u8 as char
    } else {
        c
    }
}

/// `s` with its ASCII letters in lower case.
pub open spec fn lower(s: Seq<char>) -> Seq<char> {
    Seq::new(s.len(), |i: int| lower_char(s[i]))
}

/// What `find` returns is a hit, or the end, with no hit before it.
pub proof fn lemma_find(s: Seq<char>, seps: Seq<char>)
    ensures
        0 <= find(s, seps) <= s.len(),
        forall|j: int| 0 <= j < find(s, seps) ==> !seps.contains(#[trigger] s[j]),
        find(s, seps) < s.len() ==> seps.contains(s[find(s, seps)]),
    decreases s.len(),
{
    if s.len() > 0 && !seps.contains(s[0]) {
        lemma_find(s.skip(1), seps);
        assert forall|j: int| 0 <= j < find(s, seps) implies !seps.contains(#[trigger] s[j]) by {
            if j > 0 {
                assert(s[j] == s.skip(1)[j - 1]);
            }
        }
    }
}

/// The first hit determines `find`.
pub proof fn lemma_find_is(s: Seq<char>, seps: Seq<char>, i: int)
    requires
        0 <= i <= s.len(),
        forall|j: int| 0 <= j < i ==> !seps.contains(#[trigger] s[j]),
        i < s.len() ==> seps.contains(s[i]),
    ensures
        find(s, seps) == i,
{
    lemma_find(s, seps);
    let k = find(s, seps);
    if k < i {
        assert(!seps.contains(s[k]));
    } else if i < k {
        assert(!seps.contains(s[i]));
    }
}

/// The characters of `s`.
pub fn chars_of(s: &str) -> (r: Vec<char>)
    ensures
        r@ == s@,
{
    let mut out: Vec<char> = Vec::new();
    for c in it: s.chars()
        invariant
            it.seq() == s@,
            out@ == s@.take(it.index() as int),
    {
        out.push(c);
    }
    out
}

/// The string of the characters `c`.
pub fn string_of(c: &[char]) -> (r: String)
    ensures
        r@ == c@,
{
    let mut out: String = String::new();
    let mut i: usize = 0;
    while i < c.len()
        invariant
            i <= c@.len(),
            out@ == c@.take(i as int),
        decreases c@.len() - i,
    {
        out.push(c[i]);
        proof {
            assert(c@.take(i + 1) == c@.take(i as int).push(c@[i as int]));
        }
        i = i + 1;
    }
    proof {
        assert(c@.take(i as int) == c@);
    }
    out
}

/// Appends `t` to `s`.
pub fn append(s: &mut String, t: &str)
    ensures
        final(s)@ == old(s)@ + t@,
{
    let ghost start = s@;
    for c in it: t.chars()
        invariant
            it.seq() == t@,
            s@ == start + t@.take(it.index() as int),
    {
        s.push(c);
    }
}

/// `a` followed by `b`.
pub fn joined(a: &str, b: &str) -> (r: String)
    ensures
        r@ == a@ + b@,
{
    let mut out: String = String::new();
    append(&mut out, a);
    append(&mut out, b);
    out
}

/// The character of a decimal digit.
pub open spec fn digit(n: nat) -> char {
    ('0' as int + n) as char
}

/// The decimal form of a number.
pub open spec fn decimal(n: nat) -> Seq<char>
    decreases n,
{
    if n < 10 {
        seq![digit(n)]
    } else {
        decimal(n / 10).push(digit(n % 10))
    }
}

/// The decimal form of a number.
pub fn to_decimal(n: u64) -> (r: String)
    ensures
        r@ == decimal(n as nat),
    decreases n,
{
    let mut out: String = if n < 10 {
        String::new()
    } else {
        to_decimal(n / 10)
    };
    out.push((48 + (n % 10) as u8) as char);
    proof {
        if n < 10 {
            assert(out@ =~= decimal(n as nat));
        }
    }
    out
}

/// Whether `c` is white space.
pub fn is_space_char(c: char) -> (r: bool)
    ensures
        r == is_space(c),
{
    ('\u{9}' <= c && c <= '\u{d}') || c == ' ' || c == '\u{85}' || c == '\u{a0}' || c == '\u{1680}'
        || ('\u{2000}' <= c && c <= '\u{200a}') || c == '\u{2028}' || c == '\u{2029}' || c
        == '\u{202f}' || c == '\u{205f}' || c == '\u{3000}'
}

/// Whether `c` is one of `set`.
pub fn is_one_of(c: char, set: &[char]) -> (r: bool)
    ensures
        r == set@.contains(c),
{
    let mut i: usize = 0;
    while i < set.len()
        invariant
            i <= set@.len(),
            forall|j: int| 0 <= j < i ==> set@[j] != c,
        decreases set@.len() - i,
    {
        if set[i] == c {
            return true;
        }
        i = i + 1;
    }
    false
}

/// The index of the first character of `s` that is one of `seps`, or the
/// length of `s`.
pub fn find_any(s: &[char], seps: &[char]) -> (r: usize)
    ensures
        r == find(s@, seps@),
        r <= s@.len(),
{
    let mut i: usize = 0;
    while i < s.len()
        invariant
            i <= s@.len(),
            forall|j: int| 0 <= j < i ==> !seps@.contains(#[trigger] s@[j]),
        decreases s@.len() - i,
    {
        if is_one_of(s[i], seps) {
            proof {
                lemma_find_is(s@, seps@, i as int);
            }
            return i;
        }
        i = i + 1;
    }
    proof {
        lemma_find_is(s@, seps@, i as int);
    }
    i
}

/// The part of `s` before the first `c`; all of `s` if there is none.
pub fn cut_at(s: &[char], c: char) -> (r: &[char])
    ensures
        r@ == before_char(s@, c),
{
    let sep: [char; 1] = [c];
    proof {
        assert(sep@ =~= seq![c]);
    }
    let i: usize = find_any(s, &sep);
    slice_subrange(s, 0, i)
}

/// `s` without the white space at either end.
pub fn trim_text(s: &[char]) -> (r: &[char])
    ensures
        r@ == trim(s@),
{
    let n: usize = s.len();
    let mut i: usize = 0;
    proof {
        assert(s@.skip(0) == s@);
    }
    while i < n && is_space_char(s[i])
        invariant
            n == s@.len(),
            i <= n,
            trim_start(s@) == trim_start(s@.skip(i as int)),
        decreases n - i,
    {
        proof {
            assert(s@.skip(i as int).skip(1) == s@.skip(i + 1));
        }
        i = i + 1;
    }
    let ghost t = s@.skip(i as int);
    let mut k: usize = n;
    proof {
        assert(s@.subrange(i as int, k as int) == t);
    }
    while i < k && is_space_char(s[k - 1])
        invariant
            n == s@.len(),
            i <= k <= n,
            trim_end(t) == trim_end(s@.subrange(i as int, k as int)),
        decreases k,
    {
        proof {
            assert(s@.subrange(i as int, k as int).drop_last() == s@.subrange(i as int, k - 1));
        }
        k = k - 1;
    }
    slice_subrange(s, i, k)
}

/// `s` without the dots at its end.
pub fn trim_dots(s: &[char]) -> (r: &[char])
    ensures
        r@ == trim_end_dots(s@),
{
    let mut k: usize = s.len();
    proof {
        assert(s@.take(k as int) == s@);
    }
    while 0 < k && s[k - 1] == '.'
        invariant
            k <= s@.len(),
            trim_end_dots(s@) == trim_end_dots(s@.take(k as int)),
        decreases k,
    {
        proof {
            assert(s@.take(k as int).drop_last() == s@.take(k - 1));
        }
        k = k - 1;
    }
    proof {
        assert(s@.subrange(0, k as int) == s@.take(k as int));
    }
    slice_subrange(s, 0, k)
}

/// Whether `a` and `b` hold the same characters.
pub fn same_text(a: &[char], b: &[char]) -> (r: bool)
    ensures
        r == (a@ == b@),
{
    if a.len() != b.len() {
        return false;
    }
    let mut i: usize = 0;
    while i < a.len()
        invariant
            a@.len() == b@.len(),
            i <= a@.len(),
            forall|j: int| 0 <= j < i ==> a@[j] == b@[j],
        decreases a@.len() - i,
    {
        if a[i] != b[i] {
            proof {
                assert(a@[i as int] != b@[i as int]);
            }
            return false;
        }
        i = i + 1;
    }
    proof {
        assert(a@ =~= b@);
    }
    true
}

/// Whether `s` begins with `prefix`.
pub fn has_prefix(s: &[char], prefix: &[char]) -> (r: bool)
    ensures
        r == starts_with(s@, prefix@),
{
    if prefix.len() > s.len() {
        return false;
    }
    proof {
        assert(s@.subrange(0, prefix@.len() as int) == s@.take(prefix@.len() as int));
    }
    same_text(slice_subrange(s, 0, prefix.len()), prefix)
}

/// Whether `pattern` occurs somewhere in `s`.
pub fn has_text(s: &[char], pattern: &[char]) -> (r: bool)
    ensures
        r == contains_text(s@, pattern@),
{
    let n: usize = s.len();
    let m: usize = pattern.len();
    if m > n {
        return false;
    }
    let mut i: usize = 0;
    while i < n - m
        invariant
            n == s@.len(),
            m == pattern@.len(),
            m <= n,
            i <= n - m,
            forall|j: int| 0 <= j < i ==> #[trigger] s@.subrange(j, j + m) != pattern@,
        decreases n - m - i,
    {
        if same_text(slice_subrange(s, i, i + m), pattern) {
            return true;
        }
        i = i + 1;
    }
    proof {
        assert(s@.subrange(i as int, n as int) == s@.subrange(i as int, i + m));
    }
    same_text(slice_subrange(s, i, n), pattern)
}

/// The ASCII lower case of one character.
pub fn to_lower_char(c: char) -> (r: char)
    ensures
        r == lower_char(c),
{
    if 'A' <= c && c <= 'Z' {
        (c as u8 + 32) as char
    } else {
        c
    }
}

/// `s` with its ASCII letters in lower case.
pub fn to_lower(s: &str) -> (r: String)
    ensures
        r@ == lower(s@),
{
    let mut out: String = String::new();
    for c in it: s.chars()
        invariant
            it.seq() == s@,
            out@.len() == it.index(),
            it.index() <= s@.len(),
            forall|j: int| 0 <= j < out@.len() ==> out@[j] == lower_char(s@[j]),
    {
        out.push(to_lower_char(c));
    }
    proof {
        assert(out@ =~= lower(s@));
    }
    out
}

/// What `split` leaves of a text: the piece before the first separator, then
/// the pieces of the rest.
pub proof fn lemma_split_step(s: Seq<char>, seps: Seq<char>)
    ensures
        0 <= find(s, seps) <= s.len(),
        find(s, seps) == s.len() ==> split(s, seps) == seq![s],
        find(s, seps) < s.len() ==> split(s, seps) == seq![s.take(find(s, seps))] + split(
            s.skip(find(s, seps) + 1),
            seps,
        ),
        split(s, seps).len() >= 1,
{
    lemma_find(s, seps);
}

/// Which of the separators stands between two pieces does not matter.
pub proof fn separators_are_interchangeable(
    front: Seq<char>,
    back: Seq<char>,
    seps: Seq<char>,
    c: char,
    d: char,
)
    requires
        seps.contains(c),
        seps.contains(d),
    ensures
        split(front.push(c) + back, seps) == split(front.push(d) + back, seps),
    decreases front.len(),
{
    let (s, t) = (front.push(c) + back, front.push(d) + back);
    let i = find(front, seps);
    lemma_find(front, seps);
    assert forall|j: int| 0 <= j < i implies !seps.contains(#[trigger] s[j]) && !seps.contains(
        #[trigger] t[j],
    ) by {
        assert(!seps.contains(front[j]));
    }
    lemma_find_is(s, seps, i);
    lemma_find_is(t, seps, i);
    lemma_split_step(s, seps);
    lemma_split_step(t, seps);
    assert(s.take(i) =~= t.take(i));
    if i < front.len() {
        let rest = front.skip(i + 1);
        separators_are_interchangeable(rest, back, seps, c, d);
        assert(s.skip(i + 1) =~= rest.push(c) + back);
        assert(t.skip(i + 1) =~= rest.push(d) + back);
    } else {
        assert(s.skip(i + 1) =~= back);
        assert(t.skip(i + 1) =~= back);
    }
}

/// The text inside an optional string.
pub open spec fn text_view(o: Option<String>) -> Option<Seq<char>> {
    match o {
        Some(s) => Some(s@),
        None => None,
    }
}

/// A part of an ASCII text is ASCII.
pub proof fn lemma_part_ascii(s: Seq<char>, i: int)
    requires
        is_ascii_chars(s),
        0 <= i <= s.len(),
    ensures
        is_ascii_chars(s.take(i)),
        is_ascii_chars(s.skip(i)),
{
    let (front, back) = (s.take(i), s.skip(i));
    assert forall|j: int| 0 <= j < front.len() implies '\0' <= #[trigger] front[j] <= '\u{7f}' by {
        assert(front[j] == s[j]);
    }
    assert forall|j: int| 0 <= j < back.len() implies '\0' <= #[trigger] back[j] <= '\u{7f}' by {
        assert(back[j] == s[i + j]);
    }
}

/// Which characters are white space, by their code points.
pub proof fn white_space_code_points(c: char)
    ensures
        is_space(c) <==> {
            let u = c as u32;
            ||| 0x9 <= u <= 0xd || u == 0x20 || u == 0x85 || u == 0xa0 || u == 0x1680
            ||| 0x2000 <= u <= 0x200a || u == 0x2028 || u == 0x2029 || u == 0x202f
            ||| u == 0x205f || u == 0x3000
        },
{
}

/// White space before a text is trimmed off its start.
proof fn lemma_trim_start_front(front: Seq<char>, rest: Seq<char>)
    requires
        forall|i: int| 0 <= i < front.len() ==> is_space(#[trigger] front[i]),
    ensures
        trim_start(front + rest) == trim_start(rest),
    decreases front.len(),
{
    if front.len() == 0 {
        assert(front + rest =~= rest);
    } else {
        let fewer = front.skip(1);
        assert forall|i: int| 0 <= i < fewer.len() implies is_space(#[trigger] fewer[i]) by {
            assert(fewer[i] == front[i + 1]);
        }
        lemma_trim_start_front(fewer, rest);
        assert(is_space(front[0]));
        assert((front + rest)[0] == front[0]);
        assert((front + rest).skip(1) =~= fewer + rest);
    }
}

/// White space behind a text is trimmed off its end.
proof fn lemma_trim_end_back(rest: Seq<char>, back: Seq<char>)
    requires
        forall|i: int| 0 <= i < back.len() ==> is_space(#[trigger] back[i]),
    ensures
        trim_end(rest + back) == trim_end(rest),
    decreases back.len(),
{
    if back.len() == 0 {
        assert(rest + back =~= rest);
    } else {
        let fewer = back.drop_last();
        assert forall|i: int| 0 <= i < fewer.len() implies is_space(#[trigger] fewer[i]) by {
            assert(fewer[i] == back[i]);
        }
        lemma_trim_end_back(rest, fewer);
        assert(is_space(back[back.len() - 1]));
        assert((rest + back).last() == back.last());
        assert((rest + back).drop_last() =~= rest + fewer);
    }
}

/// Trimming a text takes the white space off both of its ends, all of it, and
/// nothing else.
pub proof fn trimming_leaves_what_white_space_surrounds(
    front: Seq<char>,
    core: Seq<char>,
    back: Seq<char>,
)
    requires
        forall|i: int| 0 <= i < front.len() ==> is_space(#[trigger] front[i]),
        forall|i: int| 0 <= i < back.len() ==> is_space(#[trigger] back[i]),
        core.len() > 0 ==> !is_space(core[0]) && !is_space(core.last()),
    ensures
        trim_start(front + core) == core,
        trim_end(core + back) == core,
        trim(front + core + back) == core,
{
    lemma_trim_start_front(front, core);
    lemma_trim_end_back(core, back);
    assert(front + core + back =~= front + (core + back));
    lemma_trim_start_front(front, core + back);
    if core.len() > 0 {
        assert((core + back)[0] == core[0]);
    } else {
        assert(core =~= Seq::empty());
        assert(core + back =~= back + Seq::empty());
        lemma_trim_start_front(back, Seq::empty());
    }
}

/// Trimming dots takes them off the end of a text, all of them, and nothing else.
pub proof fn trimming_dots_leaves_what_stands_before_them(core: Seq<char>, dots: Seq<char>)
    requires
        forall|i: int| 0 <= i < dots.len() ==> #[trigger] dots[i] == '.',
        core.len() > 0 ==> core.last() != '.',
    ensures
        trim_end_dots(core + dots) == core,
    decreases dots.len(),
{
    if dots.len() == 0 {
        assert(core + dots =~= core);
    } else {
        let fewer = dots.drop_last();
        assert forall|i: int| 0 <= i < fewer.len() implies #[trigger] fewer[i] == '.' by {
            assert(fewer[i] == dots[i]);
        }
        trimming_dots_leaves_what_stands_before_them(core, fewer);
        assert(dots[dots.len() - 1] == '.');
        assert((core + dots).last() == '.');
        assert((core + dots).drop_last() =~= core + fewer);
    }
}

/// Cutting a text at a character leaves what stands before the first one.
pub proof fn cutting_leaves_what_stands_before(front: Seq<char>, c: char, back: Seq<char>)
    requires
        !front.contains(c),
    ensures
        before_char(front, c) == front,
        before_char(front.push(c) + back, c) == front,
{
    let seps = seq![c];
    let whole = front.push(c) + back;
    assert(seps[0] == c);
    assert forall|j: int| 0 <= j < front.len() implies !seps.contains(#[trigger] front[j])
        && !seps.contains(#[trigger] whole[j]) by {
        assert(front.contains(front[j]));
        assert(whole[j] == front[j]);
    }
    lemma_find_is(front, seps, front.len() as int);
    assert(whole[front.len() as int] == c);
    lemma_find_is(whole, seps, front.len() as int);
    assert(front.take(front.len() as int) =~= front);
    assert(whole.take(front.len() as int) =~= front);
}

/// A text without separators is one piece, and a separator ends the piece before it.
pub proof fn splitting_ends_pieces_at_separators(
    front: Seq<char>,
    c: char,
    back: Seq<char>,
    seps: Seq<char>,
)
    requires
        forall|i: int| 0 <= i < front.len() ==> !seps.contains(#[trigger] front[i]),
        seps.contains(c),
    ensures
        split(front, seps) == seq![front],
        split(front.push(c) + back, seps) == seq![front] + split(back, seps),
{
    let whole = front.push(c) + back;
    let n = front.len() as int;
    lemma_find_is(front, seps, n);
    assert forall|j: int| 0 <= j < n implies !seps.contains(#[trigger] whole[j]) by {
        assert(whole[j] == front[j]);
    }
    assert(whole[n] == c);
    lemma_find_is(whole, seps, n);
    lemma_split_step(front, seps);
    lemma_split_step(whole, seps);
    assert(whole.take(n) =~= front);
    assert(whole.skip(n + 1) =~= back);
}

/// Each piece of a text stands between two separators, or between one and an end of
/// the text, and holds none; `r` is where it starts.
pub proof fn pieces_stand_between_separators(s: Seq<char>, seps: Seq<char>, k: int) -> (r: int)
    requires
        0 <= k < split(s, seps).len(),
    ensures
        ({
            let piece = split(s, seps)[k];
            &&& 0 <= r <= r + piece.len() <= s.len()
            &&& piece == s.subrange(r, r + piece.len())
            &&& r == 0 || seps.contains(s[r - 1])
            &&& r + piece.len() == s.len() || seps.contains(s[r + piece.len()])
            &&& forall|i: int| 0 <= i < piece.len() ==> !seps.contains(#[trigger] piece[i])
        }),
    decreases s.len(),
{
    lemma_find(s, seps);
    lemma_split_step(s, seps);
    let i = find(s, seps);
    if k == 0 {
        assert(split(s, seps)[0] =~= s.subrange(0, i));
        0
    } else {
        let rest = s.skip(i + 1);
        assert(split(s, seps)[k] == split(rest, seps)[k - 1]);
        let at = pieces_stand_between_separators(rest, seps, k - 1);
        let piece = split(rest, seps)[k - 1];
        assert(rest.subrange(at, at + piece.len()) =~= s.subrange(
            i + 1 + at,
            i + 1 + at + piece.len(),
        ));
        if at > 0 {
            assert(rest[at - 1] == s[i + at]);
        }
        if at + piece.len() < rest.len() {
            assert(rest[at + piece.len()] == s[i + 1 + at + piece.len()]);
        }
        i + 1 + at
    }
}

/// What stands between two separators, or between one and an end of the text, and
/// holds none is a piece of the text; `r` is its number.
pub proof fn what_stands_between_separators_is_a_piece(
    s: Seq<char>,
    seps: Seq<char>,
    a: int,
    b: int,
) -> (r: int)
    requires
        0 <= a <= b <= s.len(),
        a == 0 || seps.contains(s[a - 1]),
        b == s.len() || seps.contains(s[b]),
        forall|i: int| a <= i < b ==> !seps.contains(#[trigger] s[i]),
    ensures
        0 <= r < split(s, seps).len(),
        split(s, seps)[r] == s.subrange(a, b),
    decreases s.len(),
{
    lemma_find(s, seps);
    lemma_split_step(s, seps);
    let i = find(s, seps);
    if a == 0 {
        lemma_find_is(s, seps, b);
        assert(s.take(b) =~= s.subrange(a, b));
        assert(b == s.len() ==> s.subrange(a, b) =~= s);
        0
    } else {
        assert(i <= a - 1);
        let rest = s.skip(i + 1);
        if a - i - 1 > 0 {
            assert(rest[a - i - 2] == s[a - 1]);
        }
        if b < s.len() {
            assert(rest[b - i - 1] == s[b]);
        }
        assert forall|j: int| a - i - 1 <= j < b - i - 1 implies !seps.contains(
            #[trigger] rest[j],
        ) by {
            assert(rest[j] == s[j + i + 1]);
        }
        let k = what_stands_between_separators_is_a_piece(rest, seps, a - i - 1, b - i - 1);
        assert(rest.subrange(a - i - 1, b - i - 1) =~= s.subrange(a, b));
        assert(split(s, seps)[k + 1] == split(rest, seps)[k]);
        k + 1
    }
}

/// A text begins with another one if it is that one and something behind it, and
/// holds another one if it is that one and something around it.
pub proof fn prefixes_and_parts(s: Seq<char>, pattern: Seq<char>)
    ensures
        starts_with(s, pattern) <==> exists|rest: Seq<char>| s == #[trigger] (pattern + rest),
        contains_text(s, pattern) <==> exists|front: Seq<char>, back: Seq<char>|
            s == #[trigger] (front + pattern + back),
{
    let n = pattern.len() as int;
    if starts_with(s, pattern) {
        assert(s =~= pattern + s.skip(n));
    }
    if exists|rest: Seq<char>| s == #[trigger] (pattern + rest) {
        let rest = choose|rest: Seq<char>| s == #[trigger] (pattern + rest);
        assert(s.take(n) =~= pattern);
    }
    if contains_text(s, pattern) {
        let i = choose|i: int|
            0 <= i <= s.len() - pattern.len() && #[trigger] s.subrange(i, i + pattern.len())
                == pattern;
        let (front, back) = (s.take(i), s.skip(i + n));
        assert forall|j: int| 0 <= j < n implies #[trigger] pattern[j] == s[i + j] by {
            assert(s.subrange(i, i + n)[j] == s[i + j]);
        }
        assert(s =~= front + pattern + back);
    }
    if exists|front: Seq<char>, back: Seq<char>| s == #[trigger] (front + pattern + back) {
        let (front, back) = choose|front: Seq<char>, back: Seq<char>|
            s == #[trigger] (front + pattern + back);
        let i = front.len() as int;
        assert(s.subrange(i, i + n) =~= pattern);
    }
}

/// Lowering a text adds 32 to the code points from 65 to 90 and leaves all others
/// alone.
pub proof fn lowering_moves_capital_letters(s: Seq<char>)
    ensures
        lower(s).len() == s.len(),
        forall|i: int| 0 <= i < s.len() ==> #[trigger] lower(s)[i] == lower_char(s[i]),
        forall|i: int|
            0 <= i < s.len() ==> #[trigger] lower(s)[i] as u32 == (if 65 <= s[i] as u32 <= 90 {
                s[i] as u32 + 32
            } else {
                s[i] as u32 as int
            }),
{
    assert forall|i: int| 0 <= i < s.len() implies #[trigger] lower(s)[i] as u32 == (if 65
        <= s[i] as u32 <= 90 {
        s[i] as u32 + 32
    } else {
        s[i] as u32 as int
    }) by {
        let c = s[i];
        if 'A' <= c <= 'Z' {
            assert(lower_char(c) as u32 == c as u32 + 32);
        }
    }
}

/// The decimal form of a number ends in its last digit, and what stands before that is
/// the form of a tenth of it.
pub proof fn decimal_digits_have_their_values(tens: nat, ones: nat)
    requires
        ones < 10,
    ensures
        decimal(ones) == seq![(48 + ones) as char],
        tens > 0 ==> decimal(10 * tens + ones) == decimal(tens).push((48 + ones) as char),
{
    if tens > 0 {
        let n = 10 * tens + ones;
        assert(n / 10 == tens && n % 10 == ones);
    }
}

/// The text inside an optional string is that of the string, if there is one.
pub proof fn optional_texts(o: Option<String>)
    ensures
        o matches Some(s) ==> text_view(o) == Some(s@),
        o is None ==> text_view(o) is None,
{
}

} // verus!
