//! Parsers for source blocklist formats.

use crate::domain::{
    lemma_bare_ascii, lemma_trim_ascii, lemma_trim_end_prefix, lemma_trim_end_spaces,
    lemma_trim_start_suffix, normalization_is_idempotent, normalize_domain, normalized, plain_ascii,
    valid_hostname,
};
use crate::order::texts;
use crate::text::{
    before_char, chars_of, contains_text, cut_at, find, find_any, has_prefix, has_text, is_space,
    joined, lemma_find, lemma_find_is, lemma_part_ascii, same_text, starts_with, string_of,
    text_view, trim, trim_end, trim_start, trim_text, trimming_leaves_what_white_space_surrounds,
};
use vstd::prelude::*;
use vstd::slice::slice_subrange;
use vstd::utf8::is_ascii_chars;

verus! {

/// Supported source list format.
#[derive(Debug, Clone, Copy, PartialEq, Eq, Structural)]
pub enum ListFormat {
    /// Lines containing optional `*.` wildcard prefixes and `#`/`!` comments.
    WildcardDomains,
    /// Adblock Plus filters; only pure DNS-blockable `||domain^` rules are accepted.
    AdblockPlus,
}

/// The format that goes by the name `value`, if there is one.
pub open spec fn format_named(value: Seq<char>) -> Option<ListFormat> {
    if value == "wildcard-domains"@ {
        Some(ListFormat::WildcardDomains)
    } else if value == "adblock-plus"@ {
        Some(ListFormat::AdblockPlus)
    } else {
        None
    }
}

impl ListFormat {
    /// The format that goes by the name `value`.
    ///
    /// # Errors
    ///
    /// Returns a message if there is no such format.
    pub fn from_str(value: &str) -> (r: Result<Self, String>)
        ensures
            match r {
                Ok(format) => format_named(value@) == Some(format),
                Err(message) => {
                    &&& format_named(value@) is None
                    &&& message@ == "unsupported list format: "@ + value@
                },
            },
    {
        let chars: Vec<char> = chars_of(value);
        let wildcard: Vec<char> = chars_of("wildcard-domains");
        let adblock: Vec<char> = chars_of("adblock-plus");
        if same_text(chars.as_slice(), wildcard.as_slice()) {
            Ok(ListFormat::WildcardDomains)
        } else if same_text(chars.as_slice(), adblock.as_slice()) {
            Ok(ListFormat::AdblockPlus)
        } else {
            Err(joined("unsupported list format: ", value))
        }
    }
}

impl std::str::FromStr for ListFormat {
    type Err = String;

    fn from_str(value: &str) -> (r: Result<Self, String>)
        ensures
            match r {
                Ok(format) => format_named(value@) == Some(format),
                Err(message) => {
                    &&& format_named(value@) is None
                    &&& message@ == "unsupported list format: "@ + value@
                },
            },
    {
        ListFormat::from_str(value)
    }
}

/// Where the first line of `s` ends: at its line feed, or at the end of `s`.
pub open spec fn line_end(s: Seq<char>) -> int {
    find(s, seq!['\n'])
}

/// The first line of `s`, without its line feed and without a carriage return
/// right before that.
pub open spec fn first_line(s: Seq<char>) -> Seq<char> {
    let i = line_end(s);
    if 0 < i < s.len() && s[i - 1] == '\r' {
        s.take(i - 1)
    } else {
        s.take(i)
    }
}

/// What follows the first line of `s`.
pub open spec fn other_lines(s: Seq<char>) -> Seq<char> {
    let i = line_end(s);
    if i < s.len() {
        s.skip(i + 1)
    } else {
        Seq::empty()
    }
}

/// The lines of `s`. A line feed at its very end starts no further line.
pub open spec fn lines(s: Seq<char>) -> Seq<Seq<char>>
    decreases s.len(),
    when s.len() >= 0
    via lines_decreases
{
    if s.len() == 0 {
        Seq::empty()
    } else {
        seq![first_line(s)] + lines(other_lines(s))
    }
}

#[via_fn]
proof fn lines_decreases(s: Seq<char>) {
    lemma_find(s, seq!['\n']);
}

/// `s` without any `*.` at its start.
pub open spec fn without_wildcards(s: Seq<char>) -> Seq<char>
    decreases s.len(),
{
    if s.len() >= 2 && s[0] == '*' && s[1] == '.' {
        without_wildcards(s.skip(2))
    } else {
        s
    }
}

/// The domain that a line of a wildcard list names: what stands before a
/// comment, without white space around it and without its wildcard prefixes.
pub open spec fn wildcard_candidate(line: Seq<char>) -> Seq<char> {
    let code = before_char(before_char(line, '#'), '!');
    without_wildcards(trim(code))
}

/// The characters that end the domain of an Adblock Plus rule.
pub open spec fn rule_ends() -> Seq<char> {
    seq!['^', '$', '/', ':', '*', '|', '?', '&']
}

/// Whether an Adblock Plus rule is a cosmetic filter.
pub open spec fn cosmetic(rule: Seq<char>) -> bool {
    ||| contains_text(rule, seq!['#', '#'])
    ||| contains_text(rule, seq!['#', '@', '#'])
    ||| contains_text(rule, seq!['#', '?', '#'])
}

/// The domain that an Adblock Plus rule blocks as a whole, if it blocks one: the
/// rule is `||`, a domain, `^`, and then nothing or `$` and options.
pub open spec fn adblock_candidate(line: Seq<char>) -> Option<Seq<char>> {
    let rule = trim(line);
    let rest = rule.skip(2);
    let end = find(rest, rule_ends());
    if !starts_with(rule, seq!['|', '|']) || cosmetic(rule) {
        None
    } else if end == 0 || end >= rest.len() || rest[end] != '^' {
        None
    } else if end + 1 < rest.len() && rest[end + 1] != '$' {
        None
    } else {
        Some(rest.take(end))
    }
}

/// What a line of a list gives as a domain, if it gives anything.
pub open spec fn line_candidate(line: Seq<char>, format: ListFormat) -> Option<Seq<char>> {
    match format {
        ListFormat::WildcardDomains => Some(wildcard_candidate(line)),
        ListFormat::AdblockPlus => adblock_candidate(line),
    }
}

/// The normalized domain that a line of a list names, if it names one.
pub open spec fn line_domain(line: Seq<char>, format: ListFormat) -> Option<Seq<char>> {
    match line_candidate(line, format) {
        Some(candidate) => normalized(candidate),
        None => None,
    }
}

/// The normalized domains that the lines of a list name, in their order.
pub open spec fn lines_domains(ls: Seq<Seq<char>>, format: ListFormat) -> Seq<Seq<char>>
    decreases ls.len(),
{
    if ls.len() == 0 {
        Seq::empty()
    } else {
        match line_domain(ls.last(), format) {
            Some(d) => lines_domains(ls.drop_last(), format).push(d),
            None => lines_domains(ls.drop_last(), format),
        }
    }
}

/// The normalized domains that a source list names, in their order.
pub open spec fn listed_domains(input: Seq<char>, format: ListFormat) -> Seq<Seq<char>> {
    lines_domains(lines(input), format)
}

/// The lines of a text.
fn split_lines(input: &str) -> (r: Vec<String>)
    ensures
        texts(r@) == lines(input@),
{
    let chars: Vec<char> = chars_of(input);
    let n: usize = chars.len();
    let sep: [char; 1] = ['\n'];
    let mut out: Vec<String> = Vec::new();
    let mut start: usize = 0;
    proof {
        assert(sep@ =~= seq!['\n']);
        assert(chars@.skip(0) =~= input@);
        assert(texts(out@) =~= Seq::empty());
    }
    while start < n
        invariant
            n == chars@.len(),
            chars@ == input@,
            start <= n,
            sep@ == seq!['\n'],
            lines(input@) == texts(out@) + lines(chars@.skip(start as int)),
        decreases n - start,
    {
        let rest: &[char] = slice_subrange(chars.as_slice(), start, n);
        let ghost prior = texts(out@);
        let i: usize = find_any(rest, &sep);
        let end: usize = if 0 < i && i < rest.len() && rest[i - 1] == '\r' {
            i - 1
        } else {
            i
        };
        let line: String = string_of(slice_subrange(rest, 0, end));
        proof {
            assert(rest@ =~= chars@.skip(start as int));
            assert(line@ =~= first_line(rest@));
        }
        out.push(line);
        proof {
            assert(texts(out@) =~= prior.push(first_line(rest@)));
            assert(prior + (seq![first_line(rest@)] + lines(other_lines(rest@))) =~= texts(out@)
                + lines(other_lines(rest@)));
        }
        if i < rest.len() {
            proof {
                assert(other_lines(rest@) =~= chars@.skip(start + i + 1));
            }
            start = start + i + 1;
        } else {
            proof {
                assert(other_lines(rest@) =~= chars@.skip(n as int));
            }
            start = n;
        }
    }
    proof {
        assert(lines(chars@.skip(start as int)) =~= Seq::empty());
        assert(texts(out@) + Seq::empty() =~= texts(out@));
    }
    out
}

/// The domain that a line of a wildcard list names, before normalization.
#[must_use]
pub fn strip_wildcard_line(line: &str) -> (r: String)
    ensures
        r@ == wildcard_candidate(line@),
{
    let chars: Vec<char> = chars_of(line);
    let code: &[char] = trim_text(cut_at(cut_at(chars.as_slice(), '#'), '!'));
    let n: usize = code.len();
    let mut start: usize = 0;
    proof {
        assert(code@.skip(0) == code@);
    }
    while n - start >= 2 && code[start] == '*' && code[start + 1] == '.'
        invariant
            n == code@.len(),
            start <= n,
            without_wildcards(code@) == without_wildcards(code@.skip(start as int)),
        decreases n - start,
    {
        proof {
            assert(code@.skip(start as int).skip(2) == code@.skip(start + 2));
        }
        start = start + 2;
    }
    proof {
        assert(code@.subrange(start as int, n as int) == code@.skip(start as int));
    }
    string_of(slice_subrange(code, start, n))
}

/// The domain that an Adblock Plus rule blocks as a whole, before
/// normalization.
#[must_use]
pub fn strip_adblock_line(line: &str) -> (r: Option<String>)
    ensures
        text_view(r) == adblock_candidate(line@),
{
    let chars: Vec<char> = chars_of(line);
    let rule: &[char] = trim_text(chars.as_slice());
    let bars: [char; 2] = ['|', '|'];
    let hide: [char; 2] = ['#', '#'];
    let unhide: [char; 3] = ['#', '@', '#'];
    let extended: [char; 3] = ['#', '?', '#'];
    let ends: [char; 8] = ['^', '$', '/', ':', '*', '|', '?', '&'];
    proof {
        assert(bars@ =~= seq!['|', '|']);
        assert(hide@ =~= seq!['#', '#']);
        assert(unhide@ =~= seq!['#', '@', '#']);
        assert(extended@ =~= seq!['#', '?', '#']);
        assert(ends@ =~= rule_ends());
    }
    if !has_prefix(rule, &bars) || has_text(rule, &hide) || has_text(rule, &unhide) || has_text(
        rule,
        &extended,
    ) {
        return None;
    }
    let rest: &[char] = slice_subrange(rule, 2, rule.len());
    proof {
        assert(rest@ == rule@.skip(2));
    }
    let end: usize = find_any(rest, &ends);
    if end == 0 || end == rest.len() || rest[end] != '^' {
        return None;
    }
    if rest.len() - end > 1 && rest[end + 1] != '$' {
        return None;
    }
    proof {
        assert(rest@.subrange(0, end as int) == rest@.take(end as int));
    }
    Some(string_of(slice_subrange(rest, 0, end)))
}

/// The normalized domain that an Adblock Plus rule blocks as a whole.
#[must_use]
pub fn parse_adblock_plus_line(line: &str) -> (r: Option<String>)
    ensures
        text_view(r) == line_domain(line@, ListFormat::AdblockPlus),
{
    match strip_adblock_line(line) {
        Some(candidate) => normalize_domain(candidate.as_str()),
        None => None,
    }
}

/// Parses source text into normalized domains.
#[must_use]
pub fn parse_domains(input: &str, format: ListFormat) -> (r: Vec<String>)
    ensures
        texts(r@) == listed_domains(input@, format),
        forall|i: int| 0 <= i < r@.len() ==> valid_hostname(#[trigger] texts(r@)[i]),
{
    match format {
        ListFormat::WildcardDomains => parse_wildcard_domains(input),
        ListFormat::AdblockPlus => parse_adblock_plus(input),
    }
}

/// Parses wildcard-domain source text.
#[must_use]
pub fn parse_wildcard_domains(input: &str) -> (r: Vec<String>)
    ensures
        texts(r@) == listed_domains(input@, ListFormat::WildcardDomains),
        forall|i: int| 0 <= i < r@.len() ==> valid_hostname(#[trigger] texts(r@)[i]),
{
    let format: ListFormat = ListFormat::WildcardDomains;
    let all: Vec<String> = split_lines(input);
    let mut out: Vec<String> = Vec::new();
    let mut k: usize = 0;
    proof {
        assert(texts(out@) =~= Seq::empty());
    }
    while k < all.len()
        invariant
            k <= all@.len(),
            format == ListFormat::WildcardDomains,
            texts(out@) == lines_domains(texts(all@).take(k as int), format),
            forall|i: int| 0 <= i < out@.len() ==> valid_hostname(#[trigger] texts(out@)[i]),
        decreases all@.len() - k,
    {
        let ghost prior = texts(out@);
        let candidate: String = strip_wildcard_line(all[k].as_str());
        proof {
            assert(texts(all@).take(k + 1).drop_last() =~= texts(all@).take(k as int));
            assert(texts(all@).take(k + 1).last() == all@[k as int]@);
        }
        match normalize_domain(candidate.as_str()) {
            Some(domain) => {
                out.push(domain);
                proof {
                    assert(texts(out@) =~= prior.push(domain@));
                }
            },
            None => {},
        }
        k = k + 1;
    }
    proof {
        assert(texts(all@).take(k as int) =~= texts(all@));
    }
    out
}

/// Parses DNS-blockable Adblock Plus rules.
#[must_use]
pub fn parse_adblock_plus(input: &str) -> (r: Vec<String>)
    ensures
        texts(r@) == listed_domains(input@, ListFormat::AdblockPlus),
        forall|i: int| 0 <= i < r@.len() ==> valid_hostname(#[trigger] texts(r@)[i]),
{
    let format: ListFormat = ListFormat::AdblockPlus;
    let all: Vec<String> = split_lines(input);
    let mut out: Vec<String> = Vec::new();
    let mut k: usize = 0;
    proof {
        assert(texts(out@) =~= Seq::empty());
    }
    while k < all.len()
        invariant
            k <= all@.len(),
            format == ListFormat::AdblockPlus,
            texts(out@) == lines_domains(texts(all@).take(k as int), format),
            forall|i: int| 0 <= i < out@.len() ==> valid_hostname(#[trigger] texts(out@)[i]),
        decreases all@.len() - k,
    {
        let ghost prior = texts(out@);
        proof {
            assert(texts(all@).take(k + 1).drop_last() =~= texts(all@).take(k as int));
            assert(texts(all@).take(k + 1).last() == all@[k as int]@);
        }
        match parse_adblock_plus_line(all[k].as_str()) {
            Some(domain) => {
                out.push(domain);
                proof {
                    assert(texts(out@) =~= prior.push(domain@));
                }
            },
            None => {},
        }
        k = k + 1;
    }
    proof {
        assert(texts(all@).take(k as int) =~= texts(all@));
    }
    out
}

/// What a line names as a domain has no lookup form but itself. It has that one if
/// the line gives it in ASCII, or if no label of it is Punycode.
pub proof fn line_domains_are_lookup_forms(line: Seq<char>, format: ListFormat)
    ensures
        line_domain(line, format) matches Some(d) ==> {
            &&& valid_hostname(d)
            &&& normalized(d) is None || normalized(d) == Some(d)
            &&& is_ascii_chars(line_candidate(line, format)->0) || plain_ascii(d) ==> normalized(d)
                == Some(d)
        },
{
    if let Some(candidate) = line_candidate(line, format) {
        normalization_is_idempotent(candidate);
        if is_ascii_chars(candidate) {
            lemma_bare_ascii(candidate);
        }
    }
}

/// Whatever the lines name as a domain, they give in ASCII.
pub open spec fn ascii_named(ls: Seq<Seq<char>>, format: ListFormat) -> bool {
    forall|k: int|
        0 <= k < ls.len() && line_domain(#[trigger] ls[k], format) is Some ==> is_ascii_chars(
            line_candidate(ls[k], format)->0,
        )
}

/// A list names at most one domain for each of its lines.
proof fn lemma_few_domains(ls: Seq<Seq<char>>, format: ListFormat)
    ensures
        lines_domains(ls, format).len() <= ls.len(),
        forall|i: int|
            0 <= i < lines_domains(ls, format).len() ==> {
                let d = #[trigger] lines_domains(ls, format)[i];
                &&& valid_hostname(d)
                &&& normalized(d) is None || normalized(d) == Some(d)
                &&& ascii_named(ls, format) || plain_ascii(d) ==> normalized(d) == Some(d)
            },
    decreases ls.len(),
{
    if ls.len() > 0 {
        let front = ls.drop_last();
        lemma_few_domains(front, format);
        line_domains_are_lookup_forms(ls.last(), format);
        if ascii_named(ls, format) {
            assert(ls[ls.len() - 1] == ls.last());
            assert forall|k: int|
                0 <= k < front.len() && line_domain(
                    #[trigger] front[k],
                    format,
                ) is Some implies is_ascii_chars(line_candidate(front[k], format)->0) by {
                assert(front[k] == ls[k]);
            }
        }
    }
}

/// The lines of ASCII text are ASCII.
proof fn lemma_lines_ascii(s: Seq<char>)
    requires
        is_ascii_chars(s),
    ensures
        forall|k: int| 0 <= k < lines(s).len() ==> is_ascii_chars(#[trigger] lines(s)[k]),
    decreases s.len(),
{
    if s.len() > 0 {
        let i = line_end(s);
        lemma_find(s, seq!['\n']);
        lemma_part_ascii(s, i);
        if 0 < i {
            lemma_part_ascii(s, i - 1);
        }
        if i < s.len() {
            lemma_part_ascii(s, i + 1);
        }
        lemma_lines_ascii(other_lines(s));
        assert forall|k: int| 0 <= k < lines(s).len() implies is_ascii_chars(
            #[trigger] lines(s)[k],
        ) by {
            if k > 0 {
                assert(lines(s)[k] == lines(other_lines(s))[k - 1]);
            }
        }
    }
}

/// ASCII text without `*.` at its start is ASCII.
proof fn lemma_wildcards_ascii(s: Seq<char>)
    requires
        is_ascii_chars(s),
    ensures
        is_ascii_chars(without_wildcards(s)),
    decreases s.len(),
{
    if s.len() >= 2 && s[0] == '*' && s[1] == '.' {
        lemma_part_ascii(s, 2);
        lemma_wildcards_ascii(s.skip(2));
    }
}

/// What an ASCII line gives as a domain is ASCII.
proof fn lemma_candidate_ascii(line: Seq<char>, format: ListFormat)
    requires
        is_ascii_chars(line),
    ensures
        line_candidate(line, format) matches Some(candidate) ==> is_ascii_chars(candidate),
{
    match format {
        ListFormat::WildcardDomains => {
            let part = before_char(line, '#');
            let code = before_char(part, '!');
            lemma_find(line, seq!['#']);
            lemma_part_ascii(line, find(line, seq!['#']));
            lemma_find(part, seq!['!']);
            lemma_part_ascii(part, find(part, seq!['!']));
            lemma_trim_ascii(code);
            lemma_wildcards_ascii(trim(code));
        },
        ListFormat::AdblockPlus => {
            let rule = trim(line);
            lemma_trim_ascii(line);
            if rule.len() >= 2 {
                let rest = rule.skip(2);
                lemma_part_ascii(rule, 2);
                lemma_find(rest, rule_ends());
                lemma_part_ascii(rest, find(rest, rule_ends()));
            }
        },
    }
}

/// A source list names at most one domain for each of its lines. Each is a
/// normalized domain and has no lookup form but itself. It has that one if the list
/// gives its domains in ASCII, as ASCII text does, or if no label of it is Punycode.
pub proof fn listed_domains_are_lookup_forms(input: Seq<char>, format: ListFormat)
    ensures
        listed_domains(input, format).len() <= lines(input).len(),
        is_ascii_chars(input) ==> ascii_named(lines(input), format),
        forall|i: int| 0 <= i < listed_domains(input, format).len() ==> {
            let d = #[trigger] listed_domains(input, format)[i];
            &&& valid_hostname(d)
            &&& normalized(d) is None || normalized(d) == Some(d)
            &&& ascii_named(lines(input), format) || plain_ascii(d) ==> normalized(d) == Some(d)
        },
{
    lemma_few_domains(lines(input), format);
    if is_ascii_chars(input) {
        lemma_lines_ascii(input);
        assert forall|k: int|
            0 <= k < lines(input).len() && line_domain(
                #[trigger] lines(input)[k],
                format,
            ) is Some implies is_ascii_chars(line_candidate(lines(input)[k], format)->0) by {
            lemma_candidate_ascii(lines(input)[k], format);
        }
    }
}

/// An Adblock Plus line names a domain only where it is `||`, that domain, `^`, and
/// then nothing or `$` and options; so not where a path, a port or a wildcard stands
/// before or behind the `^`. Comments, headers, allowlist rules, regexes and
/// cosmetic filters name none.
pub proof fn adblock_rules_name_whole_domains(line: Seq<char>)
    ensures
        adblock_candidate(line) matches Some(d) ==> {
            let rule = trim(line);
            &&& d.len() > 0
            &&& forall|i: int| 0 <= i < d.len() ==> !rule_ends().contains(#[trigger] d[i])
            &&& starts_with(rule, seq!['|', '|'] + d + seq!['^'])
            &&& rule.len() == d.len() + 3 || rule[d.len() as int + 3] == '$'
            &&& !cosmetic(rule)
        },
        trim(line).len() == 0 ==> adblock_candidate(line) is None,
        forall|c: char|
            c != '|' && starts_with(trim(line), #[trigger] seq![c])
                ==> adblock_candidate(line) is None,
{
    let rule = trim(line);
    let rest = rule.skip(2);
    lemma_find(rest, rule_ends());
    if let Some(d) = adblock_candidate(line) {
        assert(rule.take(d.len() as int + 3) =~= seq!['|', '|'] + d + seq!['^']);
        assert(rule.take(2)[0] == '|');
    }
    assert forall|c: char|
        c != '|' && starts_with(rule, #[trigger] seq![c]) implies adblock_candidate(
        line,
    ) is None by {
        assert(rule.take(1)[0] == c);
        if starts_with(rule, seq!['|', '|']) {
            assert(rule.take(2)[0] == '|');
        }
    }
}

/// A comment behind a domain of a wildcard list does not change what the line
/// names.
pub proof fn wildcard_comments_are_ignored(code: Seq<char>, mark: char, comment: Seq<char>)
    requires
        mark == '#' || mark == '!',
        !code.contains('#'),
        !code.contains('!'),
    ensures
        wildcard_candidate(code.push(mark) + comment) == wildcard_candidate(code),
{
    let line = code.push(mark) + comment;
    lemma_cut(code, '#', code.len() as int);
    lemma_cut(code, '!', code.len() as int);
    assert(code.take(code.len() as int) =~= code);
    if mark == '#' {
        lemma_cut(line, '#', code.len() as int);
        assert(line.take(code.len() as int) =~= code);
    } else {
        lemma_find(line, seq!['#']);
        let kept = before_char(line, '#');
        let at = find(line, seq!['#']);
        if at < code.len() {
            assert(code.contains(line[at]));
        } else if at == code.len() {
            assert(line[at] == '!');
        }
        lemma_cut(kept, '!', code.len() as int);
        assert(kept.take(code.len() as int) =~= code);
    }
}

/// A wildcard prefix does not change which domain a line of a wildcard list
/// names.
pub proof fn wildcard_prefix_is_ignored(line: Seq<char>)
    requires
        line.len() > 0 ==> !is_space(line[0]),
    ensures
        wildcard_candidate(seq!['*', '.'] + line) == wildcard_candidate(line),
{
    let star = seq!['*', '.'];
    let part = before_char(line, '#');
    let code = before_char(part, '!');
    lemma_cut_behind(star, line, '#');
    lemma_cut_behind(star, part, '!');
    lemma_find(line, seq!['#']);
    lemma_find(part, seq!['!']);
    let kept = trim_end(code);
    if code.len() > 0 {
        assert(code[0] == line[0]);
        lemma_trim_end_behind(star, code);
        assert(trim(star + code) == star + kept);
    } else {
        assert(star + code =~= star);
        assert(kept == code);
        assert(trim(star) == star);
    }
    assert((star + kept).skip(2) =~= kept);
    assert(star + kept =~= trim(star + code));
    assert(without_wildcards(star + kept) == without_wildcards(kept));
}

/// What stands before a text without `c` stays when the text is cut at `c`.
proof fn lemma_cut_behind(front: Seq<char>, s: Seq<char>, c: char)
    requires
        !front.contains(c),
    ensures
        before_char(front + s, c) == front + before_char(s, c),
{
    let seps = seq![c];
    lemma_find(s, seps);
    let i = find(s, seps);
    let whole = front + s;
    assert forall|j: int| 0 <= j < front.len() + i implies #[trigger] whole[j] != c by {
        if j < front.len() {
            assert(front.contains(whole[j]));
        } else {
            assert(!seps.contains(s[j - front.len()]));
            assert(seps[0] == c);
        }
    }
    if i < s.len() {
        assert(seps.contains(s[i]));
    }
    lemma_cut(whole, c, front.len() + i);
    assert(whole.take(front.len() + i) =~= front + s.take(i));
}

/// Trimming the end of a text that does not begin with white space leaves alone
/// what stands before it.
proof fn lemma_trim_end_behind(front: Seq<char>, s: Seq<char>)
    requires
        s.len() > 0,
        !is_space(s[0]),
    ensures
        trim_end(front + s) == front + trim_end(s),
    decreases s.len(),
{
    assert((front + s).last() == s.last());
    if is_space(s.last()) {
        assert((front + s).drop_last() =~= front + s.drop_last());
        lemma_trim_end_behind(front, s.drop_last());
    }
}

/// The first `c` decides where a text is cut.
proof fn lemma_cut(s: Seq<char>, c: char, i: int)
    requires
        0 <= i <= s.len(),
        forall|j: int| 0 <= j < i ==> #[trigger] s[j] != c,
        i < s.len() ==> s[i] == c,
    ensures
        before_char(s, c) == s.take(i),
{
    let seps = seq![c];
    if i < s.len() {
        assert(seps[0] == s[i]);
    }
    assert forall|j: int| 0 <= j < i implies !seps.contains(#[trigger] s[j]) by {}
    lemma_find_is(s, seps, i);
}

/// A format goes by its name and by nothing else.
pub proof fn formats_have_one_name(value: Seq<char>)
    ensures
        format_named(value) == Some(ListFormat::WildcardDomains) <==> value == "wildcard-domains"@,
        format_named(value) == Some(ListFormat::AdblockPlus) <==> value == "adblock-plus"@,
{
    reveal_strlit("wildcard-domains");
    reveal_strlit("adblock-plus");
    assert("wildcard-domains"@.len() != "adblock-plus"@.len());
}

/// A line feed ends a line, with a carriage return right before it; what follows the last
/// line feed is a line too, unless it is nothing.
pub proof fn line_feeds_end_lines(line: Seq<char>, rest: Seq<char>)
    requires
        !line.contains('\n'),
    ensures
        lines(line) == (if line.len() == 0 {
            Seq::<Seq<char>>::empty()
        } else {
            seq![line]
        }),
        line.len() == 0 || line.last() != '\r' ==> lines(line.push('\n') + rest) == seq![line]
            + lines(rest),
        lines(line.push('\r').push('\n') + rest) == seq![line] + lines(rest),
{
    lemma_line_end(line, rest);
    lemma_line_end(line.push('\r'), rest);
    assert forall|i: int| 0 <= i < line.len() implies #[trigger] line[i] != '\n' by {
        assert(line.contains(line[i]));
    }
    if line.len() > 0 {
        assert(first_line(line) =~= line);
        assert(lines(other_lines(line)) =~= Seq::empty());
        assert(lines(line) =~= seq![line]);
    }
    let (a, b) = (line.push('\n') + rest, line.push('\r').push('\n') + rest);
    if line.len() == 0 || line.last() != '\r' {
        assert(line.len() > 0 ==> a[line.len() - 1] == line.last());
        assert(first_line(a) =~= line);
        assert(other_lines(a) =~= rest);
    }
    assert(b[line.len() as int] == '\r');
    assert(first_line(b) =~= line);
    assert(other_lines(b) =~= rest);
}

proof fn lemma_line_end(line: Seq<char>, rest: Seq<char>)
    requires
        forall|i: int| 0 <= i < line.len() ==> #[trigger] line[i] != '\n' || line.len() == 0,
    ensures
        line_end(line) == line.len(),
        line_end(line.push('\n') + rest) == line.len(),
{
    let seps = seq!['\n'];
    let whole = line.push('\n') + rest;
    assert(seps[0] == '\n');
    assert forall|j: int| 0 <= j < line.len() implies !seps.contains(#[trigger] line[j]) by {}
    assert forall|j: int| 0 <= j < line.len() implies !seps.contains(#[trigger] whole[j]) by {
        assert(whole[j] == line[j]);
    }
    lemma_find_is(line, seps, line.len() as int);
    assert(whole[line.len() as int] == '\n');
    lemma_find_is(whole, seps, line.len() as int);
}

/// A line of a wildcard list gives the text that stands in it: without a comment behind
/// it, white space around it, or any number of `*.` before it.
pub proof fn wildcard_lines_give_what_stands_in_them(
    front: Seq<char>,
    stars: Seq<char>,
    name: Seq<char>,
    back: Seq<char>,
    comment: Seq<char>,
)
    requires
        forall|i: int| 0 <= i < front.len() ==> is_space(#[trigger] front[i]),
        stars.len() % 2 == 0,
        forall|i: int|
            0 <= i < stars.len() ==> #[trigger] stars[i] == (if i % 2 == 0 {
                '*'
            } else {
                '.'
            }),
        !name.contains('#') && !name.contains('!'),
        !(name.len() >= 2 && name[0] == '*' && name[1] == '.'),
        name.len() > 0 ==> !is_space(name.last()),
        name.len() > 0 && stars.len() == 0 ==> !is_space(name[0]),
        forall|i: int| 0 <= i < back.len() ==> is_space(#[trigger] back[i]),
        comment.len() > 0 ==> comment[0] == '#' || comment[0] == '!',
    ensures
        wildcard_candidate(front + stars + name + back + comment) == name,
        line_candidate(front + stars + name + back + comment, ListFormat::WildcardDomains) == Some(
            name,
        ),
{
    let core = stars + name;
    let code = front + core + back;
    assert(front + stars + name + back =~= code);
    assert forall|i: int| 0 <= i < code.len() implies #[trigger] code[i] != '#' && code[i]
        != '!' by {
        let (a, b, c) = (
            front.len() as int,
            front.len() + stars.len(),
            front.len() + stars.len() + name.len(),
        );
        if i < a {
            assert(code[i] == front[i]);
        } else if i < b {
            assert(code[i] == stars[i - a]);
        } else if i < c {
            assert(code[i] == name[i - b]);
            assert(name.contains(name[i - b]));
        } else {
            assert(code[i] == back[i - c]);
        }
    }
    if comment.len() > 0 {
        let mark = comment[0];
        let text = comment.skip(1);
        assert(code + comment =~= code.push(mark) + text);
        wildcard_comments_are_ignored(code, mark, text);
    } else {
        assert(code + comment =~= code);
    }
    lemma_cut(code, '#', code.len() as int);
    lemma_cut(code, '!', code.len() as int);
    assert(code.take(code.len() as int) =~= code);
    if core.len() > 0 {
        if stars.len() > 0 {
            assert(core[0] == stars[0]);
        } else {
            assert(core[0] == name[0]);
        }
        if name.len() > 0 {
            assert(core.last() == name.last());
        } else {
            assert(core.last() == stars[stars.len() - 1]);
        }
    }
    trimming_leaves_what_white_space_surrounds(front, core, back);
    lemma_stars(stars, name);
}

proof fn lemma_stars(stars: Seq<char>, name: Seq<char>)
    requires
        stars.len() % 2 == 0,
        forall|i: int|
            0 <= i < stars.len() ==> #[trigger] stars[i] == (if i % 2 == 0 {
                '*'
            } else {
                '.'
            }),
        !(name.len() >= 2 && name[0] == '*' && name[1] == '.'),
    ensures
        without_wildcards(stars + name) == name,
    decreases stars.len(),
{
    if stars.len() == 0 {
        assert(stars + name =~= name);
    } else {
        let fewer = stars.skip(2);
        assert forall|i: int| 0 <= i < fewer.len() implies #[trigger] fewer[i] == (if i % 2 == 0 {
            '*'
        } else {
            '.'
        }) by {
            assert(fewer[i] == stars[i + 2]);
        }
        lemma_stars(fewer, name);
        let s = stars + name;
        assert(s[0] == stars[0] && s[1] == stars[1]);
        assert(s.skip(2) =~= fewer + name);
    }
}

/// An Adblock Plus line that is `||`, a text, `^`, and then nothing or `$` and options,
/// with white space around it, gives that text, unless it is a cosmetic filter: the text
/// holds none of the eight characters that end a domain.
pub proof fn adblock_rules_give_their_domain(
    front: Seq<char>,
    d: Seq<char>,
    options: Seq<char>,
    back: Seq<char>,
)
    requires
        forall|i: int| 0 <= i < front.len() ==> is_space(#[trigger] front[i]),
        forall|i: int| 0 <= i < back.len() ==> is_space(#[trigger] back[i]),
        d.len() > 0,
        forall|i: int|
            0 <= i < d.len() ==> #[trigger] d[i] != '^' && d[i] != '$' && d[i] != '/' && d[i] != ':'
                && d[i] != '*' && d[i] != '|' && d[i] != '?' && d[i] != '&',
        options.len() > 0 ==> options[0] == '$' && !is_space(options.last()),
        ({
            let s = d + seq!['^'] + options;
            &&& forall|i: int| 0 <= i < s.len() - 1 && #[trigger] s[i] == '#' ==> s[i + 1] != '#'
            &&& forall|i: int|
                0 <= i < s.len() - 2 && #[trigger] s[i] == '#' && s[i + 2] == '#' ==> s[i + 1]
                    != '@' && s[i + 1] != '?'
        }),
    ensures
        adblock_candidate(front + seq!['|', '|'] + d + seq!['^'] + options + back) == Some(d),
        line_candidate(
            front + seq!['|', '|'] + d + seq!['^'] + options + back,
            ListFormat::AdblockPlus,
        ) == Some(d),
{
    let s = d + seq!['^'] + options;
    let rule = seq!['|', '|'] + s;
    let line = front + seq!['|', '|'] + d + seq!['^'] + options + back;
    assert(line =~= front + rule + back);
    assert(rule.last() == s.last());
    if options.len() > 0 {
        assert(s.last() == options.last());
    } else {
        assert(s.last() == '^');
    }
    assert(rule[0] == '|');
    trimming_leaves_what_white_space_surrounds(front, rule, back);
    assert(rule.skip(2) =~= s);
    assert(rule.take(2) =~= seq!['|', '|']);
    assert forall|i: int| 0 <= i < d.len() implies !rule_ends().contains(#[trigger] s[i]) by {
        assert(s[i] == d[i]);
        lemma_rule_ends(d[i]);
    }
    assert(s[d.len() as int] == '^');
    lemma_rule_ends('^');
    lemma_find_is(s, rule_ends(), d.len() as int);
    assert(s.take(d.len() as int) =~= d);
    if options.len() > 0 {
        assert(s[d.len() as int + 1] == options[0]);
    }
    lemma_no_cosmetic(s, rule);
}

/// The eight characters that end the domain of an Adblock Plus rule.
proof fn lemma_rule_ends(c: char)
    ensures
        rule_ends().contains(c) <==> c == '^' || c == '$' || c == '/' || c == ':' || c == '*' || c
            == '|' || c == '?' || c == '&',
{
    let e = rule_ends();
    assert(e[0] == '^' && e[1] == '$' && e[2] == '/' && e[3] == ':');
    assert(e[4] == '*' && e[5] == '|' && e[6] == '?' && e[7] == '&');
}

proof fn lemma_no_cosmetic(s: Seq<char>, rule: Seq<char>)
    requires
        rule == seq!['|', '|'] + s,
        forall|i: int| 0 <= i < s.len() - 1 && #[trigger] s[i] == '#' ==> s[i + 1] != '#',
        forall|i: int|
            0 <= i < s.len() - 2 && #[trigger] s[i] == '#' && s[i + 2] == '#' ==> s[i + 1] != '@'
                && s[i + 1] != '?',
    ensures
        !cosmetic(rule),
{
    let (a, b, c) = (seq!['#', '#'], seq!['#', '@', '#'], seq!['#', '?', '#']);
    assert forall|i: int| 0 <= i <= rule.len() - 2 implies #[trigger] rule.subrange(i, i + 2)
        != a by {
        let w = rule.subrange(i, i + 2);
        if w == a {
            assert(w[0] == '#' && w[1] == '#');
            assert(rule[i] == '#' && rule[i + 1] == '#');
            assert(s[i - 2] == '#');
        }
    }
    assert forall|i: int| 0 <= i <= rule.len() - 3 implies #[trigger] rule.subrange(i, i + 3) != b
        && rule.subrange(i, i + 3) != c by {
        let w = rule.subrange(i, i + 3);
        if w == b || w == c {
            assert(w[0] == '#' && w[2] == '#' && (w[1] == '@' || w[1] == '?'));
            assert(rule[i] == '#' && rule[i + 2] == '#');
            assert(s[i - 2] == '#');
        }
    }
}

/// An Adblock Plus line that gives a text is `||`, that text, `^`, and then nothing or
/// `$` and options, with white space around it, and no cosmetic filter; `r` is where the
/// text starts. No other line gives anything.
pub proof fn adblock_lines_give_nothing_else(line: Seq<char>, d: Seq<char>) -> (r: int)
    requires
        adblock_candidate(line) == Some(d),
    ensures
        d.len() > 0,
        2 <= r < r + d.len() < line.len(),
        d == line.subrange(r, r + d.len()),
        forall|i: int| 0 <= i < r - 2 ==> is_space(#[trigger] line[i]),
        line[r - 2] == '|' && line[r - 1] == '|',
        line[r + d.len()] == '^',
        r + d.len() + 1 < line.len() ==> line[r + d.len() + 1] == '$' || is_space(
            line[r + d.len() + 1],
        ),
        r + d.len() + 1 < line.len() && is_space(line[r + d.len() + 1]) ==> forall|i: int|
            r + d.len() < i < line.len() ==> is_space(#[trigger] line[i]),
        forall|i: int|
            0 <= i < d.len() ==> #[trigger] d[i] != '^' && d[i] != '$' && d[i] != '/' && d[i] != ':'
                && d[i] != '*' && d[i] != '|' && d[i] != '?' && d[i] != '&',
        forall|i: int| 0 <= i < line.len() - 1 && #[trigger] line[i] == '#' ==> line[i + 1] != '#',
        forall|i: int|
            0 <= i < line.len() - 2 && #[trigger] line[i] == '#' && line[i + 2] == '#' ==> line[i
                + 1] != '@' && line[i + 1] != '?',
{
    let rule = trim(line);
    let rest = rule.skip(2);
    let n = lemma_trim_at(line);
    let r = n + 2;
    lemma_find(rest, rule_ends());
    assert(rule.take(2)[0] == '|' && rule.take(2)[1] == '|');
    let end = d.len() as int;
    assert forall|i: int| 0 <= i < d.len() implies #[trigger] d[i] != '^' && d[i] != '$' && d[i]
        != '/' && d[i] != ':' && d[i] != '*' && d[i] != '|' && d[i] != '?' && d[i] != '&' by {
        assert(d[i] == rest[i]);
        lemma_rule_ends(rest[i]);
    }
    assert(rest[end] == '^');
    assert forall|i: int| 0 <= i < rule.len() implies #[trigger] rule[i] == line[n + i] by {}
    assert(d =~= line.subrange(r, r + d.len()));
    assert(rule[end + 2] == '^');
    if end + 3 < rule.len() {
        assert(rest[end + 1] == rule[end + 3]);
    }
    assert forall|i: int| 0 <= i < line.len() - 1 && #[trigger] line[i] == '#' implies line[i + 1]
        != '#' by {
        if line[i + 1] == '#' {
            assert(n <= i && i + 1 < n + rule.len());
            assert(rule.subrange(i - n, i - n + seq!['#', '#'].len()) =~= seq!['#', '#']);
            assert(cosmetic(rule));
        }
    }
    assert forall|i: int|
        0 <= i < line.len() - 2 && #[trigger] line[i] == '#' && line[i + 2] == '#' implies line[i
        + 1] != '@' && line[i + 1] != '?' by {
        assert(n <= i && i + 2 < n + rule.len());
        if line[i + 1] == '@' {
            assert(rule.subrange(i - n, i - n + seq!['#', '@', '#'].len()) =~= seq!['#', '@', '#']);
            assert(cosmetic(rule));
        }
        if line[i + 1] == '?' {
            assert(rule.subrange(i - n, i - n + seq!['#', '?', '#'].len()) =~= seq!['#', '?', '#']);
            assert(cosmetic(rule));
        }
    }
    r
}

/// Where the trimmed part of a text stands in it.
proof fn lemma_trim_at(s: Seq<char>) -> (r: int)
    ensures
        0 <= r <= r + trim(s).len() <= s.len(),
        trim(s) == s.subrange(r, r + trim(s).len()),
        forall|i: int| 0 <= i < r ==> is_space(#[trigger] s[i]),
        forall|i: int| r + trim(s).len() <= i < s.len() ==> is_space(#[trigger] s[i]),
{
    let a = trim_start(s);
    lemma_trim_start_suffix(s);
    lemma_trim_end_prefix(a);
    lemma_trim_end_spaces(a);
    let r = s.len() - a.len();
    assert(trim(s) =~= s.subrange(r, r + trim(s).len()));
    assert forall|i: int| r + trim(s).len() <= i < s.len() implies is_space(#[trigger] s[i]) by {
        assert(s[i] == a[i - r]);
    }
    r
}

/// A list names what its first line names, if it names something, and then what its
/// other lines name.
pub proof fn lists_name_what_their_lines_name(
    line: Seq<char>,
    rest: Seq<char>,
    format: ListFormat,
)
    requires
        !line.contains('\n'),
    ensures
        ({
            let one = match line_candidate(line, format) {
                Some(c) => match normalized(c) {
                    Some(d) => seq![d],
                    None => Seq::empty(),
                },
                None => Seq::empty(),
            };
            &&& listed_domains(Seq::empty(), format) == Seq::<Seq<char>>::empty()
            &&& line.len() > 0 ==> listed_domains(line, format) == one
            &&& line.len() == 0 || line.last() != '\r' ==> listed_domains(
                line.push('\n') + rest,
                format,
            ) == one + listed_domains(rest, format)
            &&& listed_domains(line.push('\r').push('\n') + rest, format) == one + listed_domains(
                rest,
                format,
            )
        }),
{
    line_feeds_end_lines(line, rest);
    lemma_first_line_domain(line, lines(rest), format);
    lemma_first_line_domain(line, Seq::empty(), format);
    assert(seq![line] + Seq::<Seq<char>>::empty() =~= seq![line]);
    if line.len() > 0 {
        assert(lines_domains(Seq::empty(), format) == Seq::<Seq<char>>::empty());
    }
}

/// What a line gives as a domain goes by the format of the list.
pub proof fn candidates_go_by_the_format(line: Seq<char>)
    ensures
        line_candidate(line, ListFormat::WildcardDomains) == Some(wildcard_candidate(line)),
        line_candidate(line, ListFormat::AdblockPlus) == adblock_candidate(line),
        line_domain(line, ListFormat::WildcardDomains) == normalized(wildcard_candidate(line)),
        adblock_candidate(line) is None ==> line_domain(line, ListFormat::AdblockPlus) is None,
        adblock_candidate(line) matches Some(c) ==> line_domain(line, ListFormat::AdblockPlus)
            == normalized(c),
{
}

proof fn lemma_first_line_domain(line: Seq<char>, ls: Seq<Seq<char>>, format: ListFormat)
    ensures
        lines_domains(seq![line] + ls, format) == (match line_domain(line, format) {
            Some(d) => seq![d],
            None => Seq::empty(),
        }) + lines_domains(ls, format),
    decreases ls.len(),
{
    let all = seq![line] + ls;
    let one = match line_domain(line, format) {
        Some(d) => seq![d],
        None => Seq::empty(),
    };
    if ls.len() == 0 {
        assert(all.drop_last() =~= ls);
        assert(lines_domains(ls, format) == Seq::<Seq<char>>::empty());
        assert(all.last() == line);
        assert(lines_domains(all, format) =~= one + lines_domains(ls, format));
    } else {
        let front = ls.drop_last();
        lemma_first_line_domain(line, front, format);
        assert(all.drop_last() =~= seq![line] + front);
        assert(all.last() == ls.last());
        assert(lines_domains(all, format) =~= one + lines_domains(ls, format));
    }
}

} // verus!
