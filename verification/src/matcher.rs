//! What a search box matches: a plain part of the name, wildcards, or a regular expression,
//! upper and lower case taken for the same.

use vstd::prelude::*;
use vstd::string::*;
use vstd::slice::slice_subrange;
use vstd::utf8::{
    encode_scalar, encode_utf8, last_continuation_byte, leading_byte_width_1, leading_byte_width_2,
    leading_byte_width_3, leading_byte_width_4, second_last_continuation_byte,
    third_last_continuation_byte,
};

use crate::text::{
    bytes_eq, chars_of, fold_byte, folded, lemma_encode_concat, lower_ascii, lower_char,
    str_lowercase, to_lower_ascii, to_lowercase,
};

verus! {

/// A compiled regular expression of the crate `regex`.
#[verifier::external_type_specification]
#[verifier::external_body]
pub struct ExRegex(regex::Regex);

/// Whether `Regex::is_match` finds a match of an expression in a text.
pub uninterp spec fn regex_matches(re: regex::Regex, text: Seq<char>) -> bool;

/// What `Regex::new` makes of a pattern: the expression, or nothing where the pattern is
/// refused.
pub uninterp spec fn regex_of(pattern: Seq<char>) -> Option<regex::Regex>;

/// What `RegexBuilder::build` makes of a pattern with upper and lower case taken for the same:
/// the expression, or the message of the error.
pub uninterp spec fn regex_ignoring_case(pattern: Seq<char>) -> Result<regex::Regex, Seq<char>>;

/// `Regex::is_match`: whether the expression has a match in the text, a function of the two.
#[verifier::external_body]
pub(crate) fn regex_is_match(re: &regex::Regex, text: &str) -> (r: bool)
    ensures
        r == regex_matches(*re, text@),
{
    re.is_match(text)
}

/// `Regex::new`: compiles a pattern; what comes out depends on the pattern alone.
#[verifier::external_body]
pub(crate) fn compile(pattern: &str) -> (r: Option<regex::Regex>)
    ensures
        r == regex_of(pattern@),
{
    regex::Regex::new(pattern).ok()
}

/// `RegexBuilder::build` after `case_insensitive(true)`: compiles a pattern; what comes out,
/// or the text of the error, depends on the pattern alone.
#[verifier::external_body]
pub(crate) fn compile_ignoring_case(pattern: &str) -> (r: Result<regex::Regex, String>)
    ensures
        match (r, regex_ignoring_case(pattern@)) {
            (Ok(a), Ok(b)) => a == b,
            (Err(a), Err(b)) => a@ == b,
            _ => false,
        },
{
    regex::RegexBuilder::new(pattern).case_insensitive(true).build().map_err(|e| format!("{e}"))
}

/// The characters that have a meaning in a pattern.
pub open spec fn is_meta(c: char) -> bool {
    c == '\\' || c == '.' || c == '+' || c == '*' || c == '?' || c == '(' || c == ')' || c == '|'
        || c == '[' || c == ']' || c == '{' || c == '}' || c == '^' || c == '$' || c == '#' || c
        == '&' || c == '-' || c == '~'
}

/// The pattern that matches a text and nothing else: a backslash before every character that
/// has a meaning.
pub open spec fn escaped(s: Seq<char>) -> Seq<char>
    decreases s.len(),
{
    if s.len() == 0 {
        Seq::empty()
    } else if is_meta(s.last()) {
        escaped(s.drop_last()).push('\\').push(s.last())
    } else {
        escaped(s.drop_last()).push(s.last())
    }
}

/// `regex::escape`: puts a backslash before every character that has a meaning in a pattern.
#[verifier::external_body]
pub(crate) fn escape(s: &str) -> (r: String)
    ensures
        r@ == escaped(s@),
{
    regex::escape(s)
}

/// Whether a text holds a wildcard.
pub open spec fn has_wildcard(s: Seq<char>) -> bool {
    s.contains('*') || s.contains('?')
}

/// The pattern for the first `k` characters of a query with wildcards.
pub open spec fn glob_body(query: Seq<char>) -> Seq<char>
    decreases query.len(),
{
    if query.len() == 0 {
        Seq::empty()
    } else {
        glob_body(query.drop_last()) + (if query.last() == '*' {
            seq!['.', '*']
        } else if query.last() == '?' {
            seq!['.']
        } else {
            escaped(seq![query.last()])
        })
    }
}

/// The pattern for a query with wildcards: a whole name, upper and lower case the same, with
/// any characters for `*` and any one character for `?`.
pub open spec fn glob_pattern(query: Seq<char>) -> Seq<char> {
    (seq!['(', '?', 'i', ')', '^'] + glob_body(query)).push('$')
}

/// Whether a text holds a wildcard.
pub(crate) fn wildcard(query: &str) -> (r: bool)
    ensures
        r == has_wildcard(query@),
{
    let v = chars_of(query);
    let mut i: usize = 0;
    while i < v.len()
        invariant
            i <= v.len(),
            v@ == query@,
            forall|k: int| 0 <= k < i ==> v@[k] != '*' && v@[k] != '?',
        decreases v.len() - i,
    {
        if v[i] == '*' || v[i] == '?' {
            assert(query@.contains(v@[i as int]));
            return true;
        }
        i += 1;
    }
    false
}

/// The pattern for a query with wildcards.
pub(crate) fn glob(query: &str) -> (r: String)
    ensures
        r@ == glob_pattern(query@),
{
    proof {
        reveal_strlit("(?i)^");
        reveal_strlit(".*");
    }
    let v = chars_of(query);
    let mut r = "(?i)^".to_owned();
    let ghost head = seq!['(', '?', 'i', ')', '^'];
    assert(r@ =~= head);
    assert(head + glob_body(v@.take(0)) =~= head);
    let mut i: usize = 0;
    while i < v.len()
        invariant
            i <= v.len(),
            v@ == query@,
            r@ == head + glob_body(v@.take(i as int)),
        decreases v.len() - i,
    {
        let c: char = v[i];
        let ghost before = r@;
        let ghost piece = if c == '*' {
            seq!['.', '*']
        } else if c == '?' {
            seq!['.']
        } else {
            escaped(seq![c])
        };
        if c == '*' {
            r.append(".*");
            proof {
                reveal_strlit(".*");
                assert(".*"@ =~= seq!['.', '*']);
            }
        } else if c == '?' {
            r.push('.');
            assert(r@ =~= before + piece);
        } else {
            let mut one = String::new();
            one.push(c);
            assert(one@ =~= seq![c]);
            let e = escape(one.as_str());
            r.append(e.as_str());
        }
        proof {
            assert(r@ =~= before + piece);
            assert(v@.take(i + 1).drop_last() =~= v@.take(i as int));
            assert(r@ =~= head + glob_body(v@.take(i + 1)));
        }
        i += 1;
    }
    assert(v@.take(i as int) =~= v@);
    r.push('$');
    r
}

/// Whether the needle stands somewhere in the haystack, whose upper case ASCII letters are
/// taken for lower case ones.
pub open spec fn bytes_contain(h: Seq<u8>, n: Seq<u8>) -> bool {
    exists|k: int|
        0 <= k && k + n.len() <= h.len() && #[trigger] folded(h).subrange(k, k + n.len()) == n
}

/// Whether a needle in lower case stands somewhere in a text, ASCII letters compared without
/// regard to case and everything else byte by byte.
pub(crate) fn ascii_ci_contains(haystack: &str, needle_lower: &str) -> (r: bool)
    ensures
        r == bytes_contain(encode_utf8(haystack@), encode_utf8(needle_lower@)),
{
    let h = haystack.as_bytes();
    let n = needle_lower.as_bytes();
    let ghost f = folded(h@);
    if n.len() > h.len() {
        return false;
    }
    let last: usize = h.len() - n.len();
    let mut start: usize = 0;
    loop
        invariant
            start <= last,
            last + n.len() == h.len(),
            f == folded(h@),
            h@ == encode_utf8(haystack@),
            n@ == encode_utf8(needle_lower@),
            forall|k: int| 0 <= k < start ==> #[trigger] f.subrange(k, k + n@.len()) != n@,
        decreases last - start,
    {
        let mut i: usize = 0;
        while i < n.len() && fold_byte(h[start + i]) == n[i]
            invariant
                i <= n.len(),
                start <= last,
                last + n.len() == h.len(),
                f == folded(h@),
                forall|k: int| 0 <= k < i ==> f[start + k] == #[trigger] n@[k],
            ensures
                i < n.len() ==> f[start + i] != n@[i as int],
            decreases n.len() - i,
        {
            i += 1;
        }
        if i == n.len() {
            assert(f.subrange(start as int, start + n@.len()) =~= n@);
            return true;
        }
        assert(f.subrange(start as int, start + n@.len())[i as int] == f[start + i]);
        if start == last {
            return false;
        }
        start += 1;
    }
}

/// Whether the needle stands somewhere in the haystack.
pub open spec fn bytes_hold(h: Seq<u8>, n: Seq<u8>) -> bool {
    exists|k: int|
        0 <= k && k + n.len() <= h.len() && #[trigger] h.subrange(k, k + n.len()) == n
}

/// Whether a text stands somewhere in another.
fn text_holds(haystack: &str, needle: &str) -> (r: bool)
    ensures
        r == bytes_hold(encode_utf8(haystack@), encode_utf8(needle@)),
{
    let h = haystack.as_bytes();
    let n = needle.as_bytes();
    if n.len() > h.len() {
        return false;
    }
    let last: usize = h.len() - n.len();
    let mut start: usize = 0;
    loop
        invariant
            start <= last,
            last + n.len() == h.len(),
            h@ == encode_utf8(haystack@),
            n@ == encode_utf8(needle@),
            forall|k: int| 0 <= k < start ==> #[trigger] h@.subrange(k, k + n@.len()) != n@,
        decreases last - start,
    {
        if bytes_eq(slice_subrange(h, start, start + n.len()), n) {
            return true;
        }
        if start == last {
            return false;
        }
        start += 1;
    }
}

/// Whether a name holds a query, upper and lower case taken for the same: in lower case both, or
/// the query in lower case and the name in its ASCII letters, or both in their ASCII letters.
/// The last two find what the first does not where the lower case of a letter goes by what
/// stands around it, as that of a capital sigma does.
pub open spec fn plain_match(name: Seq<char>, query: Seq<char>) -> bool {
    ||| bytes_hold(encode_utf8(str_lowercase(name)), encode_utf8(str_lowercase(query)))
    ||| bytes_contain(encode_utf8(name), encode_utf8(str_lowercase(query)))
    ||| bytes_contain(encode_utf8(name), encode_utf8(lower_ascii(query)))
}

/// A query, ready to be held against names.
pub enum Matcher {
    /// Part of a name, as it was typed.
    Plain(String),
    Regex(regex::Regex),
}

impl Matcher {
    /// Whether a name matches.
    pub open spec fn matches(&self, name: Seq<char>) -> bool {
        match self {
            Matcher::Plain(q) => plain_match(name, q@),
            Matcher::Regex(re) => regex_matches(*re, name),
        }
    }

    /// What the message of an error begins with.
    pub open spec fn error_prefix() -> Seq<char> {
        "正则表达式有误："@
    }

    /// A matcher for a part of a name, or for a regular expression, both without regard to case.
    pub fn build(query: &str, use_regex: bool) -> (r: Result<Self, String>)
        ensures
            if use_regex {
                match regex_ignoring_case(query@) {
                    Ok(re) => r matches Ok(Matcher::Regex(x)) && x == re,
                    Err(e) => r matches Err(s) && s@ == Self::error_prefix() + e,
                }
            } else {
                r matches Ok(Matcher::Plain(q)) && q@ == query@
            },
    {
        if use_regex {
            match compile_ignoring_case(query) {
                Ok(re) => Ok(Matcher::Regex(re)),
                Err(e) => {
                    let mut s = "正则表达式有误：".to_owned();
                    s.append(e.as_str());
                    Err(s)
                },
            }
        } else {
            Ok(Matcher::Plain(query.to_owned()))
        }
    }

    /// A matcher for a query that may hold wildcards.
    pub fn build_auto(query: &str) -> (r: Self)
        ensures
            match (has_wildcard(query@), regex_of(glob_pattern(query@))) {
                (true, Some(re)) => r matches Matcher::Regex(x) && x == re,
                _ => r matches Matcher::Plain(q) && q@ == query@,
            },
    {
        if wildcard(query) {
            let pattern = glob(query);
            match compile(pattern.as_str()) {
                Some(re) => Matcher::Regex(re),
                None => Matcher::Plain(query.to_owned()),
            }
        } else {
            Matcher::Plain(query.to_owned())
        }
    }

    /// Whether a name matches.
    pub fn is_match(&self, name: &str) -> (r: bool)
        ensures
            r == self.matches(name@),
    {
        match self {
            Matcher::Plain(q) => {
                let lower = to_lowercase(q.as_str());
                text_holds(to_lowercase(name).as_str(), lower.as_str()) || ascii_ci_contains(
                    name,
                    lower.as_str(),
                ) || ascii_ci_contains(name, to_lower_ascii(q.as_str()).as_str())
            },
            Matcher::Regex(re) => regex_is_match(re, name),
        }
    }
}

/// An empty query matches every name.
pub proof fn law_empty_query_matches_everything(m: Matcher, name: Seq<char>)
    requires
        m matches Matcher::Plain(q) && q@.len() == 0,
    ensures
        m.matches(name),
{
    let h = encode_utf8(name);
    let n = encode_utf8(lower_ascii(m->Plain_0@));
    assert(n.len() == 0);
    assert(folded(h).subrange(0, 0int + n.len()) =~= n);
}

proof fn lemma_high_bytes(c: u32)
    by (bit_vector)
    ensures
        leading_byte_width_2(c) >= 0x80,
        leading_byte_width_3(c) >= 0x80,
        leading_byte_width_4(c) >= 0x80,
        last_continuation_byte(c) >= 0x80,
        second_last_continuation_byte(c) >= 0x80,
        third_last_continuation_byte(c) >= 0x80,
{
}

proof fn lemma_low_byte(c: u32)
    by (bit_vector)
    requires
        c <= 0x7F,
    ensures
        leading_byte_width_1(c) == c,
{
}

proof fn lemma_fold_scalar(c: char)
    ensures
        folded(encode_scalar(c as u32)) == encode_scalar(lower_char(c) as u32),
{
    lemma_high_bytes(c as u32);
    if c as u32 <= 0x7F {
        lemma_low_byte(c as u32);
        lemma_low_byte(lower_char(c) as u32);
    }
    assert(folded(encode_scalar(c as u32)) =~= encode_scalar(lower_char(c) as u32));
}

/// Folding the encoding of a text is encoding the folded text.
proof fn lemma_fold_encoding(s: Seq<char>)
    ensures
        folded(encode_utf8(s)) == encode_utf8(lower_ascii(s)),
    decreases s.len(),
{
    if s.len() == 0 {
        assert(folded(encode_utf8(s)) =~= encode_utf8(lower_ascii(s)));
    } else {
        lemma_fold_scalar(s[0]);
        lemma_fold_encoding(s.drop_first());
        assert(lower_ascii(s).drop_first() =~= lower_ascii(s.drop_first()));
        assert(folded(encode_utf8(s)) =~= folded(encode_scalar(s[0] as u32)) + folded(
            encode_utf8(s.drop_first()),
        ));
    }
}

/// A name that holds the query matches, however its ASCII letters are written.
pub proof fn law_query_in_any_case_is_found(m: Matcher, query: Seq<char>, name: Seq<char>, k: int)
    requires
        m matches Matcher::Plain(q) && q@ == query,
        0 <= k <= k + query.len() <= name.len(),
        lower_ascii(name.subrange(k, k + query.len())) == lower_ascii(query),
    ensures
        m.matches(name),
{
    let n = query.len() as int;
    let front = name.take(k);
    let mid = name.subrange(k, k + n);
    let back = name.skip(k + n);
    assert(name =~= front + mid + back);
    lemma_encode_concat(front + mid, back);
    lemma_encode_concat(front, mid);
    lemma_fold_encoding(mid);
    let h = encode_utf8(name);
    let at = encode_utf8(front).len() as int;
    let needle = encode_utf8(lower_ascii(query));
    assert(folded(h).subrange(at, at + needle.len()) =~= folded(encode_utf8(mid)));
}

/// A name that in lower case holds the query in lower case matches.
pub proof fn law_case_is_not_regarded(m: Matcher, query: Seq<char>, name: Seq<char>)
    requires
        m matches Matcher::Plain(q) && q@ == query,
        bytes_hold(encode_utf8(str_lowercase(name)), encode_utf8(str_lowercase(query))),
    ensures
        m.matches(name),
{
}

/// A name that holds the query just as it was typed matches.
pub proof fn law_query_is_found_as_typed(m: Matcher, query: Seq<char>, name: Seq<char>, k: int)
    requires
        m matches Matcher::Plain(q) && q@ == query,
        0 <= k <= k + query.len() <= name.len(),
        name.subrange(k, k + query.len()) == query,
    ensures
        m.matches(name),
{
    law_query_in_any_case_is_found(m, query, name, k);
}

} // verus!
