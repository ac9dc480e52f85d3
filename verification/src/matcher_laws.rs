//! What a query with wildcards matches: whole names, cut into one piece for each character of
//! the query.

use vstd::prelude::*;

use crate::matcher::{
    escaped, glob_body, glob_pattern, has_wildcard, is_meta, regex_matches, regex_of, Matcher,
};

verus! {

/// A part of a pattern.
pub enum Part {
    /// `^`: the text starts here.
    Start,
    /// `$`: the text ends here.
    End,
    /// `.`: one character, which is no line break.
    Any,
    /// `.*`: characters that are no line breaks.
    AnyRun,
    /// A character without a meaning of its own, or one behind a backslash.
    Letter(char),
}

/// The parts that a pattern is made of; nothing where it holds anything but `^`, `$`, `.`, `.*`,
/// characters behind a backslash and characters without a meaning.
pub open spec fn parts(p: Seq<char>) -> Option<Seq<Part>>
    decreases p.len(),
{
    if p.len() == 0 {
        Some(Seq::empty())
    } else if p[0] == '.' && p.len() > 1 && p[1] == '*' {
        before(Part::AnyRun, parts(p.skip(2)))
    } else if p[0] == '.' {
        before(Part::Any, parts(p.skip(1)))
    } else if p[0] == '^' {
        before(Part::Start, parts(p.skip(1)))
    } else if p[0] == '$' {
        before(Part::End, parts(p.skip(1)))
    } else if p[0] == '\\' && p.len() > 1 && is_meta(p[1]) {
        before(Part::Letter(p[1]), parts(p.skip(2)))
    } else if !is_meta(p[0]) {
        before(Part::Letter(p[0]), parts(p.skip(1)))
    } else {
        None
    }
}

/// A part before others.
pub open spec fn before(part: Part, rest: Option<Seq<Part>>) -> Option<Seq<Part>> {
    match rest {
        Some(ps) => Some(seq![part] + ps),
        None => None,
    }
}

/// Whether parts match a text from a position on. `same` says which characters are taken for the
/// same.
pub open spec fn fits(
    ps: Seq<Part>,
    text: Seq<char>,
    at: int,
    same: spec_fn(char, char) -> bool,
) -> bool
    decreases ps.len(), text.len() - at,
{
    if ps.len() == 0 {
        true
    } else {
        match ps[0] {
            Part::Start => at == 0 && fits(ps.skip(1), text, at, same),
            Part::End => at == text.len() && fits(ps.skip(1), text, at, same),
            Part::Any => 0 <= at < text.len() && text[at] != '\n' && fits(
                ps.skip(1),
                text,
                at + 1,
                same,
            ),
            Part::Letter(c) => 0 <= at < text.len() && same(c, text[at]) && fits(
                ps.skip(1),
                text,
                at + 1,
                same,
            ),
            Part::AnyRun => fits(ps.skip(1), text, at, same) || (0 <= at < text.len() && text[at]
                != '\n' && fits(ps, text, at + 1, same)),
        }
    }
}

/// Whether a pattern is found in a text. Behind `(?i)` characters are compared by `same`, which
/// takes upper and lower case for the same, else they are the same only where they are equal.
pub open spec fn is_found(
    pattern: Seq<char>,
    text: Seq<char>,
    same: spec_fn(char, char) -> bool,
) -> bool {
    if "(?i)"@.is_prefix_of(pattern) {
        fits_somewhere(parts(pattern.skip(4)), text, same)
    } else {
        fits_somewhere(parts(pattern), text, |a: char, b: char| a == b)
    }
}

/// Whether parts match a text from some position on.
pub open spec fn fits_somewhere(
    ps: Option<Seq<Part>>,
    text: Seq<char>,
    same: spec_fn(char, char) -> bool,
) -> bool {
    ps is Some && exists|at: int| 0 <= at <= text.len() && #[trigger] fits(ps->0, text, at, same)
}

/// Whether the part of a name from `from` to `to` is what a character of a query stands for: any
/// text for `*`, any one character for `?`, and the same character for any other. A line break
/// is no such character.
pub open spec fn stands_for(
    c: char,
    name: Seq<char>,
    from: int,
    to: int,
    same: spec_fn(char, char) -> bool,
) -> bool {
    if c == '*' {
        forall|i: int| from <= i < to ==> #[trigger] name[i] != '\n'
    } else if c == '?' {
        to == from + 1 && name[from] != '\n'
    } else {
        to == from + 1 && same(c, name[from])
    }
}

/// Whether a name from a position on is cut at the given places into pieces, one for each
/// character of a query.
pub open spec fn is_cut(
    query: Seq<char>,
    name: Seq<char>,
    from: int,
    cuts: Seq<int>,
    same: spec_fn(char, char) -> bool,
) -> bool {
    &&& cuts.len() == query.len() + 1
    &&& cuts[0] == from
    &&& cuts[query.len() as int] == name.len()
    &&& forall|k: int| 0 <= k < query.len() ==> #[trigger] is_piece(query, name, cuts, k, same)
}

/// Whether the piece between two cuts of a name is what a character of the query stands for.
pub open spec fn is_piece(
    query: Seq<char>,
    name: Seq<char>,
    cuts: Seq<int>,
    k: int,
    same: spec_fn(char, char) -> bool,
) -> bool {
    0 <= cuts[k] <= cuts[k + 1] <= name.len() && stands_for(
        query[k],
        name,
        cuts[k],
        cuts[k + 1],
        same,
    )
}

/// Whether a name can be cut into pieces, one for each character of a query in its order.
pub open spec fn can_be_cut(
    query: Seq<char>,
    name: Seq<char>,
    same: spec_fn(char, char) -> bool,
) -> bool {
    exists|cuts: Seq<int>| is_cut(query, name, 0, cuts, same)
}

spec fn part_of(c: char) -> Part {
    if c == '*' {
        Part::AnyRun
    } else if c == '?' {
        Part::Any
    } else {
        Part::Letter(c)
    }
}

spec fn parts_of(query: Seq<char>) -> Seq<Part> {
    Seq::new(query.len(), |i: int| part_of(query[i])).push(Part::End)
}

spec fn glob_piece(c: char) -> Seq<char> {
    if c == '*' {
        seq!['.', '*']
    } else if c == '?' {
        seq!['.']
    } else if is_meta(c) {
        seq!['\\', c]
    } else {
        seq![c]
    }
}

proof fn lemma_escaped_one(c: char)
    ensures
        escaped(seq![c]) == if is_meta(c) {
            seq!['\\', c]
        } else {
            seq![c]
        },
{
    let s = seq![c];
    assert(s.drop_last() =~= Seq::<char>::empty());
    assert(escaped(s.drop_last()) =~= Seq::<char>::empty());
    assert(escaped(s) =~= if is_meta(c) {
        seq!['\\', c]
    } else {
        seq![c]
    });
}

proof fn lemma_body_front(query: Seq<char>)
    requires
        query.len() > 0,
    ensures
        glob_body(query) == glob_piece(query[0]) + glob_body(query.skip(1)),
    decreases query.len(),
{
    lemma_escaped_one(query.last());
    let head = query.drop_last();
    if query.len() == 1 {
        assert(head =~= Seq::<char>::empty());
        assert(query.skip(1) =~= Seq::<char>::empty());
        assert(glob_body(query) =~= glob_piece(query[0]) + glob_body(query.skip(1)));
    } else {
        lemma_body_front(head);
        assert(head.skip(1) =~= query.skip(1).drop_last());
        assert(glob_body(query) =~= glob_piece(query[0]) + glob_body(query.skip(1)));
    }
}

proof fn lemma_parts(query: Seq<char>)
    ensures
        parts(glob_body(query).push('$')) == Some(parts_of(query)),
        glob_body(query).push('$')[0] != '*',
    decreases query.len(),
{
    let p = glob_body(query).push('$');
    if query.len() == 0 {
        assert(p =~= seq!['$']);
        assert(p.skip(1) =~= Seq::<char>::empty());
        assert(parts(p.skip(1)) == Some(Seq::<Part>::empty()));
        assert(seq![Part::End] + Seq::<Part>::empty() =~= parts_of(query));
    } else {
        let rest = query.skip(1);
        let c = query[0];
        lemma_body_front(query);
        lemma_parts(rest);
        let q = glob_body(rest).push('$');
        assert(p =~= glob_piece(c) + q);
        assert(p.skip(glob_piece(c).len() as int) =~= q);
        assert(seq![part_of(c)] + parts_of(rest) =~= parts_of(query));
        if c != '*' && c != '?' && !is_meta(c) {
            assert(p[0] == c);
        }
    }
}

proof fn lemma_cuts(
    query: Seq<char>,
    name: Seq<char>,
    from: int,
    same: spec_fn(char, char) -> bool,
) -> (cuts: Seq<int>)
    requires
        0 <= from <= name.len(),
        fits(parts_of(query), name, from, same),
    ensures
        is_cut(query, name, from, cuts, same),
    decreases query.len(), name.len() - from,
{
    let ps = parts_of(query);
    if query.len() == 0 {
        assert(ps[0] == Part::End);
        seq![from]
    } else {
        let rest = query.skip(1);
        assert(ps.skip(1) =~= parts_of(rest));
        assert(ps[0] == part_of(query[0]));
        if query[0] == '*' && !fits(parts_of(rest), name, from, same) {
            let more = lemma_cuts(query, name, from + 1, same);
            let cuts = more.update(0, from);
            assert(is_piece(query, name, more, 0, same));
            assert forall|k: int| 0 <= k < query.len() implies #[trigger] is_piece(
                query,
                name,
                cuts,
                k,
                same,
            ) by {
                assert(is_piece(query, name, more, k, same));
            }
            cuts
        } else {
            let next = if query[0] == '*' {
                from
            } else {
                from + 1
            };
            let more = lemma_cuts(rest, name, next, same);
            let cuts = seq![from] + more;
            assert forall|k: int| 0 <= k < query.len() implies #[trigger] is_piece(
                query,
                name,
                cuts,
                k,
                same,
            ) by {
                if k > 0 {
                    assert(rest[k - 1] == query[k]);
                    assert(is_piece(rest, name, more, k - 1, same));
                }
            }
            cuts
        }
    }
}

proof fn lemma_fits(
    query: Seq<char>,
    name: Seq<char>,
    from: int,
    cuts: Seq<int>,
    same: spec_fn(char, char) -> bool,
)
    requires
        0 <= from <= name.len(),
        is_cut(query, name, from, cuts, same),
    ensures
        fits(parts_of(query), name, from, same),
    decreases query.len(), name.len() - from,
{
    let ps = parts_of(query);
    if query.len() == 0 {
        assert(ps[0] == Part::End);
        assert(ps.skip(1) =~= Seq::<Part>::empty());
        assert(fits(ps.skip(1), name, from, same));
    } else {
        let rest = query.skip(1);
        assert(ps.skip(1) =~= parts_of(rest));
        assert(ps[0] == part_of(query[0]));
        assert(is_piece(query, name, cuts, 0, same));
        if query[0] == '*' && cuts[1] > from {
            let next = cuts.update(0, from + 1);
            assert forall|k: int| 0 <= k < query.len() implies #[trigger] is_piece(
                query,
                name,
                next,
                k,
                same,
            ) by {
                assert(is_piece(query, name, cuts, k, same));
            }
            lemma_fits(query, name, from + 1, next, same);
            assert(name[from] != '\n');
        } else {
            let next = cuts.skip(1);
            assert forall|k: int| 0 <= k < rest.len() implies #[trigger] is_piece(
                rest,
                name,
                next,
                k,
                same,
            ) by {
                assert(rest[k] == query[k + 1]);
                assert(is_piece(query, name, cuts, k + 1, same));
            }
            lemma_fits(rest, name, cuts[1], next, same);
        }
    }
}

/// The pattern for a query with wildcards is found in a name just where the whole name can be
/// cut into pieces, one for each character of the query in its order: any text for `*`, any one
/// character for `?`, and the same character, in upper or lower case, for any other.
pub proof fn law_glob_is_a_cut_of_the_name(
    query: Seq<char>,
    name: Seq<char>,
    same: spec_fn(char, char) -> bool,
)
    ensures
        is_found(glob_pattern(query), name, same) <==> can_be_cut(query, name, same),
{
    reveal_strlit("(?i)");
    let pattern = glob_pattern(query);
    let body = glob_body(query).push('$');
    assert("(?i)"@ =~= pattern.take(4));
    assert("(?i)"@.is_prefix_of(pattern));
    let p = pattern.skip(4);
    assert(p =~= seq!['^'] + body);
    assert(p.skip(1) =~= body);
    lemma_parts(query);
    let ps = seq![Part::Start] + parts_of(query);
    assert(parts(p) == Some(ps));
    assert(ps.skip(1) =~= parts_of(query));
    if is_found(pattern, name, same) {
        let at = choose|at: int| 0 <= at <= name.len() && #[trigger] fits(ps, name, at, same);
        assert(ps[0] == Part::Start);
        let cuts = lemma_cuts(query, name, 0, same);
        assert(is_cut(query, name, 0, cuts, same));
    }
    if can_be_cut(query, name, same) {
        let cuts = choose|cuts: Seq<int>| is_cut(query, name, 0, cuts, same);
        lemma_fits(query, name, 0, cuts, same);
        assert(0 <= 0int <= name.len() && fits(parts(p)->0, name, 0int, same));
    }
}

/// A query matches by whole names where it holds a wildcard, and only there: what is built for it
/// matches a name just where the name can be cut into pieces, one for each character of the
/// query. `re` is what the pattern was compiled to, and finds what the pattern says.
pub proof fn law_wildcards_match_whole_names(
    m: Matcher,
    re: regex::Regex,
    query: Seq<char>,
    name: Seq<char>,
    same: spec_fn(char, char) -> bool,
)
    requires
        m == Matcher::Regex(re),
        regex_of(glob_pattern(query)) == Some(re),
        forall|text: Seq<char>| #[trigger]
            regex_matches(re, text) == is_found(glob_pattern(query), text, same),
    ensures
        m.matches(name) <==> can_be_cut(query, name, same),
{
    law_glob_is_a_cut_of_the_name(query, name, same);
    assert(regex_matches(re, name) == is_found(glob_pattern(query), name, same));
}

/// A name whose first character is not that of the query does not match, and neither does one
/// whose last character is not, where that character of the query is no wildcard.
pub proof fn law_ends_of_a_name_count(
    query: Seq<char>,
    name: Seq<char>,
    same: spec_fn(char, char) -> bool,
)
    requires
        query.len() > 0,
        is_found(glob_pattern(query), name, same),
    ensures
        query[0] != '*' ==> name.len() > 0,
        query[0] != '*' && query[0] != '?' ==> same(query[0], name[0]),
        query.last() != '*' ==> name.len() > 0,
        query.last() != '*' && query.last() != '?' ==> same(query.last(), name.last()),
{
    law_glob_is_a_cut_of_the_name(query, name, same);
    let cuts = choose|cuts: Seq<int>| is_cut(query, name, 0, cuts, same);
    let k = query.len() - 1;
    assert(is_piece(query, name, cuts, 0, same));
    assert(is_piece(query, name, cuts, k, same));
}

/// Without a star a name has as many characters as the query.
pub proof fn law_question_marks_keep_the_length(
    query: Seq<char>,
    name: Seq<char>,
    same: spec_fn(char, char) -> bool,
)
    requires
        forall|i: int| 0 <= i < query.len() ==> #[trigger] query[i] != '*',
    ensures
        is_found(glob_pattern(query), name, same) <==> name.len() == query.len() && forall|i: int|
            0 <= i < query.len() ==> if #[trigger] query[i] == '?' {
                name[i] != '\n'
            } else {
                same(query[i], name[i])
            },
{
    law_glob_is_a_cut_of_the_name(query, name, same);
    let n = query.len() as int;
    if can_be_cut(query, name, same) {
        let cuts = choose|cuts: Seq<int>| is_cut(query, name, 0, cuts, same);
        lemma_even(query, name, cuts, n, same);
        assert forall|i: int| 0 <= i < query.len() implies if #[trigger] query[i] == '?' {
            name[i] != '\n'
        } else {
            same(query[i], name[i])
        } by {
            lemma_even(query, name, cuts, i, same);
            assert(is_piece(query, name, cuts, i, same));
        }
    }
    if name.len() == query.len() && (forall|i: int|
        0 <= i < query.len() ==> if #[trigger] query[i] == '?' {
            name[i] != '\n'
        } else {
            same(query[i], name[i])
        }) {
        let cuts = Seq::new((n + 1) as nat, |i: int| i);
        assert(is_cut(query, name, 0, cuts, same));
    }
}

proof fn lemma_even(
    query: Seq<char>,
    name: Seq<char>,
    cuts: Seq<int>,
    k: int,
    same: spec_fn(char, char) -> bool,
)
    requires
        forall|i: int| 0 <= i < query.len() ==> #[trigger] query[i] != '*',
        is_cut(query, name, 0, cuts, same),
        0 <= k <= query.len(),
    ensures
        cuts[k] == k,
    decreases k,
{
    if k > 0 {
        lemma_even(query, name, cuts, k - 1, same);
        assert(is_piece(query, name, cuts, k - 1, same));
    }
}

/// A query is taken for one with wildcards just where one of its characters is a star or a
/// question mark.
pub proof fn law_wildcards_are_stars_and_question_marks(query: Seq<char>)
    ensures
        has_wildcard(query) <==> exists|i: int|
            0 <= i < query.len() && (#[trigger] query[i] == '*' || query[i] == '?'),
{
    if exists|i: int| 0 <= i < query.len() && (#[trigger] query[i] == '*' || query[i] == '?') {
        let i = choose|i: int|
            0 <= i < query.len() && (#[trigger] query[i] == '*' || query[i] == '?');
        assert(query.contains(query[i]));
    }
}

} // verus!
