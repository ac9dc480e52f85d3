//! Questions that a [`NameIndex`] answers: where an entry stands, what matches, in what order.

use vstd::prelude::*;
use vstd::string::*;
use vstd::utf8::encode_utf8;

use crate::index_model::{
    entry_before, entry_path, key_less, linked_at, shown_dir, steps, well_linked, EntryView,
};
use crate::matcher::{regex_is_match, regex_matches};
use crate::model::{NodePath, SortDir, SortKey};
use crate::search_index::{NameIndex, NO_PARENT};
use crate::sorting::{is_order, merge_sort, stable_sort};
use crate::text::{
    folded, lemma_lex_asymmetric, lemma_lex_transitive, less_ignore_ascii_case, str_lowercase,
    text_less, to_lowercase,
};

verus! {

/// Machine integers as integers.
pub open spec fn to_ints(s: Seq<usize>) -> Seq<int> {
    Seq::new(s.len(), |k: int| s[k] as int)
}

proof fn lemma_path_step(es: Seq<EntryView>, roots: int, cur: int, below: Seq<int>)
    requires
        well_linked(es, roots),
        0 <= cur < es.len(),
    ensures
        match es[cur].parent {
            Some(p) => 0 <= p < cur && entry_path(es, cur) + below == entry_path(es, p) + (seq![
                es[cur].child_idx,
            ] + below),
            None => entry_path(es, cur) + below == seq![es[cur].pi] + (seq![es[cur].child_idx]
                + below),
        },
{
    assert(linked_at(es, roots, cur));
    match es[cur].parent {
        Some(p) => {
            assert(entry_path(es, cur) + below =~= entry_path(es, p) + (seq![es[cur].child_idx]
                + below));
        },
        None => {
            assert(entry_path(es, cur) + below =~= seq![es[cur].pi] + (seq![es[cur].child_idx]
                + below));
        },
    }
}

impl NameIndex {
    /// Where an entry stands in the tree: its root, then the child to take at each level.
    pub fn abs_path_of(&self, i: u32) -> (path: NodePath)
        requires
            self.wf(),
            i < self@.entries.len(),
        ensures
            path@ == steps(entry_path(self@.entries, i as int)),
    {
        let mut chain: Vec<usize> = Vec::new();
        let mut cur: usize = i as usize;
        let ghost es = self@.entries;
        proof {
            self.lemma_shape();
            assert(entry_path(es, i as int) + to_ints(chain@.reverse()) =~= entry_path(
                es,
                i as int,
            ));
        }
        loop
            invariant_except_break
                entry_path(es, i as int) == entry_path(es, cur as int) + to_ints(chain@.reverse()),
            invariant
                self.wf(),
                es == self@.entries,
                well_linked(es, self@.roots.len() as int),
                cur < es.len(),
                i < es.len(),
            ensures
                cur < es.len(),
                entry_path(es, i as int) == seq![es[cur as int].pi] + to_ints(chain@.reverse()),
            decreases cur,
        {
            let e = self.entry(cur);
            let ghost before = chain@;
            chain.push(e.child_idx as usize);
            proof {
                lemma_path_step(es, self@.roots.len() as int, cur as int, to_ints(before.reverse()));
                assert(to_ints(chain@.reverse()) =~= seq![es[cur as int].child_idx] + to_ints(
                    before.reverse(),
                ));
            }
            if e.parent == NO_PARENT {
                break;
            }
            cur = e.parent as usize;
        }
        let mut path: Vec<usize> = Vec::new();
        path.push(self.entry(cur).pi as usize);
        let ghost whole = chain@.reverse();
        let mut k: usize = chain.len();
        while k > 0
            invariant
                k <= chain.len(),
                cur < es.len(),
                whole == chain@.reverse(),
                path@.len() == 1 + chain.len() - k,
                path@[0] == es[cur as int].pi,
                forall|j: int| 1 <= j < path@.len() ==> #[trigger] path@[j] == whole[j - 1],
            decreases k,
        {
            k -= 1;
            path.push(chain[k]);
        }
        assert(path@ =~= steps(entry_path(es, i as int)));
        path
    }

    /// Whether an entry stands where a path leads to; the same as comparing the path with
    /// [`NameIndex::abs_path_of`], without making a path.
    pub fn abs_path_eq(&self, e: u32, path: &[usize]) -> (r: bool)
        requires
            self.wf(),
            e < self@.entries.len(),
        ensures
            r == (path@ == steps(entry_path(self@.entries, e as int))),
    {
        let ghost es = self@.entries;
        let ghost whole = entry_path(es, e as int);
        let mut cur: usize = e as usize;
        let mut j: usize = path.len();
        proof {
            self.lemma_shape();
            assert(whole + to_ints(path@.skip(j as int)) =~= whole);
        }
        loop
            invariant
                self.wf(),
                es == self@.entries,
                well_linked(es, self@.roots.len() as int),
                e < es.len(),
                cur < es.len(),
                j <= path.len(),
                whole == entry_path(es, e as int),
                whole == entry_path(es, cur as int) + to_ints(path@.skip(j as int)),
            decreases j,
        {
            let ghost below = to_ints(path@.skip(j as int));
            proof {
                lemma_path_step(es, self@.roots.len() as int, cur as int, below);
                lemma_path_len(es, self@.roots.len() as int, cur as int);
                assert(linked_at(es, self@.roots.len() as int, cur as int));
                assert(steps(whole).len() == whole.len());
            }
            if j == 0 {
                return false;
            }
            j -= 1;
            let ent = self.entry(cur);
            let ghost c = es[cur as int].child_idx;
            proof {
                let depth = es[cur as int].depth;
                assert(whole[depth] == c) by {
                    assert((seq![c] + below)[0] == c);
                }
                if whole.len() == path@.len() {
                    assert(depth == j);
                    assert(steps(whole)[j as int] == c as usize);
                }
            }
            if ent.child_idx as usize != path[j] {
                return false;
            }
            assert(to_ints(path@.skip(j as int)) =~= seq![c] + below);
            if ent.parent == NO_PARENT {
                let r = j == 1 && ent.pi as usize == path[0];
                proof {
                    let tail = to_ints(path@.skip(j as int));
                    assert(whole == seq![es[cur as int].pi] + tail);
                    assert(steps(whole)[0] == es[cur as int].pi as usize);
                    if r {
                        assert(path@ =~= steps(whole)) by {
                            assert forall|k: int| 0 <= k < path@.len() implies path@[k]
                                == steps(whole)[k] by {
                                if k > 0 {
                                    assert(whole[k] == tail[k - 1]);
                                    assert(tail[k - 1] == path@.skip(1)[k - 1]);
                                }
                            }
                        }
                    }
                }
                return r;
            }
            cur = ent.parent as usize;
        }
    }
}

proof fn lemma_path_len(es: Seq<EntryView>, roots: int, i: int)
    requires
        well_linked(es, roots),
        0 <= i < es.len(),
    ensures
        entry_path(es, i).len() == es[i].depth + 1,
    decreases i,
{
    assert(linked_at(es, roots, i));
    match es[i].parent {
        Some(p) => {
            lemma_path_len(es, roots, p);
        },
        None => {},
    }
}


/// A substring searcher of the crate `memchr`.
#[verifier::external_type_specification]
#[verifier::external_body]
pub struct ExFinder<'n>(memchr::memmem::Finder<'n>);

/// What a `Finder` looks for, as `Finder::needle` gives it.
pub uninterp spec fn finder_needle(f: memchr::memmem::Finder<'_>) -> Seq<u8>;

/// Whether the needle stands at position `k` of the haystack.
pub open spec fn occurs_at(h: Seq<u8>, n: Seq<u8>, k: int) -> bool {
    0 <= k && k + n.len() <= h.len() && h.subrange(k, k + n.len()) == n
}

/// Where the needle stands from position `from` on, each time the first place behind the one
/// before, without overlaps.
pub open spec fn occurrences(h: Seq<u8>, n: Seq<u8>, from: int) -> Seq<usize>
    decreases h.len() - from,
{
    if n.len() == 0 || from < 0 || from + n.len() > h.len() {
        Seq::empty()
    } else if occurs_at(h, n, from) {
        seq![from as usize] + occurrences(h, n, from + n.len())
    } else {
        occurrences(h, n, from + 1)
    }
}

/// `Finder::new`: a searcher for the given bytes.
#[verifier::external_body]
fn new_finder<'n>(needle: &'n [u8]) -> (f: memchr::memmem::Finder<'n>)
    ensures
        finder_needle(f) == needle@,
{
    memchr::memmem::Finder::new(needle)
}

/// `Finder::find_iter`: where the needle stands, from left to right, without overlaps. An
/// empty needle is left out.
#[verifier::external_body]
fn find_all(f: &memchr::memmem::Finder<'_>, haystack: &[u8]) -> (r: Vec<usize>)
    requires
        finder_needle(*f).len() > 0,
    ensures
        r@ == occurrences(haystack@, finder_needle(*f), 0),
{
    f.find_iter(haystack).collect()
}

/// How often, without overlaps, the bytes `n` stand in the lower case name of an entry.
pub open spec fn hit_count(e: EntryView, n: Seq<u8>) -> nat {
    occurrences(encode_utf8(str_lowercase(e.name)), n, 0).len()
}

/// The entries from `e0` up to `e1` that hold the bytes `n` in their lower case name, each once.
pub open spec fn plain_hits(entries: Seq<EntryView>, n: Seq<u8>, e0: int, e1: int) -> Seq<u32>
    decreases e1 - e0,
{
    if 0 <= e0 < e1 <= entries.len() {
        if hit_count(entries[e1 - 1], n) > 0 {
            plain_hits(entries, n, e0, e1 - 1).push((e1 - 1) as u32)
        } else {
            plain_hits(entries, n, e0, e1 - 1)
        }
    } else {
        Seq::empty()
    }
}

/// The entries from `e0` up to `e1` whose name a regular expression matches.
pub open spec fn regex_hits(entries: Seq<EntryView>, re: regex::Regex, e0: int, e1: int) -> Seq<u32>
    decreases e1 - e0,
{
    if 0 <= e0 < e1 <= entries.len() {
        if regex_matches(re, entries[e1 - 1].name) {
            regex_hits(entries, re, e0, e1 - 1).push((e1 - 1) as u32)
        } else {
            regex_hits(entries, re, e0, e1 - 1)
        }
    } else {
        Seq::empty()
    }
}

/// Where part number `i` begins when `total` things are split into `parts` parts that are as
/// even as can be, the larger ones first.
pub open spec fn part_start(total: int, parts: int, i: int) -> int {
    i * (total / parts) + if i < total % parts {
        i
    } else {
        total % parts
    }
}

/// Into how many parts `total` things are split: as many as wanted, at least one, and none of
/// them empty.
pub open spec fn part_count(total: int, want: int) -> int {
    if total == 0 {
        0
    } else if want < 1 {
        1
    } else if want > total {
        total
    } else {
        want
    }
}

/// Splits `total` things into parts: ranges that follow one another, as even as can be.
pub fn split_ranges(total: usize, want: usize) -> (r: Vec<(usize, usize)>)
    ensures
        r@.len() == part_count(total as int, want as int),
        forall|i: int|
            0 <= i < r@.len() ==> (#[trigger] r@[i]).0 == part_start(
                total as int,
                r@.len() as int,
                i,
            ) && r@[i].1 == part_start(total as int, r@.len() as int, i + 1),
{
    let mut out: Vec<(usize, usize)> = Vec::new();
    if total == 0 {
        return out;
    }
    let want: usize = if want < 1 {
        1
    } else if want > total {
        total
    } else {
        want
    };
    let per: usize = total / want;
    let rem: usize = total % want;
    let mut at: usize = 0;
    let mut i: usize = 0;
    proof {
        assert(0 * per == 0) by (nonlinear_arith);
    }
    while i < want
        invariant
            0 < want <= total,
            per == total / want,
            rem == total % want,
            i <= want,
            out@.len() == i,
            at == part_start(total as int, want as int, i as int),
            forall|k: int|
                0 <= k < i ==> (#[trigger] out@[k]).0 == part_start(total as int, want as int, k)
                    && out@[k].1 == part_start(total as int, want as int, k + 1),
        decreases want - i,
    {
        proof {
            lemma_part_bounds(total as int, want as int, i as int);
        }
        let len: usize = per + if i < rem {
            1
        } else {
            0
        };
        out.push((at, at + len));
        at = at + len;
        i += 1;
    }
    out
}

proof fn lemma_part_bounds(total: int, parts: int, i: int)
    requires
        0 <= i < parts,
        parts <= total,
    ensures
        part_start(total, parts, i + 1) == part_start(total, parts, i) + total / parts + if i
            < total % parts {
            1int
        } else {
            0int
        },
        0 <= part_start(total, parts, i),
        part_start(total, parts, i + 1) <= total,
        total / parts >= 1,
{
    let per = total / parts;
    let rem = total % parts;
    assert((i + 1) * per == i * per + per) by (nonlinear_arith);
    assert(i * per >= 0) by (nonlinear_arith)
        requires
            i >= 0,
            per >= 0,
    ;
    assert(total == parts * per + rem) by {
        vstd::arithmetic::div_mod::lemma_fundamental_div_mod(total, parts);
    }
    assert((i + 1) * per <= parts * per) by (nonlinear_arith)
        requires
            i + 1 <= parts,
            per >= 0,
    ;
    assert(per >= 1) by (nonlinear_arith)
        requires
            total == parts * per + rem,
            0 <= rem < parts,
            0 < parts <= total,
    ;
}

/// The parts cover everything from the beginning to the end, and none of them is empty.
pub proof fn law_parts_cover(total: int, parts: int, i: int)
    requires
        0 < parts <= total,
        0 <= i < parts,
    ensures
        part_start(total, parts, 0) == 0,
        part_start(total, parts, parts) == total,
        part_start(total, parts, i) < part_start(total, parts, i + 1),
        part_start(total, parts, i + 1) - part_start(total, parts, i) <= total / parts + 1,
{
    lemma_part_bounds(total, parts, i);
    assert(0 * (total / parts) == 0) by (nonlinear_arith);
    vstd::arithmetic::div_mod::lemma_fundamental_div_mod(total, parts);
}

/// What is found in two ranges that follow one another is what is found in both together.
pub proof fn law_ranges_add_up(entries: Seq<EntryView>, n: Seq<u8>, a: int, b: int, c: int)
    requires
        0 <= a <= b <= c <= entries.len(),
    ensures
        plain_hits(entries, n, a, c) == plain_hits(entries, n, a, b) + plain_hits(
            entries,
            n,
            b,
            c,
        ),
    decreases c - b,
{
    if b == c {
        assert(plain_hits(entries, n, a, b) + plain_hits(entries, n, b, c) =~= plain_hits(
            entries,
            n,
            a,
            b,
        ));
    } else {
        law_ranges_add_up(entries, n, a, b, c - 1);
        assert(plain_hits(entries, n, a, c) =~= plain_hits(entries, n, a, b) + plain_hits(
            entries,
            n,
            b,
            c,
        ));
    }
}

proof fn lemma_occurrences(h: Seq<u8>, n: Seq<u8>, from: int)
    requires
        n.len() > 0,
        0 <= from,
    ensures
        occurrences(h, n, from).len() > 0 <==> exists|k: int| from <= k && occurs_at(h, n, k),
    decreases h.len() - from,
{
    if from + n.len() > h.len() {
    } else if occurs_at(h, n, from) {
    } else {
        lemma_occurrences(h, n, from + 1);
        if exists|k: int| from <= k && occurs_at(h, n, k) {
            let k = choose|k: int| from <= k && occurs_at(h, n, k);
            assert(from + 1 <= k && occurs_at(h, n, k));
        }
    }
}

/// A plain search finds just the entries whose lower case name holds the lower case query, each
/// once and in the order of the index.
pub proof fn law_plain_search_is_containment(
    entries: Seq<EntryView>,
    n: Seq<u8>,
    e0: int,
    e1: int,
    i: int,
)
    requires
        0 <= e0 <= e1 <= entries.len(),
        entries.len() <= u32::MAX,
        n.len() > 0,
    ensures
        e0 <= i < e1 ==> (plain_hits(entries, n, e0, e1).contains(i as u32) <==> exists|k: int|
            occurs_at(encode_utf8(str_lowercase(entries[i].name)), n, k)),
        forall|k: int|
            0 <= k < plain_hits(entries, n, e0, e1).len() ==> e0 <= #[trigger] plain_hits(
                entries,
                n,
                e0,
                e1,
            )[k] < e1,
        forall|j: int, k: int|
            0 <= j < k < plain_hits(entries, n, e0, e1).len() ==> #[trigger] plain_hits(
                entries,
                n,
                e0,
                e1,
            )[j] < #[trigger] plain_hits(entries, n, e0, e1)[k],
    decreases e1 - e0,
{
    if e0 < e1 {
        let front = plain_hits(entries, n, e0, e1 - 1);
        let all = plain_hits(entries, n, e0, e1);
        law_plain_search_is_containment(entries, n, e0, e1 - 1, i);
        lemma_occurrences(encode_utf8(str_lowercase(entries[e1 - 1].name)), n, 0);
        if hit_count(entries[e1 - 1], n) > 0 {
            assert(all == front.push((e1 - 1) as u32));
            assert(all[front.len() as int] == (e1 - 1) as u32);
            if e0 <= i < e1 - 1 && front.contains(i as u32) {
                let k = choose|k: int| 0 <= k < front.len() && front[k] == i as u32;
                assert(all[k] == i as u32);
            }
            if e0 <= i < e1 - 1 && all.contains(i as u32) {
                let k = choose|k: int| 0 <= k < all.len() && all[k] == i as u32;
                assert(front[k] == i as u32);
            }
        } else {
            assert(all == front);
        }
    }
}

/// A search with an expression finds just the entries whose name it matches, each once and in
/// the order of the index.
pub proof fn law_regex_search_is_exact(
    entries: Seq<EntryView>,
    re: regex::Regex,
    e0: int,
    e1: int,
    i: int,
)
    requires
        0 <= e0 <= e1 <= entries.len(),
        entries.len() <= u32::MAX,
    ensures
        e0 <= i < e1 ==> (regex_hits(entries, re, e0, e1).contains(i as u32) <==> regex_matches(
            re,
            entries[i].name,
        )),
        forall|k: int|
            0 <= k < regex_hits(entries, re, e0, e1).len() ==> e0 <= #[trigger] regex_hits(
                entries,
                re,
                e0,
                e1,
            )[k] < e1,
        forall|j: int, k: int|
            0 <= j < k < regex_hits(entries, re, e0, e1).len() ==> #[trigger] regex_hits(
                entries,
                re,
                e0,
                e1,
            )[j] < #[trigger] regex_hits(entries, re, e0, e1)[k],
    decreases e1 - e0,
{
    if e0 < e1 {
        let front = regex_hits(entries, re, e0, e1 - 1);
        let all = regex_hits(entries, re, e0, e1);
        law_regex_search_is_exact(entries, re, e0, e1 - 1, i);
        if regex_matches(re, entries[e1 - 1].name) {
            assert(all == front.push((e1 - 1) as u32));
            assert(all[front.len() as int] == (e1 - 1) as u32);
            if e0 <= i < e1 - 1 && front.contains(i as u32) {
                let k = choose|k: int| 0 <= k < front.len() && front[k] == i as u32;
                assert(all[k] == i as u32);
            }
            if e0 <= i < e1 - 1 && all.contains(i as u32) {
                let k = choose|k: int| 0 <= k < all.len() && all[k] == i as u32;
                assert(front[k] == i as u32);
            }
        } else {
            assert(all == front);
        }
    }
}

impl NameIndex {
    /// The entries from `e0` up to `e1` that hold the needle, which is in lower case, in their
    /// lower case name, each once and in the order of the index.
    pub fn find_plain_range(&self, needle_lower: &str, e0: usize, e1: usize) -> (r: Vec<u32>)
        requires
            self.wf(),
            e0 <= e1 <= self@.entries.len(),
            needle_lower@.len() > 0,
        ensures
            r@ == plain_hits(self@.entries, encode_utf8(needle_lower@), e0 as int, e1 as int),
    {
        let ghost n = encode_utf8(needle_lower@);
        let ghost es = self@.entries;
        proof {
            self.lemma_shape();
            vstd::utf8::encode_utf8_decode_utf8(needle_lower@);
        }
        let finder = new_finder(needle_lower.as_bytes());
        let mut out: Vec<u32> = Vec::new();
        let mut i: usize = e0;
        while i < e1
            invariant
                self.wf(),
                es == self@.entries,
                es.len() < u32::MAX,
                e0 <= i <= e1 <= es.len(),
                finder_needle(finder) == n,
                n.len() > 0,
                out@ == plain_hits(es, n, e0 as int, i as int),
            decreases e1 - i,
        {
            let name = self.name_lower(i);
            if find_all(&finder, name.as_bytes()).len() > 0 {
                out.push(i as u32);
            }
            i += 1;
            assert(out@ =~= plain_hits(es, n, e0 as int, i as int));
        }
        out
    }

    /// The entries whose name holds the query, upper and lower case taken for the same, each
    /// once and in the order of the index. An empty query finds nothing.
    pub fn find_plain(&self, needle: &str) -> (r: Vec<u32>)
        requires
            self.wf(),
        ensures
            r@ == if str_lowercase(needle@).len() == 0 {
                Seq::empty()
            } else {
                plain_hits(
                    self@.entries,
                    encode_utf8(str_lowercase(needle@)),
                    0,
                    self@.entries.len() as int,
                )
            },
    {
        let lower = to_lowercase(needle);
        if lower.as_str().is_empty() {
            return Vec::new();
        }
        self.find_plain_range(lower.as_str(), 0, self.len())
    }

    /// The entries from `e0` up to `e1` whose name a regular expression matches.
    pub fn find_regex_range(&self, re: &regex::Regex, e0: usize, e1: usize) -> (r: Vec<u32>)
        requires
            self.wf(),
            e0 <= e1 <= self@.entries.len(),
        ensures
            r@ == regex_hits(self@.entries, *re, e0 as int, e1 as int),
    {
        let ghost es = self@.entries;
        proof {
            self.lemma_shape();
        }
        let mut out: Vec<u32> = Vec::new();
        let mut i: usize = e0;
        while i < e1
            invariant
                self.wf(),
                es == self@.entries,
                es.len() < u32::MAX,
                e0 <= i <= e1 <= es.len(),
                out@ == regex_hits(es, *re, e0 as int, i as int),
            decreases e1 - i,
        {
            if regex_is_match(re, self.name_orig(i)) {
                out.push(i as u32);
            }
            i += 1;
        }
        out
    }

    /// The entries whose name a regular expression matches.
    pub fn find_regex(&self, re: &regex::Regex) -> (r: Vec<u32>)
        requires
            self.wf(),
        ensures
            r@ == regex_hits(self@.entries, *re, 0, self@.entries.len() as int),
    {
        self.find_regex_range(re, 0, self.len())
    }

    /// Whether entry `a` comes before entry `b` in the order of a column, ascending.
    fn key_before(&self, a: u32, b: u32, key: SortKey) -> (r: bool)
        requires
            self.wf(),
            a < self@.entries.len(),
            b < self@.entries.len(),
        ensures
            r == key_less(key, self@.entries[a as int], self@.entries[b as int]),
    {
        let i: usize = a as usize;
        let j: usize = b as usize;
        let ea = self.entry(i);
        let eb = self.entry(j);
        match key {
            SortKey::Name => less_ignore_ascii_case(self.name_orig(i), self.name_orig(j)),
            SortKey::Size => ea.logical_size < eb.logical_size,
            SortKey::Physical => ea.physical_size < eb.physical_size,
            SortKey::Modified => ea.modified_ft < eb.modified_ft,
            SortKey::Created => ea.created_ft < eb.created_ft,
            SortKey::Accessed => ea.accessed_ft < eb.accessed_ft,
            SortKey::Items => (ea.file_count as u64 + ea.folder_count as u64) < (eb.file_count
                as u64 + eb.folder_count as u64),
            SortKey::Files => ea.file_count < eb.file_count,
            SortKey::Folders => ea.folder_count < eb.folder_count,
            SortKey::Attributes => ea.attributes < eb.attributes,
            SortKey::Reparse => ea.reparse_tag < eb.reparse_tag,
            SortKey::Reserved => !ea.is_reserved() && eb.is_reserved(),
            SortKey::Owner => less_ignore_ascii_case(self.owner(i), self.owner(j)),
            SortKey::Path => less_ignore_ascii_case(self.dir_path(i), self.dir_path(j)),
        }
    }

    /// Sorts entries by a column; entries that are equal in it keep their order.
    pub fn sort_order(&self, order: &mut [u32], key: SortKey, dir: SortDir)
        requires
            self.wf(),
            forall|k: int| 0 <= k < old(order)@.len() ==> #[trigger] old(order)@[k]
                < self@.entries.len(),
        ensures
            final(order)@ == stable_sort(
                old(order)@,
                |a: u32, b: u32|
                    entry_before(key, dir, self@.entries[a as int], self@.entries[b as int]),
            ),
    {
        let ghost es = self@.entries;
        let ghost lt = |a: u32, b: u32| entry_before(key, dir, es[a as int], es[b as int]);
        let ghost ok = |a: u32| a < es.len();
        let n: usize = order.len();
        let mut v: Vec<u32> = Vec::new();
        let mut i: usize = 0;
        while i < n
            invariant
                i <= n,
                n == order@.len(),
                v@ == order@.take(i as int),
            decreases n - i,
        {
            v.push(order[i]);
            i += 1;
            assert(order@.take(i as int) =~= order@.take(i - 1).push(order@[i - 1]));
        }
        assert(order@.take(n as int) =~= order@);
        let less = |a: &u32, b: &u32| -> (o: bool)
            requires
                *a < self@.entries.len(),
                *b < self@.entries.len(),
            ensures
                o == entry_before(key, dir, self@.entries[*a as int], self@.entries[*b as int]),
            {
                match dir {
                    SortDir::Asc => self.key_before(*a, *b, key),
                    SortDir::Desc => self.key_before(*b, *a, key),
                }
            };
        proof {
            lemma_entry_order(key, dir, es);
        }
        let sorted = merge_sort(v, &less, Ghost(lt), Ghost(ok));
        proof {
            crate::sorting::law_sort_permutes(v@, lt);
        }
        let mut k: usize = 0;
        while k < n
            invariant
                k <= n,
                n == order@.len(),
                n == sorted@.len(),
                order@.take(k as int) == sorted@.take(k as int),
            decreases n - k,
        {
            order[k] = sorted[k];
            k += 1;
            assert(order@.take(k as int) =~= sorted@.take(k as int));
        }
        assert(order@ =~= order@.take(n as int));
        assert(sorted@ =~= sorted@.take(n as int));
    }
}

/// Every column orders the entries.
pub proof fn lemma_entry_order(key: SortKey, dir: SortDir, es: Seq<EntryView>)
    ensures
        is_order(|a: u32, b: u32| entry_before(key, dir, es[a as int], es[b as int])),
{
    let lt = |a: u32, b: u32| entry_before(key, dir, es[a as int], es[b as int]);
    assert forall|a: u32, b: u32| #[trigger] lt(a, b) implies !lt(b, a) by {
        lemma_key_asymmetric(key, es[a as int], es[b as int]);
        lemma_key_asymmetric(key, es[b as int], es[a as int]);
    }
    assert forall|a: u32, b: u32, c: u32|
        #![trigger lt(a, b), lt(b, c)]
        !lt(a, b) && !lt(b, c) implies !lt(a, c) by {
        lemma_key_transitive(key, es[a as int], es[b as int], es[c as int]);
        lemma_key_transitive(key, es[c as int], es[b as int], es[a as int]);
    }
}

proof fn lemma_text_order(a: Seq<char>, b: Seq<char>, c: Seq<char>)
    ensures
        text_less(a, b) ==> !text_less(b, a),
        !text_less(a, b) && !text_less(b, c) ==> !text_less(a, c),
{
    let x = folded(encode_utf8(a));
    let y = folded(encode_utf8(b));
    let z = folded(encode_utf8(c));
    lemma_lex_asymmetric(x, y);
    lemma_lex_transitive(x, y, z);
}

proof fn lemma_key_asymmetric(key: SortKey, a: EntryView, b: EntryView)
    ensures
        key_less(key, a, b) ==> !key_less(key, b, a),
{
    lemma_text_order(a.name, b.name, b.name);
    lemma_text_order(a.owner, b.owner, b.owner);
    lemma_text_order(shown_dir(a), shown_dir(b), shown_dir(b));
}

proof fn lemma_key_transitive(key: SortKey, a: EntryView, b: EntryView, c: EntryView)
    ensures
        !key_less(key, a, b) && !key_less(key, b, c) ==> !key_less(key, a, c),
{
    lemma_text_order(a.name, b.name, c.name);
    lemma_text_order(a.owner, b.owner, c.owner);
    lemma_text_order(shown_dir(a), shown_dir(b), shown_dir(c));
}

} // verus!
