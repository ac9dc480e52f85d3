//! What the lists ask the program to do, and the matching of names in them.

use vstd::prelude::*;
use vstd::string::*;

use crate::index_model::IndexView;
use crate::index_queries::{
    law_plain_search_is_containment, law_regex_search_is_exact, plain_hits, regex_hits,
};
use crate::matcher::{
    compile, compile_ignoring_case, glob, glob_pattern, has_wildcard, regex_ignoring_case,
    regex_is_match, regex_matches, regex_of, wildcard,
};
use crate::model::NodePath;
use crate::search_index::NameIndex;
use crate::text::{char_lowercase, char_to_lowercase, chars_of, owned, str_lowercase};

verus! {

/// What a list asks the program to do.
#[derive(Debug, Clone)]
pub enum TreeAction {
    Nothing,
    Select(NodePath),
    ToggleExpand(NodePath),
    EnterNode(NodePath),
    /// Ask the user, then delete. `index_entry` is the entry of a row that comes from an index.
    RequestDelete {
        abs_path: NodePath,
        name: String,
        full_path: String,
        is_folder: bool,
        index_entry: Option<u32>,
    },
    /// Find out who holds a file or folder open.
    RequestCheckLock { abs_path: NodePath, name: String, full_path: String, is_folder: bool },
    /// Find out who holds any file of a group open.
    RequestCheckLockGroup { abs_path: NodePath, name: String },
    /// Migrate a file or folder.
    RequestCreateSymlink { abs_path: NodePath, name: String, full_path: String, is_folder: bool },
    /// Keep one file of a group and link the others to it.
    RequestCreateSymlinkGroup { abs_path: NodePath, name: String },
    RequestRescan(usize),
    RequestRemovePartition(usize),
    RequestExtensionBreakdown(usize),
    RequestDuplicateFinder(usize),
}

/// What a [`TreeAction`] holds.
#[verifier::ext_equal]
pub enum ActionView {
    Nothing,
    Select(Seq<usize>),
    ToggleExpand(Seq<usize>),
    EnterNode(Seq<usize>),
    RequestDelete {
        abs_path: Seq<usize>,
        name: Seq<char>,
        full_path: Seq<char>,
        is_folder: bool,
        index_entry: Option<u32>,
    },
    RequestCheckLock {
        abs_path: Seq<usize>,
        name: Seq<char>,
        full_path: Seq<char>,
        is_folder: bool,
    },
    RequestCheckLockGroup { abs_path: Seq<usize>, name: Seq<char> },
    RequestCreateSymlink {
        abs_path: Seq<usize>,
        name: Seq<char>,
        full_path: Seq<char>,
        is_folder: bool,
    },
    RequestCreateSymlinkGroup { abs_path: Seq<usize>, name: Seq<char> },
    RequestRescan(usize),
    RequestRemovePartition(usize),
    RequestExtensionBreakdown(usize),
    RequestDuplicateFinder(usize),
}

impl View for TreeAction {
    type V = ActionView;

    open spec fn view(&self) -> ActionView {
        match self {
            TreeAction::Nothing => ActionView::Nothing,
            TreeAction::Select(p) => ActionView::Select(p@),
            TreeAction::ToggleExpand(p) => ActionView::ToggleExpand(p@),
            TreeAction::EnterNode(p) => ActionView::EnterNode(p@),
            TreeAction::RequestDelete { abs_path, name, full_path, is_folder, index_entry } =>
                ActionView::RequestDelete {
                abs_path: abs_path@,
                name: name@,
                full_path: full_path@,
                is_folder: *is_folder,
                index_entry: *index_entry,
            },
            TreeAction::RequestCheckLock { abs_path, name, full_path, is_folder } =>
                ActionView::RequestCheckLock {
                abs_path: abs_path@,
                name: name@,
                full_path: full_path@,
                is_folder: *is_folder,
            },
            TreeAction::RequestCheckLockGroup { abs_path, name } =>
                ActionView::RequestCheckLockGroup { abs_path: abs_path@, name: name@ },
            TreeAction::RequestCreateSymlink { abs_path, name, full_path, is_folder } =>
                ActionView::RequestCreateSymlink {
                abs_path: abs_path@,
                name: name@,
                full_path: full_path@,
                is_folder: *is_folder,
            },
            TreeAction::RequestCreateSymlinkGroup { abs_path, name } =>
                ActionView::RequestCreateSymlinkGroup { abs_path: abs_path@, name: name@ },
            TreeAction::RequestRescan(i) => ActionView::RequestRescan(*i),
            TreeAction::RequestRemovePartition(i) => ActionView::RequestRemovePartition(*i),
            TreeAction::RequestExtensionBreakdown(i) => ActionView::RequestExtensionBreakdown(*i),
            TreeAction::RequestDuplicateFinder(i) => ActionView::RequestDuplicateFinder(*i),
        }
    }
}

/// Whether two characters are the same in lower case.
pub open spec fn same_letter(a: char, b: char) -> bool {
    char_lowercase(a) == char_lowercase(b)
}

fn chars_same(a: &Vec<char>, b: &Vec<char>) -> (r: bool)
    ensures
        r == (a@ == b@),
{
    if a.len() != b.len() {
        return false;
    }
    let mut i: usize = 0;
    while i < a.len()
        invariant
            i <= a.len(),
            a@.len() == b@.len(),
            forall|k: int| 0 <= k < i ==> a@[k] == b@[k],
        decreases a.len() - i,
    {
        if a[i] != b[i] {
            return false;
        }
        i += 1;
    }
    assert(a@ =~= b@);
    true
}

fn chars_eq_ci(a: char, b: char) -> (r: bool)
    ensures
        r == same_letter(a, b),
{
    chars_same(&char_to_lowercase(a), &char_to_lowercase(b))
}

/// Whether a text stands at a place of a name, letter by letter without regard to case.
pub open spec fn stands_at(name: Seq<char>, needle: Seq<char>, k: int) -> bool {
    0 <= k && k + needle.len() <= name.len() && forall|j: int|
        0 <= j < needle.len() ==> #[trigger] same_letter(name[k + j], needle[j])
}

/// Whether a text stands somewhere in a name, letter by letter without regard to case.
pub open spec fn stands_in(name: Seq<char>, needle: Seq<char>) -> bool {
    needle.len() == 0 || exists|k: int| stands_at(name, needle, k)
}

/// Whether a text stands somewhere in a name, letter by letter without regard to case.
pub fn contains_ignore_case(name: &str, needle: &str) -> (r: bool)
    ensures
        r == stands_in(name@, needle@),
{
    let h = chars_of(name);
    let n = chars_of(needle);
    if n.len() == 0 {
        return true;
    }
    if n.len() > h.len() {
        return false;
    }
    let len: usize = h.len();
    let last: usize = len - n.len();
    let mut k: usize = 0;
    loop
        invariant
            k <= last,
            len == h@.len(),
            last + n@.len() == len,
            h@ == name@,
            n@ == needle@,
            n@.len() > 0,
            forall|i: int| 0 <= i < k ==> !stands_at(name@, needle@, i),
        decreases last - k,
    {
        let mut j: usize = 0;
        while j < n.len() && chars_eq_ci(h[k + j], n[j])
            invariant
                j <= n@.len(),
                k <= last,
                len == h@.len(),
                last + n@.len() == len,
                forall|i: int| 0 <= i < j ==> #[trigger] same_letter(h@[k + i], n@[i]),
            ensures
                j < n@.len() ==> !same_letter(h@[k + j], n@[j as int]),
            decreases n@.len() - j,
        {
            j += 1;
        }
        if j == n.len() {
            assert(stands_at(name@, needle@, k as int));
            return true;
        }
        assert(!stands_at(name@, needle@, k as int)) by {
            assert(!same_letter(name@[k + j], needle@[j as int]));
        }
        if k == last {
            return false;
        }
        k += 1;
    }
}

/// A text with every character in lower case.
pub open spec fn folded_letters(s: Seq<char>) -> Seq<char>
    decreases s.len(),
{
    if s.len() == 0 {
        Seq::empty()
    } else {
        folded_letters(s.drop_last()) + char_lowercase(s.last())
    }
}

/// A text with every character in lower case.
pub fn fold_lowercase(s: &str) -> (r: String)
    ensures
        r@ == folded_letters(s@),
{
    let v = chars_of(s);
    let mut r = String::new();
    let mut i: usize = 0;
    assert(r@ =~= folded_letters(v@.take(0)));
    while i < v.len()
        invariant
            i <= v.len(),
            v@ == s@,
            r@ == folded_letters(v@.take(i as int)),
        decreases v.len() - i,
    {
        let low = char_to_lowercase(v[i]);
        let ghost before = r@;
        let mut k: usize = 0;
        assert(before + low@.take(0) =~= before);
        while k < low.len()
            invariant
                k <= low.len(),
                r@ == before + low@.take(k as int),
            decreases low.len() - k,
        {
            r.push(low[k]);
            k += 1;
            assert(low@.take(k as int) =~= low@.take(k - 1).push(low@[k - 1]));
            assert(r@ =~= before + low@.take(k as int));
        }
        assert(low@.take(k as int) =~= low@);
        assert(v@.take(i + 1).drop_last() =~= v@.take(i as int));
        i += 1;
    }
    assert(v@.take(i as int) =~= v@);
    r
}

/// A query of a list, ready to be held against names.
pub enum Matcher {
    Plain(String),
    Regex(regex::Regex),
}

/// What a query finds in an index.
pub open spec fn hits_of(m: Matcher, v: IndexView) -> Seq<u32> {
    match m {
        Matcher::Plain(q) => if str_lowercase(q@).len() == 0 {
            Seq::empty()
        } else {
            plain_hits(
                v.entries,
                vstd::utf8::encode_utf8(str_lowercase(q@)),
                0,
                v.entries.len() as int,
            )
        },
        Matcher::Regex(re) => regex_hits(v.entries, re, 0, v.entries.len() as int),
    }
}

/// The test that names are put to for a query with or without wildcards.
pub open spec fn auto_test(query: Seq<char>) -> spec_fn(Seq<char>) -> bool {
    match (has_wildcard(query), regex_of(glob_pattern(query))) {
        (true, Some(re)) => |name: Seq<char>| regex_matches(re, name),
        _ => |name: Seq<char>| stands_in(name, folded_letters(query)),
    }
}

/// What a query with or without wildcards is made into.
pub open spec fn is_auto(m: Matcher, query: Seq<char>) -> bool {
    match (has_wildcard(query), regex_of(glob_pattern(query))) {
        (true, Some(re)) => m matches Matcher::Regex(x) && x == re,
        _ => m matches Matcher::Plain(q) && q@ == folded_letters(query),
    }
}

impl Matcher {
    /// Whether a name matches.
    pub open spec fn matches(&self, name: Seq<char>) -> bool {
        match self {
            Matcher::Plain(q) => stands_in(name, q@),
            Matcher::Regex(re) => regex_matches(*re, name),
        }
    }

    /// The test that a name is put to.
    pub open spec fn test(&self) -> spec_fn(Seq<char>) -> bool {
        |name: Seq<char>| self.matches(name)
    }

    /// A matcher for a part of a name, or for a regular expression.
    pub fn build(query: &str, use_regex: bool) -> (r: Result<Self, String>)
        ensures
            if use_regex {
                match regex_ignoring_case(query@) {
                    Ok(re) => r matches Ok(Matcher::Regex(x)) && x == re,
                    Err(e) => r matches Err(s) && s@ == "正则表达式有误："@ + e,
                }
            } else {
                r matches Ok(Matcher::Plain(q)) && q@ == folded_letters(query@)
            },
    {
        if use_regex {
            match compile_ignoring_case(query) {
                Ok(re) => Ok(Matcher::Regex(re)),
                Err(e) => {
                    let mut s = owned("正则表达式有误：");
                    s.append(e.as_str());
                    Err(s)
                },
            }
        } else {
            Ok(Matcher::Plain(fold_lowercase(query)))
        }
    }

    /// A matcher for a query that may hold wildcards.
    pub fn build_auto(query: &str) -> (r: Self)
        ensures
            is_auto(r, query@),
    {
        if wildcard(query) {
            let pattern = glob(query);
            match compile(pattern.as_str()) {
                Some(re) => Matcher::Regex(re),
                None => Matcher::Plain(fold_lowercase(query)),
            }
        } else {
            Matcher::Plain(fold_lowercase(query))
        }
    }

    /// Whether a name matches.
    pub fn is_match(&self, name: &str) -> (r: bool)
        ensures
            r == self.matches(name@),
    {
        match self {
            Matcher::Plain(q) => contains_ignore_case(name, q.as_str()),
            Matcher::Regex(re) => regex_is_match(re, name),
        }
    }

    /// The entries of an index that match.
    pub fn find_in_index(&self, index: &NameIndex) -> (r: Vec<u32>)
        requires
            index.wf(),
        ensures
            r@ == hits_of(*self, index@),
    {
        match self {
            Matcher::Plain(q) => index.find_plain(q.as_str()),
            Matcher::Regex(re) => index.find_regex(re),
        }
    }
}

/// Every character of a text has a lower case of one character, which is its own lower case.
pub open spec fn folds_singly(s: Seq<char>) -> bool {
    forall|i: int|
        0 <= i < s.len() ==> char_lowercase(#[trigger] s[i]).len() == 1 && char_lowercase(
            char_lowercase(s[i])[0],
        ) == char_lowercase(s[i])
}

proof fn lemma_folds_singly(s: Seq<char>)
    requires
        folds_singly(s),
    ensures
        folded_letters(s).len() == s.len(),
        forall|i: int| 0 <= i < s.len() ==> same_letter(s[i], #[trigger] folded_letters(s)[i]),
    decreases s.len(),
{
    if s.len() > 0 {
        let front = s.drop_last();
        assert forall|i: int| 0 <= i < front.len() implies char_lowercase(
            #[trigger] front[i],
        ).len() == 1 && char_lowercase(char_lowercase(front[i])[0]) == char_lowercase(front[i]) by {
            assert(front[i] == s[i]);
        }
        lemma_folds_singly(front);
        assert(char_lowercase(s[s.len() - 1]).len() == 1);
        assert forall|i: int| 0 <= i < s.len() implies same_letter(
            s[i],
            #[trigger] folded_letters(s)[i],
        ) by {
            if i < front.len() {
                assert(folded_letters(s)[i] == folded_letters(front)[i]);
                assert(same_letter(front[i], folded_letters(front)[i]));
            }
        }
    }
}

/// A name that holds the query just as it was typed matches, where the lower case of every
/// character of the query is one character.
pub proof fn law_query_is_found_as_typed(m: Matcher, query: Seq<char>, name: Seq<char>, k: int)
    requires
        m matches Matcher::Plain(q) && q@ == folded_letters(query),
        folds_singly(query),
        0 <= k <= k + query.len() <= name.len(),
        name.subrange(k, k + query.len()) == query,
    ensures
        m.matches(name),
{
    lemma_folds_singly(query);
    let q = folded_letters(query);
    assert forall|j: int| 0 <= j < q.len() implies #[trigger] same_letter(name[k + j], q[j]) by {
        assert(name.subrange(k, k + query.len())[j] == query[j]);
        assert(same_letter(query[j], q[j]));
    }
    assert(stands_at(name, q, k));
}

/// What a query finds are entries of the index, each once and in the order of the index.
pub proof fn law_hits_are_entries(m: Matcher, v: IndexView)
    requires
        v.entries.len() <= u32::MAX,
    ensures
        forall|k: int| 0 <= k < hits_of(m, v).len() ==> #[trigger] hits_of(m, v)[k] < v.entries.len(),
        forall|j: int, k: int|
            0 <= j < k < hits_of(m, v).len() ==> #[trigger] hits_of(m, v)[j] < #[trigger] hits_of(
                m,
                v,
            )[k],
{
    match m {
        Matcher::Plain(q) => {
            let low = str_lowercase(q@);
            let n = vstd::utf8::encode_utf8(low);
            if low.len() > 0 {
                vstd::utf8::encode_utf8_decode_utf8(low);
                assert(n.len() > 0);
                law_plain_search_is_containment(v.entries, n, 0, v.entries.len() as int, 0);
            }
        },
        Matcher::Regex(re) => {
            law_regex_search_is_exact(v.entries, re, 0, v.entries.len() as int, 0);
        },
    }
}

} // verus!
