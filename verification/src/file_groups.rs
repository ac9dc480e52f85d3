//! The files of one or more trees, put together by extension or by size.

use vstd::prelude::*;
use vstd::string::*;
use vstd::utf8::*;

use crate::candidate_laws::{are_candidates, law_candidates_are_the_files};
use crate::categorize::{extension_split, split_extension};
use crate::grouping::{
    by_key, group_by, groups, in_group, is_connected, law_groups_go_by_key, lists_view, positions,
    runs,
};
use crate::model::{
    file_total, folder_view, forest_view, lemma_children, logical_total, ordered_folder_view,
    physical_total, total, totals_fit, totals_in_range, Node, NodeView,
};
use crate::sorting::{insert_sorted, is_order, stable_sort};
use crate::text::{
    bytes_less, chars_of, decimal, lemma_lex_asymmetric, lemma_lex_connected, lemma_lex_transitive,
    lex_less, lower_ascii, owned, push_decimal, str_eq, to_lower_ascii, trim_end, trim_end_char,
};
use crate::theme::GROUP_COLOR;

verus! {

/// The path of something in a folder; at the top, where there is no folder, its name.
pub open spec fn sub_path(path: Seq<char>, name: Seq<char>) -> Seq<char> {
    if path.len() == 0 {
        name
    } else {
        path.push('\\') + name
    }
}

fn join_path(path: &str, name: &str) -> (r: String)
    ensures
        r@ == sub_path(path@, name@),
{
    if chars_of(path).len() == 0 {
        return owned(name);
    }
    let mut r = owned(path);
    r.push('\\');
    r.append(name);
    r
}

/// The files in a tree that are no smaller than `least`, each with its real path, those of the
/// last child first.
pub open spec fn files_below(n: NodeView, path: Seq<char>, least: u64) -> Seq<NodeView>
    decreases n, n.children.len() + 1,
{
    if n.is_file() {
        if n.logical_size >= least {
            seq![NodeView { full_path_override: Some(path), ..n }]
        } else {
            Seq::empty()
        }
    } else {
        files_of_children(n, n.children.len() as int, path, least)
    }
}

/// The files below the first `k` children of a node, those of the last first.
pub open spec fn files_of_children(n: NodeView, k: int, path: Seq<char>, least: u64) -> Seq<
    NodeView,
>
    decreases n, k,
{
    if 0 < k <= n.children.len() {
        files_below(n.children[k - 1], sub_path(path, n.children[k - 1].name), least)
            + files_of_children(n, k - 1, path, least)
    } else {
        Seq::empty()
    }
}

/// A folder whose files are gathered: its first `left` children are still to be looked at.
struct Gathering<'a> {
    node: &'a Node,
    path: String,
    left: usize,
}

/// The files that are still to be gathered, those of the last folder first.
spec fn files_left(todo: Seq<Gathering<'_>>, least: u64) -> Seq<NodeView>
    decreases todo.len(),
{
    if todo.len() == 0 {
        Seq::empty()
    } else {
        let g = todo.last();
        files_of_children(g.node@, g.left as int, g.path@, least) + files_left(
            todo.drop_last(),
            least,
        )
    }
}

/// How many steps it takes to look at everything below the first `k` children of a node.
spec fn steps_below(n: NodeView, k: int) -> nat
    decreases n, k,
{
    if 0 < k <= n.children.len() {
        1 + steps_below(n.children[k - 1], n.children[k - 1].children.len() as int) + steps_below(
            n,
            k - 1,
        )
    } else {
        1
    }
}

spec fn steps_left(todo: Seq<Gathering<'_>>) -> nat
    decreases todo.len(),
{
    if todo.len() == 0 {
        0
    } else {
        steps_below(todo.last().node@, todo.last().left as int) + steps_left(todo.drop_last())
    }
}

fn take_file(n: &Node, path: String, least: u64, out: &mut Vec<Node>)
    requires
        n@.is_file(),
    ensures
        forest_view(final(out)@) == forest_view(old(out)@) + files_below(n@, path@, least),
{
    let ghost start = forest_view(out@);
    if n.logical_size >= least {
        let ghost before = out@;
        let leaf = n.clone().with_full_path(path);
        out.push(leaf);
        assert(forest_view(out@) =~= forest_view(before).push(leaf@));
        assert(start.push(leaf@) =~= start + seq![leaf@]);
    } else {
        assert(start + Seq::<NodeView>::empty() =~= start);
    }
}

fn collect_files(n: &Node, path: &str, least: u64, out: &mut Vec<Node>)
    ensures
        forest_view(final(out)@) == forest_view(old(out)@) + files_below(n@, path@, least),
{
    if n.is_file() {
        take_file(n, owned(path), least, out);
        return;
    }
    let ghost start = forest_view(out@);
    let ghost all = files_below(n@, path@, least);
    let mut todo: Vec<Gathering<'_>> = Vec::new();
    todo.push(Gathering { node: n, path: owned(path), left: n.children.len() });
    proof {
        reveal_with_fuel(files_left, 2);
        lemma_children(*n);
        assert(todo@.drop_last() =~= Seq::empty());
        assert(files_left(todo@, least) =~= all);
    }
    while todo.len() > 0
        invariant
            forest_view(out@) + files_left(todo@, least) == start + all,
            forall|i: int|
                0 <= i < todo@.len() ==> (#[trigger] todo@[i]).left <= todo@[i].node.children@.len(),
        decreases steps_left(todo@),
    {
        let ghost before = todo@;
        let ghost found = forest_view(out@);
        let top = match todo.pop() {
            Some(t) => t,
            None => vstd::pervasive::unreached(),
        };
        let ghost rest = todo@;
        assert(rest =~= before.drop_last());
        assert(top == before[before.len() - 1]);
        proof {
            lemma_children(*top.node);
        }
        if top.left > 0 {
            let k: usize = top.left - 1;
            let c = &top.node.children[k];
            let below = join_path(top.path.as_str(), c.name.as_str());
            proof {
                lemma_children(*c);
                assert(top.node@.children[k as int] == c@);
            }
            let ghost part = files_below(c@, below@, least);
            let ghost after = files_of_children(top.node@, k as int, top.path@, least);
            let again = Gathering { node: top.node, path: top.path, left: k };
            todo.push(again);
            let ghost mid = todo@;
            proof {
                reveal_with_fuel(files_left, 3);
                reveal_with_fuel(steps_left, 3);
                assert(mid.drop_last() =~= rest);
                assert(files_left(mid, least) == after + files_left(rest, least));
                assert(found + ((part + after) + files_left(rest, least)) =~= (found + part) + (
                after + files_left(rest, least)));
                assert((found + part) + (after + files_left(rest, least)) =~= found + (part + (after
                    + files_left(rest, least))));
            }
            if c.is_file() {
                take_file(c, below, least, out);
            } else {
                let child = Gathering { node: c, path: below, left: c.children.len() };
                todo.push(child);
                proof {
                    assert(todo@.drop_last() =~= mid);
                    assert(files_left(todo@, least) == part + files_left(mid, least));
                }
            }
        } else {
            assert(files_left(before, least) =~= files_left(rest, least));
        }
    }
    assert(forest_view(out@) + Seq::<NodeView>::empty() =~= forest_view(out@));
}

/// A tree and the path of its root.
pub struct RootAt<'a> {
    pub node: &'a Node,
    pub path: &'a str,
}

/// The files of several trees, one tree after the other.
pub open spec fn files_of(roots: Seq<RootAt<'_>>, least: u64) -> Seq<NodeView>
    decreases roots.len(),
{
    if roots.len() == 0 {
        Seq::empty()
    } else {
        files_of(roots.drop_last(), least) + files_below(
            roots.last().node@,
            trim_end(roots.last().path@, '\\'),
            least,
        )
    }
}

fn collect_all(roots: &[RootAt<'_>], least: u64) -> (r: Vec<Node>)
    ensures
        forest_view(r@) == files_of(roots@, least),
{
    let mut out: Vec<Node> = Vec::new();
    let mut i: usize = 0;
    assert(forest_view(out@) =~= files_of(roots@.take(0), least));
    while i < roots.len()
        invariant
            i <= roots.len(),
            forest_view(out@) == files_of(roots@.take(i as int), least),
        decreases roots.len() - i,
    {
        let path = trim_end_char(roots[i].path, '\\');
        collect_files(roots[i].node, path.as_str(), least, &mut out);
        assert(roots@.take(i + 1).drop_last() =~= roots@.take(i as int));
        i += 1;
    }
    assert(roots@.take(i as int) =~= roots@);
    out
}

/// What a file is put under: its extension in lower case, or a name for those without one.
pub open spec fn extension_key(name: Seq<char>) -> Seq<char> {
    match extension_split(name) {
        Some((_, ext)) => lower_ascii(ext),
        None => "（无扩展名）"@,
    }
}

fn key_of(name: &str) -> (r: String)
    ensures
        r@ == extension_key(name@),
{
    match split_extension(name) {
        Some((_, ext)) => to_lower_ascii(ext),
        None => owned("（无扩展名）"),
    }
}

/// Dictionary order of texts.
pub open spec fn text_before(a: Seq<char>, b: Seq<char>) -> bool {
    lex_less(encode_utf8(a), encode_utf8(b))
}

pub proof fn lemma_text_order()
    ensures
        is_order(|a: Seq<char>, b: Seq<char>| text_before(a, b)),
        is_connected(|a: Seq<char>, b: Seq<char>| text_before(a, b)),
{
    let lt = |a: Seq<char>, b: Seq<char>| text_before(a, b);
    assert forall|a: Seq<char>, b: Seq<char>| #[trigger] lt(a, b) implies !lt(b, a) by {
        lemma_lex_asymmetric(encode_utf8(a), encode_utf8(b));
    }
    assert forall|a: Seq<char>, b: Seq<char>, c: Seq<char>|
        #![trigger lt(a, b), lt(b, c)]
        !lt(a, b) && !lt(b, c) implies !lt(a, c) by {
        lemma_lex_transitive(encode_utf8(a), encode_utf8(b), encode_utf8(c));
    }
    assert forall|a: Seq<char>, b: Seq<char>|
        #![trigger lt(a, b)]
        !lt(a, b) && !lt(b, a) implies a == b by {
        lemma_lex_connected(encode_utf8(a), encode_utf8(b));
        encode_utf8_decode_utf8(a);
        encode_utf8_decode_utf8(b);
    }
}

/// The extensions of a list of files.
pub open spec fn extension_keys(files: Seq<NodeView>) -> Seq<Seq<char>> {
    Seq::new(files.len(), |i: int| extension_key(files[i].name))
}

/// The files of a list by extension, in the dictionary order of the extensions.
pub open spec fn extension_groups(files: Seq<NodeView>) -> Seq<Seq<usize>> {
    groups(extension_keys(files), |a: Seq<char>, b: Seq<char>| text_before(a, b))
}

/// The files at the given positions.
pub open spec fn picked(files: Seq<NodeView>, members: Seq<usize>) -> Seq<NodeView> {
    Seq::new(members.len(), |i: int| files[members[i] as int])
}

/// What the folder of an extension is called: the extension with a dot before it, and how many
/// files there are.
pub open spec fn extension_title(key: Seq<char>, count: nat) -> Seq<char> {
    (if key.len() > 0 && key[0] == '（' {
        key
    } else {
        seq!['.'] + key
    }).push('（') + decimal(count) + " 个文件）"@
}

/// A folder that stands for no directory.
pub open spec fn group_folder(name: Seq<char>, children: Seq<NodeView>) -> NodeView {
    folder_view(name, GROUP_COLOR, children, 0, 0, 0, 0x10, 0, false, Seq::empty())
}

/// A folder that stands for no directory and keeps its children in the order in which they are
/// given.
pub open spec fn ordered_group(name: Seq<char>, children: Seq<NodeView>) -> NodeView {
    ordered_folder_view(name, GROUP_COLOR, children, 0, 0, 0, 0x10, 0, false, Seq::empty())
}

/// The folder of one extension.
pub open spec fn extension_folder(files: Seq<NodeView>, members: Seq<usize>) -> NodeView {
    group_folder(
        extension_title(extension_key(files[members[0] as int].name), members.len()),
        picked(files, members),
    )
}

/// The folders of all extensions.
pub open spec fn extension_folders(files: Seq<NodeView>) -> Seq<NodeView> {
    Seq::new(
        extension_groups(files).len(),
        |g: int| extension_folder(files, extension_groups(files)[g]),
    )
}

/// The files of a list in one folder per extension.
pub open spec fn extension_tree(files: Seq<NodeView>) -> NodeView {
    group_folder("按扩展名分类"@, extension_folders(files))
}

/// The totals of every extension, and of all together, fit their fields.
pub open spec fn extensions_fit(files: Seq<NodeView>) -> bool {
    &&& forall|g: int|
        0 <= g < extension_groups(files).len() ==> totals_fit(
            picked(files, #[trigger] extension_groups(files)[g]),
        )
    &&& totals_fit(extension_folders(files))
}

pub(crate) fn pick(files: &Vec<Node>, members: &Vec<usize>) -> (r: Vec<Node>)
    requires
        forall|i: int| 0 <= i < members@.len() ==> #[trigger] members@[i] < files@.len(),
    ensures
        forest_view(r@) == picked(forest_view(files@), members@),
{
    let mut r: Vec<Node> = Vec::new();
    let mut i: usize = 0;
    while i < members.len()
        invariant
            i <= members.len(),
            r@.len() == i,
            forall|i: int| 0 <= i < members@.len() ==> #[trigger] members@[i] < files@.len(),
            forall|k: int| 0 <= k < i ==> (#[trigger] r@[k])@ == files@[members@[k] as int]@,
        decreases members.len() - i,
    {
        r.push(files[members[i]].clone());
        i += 1;
    }
    assert(forest_view(r@) =~= picked(forest_view(files@), members@));
    r
}

fn title_of(key: &str, count: usize) -> (r: String)
    ensures
        r@ == extension_title(key@, count as nat),
{
    let v = chars_of(key);
    let mut s = String::new();
    if !(v.len() > 0 && v[0] == '（') {
        s.push('.');
    }
    s.append(key);
    s.push('（');
    push_decimal(&mut s, count as u64);
    s.append(" 个文件）");
    assert(s@ =~= extension_title(key@, count as nat));
    s
}

/// A folder that stands for no directory and keeps its children in the order in which they are
/// given, or nothing where its totals do not fit.
pub(crate) fn try_ordered_group(name: String, children: Vec<Node>) -> (r: Option<Node>)
    ensures
        match r {
            Some(n) => totals_fit(forest_view(children@)) && n@ == ordered_group(
                name@,
                forest_view(children@),
            ),
            None => !totals_fit(forest_view(children@)),
        },
{
    if !totals_in_range(children.as_slice()) {
        return None;
    }
    Some(
        Node::folder_as_given(
            name,
            GROUP_COLOR,
            children,
            0,
            0,
            0,
            0x10,
            0,
            false,
            String::new(),
        ),
    )
}

/// A folder that stands for no directory, or nothing where its totals do not fit.
pub(crate) fn try_group_folder(name: String, children: Vec<Node>) -> (r: Option<Node>)
    ensures
        match r {
            Some(n) => totals_fit(forest_view(children@)) && n@ == group_folder(
                name@,
                forest_view(children@),
            ),
            None => !totals_fit(forest_view(children@)),
        },
{
    if !totals_in_range(children.as_slice()) {
        return None;
    }
    Some(
        Node::new_folder_with_meta(
            name,
            GROUP_COLOR,
            children,
            0,
            0,
            0,
            0x10,
            0,
            false,
            String::new(),
        ),
    )
}

fn group_extensions(files: &Vec<Node>) -> (r: Vec<Vec<usize>>)
    ensures
        lists_view(r@) == extension_groups(forest_view(files@)),
        forall|g: int, i: int|
            0 <= g < r@.len() && 0 <= i < r@[g]@.len() ==> #[trigger] r@[g]@[i] < files@.len(),
        forall|g: int| 0 <= g < r@.len() ==> (#[trigger] r@[g])@.len() > 0,
{
    let mut keys: Vec<String> = Vec::new();
    let ghost vals = extension_keys(forest_view(files@));
    let mut i: usize = 0;
    while i < files.len()
        invariant
            i <= files.len(),
            keys@.len() == i,
            vals == extension_keys(forest_view(files@)),
            forall|k: int| 0 <= k < i ==> (#[trigger] keys@[k])@ == vals[k],
        decreases files.len() - i,
    {
        keys.push(key_of(files[i].name.as_str()));
        i += 1;
    }
    let less = |a: &usize, b: &usize| -> (o: bool)
        requires
            *a < keys@.len() && *b < keys@.len(),
        ensures
            o == text_before(
                extension_keys(forest_view(files@))[*a as int],
                extension_keys(forest_view(files@))[*b as int],
            ),
        { bytes_less(keys[*a].as_str().as_bytes(), keys[*b].as_str().as_bytes()) };
    let same = |a: usize, b: usize| -> (o: bool)
        requires
            a < keys@.len() && b < keys@.len(),
        ensures
            o == (extension_keys(forest_view(files@))[a as int] == extension_keys(
                forest_view(files@),
            )[b as int]),
        { str_eq(keys[a].as_str(), keys[b].as_str()) };
    let ghost lt = |a: Seq<char>, b: Seq<char>| text_before(a, b);
    proof {
        lemma_text_order();
        crate::grouping::law_groups_go_by_key(vals, lt);
    }
    let r = group_by::<String, Seq<char>, _, _>(&keys, &less, &same, Ghost(vals), Ghost(lt));
    proof {
        let gs = groups(vals, lt);
        assert forall|g: int| 0 <= g < r@.len() implies (#[trigger] r@[g])@.len() > 0 by {
            assert(gs[g] == lists_view(r@)[g]);
        }
        assert forall|g: int, i: int|
            0 <= g < r@.len() && 0 <= i < r@[g]@.len() implies #[trigger] r@[g]@[i]
            < files@.len() by {
            assert(gs[g] == lists_view(r@)[g]);
            assert(gs[g][i] == r@[g]@[i]);
            assert(crate::grouping::in_group(gs, g, gs[g][i]));
        }
    }
    r
}

fn tree_of_extensions(files: &Vec<Node>) -> (r: Option<Node>)
    ensures
        match r {
            Some(n) => extensions_fit(forest_view(files@)) && n@ == extension_tree(
                forest_view(files@),
            ),
            None => !extensions_fit(forest_view(files@)),
        },
{
    let ghost fv = forest_view(files@);
    let gs = group_extensions(files);
    let mut folders: Vec<Node> = Vec::new();
    let mut g: usize = 0;
    while g < gs.len()
        invariant
            g <= gs.len(),
            fv == forest_view(files@),
            lists_view(gs@) == extension_groups(fv),
            forall|g: int, i: int|
                0 <= g < gs@.len() && 0 <= i < gs@[g]@.len() ==> #[trigger] gs@[g]@[i]
                    < files@.len(),
            forall|g: int| 0 <= g < gs@.len() ==> (#[trigger] gs@[g])@.len() > 0,
            folders@.len() == g,
            forall|k: int|
                0 <= k < g ==> (#[trigger] folders@[k])@ == extension_folder(
                    fv,
                    extension_groups(fv)[k],
                ),
            forall|k: int|
                0 <= k < g ==> totals_fit(picked(fv, #[trigger] extension_groups(fv)[k])),
        decreases gs.len() - g,
    {
        let members = &gs[g];
        assert(lists_view(gs@)[g as int] == members@);
        assert(gs@[g as int]@[0] < files@.len());
        let key = key_of(files[members[0]].name.as_str());
        let title = title_of(key.as_str(), members.len());
        match try_group_folder(title, pick(files, members)) {
            Some(n) => {
                folders.push(n);
            },
            None => {
                assert(!totals_fit(picked(fv, extension_groups(fv)[g as int])));
                return None;
            },
        }
        g += 1;
    }
    assert(forest_view(folders@) =~= extension_folders(fv));
    try_group_folder(owned("按扩展名分类"), folders)
}

/// The files of several trees together, one folder per extension. Nothing where a total does
/// not fit its field.
pub fn try_build_extension_tree_multi(roots: &[RootAt<'_>]) -> (r: Option<Node>)
    ensures
        match r {
            Some(n) => extensions_fit(files_of(roots@, 0)) && n@ == extension_tree(
                files_of(roots@, 0),
            ),
            None => !extensions_fit(files_of(roots@, 0)),
        },
{
    tree_of_extensions(&collect_all(roots, 0))
}

/// The files of several trees together, one folder per extension.
pub fn build_extension_tree_multi(roots: &[RootAt<'_>]) -> (r: Node)
    requires
        extensions_fit(files_of(roots@, 0)),
    ensures
        r@ == extension_tree(files_of(roots@, 0)),
{
    match try_build_extension_tree_multi(roots) {
        Some(n) => n,
        None => Node::new_file(String::new(), 0, GROUP_COLOR),
    }
}

/// The files of a tree, one folder per extension.
pub fn build_extension_tree(root: &Node, root_path: &str) -> (r: Node)
    requires
        extensions_fit(files_below(root@, trim_end(root_path@, '\\'), 0)),
    ensures
        r@ == extension_tree(files_below(root@, trim_end(root_path@, '\\'), 0)),
{
    let mut files: Vec<Node> = Vec::new();
    let path = trim_end_char(root_path, '\\');
    collect_files(root, path.as_str(), 0, &mut files);
    assert(forest_view(Seq::<Node>::empty()) + files_below(root@, path@, 0) =~= files_below(
        root@,
        path@,
        0,
    ));
    match tree_of_extensions(&files) {
        Some(n) => n,
        None => Node::new_file(String::new(), 0, GROUP_COLOR),
    }
}

/// The sum of `f` over the files at the given positions.
spec fn sum_at(files: Seq<NodeView>, order: Seq<usize>, f: spec_fn(NodeView) -> int) -> int
    decreases order.len(),
{
    if order.len() == 0 {
        0
    } else {
        sum_at(files, order.drop_last(), f) + f(files[order.last() as int])
    }
}

/// The sum of `f` over the files of all groups.
spec fn sum_groups(
    files: Seq<NodeView>,
    gs: Seq<Seq<usize>>,
    f: spec_fn(NodeView) -> int,
) -> int
    decreases gs.len(),
{
    if gs.len() == 0 {
        0
    } else {
        sum_groups(files, gs.drop_last(), f) + sum_at(files, gs.last(), f)
    }
}

proof fn lemma_sum_picked(files: Seq<NodeView>, order: Seq<usize>, f: spec_fn(NodeView) -> int)
    ensures
        total(picked(files, order), f) == sum_at(files, order, f),
    decreases order.len(),
{
    if order.len() > 0 {
        lemma_sum_picked(files, order.drop_last(), f);
        assert(picked(files, order).drop_last() =~= picked(files, order.drop_last()));
    }
}

proof fn lemma_sum_insert(
    files: Seq<NodeView>,
    s: Seq<usize>,
    x: usize,
    lt: spec_fn(usize, usize) -> bool,
    f: spec_fn(NodeView) -> int,
)
    ensures
        sum_at(files, insert_sorted(s, x, lt), f) == sum_at(files, s, f) + f(files[x as int]),
    decreases s.len(),
{
    let r = insert_sorted(s, x, lt);
    if s.len() == 0 {
        reveal_with_fuel(sum_at, 2);
        assert(r.drop_last() =~= s);
    } else if lt(x, s.last()) {
        lemma_sum_insert(files, s.drop_last(), x, lt, f);
        assert(r.drop_last() =~= insert_sorted(s.drop_last(), x, lt));
    } else {
        assert(r.drop_last() =~= s);
    }
}

proof fn lemma_sum_sorted(
    files: Seq<NodeView>,
    s: Seq<usize>,
    lt: spec_fn(usize, usize) -> bool,
    f: spec_fn(NodeView) -> int,
)
    ensures
        sum_at(files, stable_sort(s, lt), f) == sum_at(files, s, f),
    decreases s.len(),
{
    if s.len() > 0 {
        lemma_sum_sorted(files, s.drop_last(), lt, f);
        lemma_sum_insert(files, stable_sort(s.drop_last(), lt), s.last(), lt, f);
    }
}

proof fn lemma_sum_runs<V>(
    files: Seq<NodeView>,
    keys: Seq<V>,
    order: Seq<usize>,
    f: spec_fn(NodeView) -> int,
)
    ensures
        sum_groups(files, runs(keys, order), f) == sum_at(files, order, f),
    decreases order.len(),
{
    if order.len() > 0 {
        lemma_sum_runs(files, keys, order.drop_last(), f);
        let r = runs(keys, order.drop_last());
        let i = order.last();
        if r.len() > 0 && keys[r.last().last() as int] == keys[i as int] {
            let grown = r.drop_last().push(r.last().push(i));
            assert(grown.drop_last() =~= r.drop_last());
            assert(r.last().push(i).drop_last() =~= r.last());
        } else {
            assert(r.push(seq![i]).drop_last() =~= r);
            reveal_with_fuel(sum_at, 2);
            assert(seq![i].drop_last() =~= Seq::<usize>::empty());
        }
    }
}

proof fn lemma_sum_all(files: Seq<NodeView>, n: nat, f: spec_fn(NodeView) -> int)
    requires
        n <= files.len() <= usize::MAX,
    ensures
        sum_at(files, positions(n), f) == total(files.take(n as int), f),
    decreases n,
{
    if n > 0 {
        lemma_sum_all(files, (n - 1) as nat, f);
        assert(positions(n).drop_last() =~= positions((n - 1) as nat));
        assert(files.take(n as int).drop_last() =~= files.take(n - 1));
    }
}

proof fn lemma_groups_total(files: Seq<NodeView>, f: spec_fn(NodeView) -> int)
    requires
        files.len() <= usize::MAX,
    ensures
        sum_groups(files, extension_groups(files), f) == total(files, f),
{
    let keys = extension_keys(files);
    let lt = |a: Seq<char>, b: Seq<char>| text_before(a, b);
    let order = stable_sort(positions(keys.len()), by_key(keys, lt));
    lemma_sum_runs(files, keys, order, f);
    lemma_sum_sorted(files, positions(keys.len()), by_key(keys, lt), f);
    lemma_sum_all(files, files.len(), f);
    assert(files.take(files.len() as int) =~= files);
}

proof fn lemma_folders_total(
    files: Seq<NodeView>,
    gs: Seq<Seq<usize>>,
    folders: Seq<NodeView>,
    f: spec_fn(NodeView) -> int,
)
    requires
        folders.len() == gs.len(),
        forall|g: int| 0 <= g < gs.len() ==> f(#[trigger] folders[g]) == total(picked(files, gs[g]), f),
    ensures
        total(folders, f) == sum_groups(files, gs, f),
    decreases gs.len(),
{
    if gs.len() > 0 {
        lemma_folders_total(files, gs.drop_last(), folders.drop_last(), f);
        lemma_sum_picked(files, gs.last(), f);
        assert(f(folders[gs.len() - 1]) == total(picked(files, gs[gs.len() - 1]), f));
    }
}

proof fn lemma_total_positive(s: Seq<NodeView>, f: spec_fn(NodeView) -> int)
    requires
        forall|n: NodeView| #[trigger] f(n) >= 0,
    ensures
        total(s, f) >= 0,
    decreases s.len(),
{
    if s.len() > 0 {
        lemma_total_positive(s.drop_last(), f);
    }
}

/// Putting files together by extension keeps what they add up to, and their number.
pub proof fn law_extension_tree_keeps_totals(files: Seq<NodeView>)
    requires
        files.len() <= usize::MAX,
        extensions_fit(files),
    ensures
        extension_tree(files).logical_size == logical_total(files),
        extension_tree(files).physical_size == physical_total(files),
        extension_tree(files).file_count == file_total(files),
{
    let gs = extension_groups(files);
    let folders = extension_folders(files);
    let size = |n: NodeView| n.logical_size as int;
    let disk = |n: NodeView| n.physical_size as int;
    let count = |n: NodeView| n.files();
    assert forall|g: int| 0 <= g < gs.len() implies size(#[trigger] folders[g]) == total(
        picked(files, gs[g]),
        size,
    ) && disk(folders[g]) == total(picked(files, gs[g]), disk) && count(folders[g]) == total(
        picked(files, gs[g]),
        count,
    ) by {
        assert(totals_fit(picked(files, extension_groups(files)[g])));
        lemma_total_positive(picked(files, gs[g]), size);
        lemma_total_positive(picked(files, gs[g]), disk);
        lemma_total_positive(picked(files, gs[g]), count);
    }
    lemma_folders_total(files, gs, folders, size);
    lemma_folders_total(files, gs, folders, disk);
    lemma_folders_total(files, gs, folders, count);
    lemma_groups_total(files, size);
    lemma_groups_total(files, disk);
    lemma_groups_total(files, count);
    lemma_total_positive(folders, size);
    lemma_total_positive(folders, disk);
    lemma_total_positive(folders, count);
}

/// Those of a list of groups that have two members or more.
pub open spec fn shared(gs: Seq<Seq<usize>>) -> Seq<Seq<usize>>
    decreases gs.len(),
{
    if gs.len() == 0 {
        Seq::empty()
    } else if gs.last().len() >= 2 {
        shared(gs.drop_last()).push(gs.last())
    } else {
        shared(gs.drop_last())
    }
}

/// The sizes of a list of files.
pub open spec fn sizes_of(files: Seq<NodeView>) -> Seq<u64> {
    Seq::new(files.len(), |i: int| files[i].logical_size)
}

/// Positions of keys put together by key, where a key occurs at least twice.
pub open spec fn shared_groups(keys: Seq<u64>) -> Seq<Seq<usize>> {
    shared(groups(keys, |a: u64, b: u64| a < b))
}

/// Files of the same size.
pub struct SizeGroup {
    pub size: u64,
    /// Where they stand in the list of files.
    pub members: Vec<usize>,
}

/// What a list of such groups holds.
pub open spec fn size_groups_view(v: Seq<SizeGroup>) -> Seq<(u64, Seq<usize>)> {
    Seq::new(v.len(), |i: int| (v[i].size, v[i].members@))
}

/// Groups of positions, each with the key that its members have.
pub open spec fn keyed(keys: Seq<u64>, gs: Seq<Seq<usize>>) -> Seq<(u64, Seq<usize>)> {
    Seq::new(gs.len(), |g: int| (keys[gs[g][0] as int], gs[g]))
}

/// Puts the positions of numbers together by number, where a number occurs at least twice.
pub fn group_numbers(keys: &Vec<u64>) -> (r: Vec<SizeGroup>)
    ensures
        size_groups_view(r@) == keyed(keys@, shared_groups(keys@)),
        forall|g: int, i: int|
            0 <= g < r@.len() && 0 <= i < r@[g].members@.len() ==> #[trigger] r@[g].members@[i]
                < keys@.len(),
{
    let less = |a: &usize, b: &usize| -> (o: bool)
        requires
            *a < keys@.len() && *b < keys@.len(),
        ensures
            o == (keys@[*a as int] < keys@[*b as int]),
        { keys[*a] < keys[*b] };
    let same = |a: usize, b: usize| -> (o: bool)
        requires
            a < keys@.len() && b < keys@.len(),
        ensures
            o == (keys@[a as int] == keys@[b as int]),
        { keys[a] == keys[b] };
    let ghost lt = |a: u64, b: u64| a < b;
    proof {
        assert(is_order(lt));
        assert(is_connected(lt));
        assert(keys@.len() == keys.len());
        law_groups_go_by_key(keys@, lt);
    }
    let gs = group_by::<u64, u64, _, _>(keys, &less, &same, Ghost(keys@), Ghost(lt));
    let ghost all = groups(keys@, lt);
    proof {
        assert forall|g: int| 0 <= g < gs@.len() implies (#[trigger] gs@[g])@.len() > 0 by {
            assert(all[g] == lists_view(gs@)[g]);
        }
        assert forall|g: int, i: int| 0 <= g < gs@.len() && 0 <= i < gs@[g]@.len() implies
            #[trigger] gs@[g]@[i] < keys@.len() by {
            assert(all[g] == lists_view(gs@)[g]);
            assert(all[g][i] == gs@[g]@[i]);
            assert(in_group(all, g, all[g][i]));
        }
    }
    let mut r: Vec<SizeGroup> = Vec::new();
    let mut g: usize = 0;
    assert(size_groups_view(r@) =~= keyed(keys@, shared(all.take(0))));
    while g < gs.len()
        invariant
            g <= gs.len(),
            all == groups(keys@, |a: u64, b: u64| a < b),
            lists_view(gs@) == all,
            forall|g: int| 0 <= g < gs@.len() ==> (#[trigger] gs@[g])@.len() > 0,
            forall|g: int, i: int|
                0 <= g < gs@.len() && 0 <= i < gs@[g]@.len() ==> #[trigger] gs@[g]@[i]
                    < keys@.len(),
            size_groups_view(r@) == keyed(keys@, shared(all.take(g as int))),
            forall|g: int, i: int|
                0 <= g < r@.len() && 0 <= i < r@[g].members@.len() ==> #[trigger] r@[g].members@[i]
                    < keys@.len(),
        decreases gs.len() - g,
    {
        assert(all.take(g + 1).drop_last() =~= all.take(g as int));
        assert(lists_view(gs@)[g as int] == gs@[g as int]@);
        if gs[g].len() >= 2 {
            let ghost before = r@;
            let members = gs[g].clone();
            assert(members@ == gs@[g as int]@);
            assert(gs@[g as int]@[0] < keys@.len());
            let size: u64 = keys[members[0]];
            r.push(SizeGroup { size, members });
            assert forall|h: int, i: int| 0 <= h < r@.len() && 0 <= i < r@[h].members@.len()
                implies #[trigger] r@[h].members@[i] < keys@.len() by {
                if h < before.len() {
                    assert(r@[h] == before[h]);
                    assert(before[h].members@[i] < keys@.len());
                } else {
                    assert(gs@[g as int]@[i] < keys@.len());
                }
            }
            proof {
                let sh = shared(all.take(g as int));
                let next = shared(all.take(g + 1));
                assert(all.take(g + 1).last() == all[g as int]);
                assert(next == sh.push(all[g as int]));
                assert(size_groups_view(before).len() == sh.len());
                assert forall|h: int| 0 <= h < next.len() implies size_groups_view(r@)[h] == #[trigger]
                    keyed(keys@, next)[h] by {
                    if h < sh.len() {
                        assert(size_groups_view(before)[h] == keyed(keys@, sh)[h]);
                        assert(next[h] == sh[h]);
                    }
                }
                assert(size_groups_view(r@) =~= keyed(keys@, next));
            }
        }
        g += 1;
    }
    assert(all.take(g as int) =~= all);
    r
}

/// The files that may have a copy somewhere, and those of the same size together.
pub struct DuplicateCandidates {
    pub nodes: Vec<Node>,
    /// Their real paths.
    pub paths: Vec<String>,
    pub size_groups: Vec<SizeGroup>,
}

impl DuplicateCandidates {
    /// What is collected from a list of files.
    pub open spec fn is_of(self, files: Seq<NodeView>) -> bool {
        &&& forest_view(self.nodes@) == files
        &&& self.paths@.len() == files.len()
        &&& forall|i: int|
            0 <= i < files.len() ==> Some((#[trigger] self.paths@[i])@)
                == files[i].full_path_override
        &&& size_groups_view(self.size_groups@) == keyed(
            sizes_of(files),
            shared_groups(sizes_of(files)),
        )
    }
}

proof fn lemma_files_have_paths(n: NodeView, path: Seq<char>, least: u64)
    ensures
        forall|i: int|
            0 <= i < files_below(n, path, least).len() ==> (#[trigger] files_below(
                n,
                path,
                least,
            )[i]).full_path_override is Some,
    decreases n, n.children.len() + 1,
{
    if !n.is_file() {
        lemma_child_files_have_paths(n, n.children.len() as int, path, least);
    }
}

proof fn lemma_child_files_have_paths(n: NodeView, k: int, path: Seq<char>, least: u64)
    ensures
        forall|i: int|
            0 <= i < files_of_children(n, k, path, least).len() ==> (
            #[trigger] files_of_children(n, k, path, least)[i]).full_path_override is Some,
    decreases n, k,
{
    if 0 < k <= n.children.len() {
        let c = n.children[k - 1];
        lemma_files_have_paths(c, sub_path(path, c.name), least);
        lemma_child_files_have_paths(n, k - 1, path, least);
    }
}

proof fn lemma_all_files_have_paths(roots: Seq<RootAt<'_>>, least: u64)
    ensures
        forall|i: int|
            0 <= i < files_of(roots, least).len() ==> (#[trigger] files_of(
                roots,
                least,
            )[i]).full_path_override is Some,
    decreases roots.len(),
{
    if roots.len() > 0 {
        lemma_all_files_have_paths(roots.drop_last(), least);
        lemma_files_have_paths(roots.last().node@, trim_end(roots.last().path@, '\\'), least);
    }
}

/// The files of several trees that may have a copy somewhere: those that are not empty.
pub fn collect_duplicate_candidates(roots: &[RootAt<'_>]) -> (r: DuplicateCandidates)
    ensures
        r.is_of(files_of(roots@, 1)),
        are_candidates(roots@, r),
{
    let nodes = collect_all(roots, 1);
    let ghost files = forest_view(nodes@);
    proof {
        lemma_all_files_have_paths(roots@, 1);
    }
    let mut paths: Vec<String> = Vec::new();
    let mut sizes: Vec<u64> = Vec::new();
    let mut i: usize = 0;
    while i < nodes.len()
        invariant
            i <= nodes.len(),
            files == forest_view(nodes@),
            forall|k: int|
                0 <= k < files.len() ==> (#[trigger] files[k]).full_path_override is Some,
            paths@.len() == i,
            sizes@.len() == i,
            forall|k: int|
                0 <= k < i ==> Some((#[trigger] paths@[k])@) == files[k].full_path_override,
            forall|k: int| 0 <= k < i ==> #[trigger] sizes@[k] == files[k].logical_size,
        decreases nodes.len() - i,
    {
        assert(files[i as int] == nodes@[i as int]@);
        let path = match &nodes[i].full_path_override {
            Some(p) => p.clone(),
            None => String::new(),
        };
        paths.push(path);
        sizes.push(nodes[i].logical_size);
        i += 1;
    }
    assert(sizes@ =~= sizes_of(files));
    let size_groups = group_numbers(&sizes);
    let r = DuplicateCandidates { nodes, paths, size_groups };
    proof {
        law_candidates_are_the_files(roots@, r);
    }
    r
}

} // verus!
