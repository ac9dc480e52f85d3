//! Files by what they are: the extension, and the kind that it stands for.

use vstd::prelude::*;
use vstd::slice::slice_subrange;
use vstd::string::*;
use vstd::utf8::*;

use crate::model::{lemma_children, CategoryStat, Node, NodeView};
use crate::text::{
    chars_of, decode, lemma_encode_concat, lower_ascii, str_eq, string_of, to_lower_ascii,
};
use crate::theme::{Color32, ACCENT_BLUE, FILE_COLOR};
use crate::tree_laws::consistent;

verus! {

/// Where a character stands last in a text, or -1.
pub open spec fn last_index(s: Seq<char>, c: char) -> int
    decreases s.len(),
{
    if s.len() == 0 {
        -1
    } else if s.last() == c {
        s.len() - 1
    } else {
        last_index(s.drop_last(), c)
    }
}

/// What stands before and behind the last dot of a name, if neither is empty.
pub open spec fn extension_split(name: Seq<char>) -> Option<(Seq<char>, Seq<char>)> {
    let k = last_index(name, '.');
    if 0 < k < name.len() - 1 {
        Some((name.take(k), name.skip(k + 1)))
    } else {
        None
    }
}

fn last_dot(v: &Vec<char>) -> (r: Option<usize>)
    ensures
        match r {
            Some(k) => k == last_index(v@, '.') && k < v@.len() && v@[k as int] == '.',
            None => last_index(v@, '.') == -1,
        },
{
    let mut n: usize = v.len();
    assert(v@.take(n as int) =~= v@);
    while n > 0
        invariant
            n <= v@.len(),
            last_index(v@.take(n as int), '.') == last_index(v@, '.'),
        decreases n,
    {
        assert(v@.take(n as int).drop_last() =~= v@.take(n - 1));
        if v[n - 1] == '.' {
            return Some(n - 1);
        }
        n -= 1;
    }
    None
}

/// Splits a name at its last dot. A name without a dot has no extension, nor has one where
/// nothing stands before the dot (`.mp4`) or behind it (`abc.`).
pub fn split_extension(name: &str) -> (r: Option<(&str, &str)>)
    ensures
        match r {
            Some((base, ext)) => extension_split(name@) == Some((base@, ext@)),
            None => extension_split(name@) is None,
        },
{
    let v = chars_of(name);
    let k: usize = match last_dot(&v) {
        Some(k) => k,
        None => return None,
    };
    if k == 0 || k == v.len() - 1 {
        return None;
    }
    let base = string_of(slice_subrange(v.as_slice(), 0, k));
    let bytes = name.as_bytes();
    let len: usize = bytes.len();
    let off: usize = base.as_str().as_bytes().len();
    let ghost front = name@.take(k as int);
    let ghost back = name@.skip(k + 1);
    proof {
        assert(base@ =~= front);
        assert(name@ =~= front + (seq!['.'] + back));
        lemma_encode_concat(front, seq!['.'] + back);
        lemma_encode_concat(seq!['.'], back);
        assert(encode_utf8(seq!['.']) == seq![0x2Eu8]) by {
            assert(is_ascii_chars(seq!['.']));
            is_ascii_chars_encode_utf8(seq!['.']);
            assert(encode_utf8(seq!['.']) =~= seq![0x2Eu8]);
        }
        assert(off < len);
        assert(bytes@.subrange(0, off as int) =~= encode_utf8(front));
        assert(bytes@.subrange(off + 1, bytes@.len() as int) =~= encode_utf8(back));
    }
    let first = decode(slice_subrange(bytes, 0, off), Ghost(front));
    let second = decode(slice_subrange(bytes, off + 1, len), Ghost(back));
    Some((first, second))
}

/// The kind that a lower case extension stands for.
pub open spec fn extension_kind(ext: Seq<char>) -> int {
    if ext == "mp4"@ || ext == "mkv"@ || ext == "avi"@ || ext == "mov"@ || ext == "wmv"@ || ext
        == "flv"@ {
        0
    } else if ext == "zip"@ || ext == "rar"@ || ext == "7z"@ || ext == "tar"@ || ext == "gz"@ || ext
        == "xz"@ {
        1
    } else if ext == "exe"@ || ext == "msi"@ || ext == "dll"@ || ext == "bat"@ || ext == "sh"@
        || ext == "app"@ {
        2
    } else if ext == "doc"@ || ext == "docx"@ || ext == "pdf"@ || ext == "txt"@ || ext == "md"@
        || ext == "xlsx"@ || ext == "pptx"@ {
        3
    } else if ext == "png"@ || ext == "jpg"@ || ext == "jpeg"@ || ext == "gif"@ || ext == "bmp"@
        || ext == "webp"@ || ext == "svg"@ {
        4
    } else {
        5
    }
}

/// The kind of file that a name stands for.
pub open spec fn kind_of(name: Seq<char>) -> int {
    match extension_split(name) {
        Some((_, ext)) => extension_kind(lower_ascii(ext)),
        None => 5,
    }
}

/// The kind of file that a name stands for, by its extension.
pub fn classify(name: &str) -> (r: usize)
    ensures
        r == kind_of(name@),
        r < 6,
{
    let ext = match split_extension(name) {
        Some((_, e)) => to_lower_ascii(e),
        None => return 5,
    };
    let e = ext.as_str();
    if str_eq(e, "mp4") || str_eq(e, "mkv") || str_eq(e, "avi") || str_eq(e, "mov") || str_eq(
        e,
        "wmv",
    ) || str_eq(e, "flv") {
        0
    } else if str_eq(e, "zip") || str_eq(e, "rar") || str_eq(e, "7z") || str_eq(e, "tar") || str_eq(
        e,
        "gz",
    ) || str_eq(e, "xz") {
        1
    } else if str_eq(e, "exe") || str_eq(e, "msi") || str_eq(e, "dll") || str_eq(e, "bat")
        || str_eq(e, "sh") || str_eq(e, "app") {
        2
    } else if str_eq(e, "doc") || str_eq(e, "docx") || str_eq(e, "pdf") || str_eq(e, "txt")
        || str_eq(e, "md") || str_eq(e, "xlsx") || str_eq(e, "pptx") {
        3
    } else if str_eq(e, "png") || str_eq(e, "jpg") || str_eq(e, "jpeg") || str_eq(e, "gif")
        || str_eq(e, "bmp") || str_eq(e, "webp") || str_eq(e, "svg") {
        4
    } else {
        5
    }
}

/// What the files of one kind in a tree add up to.
pub open spec fn kind_total(n: NodeView, kind: int) -> int
    decreases n, n.children.len() + 1,
{
    if n.is_file() {
        if kind_of(n.name) == kind {
            n.logical_size as int
        } else {
            0
        }
    } else {
        kind_total_below(n, n.children.len() as int, kind)
    }
}

/// What the files of one kind below the first `k` children of a node add up to.
pub open spec fn kind_total_below(n: NodeView, k: int, kind: int) -> int
    decreases n, k,
{
    if 0 < k <= n.children.len() {
        kind_total_below(n, k - 1, kind) + kind_total(n.children[k - 1], kind)
    } else {
        0
    }
}

proof fn lemma_kind_total(n: NodeView, kind: int)
    ensures
        kind_total(n, kind) >= 0,
    decreases n, n.children.len() + 1,
{
    if !n.is_file() {
        lemma_kind_total_below(n, n.children.len() as int, kind);
    }
}

proof fn lemma_kind_total_below(n: NodeView, k: int, kind: int)
    ensures
        kind_total_below(n, k, kind) >= 0,
    decreases n, k,
{
    if 0 < k <= n.children.len() {
        lemma_kind_total_below(n, k - 1, kind);
        lemma_kind_total(n.children[k - 1], kind);
    }
}

/// The totals of all kinds fit their fields.
pub open spec fn kinds_fit(n: NodeView) -> bool {
    forall|kind: int| 0 <= kind < 6 ==> #[trigger] kind_total(n, kind) <= u64::MAX
}

/// `before` with what a tree holds added, kind by kind.
spec fn grown_by(before: Seq<u64>, after: Seq<u64>, n: NodeView) -> bool {
    &&& after.len() == 6
    &&& forall|kind: int|
        0 <= kind < 6 ==> #[trigger] after[kind] == before[kind] + kind_total(n, kind)
}

/// Some kind does not fit any more.
spec fn overflows(before: Seq<u64>, n: NodeView) -> bool {
    exists|kind: int|
        0 <= kind < 6 && #[trigger] before[kind] + kind_total(n, kind) > u64::MAX
}

/// A folder of which the first `left` children are still to be counted.
struct Counting<'a> {
    node: &'a Node,
    left: usize,
}

/// What the files of one kind that are still to be counted add up to.
spec fn total_left(todo: Seq<Counting<'_>>, kind: int) -> int
    decreases todo.len(),
{
    if todo.len() == 0 {
        0
    } else {
        kind_total_below(todo.last().node@, todo.last().left as int, kind) + total_left(
            todo.drop_last(),
            kind,
        )
    }
}

/// How many steps it takes to count everything below the first `k` children of a node.
spec fn steps_below(n: NodeView, k: int) -> nat
    decreases n, k,
{
    if 0 < k <= n.children.len() {
        1 + steps_below(n.children[k - 1], n.children[k - 1].children.len() as int) + steps_below(
            n,
            k - 1,
        )
    } else {
        1
    }
}

spec fn steps_left(todo: Seq<Counting<'_>>) -> nat
    decreases todo.len(),
{
    if todo.len() == 0 {
        0
    } else {
        steps_below(todo.last().node@, todo.last().left as int) + steps_left(todo.drop_last())
    }
}

proof fn lemma_one_more(todo: Seq<Counting<'_>>, c: Counting<'_>)
    ensures
        forall|kind: int|
            #[trigger] total_left(todo.push(c), kind) == kind_total_below(
                c.node@,
                c.left as int,
                kind,
            ) + total_left(todo, kind),
        steps_left(todo.push(c)) == steps_below(c.node@, c.left as int) + steps_left(todo),
{
    assert(todo.push(c).drop_last() =~= todo);
}

proof fn lemma_total_left(todo: Seq<Counting<'_>>, kind: int)
    ensures
        total_left(todo, kind) >= 0,
    decreases todo.len(),
{
    if todo.len() > 0 {
        lemma_total_left(todo.drop_last(), kind);
        lemma_kind_total_below(todo.last().node@, todo.last().left as int, kind);
    }
}

/// Counts one file, unless its kind does not fit any more.
fn count_file(n: &Node, totals: &mut Vec<u64>) -> (ok: bool)
    requires
        n@.is_file(),
        old(totals)@.len() == 6,
    ensures
        final(totals)@.len() == 6,
        ok ==> grown_by(old(totals)@, final(totals)@, n@),
        !ok ==> overflows(old(totals)@, n@),
{
    let ghost start = totals@;
    let k: usize = classify(n.name.as_str());
    assert(kind_total(n@, k as int) == n.logical_size);
    if n.logical_size > u64::MAX - totals[k] {
        assert(start[k as int] + kind_total(n@, k as int) > u64::MAX);
        return false;
    }
    let sum: u64 = totals[k] + n.logical_size;
    totals.set(k, sum);
    true
}

fn accumulate(n: &Node, totals: &mut Vec<u64>) -> (ok: bool)
    requires
        old(totals)@.len() == 6,
    ensures
        final(totals)@.len() == 6,
        ok ==> grown_by(old(totals)@, final(totals)@, n@),
        !ok ==> overflows(old(totals)@, n@),
{
    if n.is_file() {
        return count_file(n, totals);
    }
    let ghost start = totals@;
    let mut todo: Vec<Counting<'_>> = Vec::new();
    todo.push(Counting { node: n, left: n.children.len() });
    proof {
        lemma_children(*n);
        lemma_one_more(Seq::empty(), todo@[0]);
        assert(todo@ =~= Seq::empty().push(todo@[0]));
        assert forall|kind: int| 0 <= kind < 6 implies #[trigger] totals@[kind] + total_left(
            todo@,
            kind,
        ) == start[kind] + kind_total(n@, kind) by {
            assert(total_left(Seq::empty().push(todo@[0]), kind) == kind_total(n@, kind));
        }
    }
    while todo.len() > 0
        invariant
            start == old(totals)@,
            start.len() == 6,
            totals@.len() == 6,
            forall|kind: int|
                0 <= kind < 6 ==> #[trigger] totals@[kind] + total_left(todo@, kind) == start[kind]
                    + kind_total(n@, kind),
            forall|i: int|
                0 <= i < todo@.len() ==> (#[trigger] todo@[i]).left <= todo@[i].node.children@.len(),
        decreases steps_left(todo@),
    {
        let ghost before = todo@;
        let ghost counted = totals@;
        let top = match todo.pop() {
            Some(t) => t,
            None => vstd::pervasive::unreached(),
        };
        let ghost rest = todo@;
        proof {
            lemma_one_more(rest, top);
            assert(before =~= rest.push(top));
            lemma_children(*top.node);
        }
        if top.left > 0 {
            let k: usize = top.left - 1;
            let c = &top.node.children[k];
            proof {
                lemma_children(*c);
                assert(top.node@.children[k as int] == c@);
            }
            let again = Counting { node: top.node, left: k };
            todo.push(again);
            let ghost mid = todo@;
            proof {
                lemma_one_more(rest, again);
                assert forall|kind: int| 0 <= kind < 6 implies #[trigger] counted[kind]
                    + kind_total(c@, kind) + total_left(mid, kind) == start[kind] + kind_total(
                    n@,
                    kind,
                ) by {
                    assert(counted[kind] + total_left(rest.push(top), kind) == start[kind]
                        + kind_total(n@, kind));
                    assert(total_left(rest.push(again), kind) == total_left(mid, kind));
                }
            }
            if c.is_file() {
                if !count_file(c, totals) {
                    proof {
                        let kind = choose|kind: int|
                            0 <= kind < 6 && #[trigger] counted[kind] + kind_total(c@, kind)
                                > u64::MAX;
                        lemma_total_left(mid, kind);
                        assert(counted[kind] + kind_total(c@, kind) + total_left(mid, kind)
                            == start[kind] + kind_total(n@, kind));
                        assert(start[kind] + kind_total(n@, kind) > u64::MAX);
                    }
                    return false;
                }
                assert forall|kind: int| 0 <= kind < 6 implies #[trigger] totals@[kind]
                    + total_left(todo@, kind) == start[kind] + kind_total(n@, kind) by {
                    assert(counted[kind] + kind_total(c@, kind) + total_left(mid, kind)
                        == start[kind] + kind_total(n@, kind));
                }
            } else {
                let child = Counting { node: c, left: c.children.len() };
                todo.push(child);
                proof {
                    lemma_one_more(mid, child);
                    assert forall|kind: int| 0 <= kind < 6 implies #[trigger] totals@[kind]
                        + total_left(todo@, kind) == start[kind] + kind_total(n@, kind) by {
                        assert(counted[kind] + kind_total(c@, kind) + total_left(mid, kind)
                            == start[kind] + kind_total(n@, kind));
                        assert(total_left(mid.push(child), kind) == total_left(todo@, kind));
                    }
                }
            }
        } else {
            assert forall|kind: int| 0 <= kind < 6 implies #[trigger] totals@[kind] + total_left(
                todo@,
                kind,
            ) == start[kind] + kind_total(n@, kind) by {
                assert(counted[kind] + total_left(rest.push(top), kind) == start[kind] + kind_total(
                    n@,
                    kind,
                ));
            }
        }
    }
    assert forall|kind: int| 0 <= kind < 6 implies #[trigger] totals@[kind] == start[kind]
        + kind_total(n@, kind) by {
        assert(totals@[kind] + total_left(todo@, kind) == start[kind] + kind_total(n@, kind));
    }
    true
}

fn zeros() -> (r: Vec<u64>)
    ensures
        r@ == seq![0u64, 0u64, 0u64, 0u64, 0u64, 0u64],
{
    let mut r: Vec<u64> = Vec::new();
    r.push(0);
    r.push(0);
    r.push(0);
    r.push(0);
    r.push(0);
    r.push(0);
    assert(r@ =~= seq![0u64, 0u64, 0u64, 0u64, 0u64, 0u64]);
    r
}

/// Whether what the files of a tree add up to fits, kind by kind.
pub fn categories_in_range(root: &Node) -> (r: bool)
    ensures
        r == kinds_fit(root@),
{
    let mut totals = zeros();
    let ghost start = totals@;
    let ok = accumulate(root, &mut totals);
    proof {
        if ok {
            assert forall|kind: int| 0 <= kind < 6 implies #[trigger] kind_total(root@, kind)
                <= u64::MAX by {
                assert(totals@[kind] == start[kind] + kind_total(root@, kind));
            }
        } else {
            let kind = choose|kind: int|
                0 <= kind < 6 && #[trigger] start[kind] + kind_total(root@, kind) > u64::MAX;
            assert(kind_total(root@, kind) > u64::MAX);
        }
    }
    ok
}

/// What a kind of file is called.
pub open spec fn kind_label(kind: int) -> Seq<char> {
    if kind == 0 {
        "视频"@
    } else if kind == 1 {
        "压缩包"@
    } else if kind == 2 {
        "程序/exe"@
    } else if kind == 3 {
        "文档"@
    } else if kind == 4 {
        "图片"@
    } else {
        "其他"@
    }
}

/// The colours of the kinds of file.
pub const KIND_COLORS: [Color32; 6] = [
    0xE055_5BFF,
    0xF5A6_23FF,
    ACCENT_BLUE,
    0x34C7_59FF,
    0x9C6A_DEFF,
    FILE_COLOR,
];

fn label_of(kind: usize) -> (r: &'static str)
    ensures
        r@ == kind_label(kind as int),
{
    if kind == 0 {
        "视频"
    } else if kind == 1 {
        "压缩包"
    } else if kind == 2 {
        "程序/exe"
    } else if kind == 3 {
        "文档"
    } else if kind == 4 {
        "图片"
    } else {
        "其他"
    }
}

/// The entry for one kind of file.
pub open spec fn is_stat(s: CategoryStat, root: NodeView, kind: int) -> bool {
    &&& s.label@ == kind_label(kind)
    &&& s.size == kind_total(root, kind)
    &&& s.color == KIND_COLORS@[kind]
}

/// How much space each kind of file takes in a tree.
pub fn compute_categories(root: &Node) -> (r: Vec<CategoryStat>)
    requires
        kinds_fit(root@),
    ensures
        r@.len() == 6,
        forall|kind: int| 0 <= kind < 6 ==> is_stat(#[trigger] r@[kind], root@, kind),
{
    let mut totals = zeros();
    let ghost start = totals@;
    let ok = accumulate(root, &mut totals);
    proof {
        if !ok {
            let kind = choose|kind: int|
                0 <= kind < 6 && #[trigger] start[kind] + kind_total(root@, kind) > u64::MAX;
            assert(kind_total(root@, kind) > u64::MAX);
            assert(false);
        }
    }
    let mut r: Vec<CategoryStat> = Vec::new();
    let mut k: usize = 0;
    while k < 6
        invariant
            k <= 6,
            r@.len() == k,
            totals@.len() == 6,
            start == seq![0u64, 0u64, 0u64, 0u64, 0u64, 0u64],
            grown_by(start, totals@, root@),
            forall|kind: int| 0 <= kind < k ==> is_stat(#[trigger] r@[kind], root@, kind),
        decreases 6 - k,
    {
        assert(totals@[k as int] == start[k as int] + kind_total(root@, k as int));
        r.push(CategoryStat { label: label_of(k), size: totals[k], color: KIND_COLORS[k] });
        k += 1;
    }
    r
}

/// What all kinds together add up to.
pub open spec fn all_kinds(n: NodeView) -> int {
    kind_total(n, 0) + kind_total(n, 1) + kind_total(n, 2) + kind_total(n, 3) + kind_total(n, 4)
        + kind_total(n, 5)
}

proof fn lemma_kinds_below(n: NodeView, k: int)
    requires
        consistent(n),
        0 <= k <= n.children.len(),
    ensures
        kind_total_below(n, k, 0) + kind_total_below(n, k, 1) + kind_total_below(n, k, 2)
            + kind_total_below(n, k, 3) + kind_total_below(n, k, 4) + kind_total_below(n, k, 5)
            == crate::model::logical_total(n.children.take(k)),
    decreases n, k,
{
    if k > 0 {
        lemma_kinds_below(n, k - 1);
        law_categories_add_up(n.children[k - 1]);
        assert(n.children.take(k).drop_last() =~= n.children.take(k - 1));
    }
}

/// The kinds of a tree whose totals are right add up to its size, and so fit.
pub proof fn law_categories_add_up(n: NodeView)
    requires
        consistent(n),
    ensures
        all_kinds(n) == n.logical_size,
        kinds_fit(n),
    decreases n, n.children.len() + 1,
{
    if !n.is_file() {
        lemma_kinds_below(n, n.children.len() as int);
        assert(n.children.take(n.children.len() as int) =~= n.children);
    }
    lemma_kind_total(n, 0);
    lemma_kind_total(n, 1);
    lemma_kind_total(n, 2);
    lemma_kind_total(n, 3);
    lemma_kind_total(n, 4);
    lemma_kind_total(n, 5);
    assert forall|kind: int| 0 <= kind < 6 implies #[trigger] kind_total(n, kind)
        <= u64::MAX by {
        assert(kind == 0 || kind == 1 || kind == 2 || kind == 3 || kind == 4 || kind == 5);
    }
}

} // verus!
