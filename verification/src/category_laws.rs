//! How files are told apart by what stands behind the last dot of their names.

use vstd::prelude::*;

use crate::categorize::{
    extension_kind, extension_split, kind_of, kind_total, kind_total_below, last_index,
};
use crate::file_groups::{
    extension_folders, extension_groups, extension_key, extension_keys, extension_title,
    extension_tree, extensions_fit, files_below, files_of_children, picked, sub_path, text_before,
};
use crate::grouping::{groups, in_group, is_grouped, law_groups_go_by_key};
use crate::model::{total, totals_fit, NodeView};
use crate::model_laws::law_folder_is_made_of_its_children;
use crate::text::{decimal, lower_ascii, lower_char};
use crate::theme::GROUP_COLOR;

verus! {

proof fn lemma_last_index(s: Seq<char>, c: char)
    ensures
        -1 <= last_index(s, c) < s.len(),
        last_index(s, c) >= 0 ==> s[last_index(s, c)] == c,
        forall|i: int| last_index(s, c) < i < s.len() ==> #[trigger] s[i] != c,
    decreases s.len(),
{
    if s.len() > 0 && s.last() != c {
        lemma_last_index(s.drop_last(), c);
        assert forall|i: int| last_index(s, c) < i < s.len() implies #[trigger] s[i] != c by {
            if i < s.len() - 1 {
                assert(s.drop_last()[i] == s[i]);
            }
        }
    }
}

/// The extension of a name is what stands behind its last dot, and the rest is what stands
/// before it. A name without a dot, or with nothing before or behind its last one, has none.
pub proof fn law_extension_is_behind_the_last_dot(name: Seq<char>, base: Seq<char>, ext: Seq<char>)
    ensures
        extension_split(name) == Some((base, ext)) <==> name == base + seq!['.'] + ext && base.len()
            > 0 && ext.len() > 0 && !ext.contains('.'),
{
    lemma_last_index(name, '.');
    let k = last_index(name, '.');
    if extension_split(name) == Some((base, ext)) {
        assert(name =~= base + seq!['.'] + ext);
        if ext.contains('.') {
            let i = choose|i: int| 0 <= i < ext.len() && ext[i] == '.';
            assert(name[k + 1 + i] == '.');
        }
    }
    if name == base + seq!['.'] + ext && base.len() > 0 && ext.len() > 0 && !ext.contains('.') {
        let n = base.len() as int;
        assert(name[n] == '.');
        if k > n {
            assert(ext[k - n - 1] == '.');
            assert(ext.contains('.'));
        }
        assert(k == n);
        assert(name.take(k) =~= base);
        assert(name.skip(k + 1) =~= ext);
    }
}

/// Names that differ in upper and lower case alone are of one kind.
pub proof fn law_kind_ignores_case(a: Seq<char>, b: Seq<char>)
    requires
        lower_ascii(a) == lower_ascii(b),
    ensures
        kind_of(a) == kind_of(b),
        extension_key(a) == extension_key(b),
{
    lemma_last_index(a, '.');
    lemma_last_index(b, '.');
    assert(a.len() == lower_ascii(a).len() && b.len() == lower_ascii(b).len());
    assert forall|i: int| 0 <= i < a.len() implies (#[trigger] a[i] == '.' <==> b[i] == '.') by {
        assert(lower_ascii(a)[i] == lower_char(a[i]));
        assert(lower_ascii(b)[i] == lower_char(b[i]));
    }
    let k = last_index(a, '.');
    let l = last_index(b, '.');
    if k < l {
        assert(a[l] == '.');
    }
    if l < k {
        assert(b[k] == '.');
    }
    assert(k == l);
    if 0 < k < a.len() - 1 {
        assert(lower_ascii(a.skip(k + 1)) =~= lower_ascii(a).skip(k + 1));
        assert(lower_ascii(b.skip(k + 1)) =~= lower_ascii(b).skip(k + 1));
    }
}

/// The extensions of films, archives, programs, documents and pictures.
pub open spec fn known_extensions() -> Seq<Seq<Seq<char>>> {
    seq![
        seq!["mp4"@, "mkv"@, "avi"@, "mov"@, "wmv"@, "flv"@],
        seq!["zip"@, "rar"@, "7z"@, "tar"@, "gz"@, "xz"@],
        seq!["exe"@, "msi"@, "dll"@, "bat"@, "sh"@, "app"@],
        seq!["doc"@, "docx"@, "pdf"@, "txt"@, "md"@, "xlsx"@, "pptx"@],
        seq!["png"@, "jpg"@, "jpeg"@, "gif"@, "bmp"@, "webp"@, "svg"@],
    ]
}

/// A file is of the kind in whose list its extension stands, upper and lower case taken for the
/// same, and of the last kind where its extension stands in none or it has none.
pub proof fn law_kind_goes_by_the_extension(base: Seq<char>, ext: Seq<char>, kind: int, k: int)
    requires
        base.len() > 0,
        ext.len() > 0,
        !ext.contains('.'),
        0 <= kind < 5,
    ensures
        0 <= k < known_extensions()[kind].len() && lower_ascii(ext) == known_extensions()[kind][k]
            ==> kind_of(base + seq!['.'] + ext) == kind,
        (forall|i: int, j: int|
            0 <= i < 5 && 0 <= j < known_extensions()[i].len() ==> lower_ascii(ext)
                != #[trigger] known_extensions()[i][j]) ==> kind_of(base + seq!['.'] + ext) == 5,
{
    law_extension_is_behind_the_last_dot(base + seq!['.'] + ext, base, ext);
    reveal_strlit("mp4");
    reveal_strlit("mkv");
    reveal_strlit("avi");
    reveal_strlit("mov");
    reveal_strlit("wmv");
    reveal_strlit("flv");
    reveal_strlit("zip");
    reveal_strlit("rar");
    reveal_strlit("7z");
    reveal_strlit("tar");
    reveal_strlit("gz");
    reveal_strlit("xz");
    reveal_strlit("exe");
    reveal_strlit("msi");
    reveal_strlit("dll");
    reveal_strlit("bat");
    reveal_strlit("sh");
    reveal_strlit("app");
    reveal_strlit("doc");
    reveal_strlit("docx");
    reveal_strlit("pdf");
    reveal_strlit("txt");
    reveal_strlit("md");
    reveal_strlit("xlsx");
    reveal_strlit("pptx");
    reveal_strlit("png");
    reveal_strlit("jpg");
    reveal_strlit("jpeg");
    reveal_strlit("gif");
    reveal_strlit("bmp");
    reveal_strlit("webp");
    reveal_strlit("svg");
    let x = lower_ascii(ext);
    if forall|i: int, j: int|
        0 <= i < 5 && 0 <= j < known_extensions()[i].len() ==> lower_ascii(ext)
            != #[trigger] known_extensions()[i][j] {
        assert(known_extensions()[0][0] == "mp4"@);
        assert(known_extensions()[0][1] == "mkv"@);
        assert(known_extensions()[0][2] == "avi"@);
        assert(known_extensions()[0][3] == "mov"@);
        assert(known_extensions()[0][4] == "wmv"@);
        assert(known_extensions()[0][5] == "flv"@);
        assert(known_extensions()[1][0] == "zip"@);
        assert(known_extensions()[1][1] == "rar"@);
        assert(known_extensions()[1][2] == "7z"@);
        assert(known_extensions()[1][3] == "tar"@);
        assert(known_extensions()[1][4] == "gz"@);
        assert(known_extensions()[1][5] == "xz"@);
        assert(known_extensions()[2][0] == "exe"@);
        assert(known_extensions()[2][1] == "msi"@);
        assert(known_extensions()[2][2] == "dll"@);
        assert(known_extensions()[2][3] == "bat"@);
        assert(known_extensions()[2][4] == "sh"@);
        assert(known_extensions()[2][5] == "app"@);
        assert(known_extensions()[3][0] == "doc"@);
        assert(known_extensions()[3][1] == "docx"@);
        assert(known_extensions()[3][2] == "pdf"@);
        assert(known_extensions()[3][3] == "txt"@);
        assert(known_extensions()[3][4] == "md"@);
        assert(known_extensions()[3][5] == "xlsx"@);
        assert(known_extensions()[3][6] == "pptx"@);
        assert(known_extensions()[4][0] == "png"@);
        assert(known_extensions()[4][1] == "jpg"@);
        assert(known_extensions()[4][2] == "jpeg"@);
        assert(known_extensions()[4][3] == "gif"@);
        assert(known_extensions()[4][4] == "bmp"@);
        assert(known_extensions()[4][5] == "webp"@);
        assert(known_extensions()[4][6] == "svg"@);
    }
    if 0 <= k < known_extensions()[kind].len() && x == known_extensions()[kind][k] {
        lemma_table(x, kind, k);
    }
}

proof fn lemma_table(x: Seq<char>, kind: int, k: int)
    requires
        0 <= kind < 5,
        0 <= k < known_extensions()[kind].len(),
        x == known_extensions()[kind][k],
    ensures
        extension_kind(x) == kind,
{
    reveal_strlit("mp4");
    reveal_strlit("mkv");
    reveal_strlit("avi");
    reveal_strlit("mov");
    reveal_strlit("wmv");
    reveal_strlit("flv");
    reveal_strlit("zip");
    reveal_strlit("rar");
    reveal_strlit("7z");
    reveal_strlit("tar");
    reveal_strlit("gz");
    reveal_strlit("xz");
    reveal_strlit("exe");
    reveal_strlit("msi");
    reveal_strlit("dll");
    reveal_strlit("bat");
    reveal_strlit("sh");
    reveal_strlit("app");
    reveal_strlit("doc");
    reveal_strlit("docx");
    reveal_strlit("pdf");
    reveal_strlit("txt");
    reveal_strlit("md");
    reveal_strlit("xlsx");
    reveal_strlit("pptx");
    reveal_strlit("png");
    reveal_strlit("jpg");
    reveal_strlit("jpeg");
    reveal_strlit("gif");
    reveal_strlit("bmp");
    reveal_strlit("webp");
    reveal_strlit("svg");
    if kind == 0 {
        assert(x == "mp4"@ || x == "mkv"@ || x == "avi"@ || x == "mov"@ || x == "wmv"@ || x == "flv"@);
    }
    if kind == 1 {
        assert(x == "zip"@ || x == "rar"@ || x == "7z"@ || x == "tar"@ || x == "gz"@ || x == "xz"@);
    }
    if kind == 2 {
        assert(x == "exe"@ || x == "msi"@ || x == "dll"@ || x == "bat"@ || x == "sh"@ || x == "app"@);
    }
    if kind == 3 {
        assert(x == "doc"@ || x == "docx"@ || x == "pdf"@ || x == "txt"@ || x == "md"@ || x == "xlsx"@ || x == "pptx"@);
    }
    if kind == 4 {
        assert(x == "png"@ || x == "jpg"@ || x == "jpeg"@ || x == "gif"@ || x == "bmp"@ || x == "webp"@ || x == "svg"@);
    }
    assert("mp4"@.len() == 3 && "mp4"@[0] == 'm' && "mp4"@[1] == 'p' && "mp4"@[2] == '4');
    assert("mkv"@.len() == 3 && "mkv"@[0] == 'm' && "mkv"@[1] == 'k' && "mkv"@[2] == 'v');
    assert("avi"@.len() == 3 && "avi"@[0] == 'a' && "avi"@[1] == 'v' && "avi"@[2] == 'i');
    assert("mov"@.len() == 3 && "mov"@[0] == 'm' && "mov"@[1] == 'o' && "mov"@[2] == 'v');
    assert("wmv"@.len() == 3 && "wmv"@[0] == 'w' && "wmv"@[1] == 'm' && "wmv"@[2] == 'v');
    assert("flv"@.len() == 3 && "flv"@[0] == 'f' && "flv"@[1] == 'l' && "flv"@[2] == 'v');
    assert("zip"@.len() == 3 && "zip"@[0] == 'z' && "zip"@[1] == 'i' && "zip"@[2] == 'p');
    assert("rar"@.len() == 3 && "rar"@[0] == 'r' && "rar"@[1] == 'a' && "rar"@[2] == 'r');
    assert("7z"@.len() == 2 && "7z"@[0] == '7' && "7z"@[1] == 'z');
    assert("tar"@.len() == 3 && "tar"@[0] == 't' && "tar"@[1] == 'a' && "tar"@[2] == 'r');
    assert("gz"@.len() == 2 && "gz"@[0] == 'g' && "gz"@[1] == 'z');
    assert("xz"@.len() == 2 && "xz"@[0] == 'x' && "xz"@[1] == 'z');
    assert("exe"@.len() == 3 && "exe"@[0] == 'e' && "exe"@[1] == 'x' && "exe"@[2] == 'e');
    assert("msi"@.len() == 3 && "msi"@[0] == 'm' && "msi"@[1] == 's' && "msi"@[2] == 'i');
    assert("dll"@.len() == 3 && "dll"@[0] == 'd' && "dll"@[1] == 'l' && "dll"@[2] == 'l');
    assert("bat"@.len() == 3 && "bat"@[0] == 'b' && "bat"@[1] == 'a' && "bat"@[2] == 't');
    assert("sh"@.len() == 2 && "sh"@[0] == 's' && "sh"@[1] == 'h');
    assert("app"@.len() == 3 && "app"@[0] == 'a' && "app"@[1] == 'p' && "app"@[2] == 'p');
    assert("doc"@.len() == 3 && "doc"@[0] == 'd' && "doc"@[1] == 'o' && "doc"@[2] == 'c');
    assert("docx"@.len() == 4 && "docx"@[0] == 'd' && "docx"@[1] == 'o' && "docx"@[2] == 'c' && "docx"@[3] == 'x');
    assert("pdf"@.len() == 3 && "pdf"@[0] == 'p' && "pdf"@[1] == 'd' && "pdf"@[2] == 'f');
    assert("txt"@.len() == 3 && "txt"@[0] == 't' && "txt"@[1] == 'x' && "txt"@[2] == 't');
    assert("md"@.len() == 2 && "md"@[0] == 'm' && "md"@[1] == 'd');
    assert("xlsx"@.len() == 4 && "xlsx"@[0] == 'x' && "xlsx"@[1] == 'l' && "xlsx"@[2] == 's' && "xlsx"@[3] == 'x');
    assert("pptx"@.len() == 4 && "pptx"@[0] == 'p' && "pptx"@[1] == 'p' && "pptx"@[2] == 't' && "pptx"@[3] == 'x');
    assert("png"@.len() == 3 && "png"@[0] == 'p' && "png"@[1] == 'n' && "png"@[2] == 'g');
    assert("jpg"@.len() == 3 && "jpg"@[0] == 'j' && "jpg"@[1] == 'p' && "jpg"@[2] == 'g');
    assert("jpeg"@.len() == 4 && "jpeg"@[0] == 'j' && "jpeg"@[1] == 'p' && "jpeg"@[2] == 'e' && "jpeg"@[3] == 'g');
    assert("gif"@.len() == 3 && "gif"@[0] == 'g' && "gif"@[1] == 'i' && "gif"@[2] == 'f');
    assert("bmp"@.len() == 3 && "bmp"@[0] == 'b' && "bmp"@[1] == 'm' && "bmp"@[2] == 'p');
    assert("webp"@.len() == 4 && "webp"@[0] == 'w' && "webp"@[1] == 'e' && "webp"@[2] == 'b' && "webp"@[3] == 'p');
    assert("svg"@.len() == 3 && "svg"@[0] == 's' && "svg"@[1] == 'v' && "svg"@[2] == 'g');
}

spec fn kind_size(kind: int) -> spec_fn(NodeView) -> int {
    |f: NodeView|
        if kind_of(f.name) == kind {
            f.logical_size as int
        } else {
            0
        }
}

proof fn lemma_total_concat(a: Seq<NodeView>, b: Seq<NodeView>, f: spec_fn(NodeView) -> int)
    ensures
        total(a + b, f) == total(a, f) + total(b, f),
    decreases b.len(),
{
    if b.len() == 0 {
        assert(a + b =~= a);
    } else {
        lemma_total_concat(a, b.drop_last(), f);
        assert((a + b).drop_last() =~= a + b.drop_last());
    }
}

proof fn lemma_kind_of_files(n: NodeView, path: Seq<char>, kind: int)
    ensures
        kind_total(n, kind) == total(files_below(n, path, 0), kind_size(kind)),
    decreases n, n.children.len() + 1,
{
    if n.is_file() {
        let s = files_below(n, path, 0);
        assert(s.drop_last() =~= Seq::<NodeView>::empty());
        assert(total(s.drop_last(), kind_size(kind)) == 0);
        assert(s.last() == s[0]);
    } else {
        lemma_kind_of_children(n, n.children.len() as int, path, kind);
    }
}

proof fn lemma_kind_of_children(n: NodeView, k: int, path: Seq<char>, kind: int)
    requires
        k <= n.children.len(),
    ensures
        kind_total_below(n, k, kind) == total(files_of_children(n, k, path, 0), kind_size(kind)),
    decreases n, k,
{
    if 0 < k {
        let c = n.children[k - 1];
        lemma_kind_of_files(c, sub_path(path, c.name), kind);
        lemma_kind_of_children(n, k - 1, path, kind);
        lemma_total_concat(
            files_below(c, sub_path(path, c.name), 0),
            files_of_children(n, k - 1, path, 0),
            kind_size(kind),
        );
    }
}

/// What a kind of files comes to is the sum of the sizes of the files of that kind that are
/// gathered from the tree, and of no others.
pub proof fn law_kind_holds_its_files(n: NodeView, path: Seq<char>, kind: int)
    ensures
        kind_total(n, kind) == total(
            files_below(n, path, 0),
            |f: NodeView|
                if kind_of(f.name) == kind {
                    f.logical_size as int
                } else {
                    0
                },
        ),
{
    lemma_kind_of_files(n, path, kind);
    assert(kind_size(kind) =~= |f: NodeView|
        if kind_of(f.name) == kind {
            f.logical_size as int
        } else {
            0
        });
}

/// Whether a folder is that of an extension: its name says the extension and how many files it
/// holds, and every file in it has that extension.
pub open spec fn is_extension_folder(d: NodeView, ext: Seq<char>, files: Seq<NodeView>) -> bool {
    &&& d.is_folder()
    &&& d.name == extension_title(ext, d.children.len())
    &&& d.children.len() > 0
    &&& forall|k: int|
        0 <= k < d.children.len() ==> extension_key((#[trigger] d.children[k]).name) == ext
            && files.contains(d.children[k])
}

proof fn lemma_groups_of_extensions(files: Seq<NodeView>)
    requires
        files.len() <= usize::MAX,
    ensures
        extension_groups(files) == groups(
            extension_keys(files),
            |a: Seq<char>, b: Seq<char>| text_before(a, b),
        ),
        crate::grouping::well_grouped(
            extension_keys(files),
            extension_groups(files),
            |a: Seq<char>, b: Seq<char>| text_before(a, b),
        ),
        forall|i: usize| i < files.len() ==> #[trigger] is_grouped(extension_groups(files), i),
        forall|g: int, i: usize| #[trigger]
            in_group(extension_groups(files), g, i) ==> i < files.len(),
{
    crate::file_groups::lemma_text_order();
    law_groups_go_by_key(
        extension_keys(files),
        |a: Seq<char>, b: Seq<char>| text_before(a, b),
    );
}

proof fn lemma_folder(files: Seq<NodeView>, g: int)
    requires
        files.len() <= usize::MAX,
        extensions_fit(files),
        0 <= g < extension_groups(files).len(),
    ensures
        ({
            let d = extension_folders(files)[g];
            let members = extension_groups(files)[g];
            &&& members.len() > 0
            &&& is_extension_folder(d, extension_key(files[members[0] as int].name), files)
            &&& d.children.to_multiset() == picked(files, members).to_multiset()
        }),
{
    broadcast use vstd::seq_lib::group_to_multiset_ensures;

    lemma_groups_of_extensions(files);
    let gs = extension_groups(files);
    let members = gs[g];
    let kids = picked(files, members);
    let ext = extension_key(files[members[0] as int].name);
    let d = extension_folders(files)[g];
    assert(totals_fit(picked(files, extension_groups(files)[g])));
    law_folder_is_made_of_its_children(
        extension_title(ext, members.len()),
        GROUP_COLOR,
        kids,
        0,
        0,
        0,
        0x10,
        0,
        false,
        Seq::empty(),
    );
    assert(d.children.len() == kids.len());
    assert forall|k: int| 0 <= k < d.children.len() implies extension_key(
        (#[trigger] d.children[k]).name,
    ) == ext && files.contains(d.children[k]) by {
        let c = d.children[k];
        assert(d.children.contains(c));
        assert(d.children.to_multiset().contains(c));
        assert(kids.to_multiset().contains(c));
        assert(kids.contains(c));
        let j = choose|j: int| 0 <= j < kids.len() && kids[j] == c;
        assert(in_group(gs, g, members[j]));
        assert(files[members[j] as int] == c);
        let keys = extension_keys(files);
        assert(keys[members[j] as int] == keys[members[0] as int]);
        assert(in_group(gs, g, members[0]));
    }
}

/// Putting files together by extension: every file stands in the folder of its extension, every
/// folder holds files of one extension alone, says which and how many, and is not empty.
pub proof fn law_files_stand_under_their_extension(files: Seq<NodeView>, i: usize, c: int)
    requires
        files.len() <= usize::MAX,
        extensions_fit(files),
    ensures
        i < files.len() ==> exists|d: NodeView| #[trigger]
            extension_tree(files).children.contains(d) && is_extension_folder(
                d,
                extension_key(files[i as int].name),
                files,
            ) && d.children.contains(files[i as int]),
        0 <= c < extension_tree(files).children.len() ==> exists|ext: Seq<char>| #[trigger]
            is_extension_folder(extension_tree(files).children[c], ext, files),
{
    broadcast use vstd::seq_lib::group_to_multiset_ensures;

    lemma_groups_of_extensions(files);
    let gs = extension_groups(files);
    let folders = extension_folders(files);
    let tree = extension_tree(files);
    law_folder_is_made_of_its_children(
        "按扩展名分类"@,
        GROUP_COLOR,
        folders,
        0,
        0,
        0,
        0x10,
        0,
        false,
        Seq::empty(),
    );
    if i < files.len() {
        assert(is_grouped(gs, i));
        let g = choose|g: int| in_group(gs, g, i);
        lemma_folder(files, g);
        let members = gs[g];
        let d = folders[g];
        let k = choose|k: int| 0 <= k < members.len() && members[k] == i;
        let kids = picked(files, members);
        assert(kids[k] == files[i as int]);
        assert(kids.contains(files[i as int]));
        assert(kids.to_multiset().contains(files[i as int]));
        assert(d.children.to_multiset().contains(files[i as int]));
        assert(d.children.contains(files[i as int]));
        let m = choose|m: int| 0 <= m < d.children.len() && d.children[m] == files[i as int];
        assert(extension_key(d.children[m].name) == extension_key(files[members[0] as int].name));
        assert(folders.contains(d));
        assert(folders.to_multiset().contains(d));
        assert(tree.children.to_multiset().contains(d));
        assert(tree.children.contains(d));
    }
    if 0 <= c < tree.children.len() {
        let d = tree.children[c];
        assert(tree.children.contains(d));
        assert(tree.children.to_multiset().contains(d));
        assert(folders.to_multiset().contains(d));
        assert(folders.contains(d));
        let g = choose|g: int| 0 <= g < folders.len() && folders[g] == d;
        lemma_folder(files, g);
        assert(is_extension_folder(d, extension_key(files[gs[g][0] as int].name), files));
    }
}

/// The folder of an extension is called by the extension with a dot before it, and the number of
/// files in decimal digits.
pub proof fn law_extension_title_says_the_count(key: Seq<char>, count: nat)
    ensures
        key.len() > 0 && key[0] != '（' ==> extension_title(key, count) == seq!['.'] + key + seq![
            '（',
        ] + decimal(count) + " 个文件）"@,
        key.len() > 0 && key[0] == '（' ==> extension_title(key, count) == key + seq!['（']
            + decimal(count) + " 个文件）"@,
{
    let a = seq!['.'] + key;
    assert(a.push('（') =~= a + seq!['（']);
    assert(key.push('（') =~= key + seq!['（']);
}

} // verus!
