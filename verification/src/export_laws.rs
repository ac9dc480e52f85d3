//! What a reader of an exported table gets back: every value under its own heading.

use vstd::prelude::*;

use crate::export::{
    csv_body, csv_field, csv_header, csv_read, csv_row, doubled, entry_row, law_fields_read_back,
    needs_quotes, reserved_text, root_row, tag_text, RowTextsView, RowView,
};
use crate::format::attributes_text;
use crate::index_model::{EntryView, RootView};
use crate::text::{decimal, hex_upper};
use crate::text_laws::{
    all_digits, digit_value, hex_read, law_decimal_reads_back, law_hex_reads_back, number_read,
};

verus! {

/// A text cut at every separator that does not stand between quotes. `quoted` says whether the
/// text begins between quotes.
pub open spec fn cut(s: Seq<char>, sep: char, quoted: bool) -> Seq<Seq<char>>
    decreases s.len(),
{
    if s.len() == 0 {
        seq![Seq::empty()]
    } else if s[0] == sep && !quoted {
        seq![Seq::<char>::empty()] + cut(s.skip(1), sep, quoted)
    } else {
        let rest = cut(
            s.skip(1),
            sep,
            if s[0] == '"' {
                !quoted
            } else {
                quoted
            },
        );
        rest.update(0, seq![s[0]] + rest[0])
    }
}

/// Whether a text holds no separator but between quotes, and every quote is closed.
spec fn whole(s: Seq<char>, sep: char, quoted: bool) -> bool
    decreases s.len(),
{
    if s.len() == 0 {
        !quoted
    } else {
        !(s[0] == sep && !quoted) && whole(
            s.skip(1),
            sep,
            if s[0] == '"' {
                !quoted
            } else {
                quoted
            },
        )
    }
}

proof fn lemma_cut_some(s: Seq<char>, sep: char, quoted: bool)
    ensures
        cut(s, sep, quoted).len() > 0,
    decreases s.len(),
{
    if s.len() > 0 {
        lemma_cut_some(
            s.skip(1),
            sep,
            if s[0] == '"' {
                !quoted
            } else {
                quoted
            },
        );
    }
}

proof fn lemma_cut_front(f: Seq<char>, rest: Seq<char>, sep: char, quoted: bool)
    requires
        whole(f, sep, quoted),
        sep != '"',
    ensures
        cut(f.push(sep) + rest, sep, quoted) == seq![f] + cut(rest, sep, false),
    decreases f.len(),
{
    let s = f.push(sep) + rest;
    if f.len() == 0 {
        assert(s.skip(1) =~= rest);
        assert(f =~= Seq::<char>::empty());
    } else {
        let q = if f[0] == '"' {
            !quoted
        } else {
            quoted
        };
        lemma_cut_front(f.skip(1), rest, sep, q);
        assert(s.skip(1) =~= f.skip(1).push(sep) + rest);
        assert(s[0] == f[0]);
        let tail = cut(rest, sep, false);
        let c = seq![f.skip(1)] + tail;
        assert(seq![f[0]] + f.skip(1) =~= f);
        assert(c.update(0, seq![f[0]] + c[0]) =~= seq![f] + tail);
    }
}

proof fn lemma_cut_last(f: Seq<char>, sep: char, quoted: bool)
    requires
        whole(f, sep, quoted),
    ensures
        cut(f, sep, quoted) == seq![f],
    decreases f.len(),
{
    if f.len() == 0 {
        assert(f =~= Seq::<char>::empty());
    } else {
        let q = if f[0] == '"' {
            !quoted
        } else {
            quoted
        };
        lemma_cut_last(f.skip(1), sep, q);
        assert(seq![f[0]] + f.skip(1) =~= f);
        assert(seq![f.skip(1)].update(0, seq![f[0]] + f.skip(1)) =~= seq![f]);
    }
}

/// Fields with a separator behind each.
spec fn listed(fs: Seq<Seq<char>>, sep: char) -> Seq<char>
    decreases fs.len(),
{
    if fs.len() == 0 {
        Seq::empty()
    } else {
        listed(fs.drop_last(), sep) + fs.last().push(sep)
    }
}

proof fn lemma_listed_push(fs: Seq<Seq<char>>, f: Seq<char>, sep: char)
    ensures
        listed(fs.push(f), sep) == listed(fs, sep) + f.push(sep),
{
    assert(fs.push(f).drop_last() =~= fs);
}

proof fn lemma_cut_listed(fs: Seq<Seq<char>>, rest: Seq<char>, sep: char)
    requires
        sep != '"',
        forall|i: int| 0 <= i < fs.len() ==> whole(#[trigger] fs[i], sep, false),
    ensures
        cut(listed(fs, sep) + rest, sep, false) == fs + cut(rest, sep, false),
    decreases fs.len(),
{
    if fs.len() == 0 {
        assert(listed(fs, sep) + rest =~= rest);
        assert(fs + cut(rest, sep, false) =~= cut(rest, sep, false));
    } else {
        let front = fs.drop_last();
        let f = fs.last();
        assert(fs[fs.len() - 1] == f);
        lemma_cut_listed(front, f.push(sep) + rest, sep);
        lemma_cut_front(f, rest, sep, false);
        assert(listed(fs, sep) + rest =~= listed(front, sep) + (f.push(sep) + rest));
        assert(front + (seq![f] + cut(rest, sep, false)) =~= fs + cut(rest, sep, false));
    }
}

/// A text without quotes and separators.
pub open spec fn is_plain(s: Seq<char>) -> bool {
    forall|i: int|
        0 <= i < s.len() ==> #[trigger] s[i] != ',' && s[i] != '"' && s[i] != '\n' && s[i] != '\r'
}

proof fn lemma_plain_whole(s: Seq<char>, sep: char)
    requires
        is_plain(s),
        sep == ',' || sep == '\n',
    ensures
        whole(s, sep, false),
    decreases s.len(),
{
    if s.len() > 0 {
        assert(s[0] != ',');
        assert forall|i: int| 0 <= i < s.skip(1).len() implies #[trigger] s.skip(1)[i] != ','
            && s.skip(1)[i] != '"' && s.skip(1)[i] != '\n' && s.skip(1)[i] != '\r' by {
            assert(s[i + 1] != ',');
        }
        lemma_plain_whole(s.skip(1), sep);
    }
}

proof fn lemma_doubled_whole(b: Seq<char>, sep: char)
    requires
        sep != '"',
    ensures
        whole(doubled(b).push('"'), sep, true),
    decreases b.len(),
{
    let d = doubled(b).push('"');
    if b.len() == 0 {
        assert(d.skip(1) =~= Seq::<char>::empty());
        assert(whole(d.skip(1), sep, false));
    } else {
        lemma_doubled_whole(b.skip(1), sep);
        let rest = doubled(b.skip(1)).push('"');
        if b[0] == '"' {
            assert(d.skip(1).skip(1) =~= rest);
            assert(d.skip(1)[0] == '"');
            assert(whole(d.skip(1), sep, false));
        } else {
            assert(d.skip(1) =~= rest);
        }
    }
}

proof fn lemma_field_whole(s: Seq<char>, sep: char)
    requires
        sep == ',' || sep == '\n',
    ensures
        whole(csv_field(s), sep, false),
{
    let f = csv_field(s);
    if needs_quotes(s) {
        lemma_doubled_whole(csv_body(s), sep);
        assert(f.skip(1) =~= doubled(csv_body(s)).push('"'));
    } else {
        assert forall|i: int| 0 <= i < s.len() implies #[trigger] s[i] != ',' && s[i] != '"' && s[i]
            != '\n' && s[i] != '\r' by {
            assert(s.contains(s[i]));
        }
        assert forall|i: int| 0 <= i < f.len() implies #[trigger] f[i] != ',' && f[i] != '"' && f[i]
            != '\n' && f[i] != '\r' by {
            if f.len() == s.len() {
                assert(f[i] == s[i]);
            } else if i > 0 {
                assert(f[i] == s[i - 1]);
            }
        }
        lemma_plain_whole(f, sep);
    }
}

proof fn lemma_number_whole(n: nat, sep: char)
    requires
        sep == ',' || sep == '\n',
    ensures
        whole(decimal(n), sep, false),
{
    let d = decimal(n);
    law_decimal_reads_back(n);
    assert forall|i: int| 0 <= i < d.len() implies #[trigger] d[i] != ',' && d[i] != '"' && d[i]
        != '\n' && d[i] != '\r' by {
        assert(digit_value(d[i]) >= 0);
    }
    lemma_plain_whole(d, sep);
}

proof fn lemma_whole_joined(a: Seq<char>, b: Seq<char>, sep: char, quoted: bool)
    requires
        whole(a, sep, quoted),
        whole(b, sep, false),
    ensures
        whole(a + b, sep, quoted),
    decreases a.len(),
{
    if a.len() == 0 {
        assert(a + b =~= b);
    } else {
        let q = if a[0] == '"' {
            !quoted
        } else {
            quoted
        };
        lemma_whole_joined(a.skip(1), b, sep, q);
        assert((a + b).skip(1) =~= a.skip(1) + b);
    }
}

proof fn lemma_listed_is_one_line(fs: Seq<Seq<char>>)
    requires
        forall|i: int| 0 <= i < fs.len() ==> whole(#[trigger] fs[i], '\n', false),
    ensures
        whole(listed(fs, ','), '\n', false),
    decreases fs.len(),
{
    if fs.len() > 0 {
        assert(whole(fs[fs.len() - 1], '\n', false));
        lemma_listed_is_one_line(fs.drop_last());
        let comma = seq![','];
        assert(comma.skip(1) =~= Seq::<char>::empty());
        assert(whole(comma.skip(1), '\n', false));
        assert(whole(comma, '\n', false));
        lemma_whole_joined(fs.last(), comma, '\n', false);
        assert(fs.last() + comma =~= fs.last().push(','));
        lemma_whole_joined(listed(fs.drop_last(), ','), fs.last().push(','), '\n', false);
    }
}

/// The names in the first line of a table, behind the mark for UTF-8.
pub open spec fn headings() -> Seq<Seq<char>> {
    cut(csv_header().subrange(1, csv_header().len() - 1), ',', false)
}

/// The fields of a row.
pub open spec fn fields(row: Seq<char>) -> Seq<Seq<char>> {
    cut(row.drop_last(), ',', false)
}

/// Whether the field of a row that stands under a heading is `field`; there is one such heading,
/// and the row has a field for each.
pub open spec fn stands_under(row: Seq<char>, heading: Seq<char>, field: Seq<char>) -> bool {
    &&& fields(row).len() == headings().len()
    &&& headings().contains(heading)
    &&& forall|i: int|
        0 <= i < headings().len() && #[trigger] headings()[i] == heading ==> fields(row)[i] == field
}

/// Whether the field under a heading is a number in decimal digits.
pub open spec fn number_under(row: Seq<char>, heading: Seq<char>, n: int) -> bool {
    exists|f: Seq<char>| #[trigger]
        stands_under(row, heading, f) && all_digits(f) && number_read(f) == n
}

/// Whether a reader takes the field under a heading for a text: the text itself, or with an
/// apostrophe before it where it begins with a sign that starts a formula.
pub open spec fn text_under(row: Seq<char>, heading: Seq<char>, text: Seq<char>) -> bool {
    exists|f: Seq<char>| #[trigger]
        stands_under(row, heading, f) && csv_read(f) == if text.len() > 0 && (text[0] == '='
            || text[0] == '+' || text[0] == '-' || text[0] == '@' || text[0] == '\t' || text[0]
            == '\r') {
            seq!['\''] + text
        } else {
            text
        }
}

/// The names of the columns, in their order.
spec fn names() -> Seq<Seq<char>> {
    Seq::<Seq<char>>::empty()
        .push("路径"@)
        .push("名称"@)
        .push("父占比(%)"@)
        .push("总占比(%)"@)
        .push("逻辑大小"@)
        .push("修改时间"@)
        .push("物理大小"@)
        .push("创建时间"@)
        .push("访问时间"@)
        .push("项目"@)
        .push("文件"@)
        .push("文件夹"@)
        .push("属性"@)
        .push("重解析点"@)
        .push("保留"@)
        .push("所有者"@)
}

proof fn lemma_headings()
    ensures
        headings() == names(),
        names().len() == 16,
{
    reveal_strlit(
        "\u{FEFF}路径,名称,父占比(%),总占比(%),逻辑大小,修改时间,物理大小,创建时间,访问时间,项目,文件,文件夹,属性,重解析点,保留,所有者\n",
    );
    reveal_strlit("路径");
    reveal_strlit("名称");
    reveal_strlit("父占比(%)");
    reveal_strlit("总占比(%)");
    reveal_strlit("逻辑大小");
    reveal_strlit("修改时间");
    reveal_strlit("物理大小");
    reveal_strlit("创建时间");
    reveal_strlit("访问时间");
    reveal_strlit("项目");
    reveal_strlit("文件");
    reveal_strlit("文件夹");
    reveal_strlit("属性");
    reveal_strlit("重解析点");
    reveal_strlit("保留");
    reveal_strlit("所有者");
    let h = csv_header();
    assert(h.len() == 71);
    let line = h.subrange(1, 70);
    let n0 = Seq::<Seq<char>>::empty();
    assert(listed(n0, ',') =~= line.take(0));
    let n1 = n0.push("路径"@);
    lemma_listed_push(n0, "路径"@, ',');
    assert(line.subrange(0, 3) =~= "路径"@.push(','));
    assert(line.take(0) + line.subrange(0, 3) =~= line.take(3));
    let n2 = n1.push("名称"@);
    lemma_listed_push(n1, "名称"@, ',');
    assert(line.subrange(3, 6) =~= "名称"@.push(','));
    assert(line.take(3) + line.subrange(3, 6) =~= line.take(6));
    let n3 = n2.push("父占比(%)"@);
    lemma_listed_push(n2, "父占比(%)"@, ',');
    assert(line.subrange(6, 13) =~= "父占比(%)"@.push(','));
    assert(line.take(6) + line.subrange(6, 13) =~= line.take(13));
    let n4 = n3.push("总占比(%)"@);
    lemma_listed_push(n3, "总占比(%)"@, ',');
    assert(line.subrange(13, 20) =~= "总占比(%)"@.push(','));
    assert(line.take(13) + line.subrange(13, 20) =~= line.take(20));
    let n5 = n4.push("逻辑大小"@);
    lemma_listed_push(n4, "逻辑大小"@, ',');
    assert(line.subrange(20, 25) =~= "逻辑大小"@.push(','));
    assert(line.take(20) + line.subrange(20, 25) =~= line.take(25));
    let n6 = n5.push("修改时间"@);
    lemma_listed_push(n5, "修改时间"@, ',');
    assert(line.subrange(25, 30) =~= "修改时间"@.push(','));
    assert(line.take(25) + line.subrange(25, 30) =~= line.take(30));
    let n7 = n6.push("物理大小"@);
    lemma_listed_push(n6, "物理大小"@, ',');
    assert(line.subrange(30, 35) =~= "物理大小"@.push(','));
    assert(line.take(30) + line.subrange(30, 35) =~= line.take(35));
    let n8 = n7.push("创建时间"@);
    lemma_listed_push(n7, "创建时间"@, ',');
    assert(line.subrange(35, 40) =~= "创建时间"@.push(','));
    assert(line.take(35) + line.subrange(35, 40) =~= line.take(40));
    let n9 = n8.push("访问时间"@);
    lemma_listed_push(n8, "访问时间"@, ',');
    assert(line.subrange(40, 45) =~= "访问时间"@.push(','));
    assert(line.take(40) + line.subrange(40, 45) =~= line.take(45));
    let n10 = n9.push("项目"@);
    lemma_listed_push(n9, "项目"@, ',');
    assert(line.subrange(45, 48) =~= "项目"@.push(','));
    assert(line.take(45) + line.subrange(45, 48) =~= line.take(48));
    let n11 = n10.push("文件"@);
    lemma_listed_push(n10, "文件"@, ',');
    assert(line.subrange(48, 51) =~= "文件"@.push(','));
    assert(line.take(48) + line.subrange(48, 51) =~= line.take(51));
    let n12 = n11.push("文件夹"@);
    lemma_listed_push(n11, "文件夹"@, ',');
    assert(line.subrange(51, 55) =~= "文件夹"@.push(','));
    assert(line.take(51) + line.subrange(51, 55) =~= line.take(55));
    let n13 = n12.push("属性"@);
    lemma_listed_push(n12, "属性"@, ',');
    assert(line.subrange(55, 58) =~= "属性"@.push(','));
    assert(line.take(55) + line.subrange(55, 58) =~= line.take(58));
    let n14 = n13.push("重解析点"@);
    lemma_listed_push(n13, "重解析点"@, ',');
    assert(line.subrange(58, 63) =~= "重解析点"@.push(','));
    assert(line.take(58) + line.subrange(58, 63) =~= line.take(63));
    let n15 = n14.push("保留"@);
    lemma_listed_push(n14, "保留"@, ',');
    assert(line.subrange(63, 66) =~= "保留"@.push(','));
    assert(line.take(63) + line.subrange(63, 66) =~= line.take(66));
    assert(line.subrange(66, 69) =~= "所有者"@);
    assert(line =~= line.take(66) + line.subrange(66, 69));
    assert forall|i: int| 0 <= i < n15.len() implies whole(#[trigger] n15[i], ',', false) by {
        lemma_name_plain(i);
        assert(n15[i] == names()[i]);
        lemma_plain_whole(n15[i], ',');
    }
    lemma_name_plain(15);
    lemma_plain_whole("所有者"@, ',');
    lemma_cut_listed(n15, "所有者"@, ',');
    lemma_cut_last("所有者"@, ',', false);
    assert(n15 + seq!["所有者"@] =~= names());
}

proof fn lemma_name_plain(i: int)
    requires
        0 <= i < 16,
    ensures
        is_plain(names()[i]),
        names()[i].len() > 0,
{
    reveal_strlit("路径");
    reveal_strlit("名称");
    reveal_strlit("父占比(%)");
    reveal_strlit("总占比(%)");
    reveal_strlit("逻辑大小");
    reveal_strlit("修改时间");
    reveal_strlit("物理大小");
    reveal_strlit("创建时间");
    reveal_strlit("访问时间");
    reveal_strlit("项目");
    reveal_strlit("文件");
    reveal_strlit("文件夹");
    reveal_strlit("属性");
    reveal_strlit("重解析点");
    reveal_strlit("保留");
    reveal_strlit("所有者");
}

/// No two columns have the same name.
proof fn lemma_names_differ(i: int, j: int)
    requires
        0 <= i < 16,
        0 <= j < 16,
        names()[i] == names()[j],
    ensures
        i == j,
{
    reveal_strlit("路径");
    reveal_strlit("名称");
    reveal_strlit("父占比(%)");
    reveal_strlit("总占比(%)");
    reveal_strlit("逻辑大小");
    reveal_strlit("修改时间");
    reveal_strlit("物理大小");
    reveal_strlit("创建时间");
    reveal_strlit("访问时间");
    reveal_strlit("项目");
    reveal_strlit("文件");
    reveal_strlit("文件夹");
    reveal_strlit("属性");
    reveal_strlit("重解析点");
    reveal_strlit("保留");
    reveal_strlit("所有者");
    let (a, b) = (names()[i], names()[j]);
    assert(a[0] == b[0] && a.len() == b.len());
}

proof fn lemma_stands_under(row: Seq<char>, fs: Seq<Seq<char>>, i: int)
    requires
        fields(row) == fs,
        fs.len() == 16,
        0 <= i < 16,
    ensures
        stands_under(row, names()[i], fs[i]),
{
    lemma_headings();
    assert(headings()[i] == names()[i]);
    assert(headings().contains(names()[i]));
    assert forall|j: int| 0 <= j < headings().len() && #[trigger] headings()[j]
        == names()[i] implies fields(row)[j] == fs[i] by {
        lemma_names_differ(i, j);
    }
}

proof fn lemma_text_under(row: Seq<char>, fs: Seq<Seq<char>>, i: int, text: Seq<char>)
    requires
        fields(row) == fs,
        fs.len() == 16,
        0 <= i < 16,
        fs[i] == csv_field(text),
    ensures
        text_under(row, names()[i], text),
{
    lemma_stands_under(row, fs, i);
    law_fields_read_back(text);
    assert(stands_under(row, names()[i], fs[i]));
}

proof fn lemma_number_under(row: Seq<char>, fs: Seq<Seq<char>>, i: int, n: nat)
    requires
        fields(row) == fs,
        fs.len() == 16,
        0 <= i < 16,
        fs[i] == decimal(n),
    ensures
        number_under(row, names()[i], n as int),
{
    lemma_stands_under(row, fs, i);
    law_decimal_reads_back(n);
    assert(stands_under(row, names()[i], fs[i]));
}

/// The fields of a row in their order.
spec fn row_fields(r: RowView, t: RowTextsView) -> Seq<Seq<char>> {
    Seq::<Seq<char>>::empty()
        .push(csv_field(r.path))
        .push(csv_field(r.name))
        .push(t.parent_pct)
        .push(t.total_pct)
        .push(decimal(r.logical as nat))
        .push(csv_field(t.modified))
        .push(decimal(r.physical as nat))
        .push(csv_field(t.created))
        .push(csv_field(t.accessed))
        .push(decimal(r.items as nat))
        .push(decimal(r.files as nat))
        .push(decimal(r.folders as nat))
        .push(csv_field(attributes_text(r.attributes)))
        .push(csv_field(tag_text(r.reparse_tag)))
        .push(csv_field(reserved_text(r.is_reserved)))
        .push(csv_field(r.owner))
}

proof fn lemma_row_fields(r: RowView, t: RowTextsView)
    requires
        is_plain(t.parent_pct),
        is_plain(t.total_pct),
    ensures
        fields(csv_row(r, t)) == row_fields(r, t),
        row_fields(r, t).len() == 16,
        cut(csv_row(r, t), '\n', false) == seq![csv_row(r, t).drop_last(), Seq::<char>::empty()],
{
    let fs = row_fields(r, t);
    assert forall|i: int, sep: char| 0 <= i < 16 && (sep == ',' || sep == '\n') implies
        #[trigger] whole(fs[i], sep, false) by {
        if i == 0 {
            lemma_field_whole(r.path, sep);
        } else if i == 1 {
            lemma_field_whole(r.name, sep);
        } else if i == 2 {
            lemma_plain_whole(t.parent_pct, sep);
        } else if i == 3 {
            lemma_plain_whole(t.total_pct, sep);
        } else if i == 4 {
            lemma_number_whole(r.logical as nat, sep);
        } else if i == 5 {
            lemma_field_whole(t.modified, sep);
        } else if i == 6 {
            lemma_number_whole(r.physical as nat, sep);
        } else if i == 7 {
            lemma_field_whole(t.created, sep);
        } else if i == 8 {
            lemma_field_whole(t.accessed, sep);
        } else if i == 9 {
            lemma_number_whole(r.items as nat, sep);
        } else if i == 10 {
            lemma_number_whole(r.files as nat, sep);
        } else if i == 11 {
            lemma_number_whole(r.folders as nat, sep);
        } else if i == 12 {
            lemma_field_whole(attributes_text(r.attributes), sep);
        } else if i == 13 {
            lemma_field_whole(tag_text(r.reparse_tag), sep);
        } else if i == 14 {
            lemma_field_whole(reserved_text(r.is_reserved), sep);
        } else if i == 15 {
            lemma_field_whole(r.owner, sep);
        }
    }
    let f0 = Seq::<Seq<char>>::empty();
    assert(listed(f0, ',') =~= Seq::<char>::empty());
    let f1 = f0.push(csv_field(r.path));
    lemma_listed_push(f0, csv_field(r.path), ',');
    assert(listed(f1, ',') =~= csv_field(r.path).push(','));
    let f2 = f1.push(csv_field(r.name));
    lemma_listed_push(f1, csv_field(r.name), ',');
    let f3 = f2.push(t.parent_pct);
    lemma_listed_push(f2, t.parent_pct, ',');
    let f4 = f3.push(t.total_pct);
    lemma_listed_push(f3, t.total_pct, ',');
    let f5 = f4.push(decimal(r.logical as nat));
    lemma_listed_push(f4, decimal(r.logical as nat), ',');
    let f6 = f5.push(csv_field(t.modified));
    lemma_listed_push(f5, csv_field(t.modified), ',');
    let f7 = f6.push(decimal(r.physical as nat));
    lemma_listed_push(f6, decimal(r.physical as nat), ',');
    let f8 = f7.push(csv_field(t.created));
    lemma_listed_push(f7, csv_field(t.created), ',');
    let f9 = f8.push(csv_field(t.accessed));
    lemma_listed_push(f8, csv_field(t.accessed), ',');
    let f10 = f9.push(decimal(r.items as nat));
    lemma_listed_push(f9, decimal(r.items as nat), ',');
    let f11 = f10.push(decimal(r.files as nat));
    lemma_listed_push(f10, decimal(r.files as nat), ',');
    let f12 = f11.push(decimal(r.folders as nat));
    lemma_listed_push(f11, decimal(r.folders as nat), ',');
    let f13 = f12.push(csv_field(attributes_text(r.attributes)));
    lemma_listed_push(f12, csv_field(attributes_text(r.attributes)), ',');
    let f14 = f13.push(csv_field(tag_text(r.reparse_tag)));
    lemma_listed_push(f13, csv_field(tag_text(r.reparse_tag)), ',');
    let f15 = f14.push(csv_field(reserved_text(r.is_reserved)));
    lemma_listed_push(f14, csv_field(reserved_text(r.is_reserved)), ',');
    let last = csv_field(r.owner);
    assert(csv_row(r, t).drop_last() =~= listed(f15, ',') + last);
    assert forall|i: int| 0 <= i < f15.len() implies whole(#[trigger] f15[i], ',', false) by {
        assert(f15[i] == fs[i]);
        assert(whole(fs[i], ',', false));
    }
    assert forall|i: int| 0 <= i < f15.len() implies whole(#[trigger] f15[i], '\n', false) by {
        assert(f15[i] == fs[i]);
        assert(whole(fs[i], '\n', false));
    }
    assert(whole(fs[15], ',', false) && whole(fs[15], '\n', false));
    lemma_cut_listed(f15, last, ',');
    lemma_cut_last(last, ',', false);
    assert(f15 + seq![last] =~= fs);
    lemma_listed_is_one_line(f15);
    lemma_whole_joined(listed(f15, ','), last, '\n', false);
    let line = csv_row(r, t).drop_last();
    lemma_cut_front(line, Seq::empty(), '\n', false);
    assert(line.push('\n') + Seq::<char>::empty() =~= csv_row(r, t));
    assert(seq![line] + cut(Seq::<char>::empty(), '\n', false) =~= seq![line, Seq::<char>::empty()]);
}

/// What a reader of the table finds under the headings of a row. `r` is what was to be written.
pub open spec fn row_says(row: Seq<char>, r: RowView, t: RowTextsView) -> bool {
    &&& text_under(row, "路径"@, r.path)
    &&& text_under(row, "名称"@, r.name)
    &&& stands_under(row, "父占比(%)"@, t.parent_pct)
    &&& stands_under(row, "总占比(%)"@, t.total_pct)
    &&& number_under(row, "逻辑大小"@, r.logical as int)
    &&& text_under(row, "修改时间"@, t.modified)
    &&& number_under(row, "物理大小"@, r.physical as int)
    &&& text_under(row, "创建时间"@, t.created)
    &&& text_under(row, "访问时间"@, t.accessed)
    &&& number_under(row, "项目"@, r.items as int)
    &&& number_under(row, "文件"@, r.files as int)
    &&& number_under(row, "文件夹"@, r.folders as int)
    &&& text_under(row, "属性"@, attributes_text(r.attributes))
    &&& text_under(row, "重解析点"@, tag_text(r.reparse_tag))
    &&& text_under(row, "保留"@, reserved_text(r.is_reserved))
    &&& text_under(row, "所有者"@, r.owner)
}

/// Reading a row back by the headings: a row is one line, it has a field for each of the sixteen
/// headings, and under each stands what belongs there. Sizes and counts are decimal digits,
/// texts read back as they were. The two percentages hold no comma and no quote.
pub proof fn law_row_reads_back(r: RowView, t: RowTextsView)
    requires
        is_plain(t.parent_pct),
        is_plain(t.total_pct),
    ensures
        csv_row(r, t).len() > 0,
        csv_row(r, t).last() == '\n',
        cut(csv_row(r, t), '\n', false) == seq![csv_row(r, t).drop_last(), Seq::<char>::empty()],
        headings().len() == 16,
        row_says(csv_row(r, t), r, t),
{
    lemma_row_fields(r, t);
    lemma_headings();
    let row = csv_row(r, t);
    let fs = row_fields(r, t);
    lemma_text_under(row, fs, 0, r.path);
    lemma_text_under(row, fs, 1, r.name);
    lemma_stands_under(row, fs, 2);
    lemma_stands_under(row, fs, 3);
    lemma_number_under(row, fs, 4, r.logical as nat);
    lemma_text_under(row, fs, 5, t.modified);
    lemma_number_under(row, fs, 6, r.physical as nat);
    lemma_text_under(row, fs, 7, t.created);
    lemma_text_under(row, fs, 8, t.accessed);
    lemma_number_under(row, fs, 9, r.items as nat);
    lemma_number_under(row, fs, 10, r.files as nat);
    lemma_number_under(row, fs, 11, r.folders as nat);
    lemma_text_under(row, fs, 12, attributes_text(r.attributes));
    lemma_text_under(row, fs, 13, tag_text(r.reparse_tag));
    lemma_text_under(row, fs, 14, reserved_text(r.is_reserved));
    lemma_text_under(row, fs, 15, r.owner);
}

/// Reading the row of an entry back: under each heading stands the value of the entry that the
/// heading names. A file holds no items, files or folders.
pub proof fn law_entry_reads_back(e: EntryView, t: RowTextsView)
    requires
        is_plain(t.parent_pct),
        is_plain(t.total_pct),
    ensures
        ({
            let row = csv_row(entry_row(e), t);
            &&& text_under(row, "名称"@, e.name)
            &&& text_under(
                row,
                "路径"@,
                match e.dir {
                    Some(d) if d.len() > 0 => d + seq!['\\'] + e.name,
                    _ => e.name,
                },
            )
            &&& stands_under(row, "父占比(%)"@, t.parent_pct)
            &&& stands_under(row, "总占比(%)"@, t.total_pct)
            &&& number_under(row, "逻辑大小"@, e.logical_size as int)
            &&& number_under(row, "物理大小"@, e.physical_size as int)
            &&& text_under(row, "修改时间"@, t.modified)
            &&& text_under(row, "创建时间"@, t.created)
            &&& text_under(row, "访问时间"@, t.accessed)
            &&& number_under(
                row,
                "文件"@,
                if e.is_file {
                    0
                } else {
                    e.file_count as int
                },
            )
            &&& number_under(
                row,
                "文件夹"@,
                if e.is_file {
                    0
                } else {
                    e.folder_count as int
                },
            )
            &&& number_under(
                row,
                "项目"@,
                if e.is_file {
                    0
                } else {
                    e.file_count + e.folder_count
                },
            )
            &&& text_under(row, "属性"@, attributes_text(e.attributes))
            &&& text_under(row, "重解析点"@, tag_text(e.reparse_tag))
            &&& text_under(
                row,
                "保留"@,
                if e.is_reserved {
                    "是"@
                } else {
                    Seq::empty()
                },
            )
            &&& text_under(row, "所有者"@, e.owner)
        }),
{
    law_row_reads_back(entry_row(e), t);
    let r = entry_row(e);
    assert(r.path =~= match e.dir {
        Some(d) if d.len() > 0 => d + seq!['\\'] + e.name,
        _ => e.name,
    });
}

/// Reading the row of a root back: under each heading stands the value of the root that the
/// heading names.
pub proof fn law_root_reads_back(root: RootView, path: Seq<char>, t: RowTextsView)
    requires
        is_plain(t.parent_pct),
        is_plain(t.total_pct),
        root.file_count + root.folder_count <= u64::MAX,
    ensures
        ({
            let row = csv_row(root_row(root, path), t);
            &&& text_under(row, "路径"@, path)
            &&& text_under(row, "名称"@, root.name)
            &&& number_under(row, "逻辑大小"@, root.logical_size as int)
            &&& number_under(row, "物理大小"@, root.physical_size as int)
            &&& number_under(row, "项目"@, root.file_count + root.folder_count)
            &&& number_under(row, "文件"@, root.file_count as int)
            &&& number_under(row, "文件夹"@, root.folder_count as int)
            &&& text_under(row, "属性"@, attributes_text(root.attributes))
            &&& text_under(row, "重解析点"@, tag_text(root.reparse_tag))
            &&& text_under(
                row,
                "保留"@,
                if root.is_reserved {
                    "是"@
                } else {
                    Seq::empty()
                },
            )
            &&& text_under(row, "所有者"@, root.owner)
        }),
{
    law_row_reads_back(root_row(root, path), t);
}

/// A reparse tag is written as `0x` and hexadecimal digits that read back as the tag; none is
/// written as nothing.
pub proof fn law_tag_reads_back(tag: u32)
    ensures
        tag == 0 ==> tag_text(tag).len() == 0,
        tag != 0 ==> tag_text(tag).len() > 2 && tag_text(tag)[0] == '0' && tag_text(tag)[1] == 'x'
            && hex_read(tag_text(tag).skip(2)) == tag,
{
    if tag != 0 {
        reveal_strlit("0x");
        law_hex_reads_back(tag as nat);
        assert(tag_text(tag).skip(2) =~= hex_upper(tag as nat));
    }
}

/// The letters for the attributes of a file: each of the five stands there just where its bit is
/// set, and a dash where none is.
pub proof fn law_attribute_letters(attrs: u32)
    ensures
        attributes_text(attrs).contains('R') <==> attrs & 0x01 != 0,
        attributes_text(attrs).contains('H') <==> attrs & 0x02 != 0,
        attributes_text(attrs).contains('S') <==> attrs & 0x04 != 0,
        attributes_text(attrs).contains('A') <==> attrs & 0x20 != 0,
        attributes_text(attrs).contains('C') <==> attrs & 0x800 != 0,
        attributes_text(attrs) == "—"@ <==> attrs & 0x01 == 0 && attrs & 0x02 == 0 && attrs & 0x04
            == 0 && attrs & 0x20 == 0 && attrs & 0x800 == 0,
{
    reveal_strlit("—");
    let a = crate::format::letter_if(attrs & 0x01 != 0, 'R');
    let b = crate::format::letter_if(attrs & 0x02 != 0, 'H');
    let c = crate::format::letter_if(attrs & 0x04 != 0, 'S');
    let d = crate::format::letter_if(attrs & 0x20 != 0, 'A');
    let e = crate::format::letter_if(attrs & 0x800 != 0, 'C');
    let s = a + b + c + d + e;
    assert(forall|i: int| 0 <= i < a.len() ==> s[i] == a[i]);
    if attrs & 0x01 != 0 {
        assert(s[0] == 'R');
    }
    if attrs & 0x02 != 0 {
        assert(s[a.len() as int] == 'H');
    }
    if attrs & 0x04 != 0 {
        assert(s[(a + b).len() as int] == 'S');
    }
    if attrs & 0x20 != 0 {
        assert(s[(a + b + c).len() as int] == 'A');
    }
    if attrs & 0x800 != 0 {
        assert(s[(a + b + c + d).len() as int] == 'C');
    }
}

} // verus!
