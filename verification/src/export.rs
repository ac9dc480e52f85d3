//! Writing an index as a table of comma separated values.

use vstd::prelude::*;
use vstd::string::*;

use crate::format::{attributes_text, format_attributes};
use crate::index_model::{shown_dir, EntryView, IndexView, RootView};
use crate::search_index::NameIndex;
use crate::text::{
    chars_of, decimal, hex_upper, owned, push_decimal, push_hex_upper, string_of,
};

verus! {

/// Whether a text holds a character that separates fields or rows, or a quote.
pub open spec fn needs_quotes(s: Seq<char>) -> bool {
    s.contains(',') || s.contains('"') || s.contains('\n') || s.contains('\r')
}

/// Whether a spreadsheet may take a text that starts with this character for a formula.
pub open spec fn starts_formula(c: char) -> bool {
    c == '=' || c == '+' || c == '-' || c == '@' || c == '\t' || c == '\r'
}

/// A text with every quote twice.
pub open spec fn doubled(s: Seq<char>) -> Seq<char>
    decreases s.len(),
{
    if s.len() == 0 {
        Seq::empty()
    } else if s[0] == '"' {
        seq!['"', '"'] + doubled(s.skip(1))
    } else {
        seq![s[0]] + doubled(s.skip(1))
    }
}

/// What is shown of a text: one that looks like a formula has an apostrophe before it.
pub open spec fn csv_body(s: Seq<char>) -> Seq<char> {
    if s.len() > 0 && starts_formula(s[0]) {
        seq!['\''] + s
    } else {
        s
    }
}

/// A text as a field of a table.
pub open spec fn csv_field(s: Seq<char>) -> Seq<char> {
    if needs_quotes(s) {
        seq!['"'] + doubled(csv_body(s)) + seq!['"']
    } else {
        csv_body(s)
    }
}

fn has_separator(v: &Vec<char>) -> (r: bool)
    ensures
        r == needs_quotes(v@),
{
    let mut i: usize = 0;
    while i < v.len()
        invariant
            i <= v.len(),
            forall|k: int|
                0 <= k < i ==> #[trigger] v@[k] != ',' && v@[k] != '"' && v@[k] != '\n' && v@[k]
                    != '\r',
        decreases v.len() - i,
    {
        let c: char = v[i];
        if c == ',' || c == '"' || c == '\n' || c == '\r' {
            assert(v@.contains(c));
            return true;
        }
        i += 1;
    }
    false
}

fn push_doubled(s: &mut String, v: &Vec<char>)
    ensures
        final(s)@ == old(s)@ + doubled(v@),
{
    let ghost start = s@;
    let mut i: usize = 0;
    assert(v@.skip(0) =~= v@);
    while i < v.len()
        invariant
            i <= v.len(),
            s@ + doubled(v@.skip(i as int)) == start + doubled(v@),
        decreases v.len() - i,
    {
        let ghost before = s@;
        let ghost rest = doubled(v@.skip(i + 1));
        assert(v@.skip(i as int)[0] == v@[i as int]);
        assert(v@.skip(i as int).skip(1) =~= v@.skip(i + 1));
        let c: char = v[i];
        if c == '"' {
            s.push('"');
            assert(s@.push('"') + rest =~= before + (seq!['"', '"'] + rest));
        } else {
            assert(s@.push(c) + rest =~= before + (seq![c] + rest));
        }
        s.push(c);
        i += 1;
    }
    assert(s@ + doubled(v@.skip(i as int)) =~= s@);
}

/// A text as a field of a table: in quotes where it holds a separator, and with an apostrophe
/// before it where a spreadsheet might take it for a formula.
pub fn escape_csv_field(s: &str) -> (r: String)
    ensures
        r@ == csv_field(s@),
{
    let v = chars_of(s);
    let mut body: Vec<char> = Vec::new();
    if v.len() > 0 {
        let c: char = v[0];
        if c == '=' || c == '+' || c == '-' || c == '@' || c == '\t' || c == '\r' {
            body.push('\'');
        }
    }
    let ghost front = body@;
    let mut i: usize = 0;
    assert(front + v@.take(0) =~= front);
    while i < v.len()
        invariant
            i <= v.len(),
            body@ == front + v@.take(i as int),
        decreases v.len() - i,
    {
        body.push(v[i]);
        i += 1;
        assert(v@.take(i as int) =~= v@.take(i - 1).push(v@[i - 1]));
        assert(body@ =~= front + v@.take(i as int));
    }
    assert(v@.take(i as int) =~= v@);
    assert(body@ =~= csv_body(s@));
    if has_separator(&v) {
        let mut r = String::new();
        r.push('"');
        push_doubled(&mut r, &body);
        r.push('"');
        assert(r@ =~= csv_field(s@));
        r
    } else {
        string_of(body.as_slice())
    }
}

/// No field that is written starts a formula.
pub proof fn law_no_field_starts_a_formula(s: Seq<char>)
    ensures
        csv_field(s).len() > 0 ==> !starts_formula(csv_field(s)[0]),
{
}

/// A text with every pair of quotes turned into one.
pub open spec fn undoubled(s: Seq<char>) -> Seq<char>
    decreases s.len(),
{
    if s.len() == 0 {
        Seq::empty()
    } else if s.len() >= 2 && s[0] == '"' && s[1] == '"' {
        seq!['"'] + undoubled(s.skip(2))
    } else {
        seq![s[0]] + undoubled(s.skip(1))
    }
}

/// What a reader of the table makes of a field.
pub open spec fn csv_read(f: Seq<char>) -> Seq<char> {
    if f.len() >= 2 && f[0] == '"' {
        undoubled(f.subrange(1, f.len() - 1))
    } else {
        f
    }
}

proof fn lemma_undoubled(s: Seq<char>)
    ensures
        undoubled(doubled(s)) == s,
    decreases s.len(),
{
    if s.len() > 0 {
        lemma_undoubled(s.skip(1));
        let rest = doubled(s.skip(1));
        assert(s =~= seq![s[0]] + s.skip(1));
        if s[0] == '"' {
            assert((seq!['"', '"'] + rest).skip(2) =~= rest);
        } else {
            assert((seq![s[0]] + rest).skip(1) =~= rest);
        }
    }
}

/// A reader of the table gets back the text that was written.
pub proof fn law_fields_read_back(s: Seq<char>)
    ensures
        csv_read(csv_field(s)) == csv_body(s),
{
    let b = csv_body(s);
    lemma_undoubled(b);
    if needs_quotes(s) {
        let f = csv_field(s);
        assert(f.subrange(1, f.len() - 1) =~= doubled(b));
    } else if b.len() > 0 && b[0] == '"' {
        assert(s[0] == '"');
        assert(s.contains('"'));
    }
}

/// The texts of a row that the program makes elsewhere: two percentages and three times.
pub struct RowTexts {
    pub parent_pct: String,
    pub total_pct: String,
    pub modified: String,
    pub created: String,
    pub accessed: String,
}

/// What a [`RowTexts`] holds.
pub struct RowTextsView {
    pub parent_pct: Seq<char>,
    pub total_pct: Seq<char>,
    pub modified: Seq<char>,
    pub created: Seq<char>,
    pub accessed: Seq<char>,
}

impl View for RowTexts {
    type V = RowTextsView;

    open spec fn view(&self) -> RowTextsView {
        RowTextsView {
            parent_pct: self.parent_pct@,
            total_pct: self.total_pct@,
            modified: self.modified@,
            created: self.created@,
            accessed: self.accessed@,
        }
    }
}

/// The other columns of a row.
pub struct CsvRow<'a> {
    pub path: &'a str,
    pub name: &'a str,
    pub logical: u64,
    pub physical: u64,
    pub items: u64,
    pub files: u64,
    pub folders: u64,
    pub attributes: u32,
    pub reparse_tag: u32,
    pub is_reserved: bool,
    pub owner: &'a str,
}

/// What a [`CsvRow`] holds.
#[verifier::ext_equal]
pub struct RowView {
    pub path: Seq<char>,
    pub name: Seq<char>,
    pub logical: u64,
    pub physical: u64,
    pub items: u64,
    pub files: u64,
    pub folders: u64,
    pub attributes: u32,
    pub reparse_tag: u32,
    pub is_reserved: bool,
    pub owner: Seq<char>,
}

impl<'a> View for CsvRow<'a> {
    type V = RowView;

    open spec fn view(&self) -> RowView {
        RowView {
            path: self.path@,
            name: self.name@,
            logical: self.logical,
            physical: self.physical,
            items: self.items,
            files: self.files,
            folders: self.folders,
            attributes: self.attributes,
            reparse_tag: self.reparse_tag,
            is_reserved: self.is_reserved,
            owner: self.owner@,
        }
    }
}

/// A reparse tag in hexadecimal; nothing for none.
pub open spec fn tag_text(tag: u32) -> Seq<char> {
    if tag == 0 {
        Seq::empty()
    } else {
        "0x"@ + hex_upper(tag as nat)
    }
}

/// A mark for NTFS metadata.
pub open spec fn reserved_text(b: bool) -> Seq<char> {
    if b {
        "是"@
    } else {
        Seq::empty()
    }
}

/// One row: sixteen fields with commas between them, and the end of the line.
pub open spec fn csv_row(r: RowView, t: RowTextsView) -> Seq<char> {
    (csv_field(r.path).push(',') + csv_field(r.name).push(',') + t.parent_pct.push(',')
        + t.total_pct.push(',') + decimal(r.logical as nat).push(',') + csv_field(t.modified).push(
        ',',
    ) + decimal(r.physical as nat).push(',') + csv_field(t.created).push(',') + csv_field(
        t.accessed,
    ).push(',') + decimal(r.items as nat).push(',') + decimal(r.files as nat).push(',') + decimal(
        r.folders as nat,
    ).push(',') + csv_field(attributes_text(r.attributes)).push(',') + csv_field(
        tag_text(r.reparse_tag),
    ).push(',') + csv_field(reserved_text(r.is_reserved)).push(',') + csv_field(r.owner)).push('\n')
}

/// A reparse tag in hexadecimal; nothing for none.
pub fn format_tag(tag: u32) -> (r: String)
    ensures
        r@ == tag_text(tag),
{
    if tag == 0 {
        return String::new();
    }
    let mut s = owned("0x");
    push_hex_upper(&mut s, tag as u64);
    s
}

fn push_field(s: &mut String, field: &str)
    ensures
        final(s)@ == old(s)@ + csv_field(field@).push(','),
{
    s.append(escape_csv_field(field).as_str());
    s.push(',');
    assert(s@ =~= old(s)@ + csv_field(field@).push(','));
}

fn push_plain(s: &mut String, field: &str)
    ensures
        final(s)@ == old(s)@ + field@.push(','),
{
    s.append(field);
    s.push(',');
    assert(s@ =~= old(s)@ + field@.push(','));
}

fn push_number(s: &mut String, n: u64)
    ensures
        final(s)@ == old(s)@ + decimal(n as nat).push(','),
{
    push_decimal(s, n);
    s.push(',');
    assert(s@ =~= old(s)@ + decimal(n as nat).push(','));
}

/// One row of the table.
pub fn write_row(r: &CsvRow<'_>, t: &RowTexts) -> (s: String)
    ensures
        s@ == csv_row(r@, t@),
{
    let mut s = String::new();
    push_field(&mut s, r.path);
    push_field(&mut s, r.name);
    push_plain(&mut s, t.parent_pct.as_str());
    push_plain(&mut s, t.total_pct.as_str());
    push_number(&mut s, r.logical);
    push_field(&mut s, t.modified.as_str());
    push_number(&mut s, r.physical);
    push_field(&mut s, t.created.as_str());
    push_field(&mut s, t.accessed.as_str());
    push_number(&mut s, r.items);
    push_number(&mut s, r.files);
    push_number(&mut s, r.folders);
    push_field(&mut s, format_attributes(r.attributes).as_str());
    push_field(&mut s, format_tag(r.reparse_tag).as_str());
    let reserved = if r.is_reserved {
        owned("是")
    } else {
        String::new()
    };
    push_field(&mut s, reserved.as_str());
    s.append(escape_csv_field(r.owner).as_str());
    s.push('\n');
    assert(s@ =~= csv_row(r@, t@));
    s
}

/// The first line of a table, with the mark for UTF-8 before it.
pub open spec fn csv_header() -> Seq<char> {
    "\u{FEFF}路径,名称,父占比(%),总占比(%),逻辑大小,修改时间,物理大小,创建时间,访问时间,项目,文件,文件夹,属性,重解析点,保留,所有者\n"@
}

/// The first line of a table, with the mark for UTF-8 before it.
pub fn header_line() -> (r: String)
    ensures
        r@ == csv_header(),
{
    owned(
        "\u{FEFF}路径,名称,父占比(%),总占比(%),逻辑大小,修改时间,物理大小,创建时间,访问时间,项目,文件,文件夹,属性,重解析点,保留,所有者\n",
    )
}

/// The row of a root.
pub open spec fn root_row(r: RootView, path: Seq<char>) -> RowView {
    RowView {
        path,
        name: r.name,
        logical: r.logical_size,
        physical: r.physical_size,
        items: (r.file_count + r.folder_count) as u64,
        files: r.file_count,
        folders: r.folder_count,
        attributes: r.attributes,
        reparse_tag: r.reparse_tag,
        is_reserved: r.is_reserved,
        owner: r.owner,
    }
}

/// The path that is shown for an entry.
pub open spec fn entry_full_path(e: EntryView) -> Seq<char> {
    if shown_dir(e).len() == 0 {
        e.name
    } else {
        shown_dir(e).push('\\') + e.name
    }
}

/// The row of an entry. A file holds nothing.
pub open spec fn entry_row(e: EntryView) -> RowView {
    RowView {
        path: entry_full_path(e),
        name: e.name,
        logical: e.logical_size,
        physical: e.physical_size,
        items: if e.is_file {
            0
        } else {
            (e.file_count + e.folder_count) as u64
        },
        files: if e.is_file {
            0
        } else {
            e.file_count as u64
        },
        folders: if e.is_file {
            0
        } else {
            e.folder_count as u64
        },
        attributes: e.attributes,
        reparse_tag: e.reparse_tag,
        is_reserved: e.is_reserved,
        owner: e.owner,
    }
}

/// How many of the first `k` entries stand under a root and are, or are not, files.
pub open spec fn count_under(v: IndexView, pi: int, file: bool, k: int) -> int
    decreases k,
{
    if k <= 0 {
        0
    } else {
        count_under(v, pi, file, k - 1) + if v.entries[k - 1].pi == pi && v.entries[k - 1].is_file
            == file {
            1int
        } else {
            0int
        }
    }
}

/// Progress is reported each time this many rows are written.
pub const PROGRESS_ROWS: u64 = 4096;

/// The table of one root, row by row: the root, then the entries below it in their order.
pub struct CsvExport<'a> {
    index: &'a NameIndex,
    pi: usize,
    /// The next entry to look at.
    at: usize,
    files: u64,
    folders: u64,
}

/// What the percentages and times of a row are made of.
#[derive(Clone, Copy)]
pub struct RowNumbers {
    pub logical: u64,
    /// The size of what it stands in, at least 1.
    pub parent_logical: u64,
    /// The size of the root, at least 1.
    pub disk_logical: u64,
    pub modified_ft: u64,
    pub created_ft: u64,
    pub accessed_ft: u64,
}

/// A size, at least 1.
pub open spec fn at_least_one(n: u64) -> u64 {
    if n == 0 {
        1
    } else {
        n
    }
}

impl<'a> CsvExport<'a> {
    /// What is exported.
    pub closed spec fn source(&self) -> IndexView {
        self.index@
    }

    /// The root that is exported.
    pub closed spec fn root(&self) -> int {
        self.pi as int
    }

    /// How many entries were looked at.
    pub closed spec fn seen(&self) -> int {
        self.at as int
    }

    /// The counts are those of the entries looked at.
    pub closed spec fn wf(&self) -> bool {
        &&& self.index.wf()
        &&& self.pi < self.index@.roots.len()
        &&& self.at <= self.index@.entries.len()
        &&& self.files == count_under(self.index@, self.pi as int, true, self.at as int)
        &&& self.folders == count_under(self.index@, self.pi as int, false, self.at as int)
        &&& self.files + self.folders <= self.at
    }

    /// Starts with nothing but the root's row written.
    pub fn new(index: &'a NameIndex, pi: usize) -> (r: Self)
        requires
            index.wf(),
            pi < index@.roots.len(),
        ensures
            r.wf(),
            r.source() == index@,
            r.root() == pi,
            r.seen() == 0,
    {
        CsvExport { index, pi, at: 0, files: 0, folders: 0 }
    }

    /// The row of the root, if its item count fits.
    pub fn root_line(&self, path: &str, t: &RowTexts) -> (r: Option<String>)
        requires
            self.wf(),
        ensures
            match r {
                Some(s) => {
                    &&& self.source().roots[self.root()].file_count
                        + self.source().roots[self.root()].folder_count <= u64::MAX
                    &&& s@ == csv_row(root_row(self.source().roots[self.root()], path@), t@)
                },
                None => self.source().roots[self.root()].file_count
                    + self.source().roots[self.root()].folder_count > u64::MAX,
            },
    {
        let info = self.index.root_info(self.pi);
        if info.folder_count > u64::MAX - info.file_count {
            return None;
        }
        let row = CsvRow {
            path,
            name: info.name.as_str(),
            logical: info.logical_size,
            physical: info.physical_size,
            items: info.file_count + info.folder_count,
            files: info.file_count,
            folders: info.folder_count,
            attributes: info.attributes,
            reparse_tag: info.reparse_tag,
            is_reserved: info.is_reserved,
            owner: info.owner.as_str(),
        };
        assert(row@ =~= root_row(self.source().roots[self.root()], path@));
        Some(write_row(&row, t))
    }

    /// Goes on to the next entry below the root: what its percentages and times are made of.
    pub fn next_entry(&mut self) -> (r: Option<RowNumbers>)
        requires
            old(self).wf(),
        ensures
            final(self).wf(),
            final(self).source() == old(self).source(),
            final(self).root() == old(self).root(),
            old(self).seen() <= final(self).seen() <= final(self).source().entries.len(),
            forall|k: int|
                old(self).seen() <= k < final(self).seen() ==> (
                #[trigger] final(self).source().entries[k]).pi != final(self).root(),
            match r {
                Some(n) => {
                    let v = final(self).source();
                    let e = v.entries[final(self).seen()];
                    &&& final(self).seen() < v.entries.len()
                    &&& e.pi == final(self).root()
                    &&& n == (RowNumbers {
                        logical: e.logical_size,
                        parent_logical: at_least_one(e.parent_logical),
                        disk_logical: at_least_one(v.roots[final(self).root()].logical_size),
                        modified_ft: e.modified_ft,
                        created_ft: e.created_ft,
                        accessed_ft: e.accessed_ft,
                    })
                },
                None => final(self).seen() == final(self).source().entries.len(),
            },
    {
        let len: usize = self.index.len();
        while self.at < len
            invariant
                self.wf(),
                len == self.source().entries.len(),
                self.source() == old(self).source(),
                self.root() == old(self).root(),
                old(self).seen() <= self.seen() <= len,
                forall|k: int|
                    old(self).seen() <= k < self.seen() ==> (#[trigger] self.source().entries[k]).pi
                        != self.root(),
            decreases len - self.at,
        {
            let e = self.index.entry(self.at);
            if e.pi as usize == self.pi {
                let disk: u64 = self.index.root_logical(self.pi);
                return Some(
                    RowNumbers {
                        logical: e.logical_size,
                        parent_logical: if e.parent_logical == 0 {
                            1
                        } else {
                            e.parent_logical
                        },
                        disk_logical: if disk == 0 {
                            1
                        } else {
                            disk
                        },
                        modified_ft: e.modified_ft,
                        created_ft: e.created_ft,
                        accessed_ft: e.accessed_ft,
                    },
                );
            }
            self.at = self.at + 1;
        }
        None
    }

    /// The row of the entry that [`CsvExport::next_entry`] stopped at, and how many rows are
    /// written with it where that is to be reported.
    pub fn entry_line(&mut self, t: &RowTexts) -> (r: (String, Option<u64>))
        requires
            old(self).wf(),
            old(self).seen() < old(self).source().entries.len(),
            old(self).source().entries[old(self).seen()].pi == old(self).root(),
        ensures
            final(self).wf(),
            final(self).source() == old(self).source(),
            final(self).root() == old(self).root(),
            final(self).seen() == old(self).seen() + 1,
            r.0@ == csv_row(entry_row(old(self).source().entries[old(self).seen()]), t@),
            r.1 == ({
                let v = final(self).source();
                let rows = 1 + count_under(v, final(self).root(), true, final(self).seen())
                    + count_under(v, final(self).root(), false, final(self).seen());
                if rows % (PROGRESS_ROWS as int) == 0 {
                    Some(rows as u64)
                } else {
                    None
                }
            }),
    {
        proof {
            self.index.lemma_shape();
        }
        let i: usize = self.at;
        let e = self.index.entry(i);
        let ghost ev = self.index@.entries[i as int];
        let name = self.index.name_orig(i);
        let dir = self.index.dir_path(i);
        let path = if chars_of(dir).len() == 0 {
            owned(name)
        } else {
            let mut p = owned(dir);
            p.push('\\');
            p.append(name);
            p
        };
        let is_file = e.is_file();
        let files: u64 = if is_file {
            0
        } else {
            e.file_count as u64
        };
        let folders: u64 = if is_file {
            0
        } else {
            e.folder_count as u64
        };
        let row = CsvRow {
            path: path.as_str(),
            name,
            logical: e.logical_size,
            physical: e.physical_size,
            items: files + folders,
            files,
            folders,
            attributes: e.attributes,
            reparse_tag: e.reparse_tag,
            is_reserved: e.is_reserved(),
            owner: self.index.owner(i),
        };
        assert(row@ =~= entry_row(ev));
        let line = write_row(&row, t);
        if is_file {
            self.files = self.files + 1;
        } else {
            self.folders = self.folders + 1;
        }
        self.at = i + 1;
        let rows: u64 = 1 + self.files + self.folders;
        let progress = if rows % PROGRESS_ROWS == 0 {
            Some(rows)
        } else {
            None
        };
        (line, progress)
    }

    /// How many files and folders were written.
    pub fn counts(&self) -> (r: (u64, u64))
        requires
            self.wf(),
        ensures
            r.0 == count_under(self.source(), self.root(), true, self.seen()),
            r.1 == count_under(self.source(), self.root(), false, self.seen()),
    {
        (self.files, self.folders)
    }
}

} // verus!
