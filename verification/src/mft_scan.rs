//! Reading the master file table of an NTFS volume.
//!
//! Every record of the table is parsed on its own. What its attributes say is gathered under
//! the base record that it belongs to, so that extension records need no treatment of their
//! own.

use std::collections::HashMap;

use vstd::prelude::*;
use vstd::std_specs::hash::*;

use crate::bytes::{
    from_utf16_lossy, le16, le32, le64, le_i64, read16, read32, read64, read_i64, read_units, room,
    units, utf16_lossy,
};
use crate::fs_attrs::{
    FILE_ATTRIBUTE_COMPRESSED, FILE_ATTRIBUTE_DIRECTORY, FILE_ATTRIBUTE_NORMAL,
    IO_REPARSE_TAG_WOF,
};
use crate::text::str_eq;

verus! {

broadcast use vstd::std_specs::hash::group_hash_axioms;

/// The record of the root directory.
pub const NTFS_ROOT_RECORD: u64 = 5;

/// Records below this one are NTFS's own files.
pub const NTFS_RESERVED_MAX: u64 = 16;

pub const ATTR_STANDARD_INFORMATION: u32 = 0x10;

pub const ATTR_FILE_NAME: u32 = 0x30;

pub const ATTR_DATA: u32 = 0x80;

pub const ATTR_REPARSE_POINT: u32 = 0xC0;

pub const ATTR_END: u32 = 0xFFFF_FFFF;

/// Why a volume could not be read through its master file table.
pub struct MftError(pub String);

impl MftError {
    /// The message.
    pub fn message(&self) -> (r: &str)
        ensures
            r@ == self.0@,
    {
        self.0.as_str()
    }
}

/// What the attributes of a file say of it.
#[derive(Clone, Copy, Debug, PartialEq, Eq, Structural)]
pub struct FileRecordBase {
    pub logical_size: u64,
    pub physical_size: u64,
    pub last_modified_ft: u64,
    pub created_ft: u64,
    pub accessed_ft: u64,
    pub attributes: u32,
    pub reparse_tag: u32,
}

/// What is known of a file before any attribute is read.
pub open spec fn blank_record() -> FileRecordBase {
    FileRecordBase {
        logical_size: 0,
        physical_size: 0,
        last_modified_ft: 0,
        created_ft: 0,
        accessed_ft: 0,
        attributes: 0,
        reparse_tag: 0,
    }
}

impl Default for FileRecordBase {
    fn default() -> (r: Self)
        ensures
            r == blank_record(),
    {
        FileRecordBase {
            logical_size: 0,
            physical_size: 0,
            last_modified_ft: 0,
            created_ft: 0,
            accessed_ft: 0,
            attributes: 0,
            reparse_tag: 0,
        }
    }
}

/// A name of a file. A file has more than one where it has hard links.
pub struct FileRecordName {
    pub name: String,
    pub base_record: u64,
}

/// What a [`FileRecordName`] holds.
#[verifier::ext_equal]
pub struct LinkView {
    pub name: Seq<char>,
    pub base_record: u64,
}

impl View for FileRecordName {
    type V = LinkView;

    open spec fn view(&self) -> LinkView {
        LinkView { name: self.name@, base_record: self.base_record }
    }
}

/// What a list of names holds.
pub open spec fn links_view(v: Seq<FileRecordName>) -> Seq<LinkView> {
    Seq::new(v.len(), |i: int| v[i]@)
}

/// What has been gathered from a master file table.
pub struct NtfsContext {
    /// The files, by record.
    pub base_file_records: HashMap<u64, FileRecordBase>,
    /// The names in each directory, by the directory's record.
    pub parent_to_children: HashMap<u64, Vec<FileRecordName>>,
    pub bytes_per_cluster: u32,
    pub bytes_per_record: u32,
    /// Records left out because their update sequence did not match.
    pub fixup_failures: u64,
    /// Records left out because their update sequence could not be read.
    pub fixup_unreadable: u64,
}

/// What a [`NtfsContext`] holds.
#[verifier::ext_equal]
pub struct ContextView {
    pub records: Map<u64, FileRecordBase>,
    pub children: Map<u64, Seq<LinkView>>,
    pub fixup_failures: int,
    pub fixup_unreadable: int,
}

/// What a table of names holds.
pub open spec fn children_view(m: Map<u64, Vec<FileRecordName>>) -> Map<u64, Seq<LinkView>> {
    Map::new(|k: u64| m.contains_key(k), |k: u64| links_view(m[k]@))
}

impl View for NtfsContext {
    type V = ContextView;

    open spec fn view(&self) -> ContextView {
        ContextView {
            records: self.base_file_records@,
            children: children_view(self.parent_to_children@),
            fixup_failures: self.fixup_failures as int,
            fixup_unreadable: self.fixup_unreadable as int,
        }
    }
}

/// How the update sequence of a record was applied.
#[verifier::ext_equal]
pub enum Fixup {
    /// It matched, and the record is whole again.
    Whole(Seq<u8>),
    /// It did not match in some sector.
    Mismatch(Seq<u8>),
    /// It does not fit the record.
    Unreadable(Seq<u8>),
}

/// The bytes of a record after the update sequence was applied as far as it went.
pub open spec fn fixup_bytes(f: Fixup) -> Seq<u8> {
    match f {
        Fixup::Whole(b) => b,
        Fixup::Mismatch(b) => b,
        Fixup::Unreadable(b) => b,
    }
}

/// Applies the update sequence from sector number `i` on: the last two bytes of each sector
/// have to be `usn`, and are replaced by the two bytes kept for that sector.
pub open spec fn fixup_from(
    b: Seq<u8>,
    usa_offset: int,
    usa_count: int,
    sector: int,
    i: int,
    usn: (u8, u8),
) -> Fixup
    decreases usa_count - i,
{
    if i >= usa_count {
        Fixup::Whole(b)
    } else {
        let end = i * sector;
        if end > b.len() {
            Fixup::Unreadable(b)
        } else if (b[end - 2], b[end - 1]) != usn {
            Fixup::Mismatch(b)
        } else {
            let c = b.update(end - 2, b[usa_offset + 2 * i]);
            fixup_from(
                c.update(end - 1, c[usa_offset + 2 * i + 1]),
                usa_offset,
                usa_count,
                sector,
                i + 1,
                usn,
            )
        }
    }
}

/// Applies the update sequence of a record.
pub open spec fn fixup(b: Seq<u8>, sector: int) -> Fixup {
    let usa_offset = le16(b, 4) as int;
    let usa_count = le16(b, 6) as int;
    if usa_count == 0 || usa_offset < 8 || usa_offset + usa_count * 2 > b.len() {
        Fixup::Unreadable(b)
    } else {
        fixup_from(b, usa_offset, usa_count, sector, 1, (b[usa_offset], b[usa_offset + 1]))
    }
}

/// How applying an update sequence ended.
#[derive(Clone, Copy, Debug, PartialEq, Eq, Structural)]
pub enum FixupResult {
    Whole,
    Mismatch,
    Unreadable,
}

/// How applying an update sequence ended.
pub open spec fn fixup_result(f: Fixup) -> FixupResult {
    match f {
        Fixup::Whole(_) => FixupResult::Whole,
        Fixup::Mismatch(_) => FixupResult::Mismatch,
        Fixup::Unreadable(_) => FixupResult::Unreadable,
    }
}

/// Applies the update sequence of a record in place. Sectors have at least two bytes.
pub fn apply_fixup(rec: &mut [u8], bytes_per_sector: usize) -> (r: FixupResult)
    requires
        old(rec)@.len() >= 8,
        bytes_per_sector >= 2,
    ensures
        final(rec)@ == fixup_bytes(fixup(old(rec)@, bytes_per_sector as int)),
        r == fixup_result(fixup(old(rec)@, bytes_per_sector as int)),
{
    let ghost whole = fixup(rec@, bytes_per_sector as int);
    let len: usize = rec.len();
    let usa_offset: usize = read16(rec, 4) as usize;
    let usa_count: usize = read16(rec, 6) as usize;
    if usa_count == 0 {
        return FixupResult::Unreadable;
    }
    if usa_offset < 8 || !room(len, usa_offset, usa_count * 2) {
        return FixupResult::Unreadable;
    }
    let usn0: u8 = rec[usa_offset];
    let usn1: u8 = rec[usa_offset + 1];
    let mut i: usize = 1;
    let mut end: usize = 0;
    assert(0 * bytes_per_sector == 0) by (nonlinear_arith);
    while i < usa_count
        invariant
            1 <= i <= usa_count <= 0xFFFF,
            usa_offset <= 0xFFFF,
            len == rec@.len(),
            usa_offset + usa_count * 2 <= len,
            bytes_per_sector >= 2,
            end == (i - 1) * bytes_per_sector,
            end <= len,
            whole == fixup(old(rec)@, bytes_per_sector as int),
            whole == fixup_from(
                rec@,
                usa_offset as int,
                usa_count as int,
                bytes_per_sector as int,
                i as int,
                (usn0, usn1),
            ),
        decreases usa_count - i,
    {
        assert(i * bytes_per_sector == (i - 1) * bytes_per_sector + bytes_per_sector)
            by (nonlinear_arith);
        if bytes_per_sector > len - end {
            return FixupResult::Unreadable;
        }
        end = end + bytes_per_sector;
        if rec[end - 2] != usn0 || rec[end - 1] != usn1 {
            return FixupResult::Mismatch;
        }
        let kept: usize = usa_offset + i * 2;
        rec[end - 2] = rec[kept];
        rec[end - 1] = rec[kept + 1];
        i += 1;
    }
    FixupResult::Whole
}


/// What has been read of a record's attributes: the file, and its names with the directory
/// each stands in.
#[verifier::ext_equal]
pub struct Gathered {
    pub base: FileRecordBase,
    pub links: Seq<(u64, Seq<char>)>,
}

/// Where the value of a resident attribute begins.
pub open spec fn value_at(r: Seq<u8>, off: int) -> int {
    off + le16(r, off + 20)
}

/// How long the value of a resident attribute is.
pub open spec fn value_len(r: Seq<u8>, off: int) -> u32 {
    le32(r, off + 16)
}

/// A size rounded up to a multiple of eight.
pub open spec fn up_to_eight(n: u32) -> u64 {
    ((n + 7) / 8 * 8) as u64
}

/// The low 48 bits of a file reference: the record, without its sequence number.
pub open spec fn record_of(reference: u64) -> u64 {
    reference % 0x1_0000_0000_0000
}

/// What `$STANDARD_INFORMATION` says: the times and the attributes.
pub open spec fn with_standard_information(
    r: Seq<u8>,
    off: int,
    is_dir: bool,
    base: FileRecordBase,
) -> FileRecordBase {
    let at = value_at(r, off);
    if at + 0x24 <= r.len() && value_len(r, off) >= 0x24 {
        let flags = if is_dir {
            le32(r, at + 0x20) | FILE_ATTRIBUTE_DIRECTORY
        } else {
            le32(r, at + 0x20)
        };
        FileRecordBase {
            created_ft: le64(r, at),
            last_modified_ft: le64(r, at + 0x08),
            accessed_ft: le64(r, at + 0x18),
            attributes: if flags == 0 {
                FILE_ATTRIBUTE_NORMAL
            } else {
                flags
            },
            ..base
        }
    } else {
        base
    }
}

/// What `$FILE_NAME` says: the directory and the name in it. Short names and the two names
/// that stand for a directory itself and its parent are left out.
pub open spec fn file_name(r: Seq<u8>, off: int) -> Option<(u64, Seq<char>)> {
    let at = value_at(r, off);
    if at + 0x42 <= r.len() && value_len(r, off) >= 0x42 {
        let n = r[at + 0x40] as nat;
        let name = utf16_lossy(units(r, at + 0x42, n));
        if r[at + 0x41] == 2 || n == 0 || at + 0x42 + 2 * n > r.len() || name == "."@ || name
            == ".."@ {
            None
        } else {
            Some((record_of(le64(r, at)), name))
        }
    } else {
        None
    }
}

/// Whether the name of a stream is that of a file compressed by the system.
pub open spec fn is_wof_stream(r: Seq<u8>, off: int) -> bool {
    let n = r[off + 9] as nat;
    let at = off + le16(r, off + 10);
    at + 2 * n <= r.len() && utf16_lossy(units(r, at, n)) == "WofCompressedData"@
}

/// What `$DATA` says: the sizes. Of named streams only that of a file compressed by the system
/// counts, for its physical size; of a stream in several pieces only the first one.
pub open spec fn with_data(r: Seq<u8>, off: int, base: FileRecordBase) -> FileRecordBase {
    let resident = r[off + 8] == 0;
    if r[off + 9] > 0 {
        if !is_wof_stream(r, off) {
            base
        } else if resident {
            if off + 20 <= r.len() {
                FileRecordBase { physical_size: up_to_eight(value_len(r, off)), ..base }
            } else {
                base
            }
        } else if off + 0x30 <= r.len() && le64(r, off + 16) == 0 {
            FileRecordBase { physical_size: le64(r, off + 0x28), ..base }
        } else {
            base
        }
    } else if resident {
        if off + 20 <= r.len() {
            FileRecordBase {
                logical_size: value_len(r, off) as u64,
                physical_size: up_to_eight(value_len(r, off)),
                ..base
            }
        } else {
            base
        }
    } else if off + 0x38 <= r.len() && le64(r, off + 16) == 0 {
        let flags = le16(r, off + 12);
        let physical = if flags & 0x0001 != 0 || flags & 0x8000 != 0 {
            if off + 0x48 <= r.len() {
                le64(r, off + 0x40)
            } else {
                0
            }
        } else {
            le64(r, off + 0x28)
        };
        FileRecordBase {
            logical_size: le64(r, off + 0x30),
            physical_size: if physical > 0 {
                physical
            } else {
                base.physical_size
            },
            ..base
        }
    } else {
        base
    }
}

/// What `$REPARSE_POINT` says: the tag. A file compressed by the system counts as compressed.
pub open spec fn with_reparse_point(r: Seq<u8>, off: int, base: FileRecordBase) -> FileRecordBase {
    let at = value_at(r, off);
    if at + 4 <= r.len() {
        let tag = le32(r, at);
        FileRecordBase {
            reparse_tag: tag,
            attributes: if tag == IO_REPARSE_TAG_WOF {
                base.attributes | FILE_ATTRIBUTE_COMPRESSED
            } else {
                base.attributes
            },
            ..base
        }
    } else {
        base
    }
}

/// What one attribute adds.
pub open spec fn with_attribute(r: Seq<u8>, off: int, is_dir: bool, g: Gathered) -> Gathered {
    let kind = le32(r, off);
    let resident = r[off + 8] == 0;
    if kind == ATTR_STANDARD_INFORMATION && resident && off + 22 <= r.len() {
        Gathered { base: with_standard_information(r, off, is_dir, g.base), ..g }
    } else if kind == ATTR_FILE_NAME && resident && off + 22 <= r.len() {
        match file_name(r, off) {
            Some(link) => Gathered { links: g.links.push(link), ..g },
            None => g,
        }
    } else if kind == ATTR_DATA {
        Gathered { base: with_data(r, off, g.base), ..g }
    } else if kind == ATTR_REPARSE_POINT && resident && off + 22 <= r.len() {
        Gathered { base: with_reparse_point(r, off, g.base), ..g }
    } else {
        g
    }
}

/// What the attributes from an offset on add, up to the end mark or to the first one that does
/// not fit.
pub open spec fn with_attributes(r: Seq<u8>, off: int, is_dir: bool, g: Gathered) -> Gathered
    decreases r.len() - off,
{
    if off + 16 > r.len() || le32(r, off) == ATTR_END {
        g
    } else {
        let len = le32(r, off + 4) as int;
        if len == 0 || off + len > r.len() {
            g
        } else {
            with_attributes(r, off + len, is_dir, with_attribute(r, off, is_dir, g))
        }
    }
}

/// The record that a record belongs to: the one it names, or itself.
pub open spec fn base_record_of(b: Seq<u8>, current: u64) -> u64 {
    if le64(b, 32) > 0 {
        record_of(le64(b, 32))
    } else {
        current
    }
}

/// A table of names with names of one file added.
pub open spec fn with_links(
    children: Map<u64, Seq<LinkView>>,
    links: Seq<(u64, Seq<char>)>,
    base_record: u64,
) -> Map<u64, Seq<LinkView>>
    decreases links.len(),
{
    if links.len() == 0 {
        children
    } else {
        let m = with_links(children, links.drop_last(), base_record);
        let (parent, name) = links.last();
        let there = if m.contains_key(parent) {
            m[parent]
        } else {
            Seq::empty()
        };
        m.insert(parent, there.push(LinkView { name, base_record }))
    }
}

/// Whether bytes begin like a file record.
pub open spec fn is_file_record(b: Seq<u8>) -> bool {
    b.len() >= 48 && b[0] == 0x46 && b[1] == 0x49 && b[2] == 0x4C && b[3] == 0x45
}

/// What has been gathered once a record was read as well.
pub open spec fn with_record(ctx: ContextView, b: Seq<u8>, current: u64, sector: int) -> ContextView {
    if !is_file_record(b) {
        ctx
    } else {
        match fixup(b, sector) {
            Fixup::Unreadable(_) => ContextView {
                fixup_unreadable: ctx.fixup_unreadable + 1,
                ..ctx
            },
            Fixup::Mismatch(_) => ContextView { fixup_failures: ctx.fixup_failures + 1, ..ctx },
            Fixup::Whole(r) => {
                let flags = le16(b, 22);
                let base_record = base_record_of(b, current);
                if flags & 0x0001 == 0 {
                    ctx
                } else {
                    let start = Gathered {
                        base: if ctx.records.contains_key(base_record) {
                            ctx.records[base_record]
                        } else {
                            blank_record()
                        },
                        links: Seq::empty(),
                    };
                    let g = with_attributes(r, le16(b, 20) as int, flags & 0x0002 != 0, start);
                    ContextView {
                        records: ctx.records.insert(base_record, g.base),
                        children: with_links(ctx.children, g.links, base_record),
                        ..ctx
                    }
                }
            },
        }
    }
}

fn read_standard_information(rec: &[u8], off: usize, is_dir: bool, base: FileRecordBase) -> (r:
    FileRecordBase)
    requires
        off + 22 <= rec@.len(),
    ensures
        r == with_standard_information(rec@, off as int, is_dir, base),
{
    let len: usize = rec.len();
    let value: u32 = read32(rec, off + 16);
    let skip: usize = read16(rec, off + 20) as usize;
    if !room(len, off, skip) || !room(len, off + skip, 0x24) || value < 0x24 {
        return base;
    }
    let at: usize = off + skip;
    let mut flags: u32 = read32(rec, at + 0x20);
    if is_dir {
        flags = flags | FILE_ATTRIBUTE_DIRECTORY;
    }
    FileRecordBase {
        created_ft: read64(rec, at),
        last_modified_ft: read64(rec, at + 0x08),
        accessed_ft: read64(rec, at + 0x18),
        attributes: if flags == 0 {
            FILE_ATTRIBUTE_NORMAL
        } else {
            flags
        },
        ..base
    }
}

fn read_file_name(rec: &[u8], off: usize) -> (r: Option<(u64, String)>)
    requires
        off + 22 <= rec@.len(),
    ensures
        match (r, file_name(rec@, off as int)) {
            (Some(a), Some(b)) => a.0 == b.0 && a.1@ == b.1,
            (None, None) => true,
            _ => false,
        },
{
    let len: usize = rec.len();
    let value: u32 = read32(rec, off + 16);
    let skip: usize = read16(rec, off + 20) as usize;
    if !room(len, off, skip) || !room(len, off + skip, 0x42) || value < 0x42 {
        return None;
    }
    let at: usize = off + skip;
    let parent: u64 = read64(rec, at) % 0x1_0000_0000_0000;
    let namespace: u8 = rec[at + 0x41];
    let n: usize = rec[at + 0x40] as usize;
    if namespace == 2 || n == 0 || !room(len, at + 0x42, n * 2) {
        return None;
    }
    let chars = read_units(rec, at + 0x42, n);
    let name = from_utf16_lossy(chars.as_slice());
    if str_eq(name.as_str(), ".") || str_eq(name.as_str(), "..") {
        return None;
    }
    Some((parent, name))
}

fn wof_stream(rec: &[u8], off: usize) -> (r: bool)
    requires
        off + 16 <= rec@.len(),
    ensures
        r == is_wof_stream(rec@, off as int),
{
    let len: usize = rec.len();
    let n: usize = rec[off + 9] as usize;
    let skip: usize = read16(rec, off + 10) as usize;
    if !room(len, off, skip) || !room(len, off + skip, n * 2) {
        return false;
    }
    let chars = read_units(rec, off + skip, n);
    let name = from_utf16_lossy(chars.as_slice());
    str_eq(name.as_str(), "WofCompressedData")
}

fn round_up(n: u32) -> (r: u64)
    ensures
        r == up_to_eight(n),
{
    (n as u64 + 7) / 8 * 8
}

fn read_data(rec: &[u8], off: usize, base: FileRecordBase) -> (r: FileRecordBase)
    requires
        off + 16 <= rec@.len(),
    ensures
        r == with_data(rec@, off as int, base),
{
    let len: usize = rec.len();
    let resident = rec[off + 8] == 0;
    if rec[off + 9] > 0 {
        if !wof_stream(rec, off) {
            return base;
        }
        if resident {
            if room(len, off, 20) {
                return FileRecordBase { physical_size: round_up(read32(rec, off + 16)), ..base };
            }
        } else if room(len, off, 0x30) && read64(rec, off + 16) == 0 {
            return FileRecordBase { physical_size: read64(rec, off + 0x28), ..base };
        }
        return base;
    }
    if resident {
        if room(len, off, 20) {
            let value: u32 = read32(rec, off + 16);
            return FileRecordBase {
                logical_size: value as u64,
                physical_size: round_up(value),
                ..base
            };
        }
    } else if room(len, off, 0x38) && read64(rec, off + 16) == 0 {
        let flags: u16 = read16(rec, off + 12);
        let physical: u64 = if flags & 0x0001 != 0 || flags & 0x8000 != 0 {
            if room(len, off, 0x48) {
                read64(rec, off + 0x40)
            } else {
                0
            }
        } else {
            read64(rec, off + 0x28)
        };
        return FileRecordBase {
            logical_size: read64(rec, off + 0x30),
            physical_size: if physical > 0 {
                physical
            } else {
                base.physical_size
            },
            ..base
        };
    }
    base
}

fn read_reparse_point(rec: &[u8], off: usize, base: FileRecordBase) -> (r: FileRecordBase)
    requires
        off + 22 <= rec@.len(),
    ensures
        r == with_reparse_point(rec@, off as int, base),
{
    let len: usize = rec.len();
    let skip: usize = read16(rec, off + 20) as usize;
    if !room(len, off, skip) || !room(len, off + skip, 4) {
        return base;
    }
    let tag: u32 = read32(rec, off + skip);
    FileRecordBase {
        reparse_tag: tag,
        attributes: if tag == IO_REPARSE_TAG_WOF {
            base.attributes | FILE_ATTRIBUTE_COMPRESSED
        } else {
            base.attributes
        },
        ..base
    }
}

spec fn link_pairs(v: Seq<(u64, String)>) -> Seq<(u64, Seq<char>)> {
    Seq::new(v.len(), |i: int| (v[i].0, v[i].1@))
}

/// Reads the attributes of a record from an offset on.
fn read_attributes(rec: &[u8], first: usize, is_dir: bool, base: FileRecordBase) -> (r: (
    FileRecordBase,
    Vec<(u64, String)>,
))
    ensures
        ({
            let g = with_attributes(
                rec@,
                first as int,
                is_dir,
                Gathered { base, links: Seq::empty() },
            );
            r.0 == g.base && link_pairs(r.1@) == g.links
        }),
{
    let len: usize = rec.len();
    let mut base = base;
    let mut links: Vec<(u64, String)> = Vec::new();
    let mut off: usize = first;
    let ghost goal = with_attributes(
        rec@,
        first as int,
        is_dir,
        Gathered { base, links: Seq::empty() },
    );
    assert(link_pairs(links@) =~= Seq::<(u64, Seq<char>)>::empty());
    while room(len, off, 16)
        invariant
            len == rec@.len(),
            goal == with_attributes(
                rec@,
                off as int,
                is_dir,
                Gathered { base, links: link_pairs(links@) },
            ),
        ensures
            goal.base == base,
            goal.links == link_pairs(links@),
        decreases len - off,
    {
        let kind: u32 = read32(rec, off);
        if kind == ATTR_END {
            break;
        }
        let attr_len: u32 = read32(rec, off + 4);
        if attr_len == 0 || attr_len as u64 > (len - off) as u64 {
            break;
        }
        let resident = rec[off + 8] == 0;
        let ghost before = Gathered { base, links: link_pairs(links@) };
        let ghost links0 = links@;
        if kind == ATTR_STANDARD_INFORMATION && resident && room(len, off, 22) {
            base = read_standard_information(rec, off, is_dir, base);
        } else if kind == ATTR_FILE_NAME && resident && room(len, off, 22) {
            if let Some(link) = read_file_name(rec, off) {
                links.push(link);
                assert(link_pairs(links@) =~= link_pairs(links0).push((link.0, link.1@)));
            }
        } else if kind == ATTR_DATA {
            base = read_data(rec, off, base);
        } else if kind == ATTR_REPARSE_POINT && resident && room(len, off, 22) {
            base = read_reparse_point(rec, off, base);
        }
        assert(with_attribute(rec@, off as int, is_dir, before) == (Gathered {
            base,
            links: link_pairs(links@),
        }));
        off = off + attr_len as usize;
    }
    (base, links)
}


proof fn lemma_links_step(
    children: Map<u64, Seq<LinkView>>,
    links: Seq<(u64, Seq<char>)>,
    base_record: u64,
    k: int,
)
    requires
        0 <= k < links.len(),
    ensures
        ({
            let m = with_links(children, links.take(k), base_record);
            let (parent, name) = links[k];
            let there = if m.contains_key(parent) {
                m[parent]
            } else {
                Seq::empty()
            };
            with_links(children, links.take(k + 1), base_record) == m.insert(
                parent,
                there.push(LinkView { name, base_record }),
            )
        }),
{
    assert(links.take(k + 1).drop_last() =~= links.take(k));
}

/// Adds the names of a file to a table of names.
fn add_links(
    table: &mut HashMap<u64, Vec<FileRecordName>>,
    links: Vec<(u64, String)>,
    base_record: u64,
)
    ensures
        children_view(final(table)@) == with_links(
            children_view(old(table)@),
            link_pairs(links@),
            base_record,
        ),
{
    let ghost start = children_view(table@);
    let ghost pairs = link_pairs(links@);
    let mut k: usize = 0;
    assert(pairs.take(0) =~= Seq::<(u64, Seq<char>)>::empty());
    while k < links.len()
        invariant
            k <= links@.len(),
            pairs == link_pairs(links@),
            children_view(table@) == with_links(start, pairs.take(k as int), base_record),
        decreases links.len() - k,
    {
        let ghost m = table@;
        let parent: u64 = links[k].0;
        let mut list = match table.remove(&parent) {
            Some(v) => v,
            None => Vec::new(),
        };
        let ghost list0 = list@;
        list.push(FileRecordName { name: links[k].1.clone(), base_record });
        let ghost list1 = list@;
        table.insert(parent, list);
        proof {
            lemma_links_step(start, pairs, base_record, k as int);
            let there = if children_view(m).contains_key(parent) {
                children_view(m)[parent]
            } else {
                Seq::empty()
            };
            assert(links_view(list0) =~= there);
            assert(links_view(list1) =~= there.push(
                LinkView { name: pairs[k as int].1, base_record },
            ));
            assert(children_view(table@) =~= children_view(m).insert(
                parent,
                there.push(LinkView { name: pairs[k as int].1, base_record }),
            ));
        }
        k += 1;
    }
    assert(pairs.take(k as int) =~= pairs);
}

/// Reads one record of the table: makes it whole, and gathers what its attributes say under
/// the record that it belongs to.
pub fn process_record(
    rec: &mut [u8],
    current_record: u64,
    ctx: &mut NtfsContext,
    bytes_per_sector: usize,
)
    requires
        bytes_per_sector >= 2,
        old(ctx).fixup_failures < u64::MAX,
        old(ctx).fixup_unreadable < u64::MAX,
    ensures
        final(ctx)@ == with_record(
            old(ctx)@,
            old(rec)@,
            current_record,
            bytes_per_sector as int,
        ),
        final(ctx).bytes_per_cluster == old(ctx).bytes_per_cluster,
        final(ctx).bytes_per_record == old(ctx).bytes_per_record,
        final(rec)@ == if is_file_record(old(rec)@) {
            fixup_bytes(fixup(old(rec)@, bytes_per_sector as int))
        } else {
            old(rec)@
        },
{
    if rec.len() < 48 || rec[0] != 0x46 || rec[1] != 0x49 || rec[2] != 0x4C || rec[3] != 0x45 {
        return;
    }
    let ghost b = rec@;
    let flags: u16 = read16(rec, 22);
    let first: usize = read16(rec, 20) as usize;
    let reference: u64 = read64(rec, 32);
    let base_record: u64 = if reference > 0 {
        reference % 0x1_0000_0000_0000
    } else {
        current_record
    };
    match apply_fixup(rec, bytes_per_sector) {
        FixupResult::Unreadable => {
            ctx.fixup_unreadable = ctx.fixup_unreadable + 1;
            return;
        },
        FixupResult::Mismatch => {
            ctx.fixup_failures = ctx.fixup_failures + 1;
            return;
        },
        FixupResult::Whole => {},
    }
    if flags & 0x0001 == 0 {
        return;
    }
    let base = match ctx.base_file_records.get(&base_record) {
        Some(r) => *r,
        None => FileRecordBase::default(),
    };
    let (base, links) = read_attributes(rec, first, flags & 0x0002 != 0, base);
    ctx.base_file_records.insert(base_record, base);
    add_links(&mut ctx.parent_to_children, links, base_record);
}

/// A run of clusters: the first virtual cluster, the first cluster on the volume, and how many.
pub type Run = (u64, i64, u64);

/// What a signed number is as an unsigned one of the same bits.
pub open spec fn bits_u64(n: int) -> u64 {
    (n % 0x1_0000_0000_0000_0000) as u64
}

/// The runs of the extents from number `i` up to `n`: each one goes from the virtual cluster
/// that the one before it ended at to its own end. Empty ones are left out, and nothing is
/// read beyond the end of the buffer.
pub open spec fn runs_from(buf: Seq<u8>, i: int, n: int, start: i64) -> Seq<Run>
    decreases n - i,
{
    if i >= n || (i + 1) * 16 > buf.len() - 16 {
        Seq::empty()
    } else {
        let next = le_i64(buf, 16 + i * 16);
        let count = bits_u64(next - start);
        let rest = runs_from(buf, i + 1, n, next);
        if count > 0 {
            seq![(bits_u64(start as int), le_i64(buf, 24 + i * 16), count)] + rest
        } else {
            rest
        }
    }
}

/// The runs in the buffer that the retrieval pointers of a file come in: their number, eight
/// bytes on the first virtual cluster, and from byte 16 on the extents of 16 bytes each.
pub open spec fn runs_of(buf: Seq<u8>) -> Seq<Run> {
    if buf.len() < 32 {
        Seq::empty()
    } else {
        runs_from(buf, 0, le32(buf, 0) as int, le_i64(buf, 8))
    }
}

pub fn as_bits(n: i64) -> (r: u64)
    ensures
        r == bits_u64(n as int),
{
    if n >= 0 {
        n as u64
    } else {
        (n + 0x7FFF_FFFF_FFFF_FFFF + 1) as u64 + 0x8000_0000_0000_0000
    }
}

/// Reads the runs out of the buffer that the retrieval pointers of a file come in.
pub fn parse_retrieval_pointers(buf: &[u8]) -> (runs: Vec<Run>)
    ensures
        runs@ == runs_of(buf@),
{
    let len: usize = buf.len();
    let mut runs: Vec<Run> = Vec::new();
    if len < 32 {
        return runs;
    }
    let n: u32 = read32(buf, 0);
    let mut start: i64 = read_i64(buf, 8);
    let mut i: u32 = 0;
    let mut at: usize = 16;
    assert(runs@ + runs_from(buf@, 0, n as int, start) =~= runs_of(buf@));
    while i < n && room(len, at, 16)
        invariant
            len == buf@.len(),
            len >= 32,
            i <= n,
            at == 16 + i * 16,
            at <= len,
            runs@ + runs_from(buf@, i as int, n as int, start) == runs_of(buf@),
        decreases n - i,
    {
        let next: i64 = read_i64(buf, at);
        let lcn: i64 = read_i64(buf, at + 8);
        let count: u64 = as_bits(next).wrapping_sub(as_bits(start));
        let ghost before = runs@;
        let ghost rest = runs_from(buf@, i + 1, n as int, next);
        proof {
            lemma_wrapped_difference(next, start);
        }
        if count > 0 {
            let run: Run = (as_bits(start), lcn, count);
            runs.push(run);
            assert(before.push(run) + rest =~= before + (seq![run] + rest));
        }
        start = next;
        at = at + 16;
        i += 1;
    }
    assert(runs@ + Seq::<Run>::empty() =~= runs@);
    runs
}

proof fn lemma_wrapped_difference(a: i64, b: i64)
    ensures
        vstd::wrapping::u64_specs::wrapping_sub(bits_u64(a as int), bits_u64(b as int))
            == bits_u64(a - b),
{
    let m = 0x1_0000_0000_0000_0000int;
    let x = bits_u64(a as int);
    let y = bits_u64(b as int);
    assert(x == if a >= 0 {
        a as int
    } else {
        a + m
    });
    assert(y == if b >= 0 {
        b as int
    } else {
        b + m
    });
}

/// A record that was torn while it was written, or is no longer in use, adds no file and no name:
/// what is known of all other files stays as it was.
pub proof fn law_torn_record_adds_nothing(ctx: ContextView, b: Seq<u8>, current: u64, sector: int)
    requires
        !(fixup(b, sector) is Whole) || le16(b, 22) & 0x0001 == 0,
    ensures
        with_record(ctx, b, current, sector).records == ctx.records,
        with_record(ctx, b, current, sector).children == ctx.children,
{
}

/// A record changes what is known of no other file than the one that it belongs to.
pub proof fn law_record_is_about_one_file(
    ctx: ContextView,
    b: Seq<u8>,
    current: u64,
    sector: int,
    other: u64,
)
    requires
        other != base_record_of(b, current),
    ensures
        with_record(ctx, b, current, sector).records.contains_key(other)
            == ctx.records.contains_key(other),
        ctx.records.contains_key(other) ==> with_record(ctx, b, current, sector).records[other]
            == ctx.records[other],
{
}

} // verus!
