//! Reading the entries of a directory in batches.
//!
//! The system fills a buffer with as many records as fit. Each record says where the next one
//! starts, and carries name, sizes, attributes, times and the number of the file.

use vstd::prelude::*;
use vstd::string::*;

use crate::bytes::{
    from_utf16_lossy, le32, le64, le_i64, read32, read64, read_i64, read_units, units, utf16_lossy,
};
use crate::fs_attrs::FILE_ATTRIBUTE_DIRECTORY;
use crate::text::str_eq;

verus! {

/// One entry of a directory.
pub struct RawDirEntry {
    pub name: String,
    pub is_dir: bool,
    pub logical: u64,
    pub physical: u64,
    pub attrs: u32,
    pub modified_ft: u64,
    pub created_ft: u64,
    pub accessed_ft: u64,
    /// The number of the file on its volume; 0 if not known.
    pub file_id: u64,
}

/// What a [`RawDirEntry`] holds.
#[verifier::ext_equal]
pub struct DirEntryView {
    pub name: Seq<char>,
    pub is_dir: bool,
    pub logical: u64,
    pub physical: u64,
    pub attrs: u32,
    pub modified_ft: u64,
    pub created_ft: u64,
    pub accessed_ft: u64,
    pub file_id: u64,
}

impl View for RawDirEntry {
    type V = DirEntryView;

    open spec fn view(&self) -> DirEntryView {
        DirEntryView {
            name: self.name@,
            is_dir: self.is_dir,
            logical: self.logical,
            physical: self.physical,
            attrs: self.attrs,
            modified_ft: self.modified_ft,
            created_ft: self.created_ft,
            accessed_ft: self.accessed_ft,
            file_id: self.file_id,
        }
    }
}

/// What a list of entries holds.
pub open spec fn dir_entries_view(v: Seq<RawDirEntry>) -> Seq<DirEntryView> {
    Seq::new(v.len(), |i: int| v[i]@)
}

/// The buffer that a batch is read into.
pub const BUF_SIZE: usize = 65_536;

/// The fixed part of a record, rounded up as the system does.
pub const HEADER_SIZE: usize = 112;

/// Where the name starts in a record.
pub const NAME_OFFSET: usize = 104;

/// A time that the system gives as a signed number; 0 for a negative one.
pub open spec fn filetime(t: i64) -> u64 {
    if t < 0 {
        0
    } else {
        t as u64
    }
}

/// A time that the system gives as a signed number; 0 for a negative one.
pub fn filetime_to_u64(t: i64) -> (r: u64)
    ensures
        r == filetime(t),
{
    if t < 0 {
        0
    } else {
        t as u64
    }
}

/// Where the next record starts, counted from this one; 0 for the last.
pub open spec fn next_offset(b: Seq<u8>, off: int) -> int {
    le32(b, off) as int
}

/// The length of the name of a record, in bytes.
pub open spec fn name_len(b: Seq<u8>, off: int) -> int {
    le32(b, off + 60) as int
}

/// Whether a record is in the buffer as a whole, its name too.
pub open spec fn record_fits(b: Seq<u8>, off: int) -> bool {
    off + HEADER_SIZE <= b.len() && off + HEADER_SIZE + name_len(b, off) <= b.len()
}

/// The name in a record.
pub open spec fn record_name(b: Seq<u8>, off: int) -> Seq<char> {
    utf16_lossy(units(b, off + NAME_OFFSET, (name_len(b, off) / 2) as nat))
}

/// The entry that a record stands for.
pub open spec fn record_entry(b: Seq<u8>, off: int) -> DirEntryView {
    DirEntryView {
        name: record_name(b, off),
        is_dir: le32(b, off + 56) & FILE_ATTRIBUTE_DIRECTORY != 0,
        logical: le64(b, off + 40),
        physical: le64(b, off + 48),
        attrs: le32(b, off + 56),
        modified_ft: filetime(le_i64(b, off + 24)),
        created_ft: filetime(le_i64(b, off + 8)),
        accessed_ft: filetime(le_i64(b, off + 16)),
        file_id: le64(b, off + 96),
    }
}

/// Whether a record stands for the directory itself or for the one above it.
pub open spec fn is_dot_name(name: Seq<char>) -> bool {
    name == "."@ || name == ".."@
}

/// Whether there is another record behind the one at `off`.
pub open spec fn goes_on(b: Seq<u8>, off: int) -> bool {
    next_offset(b, off) != 0 && off + next_offset(b, off) < b.len()
}

/// The entries in a buffer from a record on, up to the first record that is cut off.
pub open spec fn entries_from(b: Seq<u8>, off: int) -> Seq<DirEntryView>
    decreases b.len() - off,
{
    if off < 0 || !record_fits(b, off) {
        Seq::empty()
    } else {
        (if is_dot_name(record_name(b, off)) {
            Seq::empty()
        } else {
            seq![record_entry(b, off)]
        }) + (if goes_on(b, off) {
            entries_from(b, off + next_offset(b, off))
        } else {
            Seq::empty()
        })
    }
}

/// The end of a record, with some room for alignment.
pub open spec fn record_end(b: Seq<u8>, off: int) -> int {
    let end = off + HEADER_SIZE + name_len(b, off) + 16;
    if end < b.len() {
        end
    } else {
        b.len() as int
    }
}

/// How far the records that were read reach; `none` if there was none.
pub open spec fn parsed_end(b: Seq<u8>, off: int, none: int) -> int
    decreases b.len() - off,
{
    if off < 0 || !record_fits(b, off) {
        none
    } else if goes_on(b, off) {
        parsed_end(b, off + next_offset(b, off), record_end(b, off))
    } else {
        record_end(b, off)
    }
}

fn read_record(b: &[u8], off: usize, name: String) -> (r: RawDirEntry)
    requires
        record_fits(b@, off as int),
        name@ == record_name(b@, off as int),
    ensures
        r@ == record_entry(b@, off as int),
{
    let len: usize = b.len();
    let attrs: u32 = read32(b, off + 56);
    RawDirEntry {
        name,
        is_dir: attrs & FILE_ATTRIBUTE_DIRECTORY != 0,
        logical: read64(b, off + 40),
        physical: read64(b, off + 48),
        attrs,
        modified_ft: filetime_to_u64(read_i64(b, off + 24)),
        created_ft: filetime_to_u64(read_i64(b, off + 8)),
        accessed_ft: filetime_to_u64(read_i64(b, off + 16)),
        file_id: read64(b, off + 96),
    }
}

/// Reads the records of a buffer and appends their entries, but for `.` and `..`. Gives how far
/// the records reach, 0 if there is none.
pub fn parse_batch(b: &[u8], out: &mut Vec<RawDirEntry>) -> (end: usize)
    ensures
        dir_entries_view(final(out)@) == dir_entries_view(old(out)@) + entries_from(b@, 0),
        end == parsed_end(b@, 0, 0),
{
    let len: usize = b.len();
    let ghost start = dir_entries_view(out@);
    let mut off: usize = 0;
    let mut end: usize = 0;
    loop
        invariant_except_break
            off < len || off == 0,
            dir_entries_view(out@) + entries_from(b@, off as int) == start + entries_from(b@, 0),
            parsed_end(b@, off as int, end as int) == parsed_end(b@, 0, 0),
        invariant
            len == b@.len(),
            end <= len,
        ensures
            dir_entries_view(out@) == start + entries_from(b@, 0),
            end == parsed_end(b@, 0, 0),
        decreases len - off,
    {
        let ghost before = dir_entries_view(out@);
        if len < HEADER_SIZE || off > len - HEADER_SIZE {
            assert(before + Seq::<DirEntryView>::empty() =~= before);
            break;
        }
        let n: u32 = read32(b, off + 60);
        if n as usize > len - HEADER_SIZE - off {
            assert(before + Seq::<DirEntryView>::empty() =~= before);
            break;
        }
        let name = from_utf16_lossy(read_units(b, off + NAME_OFFSET, n as usize / 2).as_slice());
        assert(name@ == record_name(b@, off as int));
        let reach: usize = off + HEADER_SIZE + n as usize;
        end = if reach < len && len - reach > 16 {
            reach + 16
        } else {
            len
        };
        let ghost own = if is_dot_name(record_name(b@, off as int)) {
            Seq::<DirEntryView>::empty()
        } else {
            seq![record_entry(b@, off as int)]
        };
        if !str_eq(name.as_str(), ".") && !str_eq(name.as_str(), "..") {
            let ghost v = out@;
            let e = read_record(b, off, name);
            out.push(e);
            assert(dir_entries_view(out@) =~= dir_entries_view(v).push(e@));
            assert(dir_entries_view(out@) =~= before + own);
        } else {
            assert(before + own =~= before);
        }
        let next: u32 = read32(b, off);
        if next == 0 || next as usize >= len - off {
            assert(own + Seq::<DirEntryView>::empty() =~= own);
            break;
        }
        proof {
            let rest = entries_from(b@, off + next);
            assert(before + (own + rest) =~= (before + own) + rest);
        }
        off = off + next as usize;
    }
    end
}

/// The error that says that there are no more entries.
pub const ERROR_NO_MORE_FILES: u32 = 18;

/// What to do before asking for the next batch.
#[derive(Clone, Copy)]
pub struct BatchCall {
    /// Ask from the first entry on.
    pub restart: bool,
    /// How much of the buffer to set to zero first, so that nothing of the last batch is taken
    /// for a record.
    pub clear: usize,
}

/// The state of reading a directory.
pub struct DirBatches {
    out: Vec<RawDirEntry>,
    first: bool,
    written: usize,
}

/// What a [`DirBatches`] holds.
#[verifier::ext_equal]
pub struct BatchesView {
    pub entries: Seq<DirEntryView>,
    pub first: bool,
    /// How far the system may have written into the buffer.
    pub written: int,
}

/// The state after a batch.
pub open spec fn after_batch(s: BatchesView, b: Seq<u8>) -> BatchesView {
    let end = parsed_end(b, 0, 0);
    BatchesView {
        entries: s.entries + entries_from(b, 0),
        first: s.first,
        written: if end == 0 {
            b.len() as int
        } else if end > s.written {
            end
        } else {
            s.written
        },
    }
}

impl View for DirBatches {
    type V = BatchesView;

    closed spec fn view(&self) -> BatchesView {
        BatchesView {
            entries: dir_entries_view(self.out@),
            first: self.first,
            written: self.written as int,
        }
    }
}

impl DirBatches {
    /// Nothing read yet.
    pub fn new() -> (r: Self)
        ensures
            r@ == (BatchesView { entries: Seq::empty(), first: true, written: 0 }),
    {
        let r = DirBatches { out: Vec::new(), first: true, written: 0 };
        assert(r@.entries =~= Seq::<DirEntryView>::empty());
        r
    }

    /// What to do before asking for the next batch.
    pub fn next_call(&mut self) -> (r: BatchCall)
        ensures
            r == (BatchCall {
                restart: old(self)@.first,
                clear: if old(self)@.first {
                    0
                } else {
                    old(self)@.written as usize
                },
            }),
            final(self)@ == (BatchesView { first: false, ..old(self)@ }),
    {
        let r = BatchCall {
            restart: self.first,
            clear: if self.first {
                0
            } else {
                self.written
            },
        };
        self.first = false;
        r
    }

    /// Takes a batch that the system filled in.
    pub fn accept(&mut self, b: &[u8])
        ensures
            final(self)@ == after_batch(old(self)@, b@),
    {
        let end: usize = parse_batch(b, &mut self.out);
        if end == 0 {
            self.written = b.len();
        } else if end > self.written {
            self.written = end;
        }
    }

    /// The end, which the system reports as an error: all entries if there are no more, the
    /// error in every other case, even if some entries were read.
    pub fn finish(self, error: u32) -> (r: Result<Vec<RawDirEntry>, u32>)
        ensures
            match r {
                Ok(v) => error == ERROR_NO_MORE_FILES && dir_entries_view(v@) == self@.entries,
                Err(e) => e == error && error != ERROR_NO_MORE_FILES,
            },
    {
        if error == ERROR_NO_MORE_FILES {
            Ok(self.out)
        } else {
            Err(error)
        }
    }

    /// How many entries were read.
    pub fn count(&self) -> (n: usize)
        ensures
            n == self@.entries.len(),
    {
        self.out.len()
    }
}

proof fn lemma_no_dot_entries(b: Seq<u8>, off: int)
    ensures
        forall|i: int|
            0 <= i < entries_from(b, off).len() ==> !is_dot_name(
                (#[trigger] entries_from(b, off)[i]).name,
            ),
    decreases b.len() - off,
{
    if off >= 0 && record_fits(b, off) {
        let own = if is_dot_name(record_name(b, off)) {
            Seq::<DirEntryView>::empty()
        } else {
            seq![record_entry(b, off)]
        };
        let all = entries_from(b, off);
        if goes_on(b, off) {
            let next = off + next_offset(b, off);
            lemma_no_dot_entries(b, next);
            let rest = entries_from(b, next);
            assert(all == own + rest);
            assert forall|i: int| 0 <= i < all.len() implies !is_dot_name(
                (#[trigger] all[i]).name,
            ) by {
                if i >= own.len() {
                    assert(all[i] == rest[i - own.len()]);
                }
            }
        } else {
            assert(all =~= own);
        }
    }
}

/// A directory does not list itself nor the one above it.
pub proof fn law_no_dot_entries(b: Seq<u8>)
    ensures
        forall|i: int|
            0 <= i < entries_from(b, 0).len() ==> !is_dot_name(
                (#[trigger] entries_from(b, 0)[i]).name,
            ),
{
    lemma_no_dot_entries(b, 0);
}

/// A buffer that is all zero holds one record without a name and nothing behind it, so nothing
/// of an earlier batch can come out of the part that was cleared.
pub proof fn law_cleared_buffer_is_read_once(b: Seq<u8>)
    requires
        b.len() >= HEADER_SIZE,
        forall|i: int| 0 <= i < b.len() ==> b[i] == 0,
    ensures
        entries_from(b, 0).len() <= 1,
{
    assert(b[0] == 0 && b[1] == 0 && b[2] == 0 && b[3] == 0);
    assert(le32(b, 0) == 0);
    assert(!goes_on(b, 0));
}

} // verus!
