//! What the bytes of a file record say, attribute by attribute, and what is gathered from them.

use vstd::prelude::*;

use crate::bytes::{le16, le32, le64, le_i64, units, utf16_lossy};
use crate::mft_scan::{
    base_record_of, fixup, fixup_bytes, fixup_from, runs_from, runs_of, up_to_eight, with_attribute,
    with_attributes, with_data, with_links, with_record, ContextView, FileRecordBase, Gathered, LinkView,
};

verus! {

/// The number in `n` bytes, the low byte first.
pub open spec fn number_at(b: Seq<u8>, at: int, n: nat) -> int
    decreases n,
{
    if n == 0 {
        0
    } else {
        b[at] + 256 * number_at(b, at + 1, (n - 1) as nat)
    }
}

pub proof fn lemma_numbers(b: Seq<u8>, at: int)
    ensures
        le16(b, at) == number_at(b, at, 2),
        le32(b, at) == number_at(b, at, 4),
        le64(b, at) == number_at(b, at, 8),
        le64(b, at) % 0x1_0000_0000_0000 == number_at(b, at, 6),
{
    reveal_with_fuel(number_at, 9);
}

/// What kind of attribute stands at an offset.
pub open spec fn kind_at(r: Seq<u8>, off: int) -> int {
    number_at(r, off, 4)
}

/// Whether the value of an attribute stands in the record itself.
pub open spec fn is_resident(r: Seq<u8>, off: int) -> bool {
    r[off + 8] == 0
}

/// The text of `n` units of UTF-16 from an offset on.
pub open spec fn text_at(r: Seq<u8>, at: int, n: int) -> Seq<char> {
    utf16_lossy(Seq::new(n as nat, |i: int| number_at(r, at + 2 * i, 2) as u16))
}

pub proof fn lemma_text(r: Seq<u8>, at: int, n: nat)
    ensures
        text_at(r, at, n as int) == utf16_lossy(units(r, at, n)),
{
    assert forall|i: int| 0 <= i < n implies #[trigger] number_at(r, at + 2 * i, 2) as u16 == units(
        r,
        at,
        n,
    )[i] by {
        lemma_numbers(r, at + 2 * i);
    }
    assert(Seq::new(n, |i: int| number_at(r, at + 2 * i, 2) as u16) =~= units(r, at, n));
}

/// Whether the attribute at an offset is the content of the file itself.
pub open spec fn is_content(r: Seq<u8>, off: int) -> bool {
    kind_at(r, off) == 0x80 && r[off + 9] == 0
}

/// Whether the attribute at an offset is the stream in which the system keeps the content of a
/// file that it compressed.
pub open spec fn is_system_compressed(r: Seq<u8>, off: int) -> bool {
    let at = off + number_at(r, off + 10, 2);
    kind_at(r, off) == 0x80 && r[off + 9] > 0 && at + 2 * r[off + 9] <= r.len() && text_at(
        r,
        at,
        r[off + 9] as int,
    ) == "WofCompressedData"@
}

/// Whether an attribute that is not resident is the first piece of its stream: its first virtual
/// cluster is 0.
pub open spec fn is_first_piece(r: Seq<u8>, off: int) -> bool {
    number_at(r, off + 16, 8) == 0
}

/// Whether the attribute at an offset is compressed or sparse.
pub open spec fn is_packed(r: Seq<u8>, off: int) -> bool {
    r[off + 12] % 2 == 1 || r[off + 13] >= 0x80
}

/// Whether a size is another rounded up to a multiple of eight.
pub open spec fn is_rounded(size: int, n: int) -> bool {
    size % 8 == 0 && n <= size < n + 8
}

/// What an attribute says of the sizes of a file, `a` before it and `b` after.
pub open spec fn says_sizes(r: Seq<u8>, off: int, a: FileRecordBase, b: FileRecordBase) -> bool {
    if is_content(r, off) && is_resident(r, off) && off + 20 <= r.len() {
        &&& b.logical_size == number_at(r, off + 16, 4)
        &&& is_rounded(b.physical_size as int, number_at(r, off + 16, 4))
    } else if is_content(r, off) && !is_resident(r, off) && off + 0x38 <= r.len()
        && is_first_piece(r, off) {
        &&& b.logical_size == number_at(r, off + 0x30, 8)
        &&& !is_packed(r, off) && number_at(r, off + 0x28, 8) > 0 ==> b.physical_size == number_at(
            r,
            off + 0x28,
            8,
        )
        &&& is_packed(r, off) && off + 0x48 <= r.len() && number_at(r, off + 0x40, 8) > 0
            ==> b.physical_size == number_at(r, off + 0x40, 8)
        &&& !is_packed(r, off) && number_at(r, off + 0x28, 8) == 0 ==> b.physical_size
            == a.physical_size
        &&& is_packed(r, off) && (off + 0x48 > r.len() || number_at(r, off + 0x40, 8) == 0)
            ==> b.physical_size == a.physical_size
    } else if is_system_compressed(r, off) && is_resident(r, off) && off + 20 <= r.len() {
        &&& b.logical_size == a.logical_size
        &&& is_rounded(b.physical_size as int, number_at(r, off + 16, 4))
    } else if is_system_compressed(r, off) && !is_resident(r, off) && off + 0x30 <= r.len()
        && is_first_piece(r, off) {
        &&& b.logical_size == a.logical_size
        &&& b.physical_size == number_at(r, off + 0x28, 8)
    } else {
        b.logical_size == a.logical_size && b.physical_size == a.physical_size
    }
}

/// Whether the value of a resident attribute of some kind holds at least `n` bytes.
pub open spec fn holds_value(r: Seq<u8>, off: int, kind: int, n: int) -> bool {
    kind_at(r, off) == kind && is_resident(r, off) && off + 22 <= r.len() && off + number_at(
        r,
        off + 20,
        2,
    ) + n <= r.len()
}

/// What an attribute says of the times of a file: those of creation, of the last change and of
/// the last access, which are the first, second and fourth in `$STANDARD_INFORMATION`.
pub open spec fn says_times(r: Seq<u8>, off: int, a: FileRecordBase, b: FileRecordBase) -> bool {
    if holds_value(r, off, 0x10, 0x24) && number_at(r, off + 16, 4) >= 0x24 {
        let at = off + number_at(r, off + 20, 2);
        &&& b.created_ft == number_at(r, at, 8)
        &&& b.last_modified_ft == number_at(r, at + 8, 8)
        &&& b.accessed_ft == number_at(r, at + 24, 8)
    } else {
        &&& b.created_ft == a.created_ft
        &&& b.last_modified_ft == a.last_modified_ft
        &&& b.accessed_ft == a.accessed_ft
    }
}

/// What an attribute says of the attributes and the tag of a file. A directory has the bit of a
/// directory, a file without any has that of a normal file, and one that the system compressed
/// that of a compressed file.
pub open spec fn says_attributes(
    r: Seq<u8>,
    off: int,
    is_dir: bool,
    a: FileRecordBase,
    b: FileRecordBase,
) -> bool {
    let at = off + number_at(r, off + 20, 2);
    if holds_value(r, off, 0x10, 0x24) && number_at(r, off + 16, 4) >= 0x24 {
        let flags = number_at(r, at + 32, 4);
        &&& b.reparse_tag == a.reparse_tag
        &&& is_dir ==> b.attributes == flags as u32 | 0x10
        &&& !is_dir && flags != 0 ==> b.attributes == flags
        &&& !is_dir && flags == 0 ==> b.attributes == 0x80
    } else if holds_value(r, off, 0xC0, 4) {
        &&& b.reparse_tag == number_at(r, at, 4)
        &&& b.reparse_tag == 0x8000_0017 ==> b.attributes == a.attributes | 0x800
        &&& b.reparse_tag != 0x8000_0017 ==> b.attributes == a.attributes
    } else {
        b.reparse_tag == a.reparse_tag && b.attributes == a.attributes
    }
}

/// What an attribute says of the names of a file: the directory in the low six bytes of its
/// reference, and the name. Short names, empty ones, and those of a directory itself and of its
/// parent do not count.
pub open spec fn says_names(
    r: Seq<u8>,
    off: int,
    a: Seq<(u64, Seq<char>)>,
    b: Seq<(u64, Seq<char>)>,
) -> bool {
    let at = off + number_at(r, off + 20, 2);
    let n = r[at + 0x40];
    let name = text_at(r, at + 0x42, n as int);
    if holds_value(r, off, 0x30, 0x42 + 2 * n) && number_at(r, off + 16, 4) >= 0x42 && n > 0 && r[at
        + 0x41] != 2 && name != "."@ && name != ".."@ {
        b == a.push((number_at(r, at, 6) as u64, name))
    } else {
        b == a
    }
}

/// What an attribute says of a file, `a` before it and `b` after.
#[verifier::opaque]
pub open spec fn says(r: Seq<u8>, off: int, is_dir: bool, a: Gathered, b: Gathered) -> bool {
    &&& says_sizes(r, off, a.base, b.base)
    &&& says_times(r, off, a.base, b.base)
    &&& says_attributes(r, off, is_dir, a.base, b.base)
    &&& says_names(r, off, a.links, b.links)
}

proof fn lemma_odd(n: u16)
    by (bit_vector)
    ensures
        n & 0x0001 != 0 <==> n % 2 == 1,
        n & 0x8000 != 0 <==> n >= 0x8000,
        n & 0x0002 != 0 <==> (n / 2) % 2 == 1,
{
}

proof fn lemma_packed(r: Seq<u8>, off: int)
    ensures
        is_packed(r, off) <==> le16(r, off + 12) & 0x0001 != 0 || le16(r, off + 12) & 0x8000 != 0,
{
    lemma_odd(le16(r, off + 12));
}

proof fn lemma_rounded(n: u32)
    ensures
        is_rounded(up_to_eight(n) as int, n as int),
{
}

#[verifier::rlimit(40)]
proof fn lemma_sizes(r: Seq<u8>, off: int, g: Gathered, h: Gathered)
    requires
        kind_at(r, off) == 0x80 ==> h.base == with_data(r, off, g.base),
        kind_at(r, off) != 0x80 ==> h.base.logical_size == g.base.logical_size
            && h.base.physical_size == g.base.physical_size,
    ensures
        says_sizes(r, off, g.base, h.base),
{
    lemma_numbers(r, off + 10);
    lemma_numbers(r, off + 16);
    lemma_numbers(r, off + 0x28);
    lemma_numbers(r, off + 0x30);
    lemma_numbers(r, off + 0x40);
    lemma_packed(r, off);
    lemma_rounded(le32(r, off + 16));
    lemma_text(r, off + number_at(r, off + 10, 2), r[off + 9] as nat);
}

#[verifier::rlimit(40)]
proof fn lemma_times(r: Seq<u8>, off: int, is_dir: bool, g: Gathered, h: Gathered)
    requires
        h == with_attribute(r, off, is_dir, g),
    ensures
        says_times(r, off, g.base, h.base),
        says_attributes(r, off, is_dir, g.base, h.base),
{
    lemma_numbers(r, off);
    lemma_numbers(r, off + 16);
    lemma_numbers(r, off + 20);
    let at = off + number_at(r, off + 20, 2);
    lemma_numbers(r, at);
    lemma_numbers(r, at + 8);
    lemma_numbers(r, at + 24);
    lemma_numbers(r, at + 32);
    let flags = le32(r, at + 32);
    assert(flags | 0x10u32 != 0) by (bit_vector);
}

#[verifier::rlimit(40)]
proof fn lemma_names(r: Seq<u8>, off: int, is_dir: bool, g: Gathered, h: Gathered)
    requires
        h == with_attribute(r, off, is_dir, g),
    ensures
        says_names(r, off, g.links, h.links),
{
    lemma_numbers(r, off);
    lemma_numbers(r, off + 16);
    lemma_numbers(r, off + 20);
    let at = off + number_at(r, off + 20, 2);
    lemma_numbers(r, at);
    lemma_text(r, at + 0x42, r[at + 0x40] as nat);
}

/// Reading an attribute gathers what its bytes say: a size from the first piece of the content
/// and from no later one, each time from its own place, and names with their directories.
/// Whatever the attribute does not speak of stays as it was.
pub proof fn law_attribute_is_read(r: Seq<u8>, off: int, is_dir: bool, g: Gathered)
    ensures
        says(r, off, is_dir, g, with_attribute(r, off, is_dir, g)),
{
    let h = with_attribute(r, off, is_dir, g);
    lemma_numbers(r, off);
    lemma_sizes(r, off, g, h);
    lemma_times(r, off, is_dir, g, h);
    lemma_names(r, off, is_dir, g, h);
    reveal(says);
}

/// Whether an attribute stands at an offset and fits the record.
pub open spec fn is_attribute(r: Seq<u8>, off: int) -> bool {
    &&& off + 16 <= r.len()
    &&& kind_at(r, off) != 0xFFFF_FFFF
    &&& 0 < number_at(r, off + 4, 4) <= r.len() - off
}

/// Whether the attributes of a record from an offset on stand at the given offsets: each begins
/// where the one before it ends. The last offset is the one where no attribute stands any more.
pub open spec fn is_walk(r: Seq<u8>, first: int, offs: Seq<int>) -> bool {
    &&& offs.len() > 0
    &&& offs[0] == first
    &&& forall|k: int| #![trigger offs[k]]
        0 <= k < offs.len() - 1 ==> is_attribute(r, offs[k]) && offs[k + 1] == offs[k] + number_at(
            r,
            offs[k] + 4,
            4,
        )
    &&& !is_attribute(r, offs.last())
}

/// Whether the attributes at the given offsets say what is gathered, step by step.
pub open spec fn is_reading(
    r: Seq<u8>,
    offs: Seq<int>,
    is_dir: bool,
    states: Seq<Gathered>,
) -> bool {
    &&& states.len() == offs.len()
    &&& forall|k: int| #![trigger states[k]]
        0 <= k < offs.len() - 1 ==> says(r, offs[k], is_dir, states[k], states[k + 1])
}

proof fn lemma_walk(r: Seq<u8>, first: int) -> (offs: Seq<int>)
    ensures
        is_walk(r, first, offs),
    decreases r.len() - first,
{
    if is_attribute(r, first) {
        let rest = lemma_walk(r, first + number_at(r, first + 4, 4));
        let offs = seq![first] + rest;
        assert forall|k: int| #![trigger offs[k]] 0 <= k < offs.len() - 1 implies is_attribute(
            r,
            offs[k],
        ) && offs[k + 1] == offs[k] + number_at(r, offs[k] + 4, 4) by {
            if k > 0 {
                assert(offs[k] == rest[k - 1]);
                assert(offs[k + 1] == rest[k]);
            }
        }
        offs
    } else {
        seq![first]
    }
}

proof fn lemma_next_attribute(r: Seq<u8>, off: int, is_dir: bool, g: Gathered)
    ensures
        is_attribute(r, off) ==> with_attributes(r, off, is_dir, g) == with_attributes(
            r,
            off + number_at(r, off + 4, 4),
            is_dir,
            with_attribute(r, off, is_dir, g),
        ),
        !is_attribute(r, off) ==> with_attributes(r, off, is_dir, g) == g,
{
    lemma_numbers(r, off);
    lemma_numbers(r, off + 4);
}

proof fn lemma_reading(
    r: Seq<u8>,
    offs: Seq<int>,
    k: int,
    is_dir: bool,
    g: Gathered,
) -> (states: Seq<Gathered>)
    requires
        is_walk(r, offs[0], offs),
        0 <= k < offs.len(),
    ensures
        is_reading(r, offs.skip(k), is_dir, states),
        states[0] == g,
        states.last() == with_attributes(r, offs[k], is_dir, g),
    decreases offs.len() - k,
{
    lemma_next_attribute(r, offs[k], is_dir, g);
    if k == offs.len() - 1 {
        seq![g]
    } else {
        let h = with_attribute(r, offs[k], is_dir, g);
        law_attribute_is_read(r, offs[k], is_dir, g);
        let rest = lemma_reading(r, offs, k + 1, is_dir, h);
        let states = seq![g] + rest;
        let here = offs.skip(k);
        assert forall|i: int| #![trigger states[i]] 0 <= i < here.len() - 1 implies says(
            r,
            here[i],
            is_dir,
            states[i],
            states[i + 1],
        ) by {
            if i > 0 {
                assert(states[i] == rest[i - 1]);
                assert(offs.skip(k + 1)[i - 1] == here[i]);
                assert(says(r, offs.skip(k + 1)[i - 1], is_dir, rest[i - 1], rest[i]));
            }
        }
        states
    }
}

/// Whether bytes are a record that is in use: they begin with `FILE`, and the lowest of the flags
/// at 22 is set.
pub open spec fn is_in_use(b: Seq<u8>) -> bool {
    &&& b.len() >= 48
    &&& b[0] == 'F' as u8
    &&& b[1] == 'I' as u8
    &&& b[2] == 'L' as u8
    &&& b[3] == 'E' as u8
    &&& b[22] % 2 == 1
}

/// Whether a record is that of a directory: the second of the flags at 22 is set.
pub open spec fn is_directory(b: Seq<u8>) -> bool {
    (b[22] / 2) % 2 == 1
}

/// What was known of the file that a record belongs to.
pub open spec fn known_before(ctx: ContextView, file: u64) -> FileRecordBase {
    if ctx.records.contains_key(file) {
        ctx.records[file]
    } else {
        FileRecordBase {
            logical_size: 0,
            physical_size: 0,
            last_modified_ft: 0,
            created_ft: 0,
            accessed_ft: 0,
            attributes: 0,
            reparse_tag: 0,
        }
    }
}

/// The file that a record belongs to: the one in the low six bytes of its reference, or its own
/// where it has none.
pub open spec fn is_owner(b: Seq<u8>, current: u64, file: u64) -> bool {
    &&& number_at(b, 32, 8) > 0 ==> file == number_at(b, 32, 6)
    &&& number_at(b, 32, 8) == 0 ==> file == current
}

/// The names among those that were read that stand in one directory.
pub open spec fn names_in(links: Seq<(u64, Seq<char>)>, dir: u64, file: u64) -> Seq<LinkView>
    decreases links.len(),
{
    if links.len() == 0 {
        Seq::empty()
    } else if links[0].0 == dir {
        seq![LinkView { name: links[0].1, base_record: file }] + names_in(links.skip(1), dir, file)
    } else {
        names_in(links.skip(1), dir, file)
    }
}

/// The names in a directory.
pub open spec fn listed_in(children: Map<u64, Seq<LinkView>>, dir: u64) -> Seq<LinkView> {
    if children.contains_key(dir) {
        children[dir]
    } else {
        Seq::empty()
    }
}

proof fn lemma_names_in_push(
    links: Seq<(u64, Seq<char>)>,
    link: (u64, Seq<char>),
    dir: u64,
    file: u64,
)
    ensures
        names_in(links.push(link), dir, file) == names_in(links, dir, file) + if link.0 == dir {
            seq![LinkView { name: link.1, base_record: file }]
        } else {
            Seq::empty()
        },
    decreases links.len(),
{
    let all = links.push(link);
    if links.len() == 0 {
        assert(all.skip(1) =~= Seq::<(u64, Seq<char>)>::empty());
        assert(names_in(all.skip(1), dir, file) =~= Seq::<LinkView>::empty());
        assert(names_in(all, dir, file) =~= names_in(links, dir, file) + if link.0 == dir {
            seq![LinkView { name: link.1, base_record: file }]
        } else {
            Seq::empty()
        });
    } else {
        lemma_names_in_push(links.skip(1), link, dir, file);
        assert(all.skip(1) =~= links.skip(1).push(link));
        assert(names_in(all, dir, file) =~= names_in(links, dir, file) + if link.0 == dir {
            seq![LinkView { name: link.1, base_record: file }]
        } else {
            Seq::empty()
        });
    }
}

/// Adding the names of a file puts each into the list of its directory, behind those that are
/// there, and changes no other list.
pub proof fn law_names_go_to_their_directories(
    children: Map<u64, Seq<LinkView>>,
    links: Seq<(u64, Seq<char>)>,
    file: u64,
    dir: u64,
)
    ensures
        listed_in(with_links(children, links, file), dir) == listed_in(children, dir) + names_in(
            links,
            dir,
            file,
        ),
        with_links(children, links, file).contains_key(dir) <==> children.contains_key(dir)
            || names_in(links, dir, file).len() > 0,
    decreases links.len(),
{
    if links.len() == 0 {
        assert(listed_in(children, dir) + Seq::<LinkView>::empty() =~= listed_in(children, dir));
    } else {
        let front = links.drop_last();
        law_names_go_to_their_directories(children, front, file, dir);
        law_names_go_to_their_directories(children, front, file, links.last().0);
        lemma_names_in_push(front, links.last(), dir, file);
        assert(front.push(links.last()) =~= links);
        assert(listed_in(with_links(children, links, file), dir) =~= listed_in(children, dir)
            + names_in(links, dir, file));
    }
}

/// Reading a whole record that is in use: what is known afterwards of the file that it belongs
/// to is what its attributes say, one after the other, beginning with what was known; the names
/// that they say are added to the lists of their directories; and nothing else changes.
pub proof fn law_record_is_read(
    ctx: ContextView,
    b: Seq<u8>,
    current: u64,
    sector: int,
    file: u64,
    offs: Seq<int>,
)
    requires
        is_in_use(b),
        fixup(b, sector) is Whole,
        is_owner(b, current, file),
        is_walk(fixup_bytes(fixup(b, sector)), number_at(b, 20, 2), offs),
    ensures
        exists|states: Seq<Gathered>| #[trigger]
            is_reading(fixup_bytes(fixup(b, sector)), offs, is_directory(b), states) && {
                let after = with_record(ctx, b, current, sector);
                &&& states[0] == Gathered { base: known_before(ctx, file), links: Seq::empty() }
                &&& after.records == ctx.records.insert(file, states.last().base)
                &&& forall|dir: u64| #[trigger]
                    listed_in(after.children, dir) == listed_in(ctx.children, dir) + names_in(
                        states.last().links,
                        dir,
                        file,
                    )
                &&& after.fixup_failures == ctx.fixup_failures
                &&& after.fixup_unreadable == ctx.fixup_unreadable
            },
{
    let r = fixup_bytes(fixup(b, sector));
    let after = with_record(ctx, b, current, sector);
    lemma_numbers(b, 20);
    lemma_numbers(b, 32);
    lemma_flags(b);
    let is_dir = is_directory(b);
    let start = Gathered { base: known_before(ctx, file), links: Seq::empty() };
    assert(file == base_record_of(b, current));
    let states = lemma_reading(r, offs, 0, is_dir, start);
    assert(offs.skip(0) =~= offs);
    assert forall|dir: u64| #[trigger]
        listed_in(after.children, dir) == listed_in(ctx.children, dir) + names_in(
            states.last().links,
            dir,
            file,
        ) by {
        law_names_go_to_their_directories(ctx.children, states.last().links, file, dir);
    }
}

proof fn lemma_flags(b: Seq<u8>)
    requires
        b.len() >= 24,
    ensures
        le16(b, 22) & 0x0001 != 0 <==> b[22] % 2 == 1,
        le16(b, 22) & 0x0002 != 0 <==> (b[22] / 2) % 2 == 1,
{
    let n = le16(b, 22);
    lemma_odd(n);
    assert(n == b[22] + b[23] * 0x100);
    assert(n % 2 == b[22] % 2);
    assert((n / 2) % 2 == (b[22] / 2) % 2);
}

/// The attributes of every record stand somewhere, at the one list of offsets that its bytes
/// give.
pub proof fn law_attributes_stand_in_one_row(r: Seq<u8>, first: int, a: Seq<int>, b: Seq<int>)
    requires
        is_walk(r, first, a),
        is_walk(r, first, b),
    ensures
        a == b,
        exists|offs: Seq<int>| is_walk(r, first, offs),
{
    lemma_same_walk(r, first, a, b, 0);
    if a.len() < b.len() {
        lemma_same_walk(r, first, a, b, a.len() - 1);
        assert(is_attribute(r, b[a.len() - 1]));
    }
    if b.len() < a.len() {
        lemma_same_walk(r, first, a, b, b.len() - 1);
        assert(is_attribute(r, a[b.len() - 1]));
    }
    assert forall|k: int| 0 <= k < a.len() implies a[k] == b[k] by {
        lemma_same_walk(r, first, a, b, k);
    }
    assert(a =~= b);
}

proof fn lemma_same_walk(r: Seq<u8>, first: int, a: Seq<int>, b: Seq<int>, k: int)
    requires
        is_walk(r, first, a),
        is_walk(r, first, b),
        0 <= k < a.len(),
        0 <= k < b.len(),
    ensures
        a[k] == b[k],
    decreases k,
{
    if k > 0 {
        lemma_same_walk(r, first, a, b, k - 1);
        assert(is_attribute(r, a[k - 1]));
        assert(is_attribute(r, b[k - 1]));
    }
}

/// Whether an attribute says nothing of the sizes of a file: it is no `$DATA`, it is another
/// stream than the content and than that of a file compressed by the system, or it is a later
/// piece of its stream.
pub open spec fn is_silent_on_sizes(r: Seq<u8>, off: int) -> bool {
    ||| kind_at(r, off) != 0x80
    ||| !is_content(r, off) && !is_system_compressed(r, off)
    ||| !is_resident(r, off) && !is_first_piece(r, off)
}

proof fn lemma_silent_rest(
    r: Seq<u8>,
    offs: Seq<int>,
    is_dir: bool,
    states: Seq<Gathered>,
    from: int,
    to: int,
)
    requires
        is_reading(r, offs, is_dir, states),
        0 <= from <= to < offs.len(),
        forall|k: int| from <= k < to ==> is_silent_on_sizes(r, #[trigger] offs[k]),
    ensures
        states[to].base.logical_size == states[from].base.logical_size,
        states[to].base.physical_size == states[from].base.physical_size,
    decreases to - from,
{
    if from < to {
        lemma_silent_rest(r, offs, is_dir, states, from, to - 1);
        assert(is_silent_on_sizes(r, offs[to - 1]));
        reveal(says);
        assert(says(r, offs[to - 1], is_dir, states[to - 1], states[to]));
    }
}

/// The sizes of a file whose content is not resident, neither compressed nor sparse, and whose
/// first piece is the last attribute that speaks of a size: the logical size is the number in
/// the eight bytes at 0x30 of that attribute, and the physical size, where it is not 0, the one
/// at 0x28. Later pieces of the content and other streams change neither.
pub proof fn law_sizes_of_plain_content(
    ctx: ContextView,
    b: Seq<u8>,
    current: u64,
    sector: int,
    file: u64,
    offs: Seq<int>,
    j: int,
)
    requires
        is_in_use(b),
        fixup(b, sector) is Whole,
        is_owner(b, current, file),
        is_walk(fixup_bytes(fixup(b, sector)), number_at(b, 20, 2), offs),
        0 <= j < offs.len() - 1,
        ({
            let r = fixup_bytes(fixup(b, sector));
            let off = offs[j];
            &&& is_content(r, off)
            &&& !is_resident(r, off)
            &&& is_first_piece(r, off)
            &&& !is_packed(r, off)
            &&& off + 0x38 <= r.len()
            &&& forall|k: int|
                j < k < offs.len() - 1 ==> is_silent_on_sizes(r, #[trigger] offs[k])
        }),
    ensures
        ({
            let r = fixup_bytes(fixup(b, sector));
            let after = with_record(ctx, b, current, sector);
            &&& after.records.contains_key(file)
            &&& after.records[file].logical_size == number_at(r, offs[j] + 0x30, 8)
            &&& number_at(r, offs[j] + 0x28, 8) > 0 ==> after.records[file].physical_size
                == number_at(r, offs[j] + 0x28, 8)
        }),
{
    let r = fixup_bytes(fixup(b, sector));
    let is_dir = is_directory(b);
    law_record_is_read(ctx, b, current, sector, file, offs);
    let after = with_record(ctx, b, current, sector);
    let states = choose|states: Seq<Gathered>| #[trigger]
        is_reading(r, offs, is_dir, states) && states[0] == (Gathered {
            base: known_before(ctx, file),
            links: Seq::empty(),
        }) && after.records == ctx.records.insert(file, states.last().base);
    assert(says(r, offs[j], is_dir, states[j], states[j + 1]));
    reveal(says);
    lemma_silent_rest(r, offs, is_dir, states, j + 1, offs.len() - 1);
}

/// A record none of whose attributes speaks of a size, such as one that holds later pieces of
/// the content alone, leaves both sizes of its file as they were.
pub proof fn law_later_pieces_leave_the_sizes(
    ctx: ContextView,
    b: Seq<u8>,
    current: u64,
    sector: int,
    file: u64,
    offs: Seq<int>,
)
    requires
        is_in_use(b),
        fixup(b, sector) is Whole,
        is_owner(b, current, file),
        is_walk(fixup_bytes(fixup(b, sector)), number_at(b, 20, 2), offs),
        forall|k: int|
            0 <= k < offs.len() - 1 ==> is_silent_on_sizes(
                fixup_bytes(fixup(b, sector)),
                #[trigger] offs[k],
            ),
    ensures
        with_record(ctx, b, current, sector).records.contains_key(file),
        with_record(ctx, b, current, sector).records[file].logical_size == known_before(
            ctx,
            file,
        ).logical_size,
        with_record(ctx, b, current, sector).records[file].physical_size == known_before(
            ctx,
            file,
        ).physical_size,
{
    let r = fixup_bytes(fixup(b, sector));
    let is_dir = is_directory(b);
    law_record_is_read(ctx, b, current, sector, file, offs);
    let after = with_record(ctx, b, current, sector);
    let states = choose|states: Seq<Gathered>| #[trigger]
        is_reading(r, offs, is_dir, states) && states[0] == (Gathered {
            base: known_before(ctx, file),
            links: Seq::empty(),
        }) && after.records == ctx.records.insert(file, states.last().base);
    lemma_silent_rest(r, offs, is_dir, states, 0, offs.len() - 1);
}

/// Where the update sequence of a record stands.
pub open spec fn sequence_at(b: Seq<u8>) -> int {
    number_at(b, 4, 2)
}

/// How many numbers an update sequence has: the one that every sector ends with, and the real
/// ends of the sectors.
pub open spec fn sequence_len(b: Seq<u8>) -> int {
    number_at(b, 6, 2)
}

/// Whether sector number `i`, from 1 on, lies in a record and ends with the first number of the
/// update sequence.
pub open spec fn is_stamped(b: Seq<u8>, sector: int, i: int) -> bool {
    let at = sequence_at(b);
    i * sector <= b.len() && b[i * sector - 2] == b[at] && b[i * sector - 1] == b[at + 1]
}

/// Whether a byte is one of the last two of one of the sectors 1 up to `n`, `n` not among them.
pub open spec fn is_sector_end(p: int, sector: int, n: int) -> bool {
    exists|i: int| 1 <= i < n && (p == #[trigger] (i * sector) - 2 || p == i * sector - 1)
}

/// Whether the ends of the sectors 1 up to `n` of a record are put back, `n` not among them, and
/// all else is as it was.
pub open spec fn is_put_back(b: Seq<u8>, r: Seq<u8>, sector: int, n: int) -> bool {
    let at = sequence_at(b);
    &&& r.len() == b.len()
    &&& forall|i: int|
        1 <= i < n ==> r[#[trigger] (i * sector) - 2] == b[at + 2 * i] && r[i * sector - 1] == b[at
            + 2 * i + 1]
    &&& forall|p: int| 0 <= p < b.len() && !is_sector_end(p, sector, n) ==> #[trigger] r[p] == b[p]
}

proof fn lemma_apart(sector: int, i: int, j: int)
    requires
        sector >= 2,
        1 <= i < j,
    ensures
        sector <= i * sector,
        i * sector + sector <= j * sector,
{
    assert(sector <= i * sector) by (nonlinear_arith)
        requires
            sector >= 2,
            1 <= i,
    ;
    assert(i * sector + sector <= j * sector) by (nonlinear_arith)
        requires
            sector >= 2,
            i + 1 <= j,
    ;
}

proof fn lemma_put_back(b: Seq<u8>, c: Seq<u8>, sector: int, i: int)
    requires
        sector >= 2,
        8 <= sequence_at(b),
        sequence_at(b) + 2 * sequence_len(b) <= sector - 2,
        sequence_at(b) + 2 * sequence_len(b) <= b.len(),
        1 <= i <= sequence_len(b),
        is_put_back(b, c, sector, i),
        forall|j: int| 1 <= j < i ==> #[trigger] is_stamped(b, sector, j),
    ensures
        ({
            let at = sequence_at(b);
            let n = sequence_len(b);
            let f = fixup_from(c, at, n, sector, i, (b[at], b[at + 1]));
            &&& f is Whole <==> forall|j: int| 1 <= j < n ==> #[trigger] is_stamped(b, sector, j)
            &&& f is Whole ==> is_put_back(b, fixup_bytes(f), sector, n)
            &&& f is Mismatch ==> exists|j: int|
                1 <= j < n && j * sector <= b.len() && !#[trigger] is_stamped(b, sector, j)
            &&& f is Unreadable ==> exists|j: int|
                1 <= j < n && #[trigger] (j * sector) > b.len()
        }),
    decreases sequence_len(b) - i,
{
    let at = sequence_at(b);
    let n = sequence_len(b);
    let usn = (b[at], b[at + 1]);
    let f = fixup_from(c, at, n, sector, i, usn);
    if i < n {
        let end = i * sector;
        lemma_apart(sector, i, i + 1);
        if end > b.len() {
            assert(!is_stamped(b, sector, i));
        } else {
            assert(!is_sector_end(end - 2, sector, i) && !is_sector_end(end - 1, sector, i)) by {
                assert forall|j: int| 1 <= j < i implies #[trigger] (j * sector) <= end - sector by {
                    lemma_apart(sector, j, i);
                }
            }
            assert(c[end - 2] == b[end - 2] && c[end - 1] == b[end - 1]);
            if (c[end - 2], c[end - 1]) != usn {
                assert(!is_stamped(b, sector, i));
            } else {
                assert(is_stamped(b, sector, i));
                assert forall|p: int| 0 <= p < sector - 2 implies !is_sector_end(p, sector, i) by {
                    assert forall|j: int| 1 <= j < i implies #[trigger] (j * sector) >= sector by {
                        lemma_apart(sector, j, i);
                    }
                }
                assert(c[at + 2 * i] == b[at + 2 * i]);
                assert(c[at + 2 * i + 1] == b[at + 2 * i + 1]);
                let d = c.update(end - 2, c[at + 2 * i]);
                let e = d.update(end - 1, d[at + 2 * i + 1]);
                assert forall|j: int| 1 <= j < i + 1 implies e[#[trigger] (j * sector) - 2] == b[at
                    + 2 * j] && e[j * sector - 1] == b[at + 2 * j + 1] by {
                    if j < i {
                        lemma_apart(sector, j, i);
                    }
                }
                assert forall|p: int|
                    0 <= p < b.len() && !is_sector_end(p, sector, i + 1) implies #[trigger] e[p]
                    == b[p] by {
                    assert(!is_sector_end(p, sector, i)) by {
                        if is_sector_end(p, sector, i) {
                            let j = choose|j: int|
                                1 <= j < i && (p == #[trigger] (j * sector) - 2 || p == j * sector
                                    - 1);
                            assert(1 <= j < i + 1 && (p == (j * sector) - 2 || p == j * sector - 1));
                        }
                    }
                    if p == end - 2 || p == end - 1 {
                        assert(1 <= i < i + 1 && (p == (i * sector) - 2 || p == i * sector - 1));
                    }
                    assert(c[p] == b[p]);
                }
                lemma_put_back(b, e, sector, i + 1);
            }
        }
    }
}

/// A record is taken for whole just where each of its sectors ends with the number that the
/// record was written with. The real ends of the sectors are then put back, and nothing else is
/// changed. A record is torn where a sector ends with another number, and cannot be read where a
/// sector is missing. The update sequence stands before the end of the first sector.
pub proof fn law_whole_records_are_put_back(b: Seq<u8>, sector: int)
    requires
        sector >= 2,
        sequence_at(b) + 2 * sequence_len(b) <= sector - 2,
    ensures
        ({
            let n = sequence_len(b);
            let fits = n > 0 && sequence_at(b) >= 8 && sequence_at(b) + 2 * n <= b.len();
            let f = fixup(b, sector);
            &&& f is Whole <==> fits && forall|j: int|
                1 <= j < n ==> #[trigger] is_stamped(b, sector, j)
            &&& f is Whole ==> is_put_back(b, fixup_bytes(f), sector, n)
            &&& f is Mismatch ==> fits && exists|j: int|
                1 <= j < n && j * sector <= b.len() && !#[trigger] is_stamped(b, sector, j)
            &&& f is Unreadable ==> !fits || exists|j: int|
                1 <= j < n && #[trigger] (j * sector) > b.len()
        }),
{
    lemma_numbers(b, 4);
    lemma_numbers(b, 6);
    let n = sequence_len(b);
    if n > 0 && sequence_at(b) >= 8 && sequence_at(b) + 2 * n <= b.len() {
        assert(is_put_back(b, b, sector, 1));
        lemma_put_back(b, b, sector, 1);
    }
}

/// The virtual cluster at which extent number `i` begins: the number at 8 for the first one, and
/// the end of the one before it for any other.
pub open spec fn extent_start(buf: Seq<u8>, i: int) -> int {
    if i == 0 {
        number_at(buf, 8, 8)
    } else {
        number_at(buf, 16 * i, 8)
    }
}

pub proof fn lemma_signed(buf: Seq<u8>, at: int)
    ensures
        le_i64(buf, at) == if number_at(buf, at, 8) < 0x8000_0000_0000_0000 {
            number_at(buf, at, 8)
        } else {
            number_at(buf, at, 8) - 0x1_0000_0000_0000_0000
        },
        0 <= number_at(buf, at, 8) < 0x1_0000_0000_0000_0000,
{
    lemma_numbers(buf, at);
}

#[verifier::spinoff_prover]
#[verifier::rlimit(80)]
proof fn lemma_run_step(buf: Seq<u8>, i: int, n: int, start: int, next: int)
    requires
        0 <= i < n,
        buf.len() >= 16 + 16 * n,
        next == le_i64(buf, 16 + i * 16),
        0 <= start < next < 0x8000_0000_0000_0000,
    ensures
        runs_from(buf, i, n, start as i64) == seq![
            (start as u64, le_i64(buf, 24 + i * 16), (next - start) as u64),
        ] + runs_from(buf, i + 1, n, next as i64),
{
    assert((i + 1) * 16 <= buf.len() - 16);
}

proof fn lemma_runs(buf: Seq<u8>, i: int, n: int)
    requires
        0 <= i <= n,
        buf.len() >= 16 + 16 * n,
        forall|k: int| 0 <= k <= n ==> #[trigger] extent_start(buf, k) < 0x8000_0000_0000_0000,
        forall|k: int|
            0 <= k < n ==> #[trigger] extent_start(buf, k) < extent_start(buf, k + 1),
    ensures
        ({
            let runs = runs_from(buf, i, n, extent_start(buf, i) as i64);
            &&& runs.len() == n - i
            &&& forall|k: int|
                0 <= k < n - i ==> (#[trigger] runs[k]).0 == extent_start(buf, i + k) && runs[k].1
                    == le_i64(buf, 24 + 16 * (i + k)) && runs[k].2 == extent_start(buf, i + k + 1)
                    - extent_start(buf, i + k)
        }),
    decreases n - i,
{
    if i < n {
        lemma_signed(buf, 8);
        lemma_signed(buf, 16 * i);
        lemma_signed(buf, 16 + i * 16);
        assert(16 * (i + 1) == 16 + i * 16);
        let (start, next) = (extent_start(buf, i), extent_start(buf, i + 1));
        assert(start < next && next < 0x8000_0000_0000_0000);
        lemma_run_step(buf, i, n, start, next);
        lemma_runs(buf, i + 1, n);
        let runs = runs_from(buf, i, n, extent_start(buf, i) as i64);
        let rest = runs_from(buf, i + 1, n, extent_start(buf, i + 1) as i64);
        assert(runs.len() == rest.len() + 1);
        assert forall|k: int| 0 <= k < n - i implies (#[trigger] runs[k]).0 == extent_start(
            buf,
            i + k,
        ) && runs[k].1 == le_i64(buf, 24 + 16 * (i + k)) && runs[k].2 == extent_start(
            buf,
            i + k + 1,
        ) - extent_start(buf, i + k) by {
            if k > 0 {
                assert(runs[k] == rest[k - 1]);
            }
        }
    }
}

/// The runs of a file follow one another without a gap: there is one for each extent, it begins
/// where the one before it ends, and it lies at the cluster that the extent names. The extents
/// do not overlap and none is empty.
pub proof fn law_runs_follow_one_another(buf: Seq<u8>)
    requires
        buf.len() >= 32,
        buf.len() >= 16 + 16 * number_at(buf, 0, 4),
        forall|k: int|
            0 <= k <= number_at(buf, 0, 4) ==> #[trigger] extent_start(buf, k)
                < 0x8000_0000_0000_0000,
        forall|k: int|
            0 <= k < number_at(buf, 0, 4) ==> #[trigger] extent_start(buf, k) < extent_start(
                buf,
                k + 1,
            ),
    ensures
        runs_of(buf).len() == number_at(buf, 0, 4),
        forall|k: int| #![trigger runs_of(buf)[k]]
            0 <= k < runs_of(buf).len() ==> {
                let (first, cluster, count) = runs_of(buf)[k];
                &&& first == extent_start(buf, k)
                &&& first + count == extent_start(buf, k + 1)
                &&& cluster >= 0 ==> cluster == number_at(buf, 24 + 16 * k, 8)
                &&& cluster < 0 ==> cluster == number_at(buf, 24 + 16 * k, 8)
                    - 0x1_0000_0000_0000_0000
            },
{
    lemma_numbers(buf, 0);
    lemma_numbers(buf, 8);
    assert(extent_start(buf, 0) < 0x8000_0000_0000_0000);
    lemma_runs(buf, 0, number_at(buf, 0, 4));
    assert forall|k: int| #![trigger runs_of(buf)[k]] 0 <= k < runs_of(buf).len() implies {
        let (first, cluster, count) = runs_of(buf)[k];
        &&& first == extent_start(buf, k)
        &&& first + count == extent_start(buf, k + 1)
        &&& cluster >= 0 ==> cluster == number_at(buf, 24 + 16 * k, 8)
        &&& cluster < 0 ==> cluster == number_at(buf, 24 + 16 * k, 8) - 0x1_0000_0000_0000_0000
    } by {
        lemma_signed(buf, 24 + 16 * k);
        assert(runs_of(buf)[k].0 == extent_start(buf, 0 + k));
    }
}

} // verus!
