//! Getting hold of the master file table: what to check, what to read next, and when to give
//! up and walk the directories instead.
//!
//! The volume itself is opened and read elsewhere. Everything that is decided on the way is
//! decided here: [`check_volume`] and [`next_pointer_buffer`] before the first read,
//! [`MftReader`] for the reads.

use std::collections::HashMap;

use vstd::prelude::*;
use vstd::slice::slice_subrange;
use vstd::string::*;

use crate::mft_scan::{
    children_view, parse_retrieval_pointers, process_record, runs_of, with_record, ContextView,
    LinkView, MftError, NtfsContext, Run,
};
use crate::text::{decimal, owned, push_decimal};

verus! {

/// What the file system says of a volume.
#[derive(Clone, Copy, Debug)]
pub struct VolumeData {
    pub bytes_per_cluster: u32,
    pub bytes_per_file_record: u32,
    pub bytes_per_sector: u32,
    pub mft_valid_data_length: i64,
}

/// The sizes that the reading goes by.
#[derive(Clone, Copy, Debug, PartialEq, Eq, Structural)]
pub struct Geometry {
    pub cluster: u32,
    pub record: u32,
    pub sector: u32,
}

impl Geometry {
    /// Clusters are not empty, records have 1024 bytes or more, and sectors 512 or more.
    pub open spec fn wf(&self) -> bool {
        self.cluster > 0 && self.record >= 1024 && self.sector >= 512
    }
}

/// How far getting at a volume got.
#[derive(Clone, Copy, Debug)]
pub enum VolumeReply {
    /// The volume could not be opened.
    NotOpened,
    /// It was opened, but does not say how it is laid out.
    NoData,
    /// It is laid out like this.
    Data(VolumeData),
}

/// The larger of two numbers.
pub open spec fn larger(a: u32, b: u32) -> u32 {
    if a < b {
        b
    } else {
        a
    }
}

/// A message with something in the middle.
pub open spec fn around(before: Seq<char>, middle: Seq<char>, after: Seq<char>) -> Seq<char> {
    before + middle + after
}

fn message(before: &str, middle: &str, after: &str) -> (e: MftError)
    ensures
        e.0@ == around(before@, middle@, after@),
{
    let mut s = owned(before);
    s.append(middle);
    s.append(after);
    MftError(s)
}

fn letter_text(c: char) -> (s: String)
    ensures
        s@ == seq![c],
{
    let mut s = String::new();
    s.push(c);
    assert(s@ =~= seq![c]);
    s
}

fn number_text(n: u64) -> (s: String)
    ensures
        s@ == decimal(n as nat),
{
    let mut s = String::new();
    push_decimal(&mut s, n);
    assert(s@ =~= decimal(n as nat));
    s
}

/// Whether a volume can be read, and by what sizes: those it gives, but records of at least
/// 1024 bytes and sectors of at least 512.
pub fn check_volume(drive_letter: char, reply: VolumeReply) -> (r: Result<Geometry, MftError>)
    ensures
        match reply {
            VolumeReply::NotOpened => r matches Err(e) && e.0@ == around(
                "无法打开卷设备 \\\\.\\"@,
                seq![drive_letter],
                ":（需要管理员权限）"@,
            ),
            VolumeReply::NoData => r matches Err(e) && e.0@ == around(
                "FSCTL_GET_NTFS_VOLUME_DATA 失败（"@,
                seq![drive_letter],
                " 可能不是 NTFS）"@,
            ),
            VolumeReply::Data(d) => if d.bytes_per_cluster == 0 {
                r matches Err(e) && e.0@ == around(
                    "FSCTL_GET_NTFS_VOLUME_DATA 返回的 BytesPerCluster 为 0（"@,
                    seq![drive_letter],
                    " 卷信息异常）"@,
                )
            } else {
                r matches Ok(g) && g.wf() && g == (Geometry {
                    cluster: d.bytes_per_cluster,
                    record: larger(d.bytes_per_file_record, 1024),
                    sector: larger(d.bytes_per_sector, 512),
                })
            },
        },
{
    let letter = letter_text(drive_letter);
    match reply {
        VolumeReply::NotOpened => Err(
            message("无法打开卷设备 \\\\.\\", letter.as_str(), ":（需要管理员权限）"),
        ),
        VolumeReply::NoData => Err(
            message(
                "FSCTL_GET_NTFS_VOLUME_DATA 失败（",
                letter.as_str(),
                " 可能不是 NTFS）",
            ),
        ),
        VolumeReply::Data(d) => {
            if d.bytes_per_cluster == 0 {
                return Err(
                    message(
                        "FSCTL_GET_NTFS_VOLUME_DATA 返回的 BytesPerCluster 为 0（",
                        letter.as_str(),
                        " 卷信息异常）",
                    ),
                );
            }
            let record: u32 = if d.bytes_per_file_record < 1024 {
                1024
            } else {
                d.bytes_per_file_record
            };
            let sector: u32 = if d.bytes_per_sector < 512 {
                512
            } else {
                d.bytes_per_sector
            };
            Ok(Geometry { cluster: d.bytes_per_cluster, record, sector })
        },
    }
}

/// The size of the first buffer for the retrieval pointers.
pub const FIRST_POINTER_BUFFER: usize = 544;

/// From this size on the buffer for the retrieval pointers does not grow any more.
pub const MAX_POINTER_BUFFER: usize = 0x400_0000;

/// The size of the buffer to try next where the last one was refused: twice as large if it was
/// too small and is not at the limit, otherwise none.
pub fn next_pointer_buffer(size: usize, too_small: bool) -> (r: Option<usize>)
    ensures
        r == if too_small && size < MAX_POINTER_BUFFER {
            Some((size * 2) as usize)
        } else {
            None
        },
{
    if too_small && size < MAX_POINTER_BUFFER {
        Some(size * 2)
    } else {
        None
    }
}

/// How getting the retrieval pointers ended.
pub enum PointerReply {
    /// The table could not be opened; the error code.
    NotOpened(u32),
    /// There are no pointers to be had.
    Failed,
    /// The buffer with the pointers.
    Buffer(Vec<u8>),
}

/// How many clusters a list of runs covers.
pub open spec fn cluster_total(runs: Seq<Run>) -> int
    decreases runs.len(),
{
    if runs.len() == 0 {
        0
    } else {
        cluster_total(runs.drop_last()) + runs.last().2
    }
}

/// How many bytes a list of runs covers.
pub open spec fn byte_total(runs: Seq<Run>, cluster: u32) -> int {
    cluster_total(runs) * cluster
}

fn covered_bytes(runs: &Vec<Run>, cluster: u32) -> (r: Option<u64>)
    requires
        cluster > 0,
    ensures
        match r {
            Some(n) => n == byte_total(runs@, cluster),
            None => byte_total(runs@, cluster) > u64::MAX,
        },
{
    let mut clusters: u64 = 0;
    let mut i: usize = 0;
    while i < runs.len()
        invariant
            i <= runs.len(),
            cluster > 0,
            clusters == cluster_total(runs@.take(i as int)),
        decreases runs.len() - i,
    {
        assert(runs@.take(i + 1).drop_last() =~= runs@.take(i as int));
        if runs[i].2 > u64::MAX - clusters {
            proof {
                lemma_cluster_prefix(runs@, i + 1);
                let t = cluster_total(runs@);
                assert(t * cluster >= t) by (nonlinear_arith)
                    requires
                        t >= 0,
                        cluster >= 1,
                ;
            }
            return None;
        }
        clusters = clusters + runs[i].2;
        i += 1;
    }
    assert(runs@.take(i as int) =~= runs@);
    clusters.checked_mul(cluster as u64)
}

proof fn lemma_cluster_prefix(runs: Seq<Run>, k: int)
    requires
        0 <= k <= runs.len(),
    ensures
        0 <= cluster_total(runs.take(k)) <= cluster_total(runs),
    decreases runs.len(),
{
    if k == runs.len() {
        assert(runs.take(k) =~= runs);
        if k > 0 {
            lemma_cluster_prefix(runs.drop_last(), k - 1);
        }
    } else {
        lemma_cluster_prefix(runs.drop_last(), k);
        assert(runs.drop_last().take(k) =~= runs.take(k));
    }
}

/// The largest piece that is read at once.
pub const CHUNK_SIZE: usize = 0x40_0000;

/// Progress is reported whenever this many more records have been read.
pub const PROGRESS_STEP: u64 = 50_000;

/// What has been gathered once the records in a piece of the table from offset `off` on were
/// read as well. The piece begins at byte `logical` of the table; what is left over at its end
/// is not a whole record.
pub open spec fn with_chunk(
    ctx: ContextView,
    b: Seq<u8>,
    logical: int,
    off: int,
    record: int,
    sector: int,
) -> ContextView
    decreases b.len() - off,
{
    if record <= 0 || off < 0 || off + record > b.len() {
        ctx
    } else {
        with_chunk(
            with_record(
                ctx,
                b.subrange(off, off + record),
                ((logical + off) / record) as u64,
                sector,
            ),
            b,
            logical,
            off + record,
            record,
            sector,
        )
    }
}

/// Where the reading stands: the run, how much of it is read, and how much of the table.
#[verifier::ext_equal]
pub struct Position {
    pub run: int,
    pub run_done: int,
    pub logical_done: int,
}

/// The position from which the next piece is read. Runs without clusters on the volume are
/// passed over; a run is left when it is read, or when the whole table is. The reading stops
/// at a run that lies where no offset reaches.
pub open spec fn settled(runs: Seq<Run>, cluster: u32, total: u64, p: Position) -> Position
    decreases runs.len() - p.run,
{
    if p.run < 0 || p.run >= runs.len() {
        p
    } else {
        let (vcn, lcn, clusters) = runs[p.run];
        let bytes = clusters * cluster;
        if lcn < 0 {
            settled(
                runs,
                cluster,
                total,
                Position {
                    run: p.run + 1,
                    run_done: 0,
                    logical_done: p.logical_done + bytes,
                },
            )
        } else if p.run_done < bytes && p.logical_done < total {
            if lcn * cluster + bytes > u64::MAX {
                Position { run: runs.len() as int, run_done: 0, ..p }
            } else {
                p
            }
        } else {
            settled(runs, cluster, total, Position { run: p.run + 1, run_done: 0, ..p })
        }
    }
}

proof fn lemma_settled_forward(runs: Seq<Run>, cluster: u32, total: u64, p: Position)
    ensures
        settled(runs, cluster, total, p).run >= p.run,
        settled(runs, cluster, total, p) == p && 0 <= p.run < runs.len() ==> runs[p.run].1 >= 0,
    decreases runs.len() - p.run,
{
    if 0 <= p.run < runs.len() {
        let bytes = runs[p.run].2 * cluster;
        if runs[p.run].1 < 0 {
            lemma_settled_forward(
                runs,
                cluster,
                total,
                Position {
                    run: p.run + 1,
                    run_done: 0,
                    logical_done: p.logical_done + bytes,
                },
            );
        } else if !(p.run_done < bytes && p.logical_done < total) {
            lemma_settled_forward(
                runs,
                cluster,
                total,
                Position { run: p.run + 1, run_done: 0, ..p },
            );
        }
    }
}

/// The master file table of a volume, being read.
pub struct MftReader {
    geometry: Geometry,
    runs: Vec<Run>,
    total: u64,
    run: usize,
    run_done: u64,
    logical_done: u64,
    records: u64,
    ctx: NtfsContext,
}

impl MftReader {
    pub closed spec fn geo(&self) -> Geometry {
        self.geometry
    }

    pub closed spec fn run_list(&self) -> Seq<Run> {
        self.runs@
    }

    /// How long the table is.
    pub closed spec fn length(&self) -> u64 {
        self.total
    }

    pub closed spec fn position(&self) -> Position {
        Position {
            run: self.run as int,
            run_done: self.run_done as int,
            logical_done: self.logical_done as int,
        }
    }

    /// How many records have been read.
    pub closed spec fn record_count(&self) -> u64 {
        self.records
    }

    /// What has been gathered.
    pub closed spec fn gathered(&self) -> ContextView {
        self.ctx@
    }

    /// The position lies within what the runs cover.
    pub closed spec fn wf(&self) -> bool {
        &&& self.geometry.wf()
        &&& byte_total(self.runs@, self.geometry.cluster) <= u64::MAX
        &&& self.run <= self.runs@.len()
        &&& self.run == self.runs@.len() ==> self.run_done == 0
        &&& self.run < self.runs@.len() ==> self.run_done <= self.runs@[self.run as int].2
            * self.geometry.cluster
        &&& self.run < self.runs@.len() && self.runs@[self.run as int].1 < 0 ==> self.run_done
            == 0
        &&& self.logical_done <= byte_total(
            self.runs@.take(self.run as int),
            self.geometry.cluster,
        ) + self.run_done
        &&& self.records * 1024 <= self.logical_done
        &&& self.ctx.fixup_failures <= self.records
        &&& self.ctx.fixup_unreadable <= self.records
        &&& self.ctx.bytes_per_cluster == self.geometry.cluster
        &&& self.ctx.bytes_per_record == self.geometry.record
    }

    /// Begins to read a table, given its length and where it lies on the volume. The runs have
    /// to cover the whole table.
    pub fn new(geometry: Geometry, mft_valid_data_length: i64, reply: PointerReply) -> (r: Result<
        Self,
        MftError,
    >)
        requires
            geometry.wf(),
        ensures
            match reply {
                PointerReply::NotOpened(code) => r matches Err(e) && e.0@ == around(
                    "无法打开 $MFT::$DATA（错误码 "@,
                    decimal(code as nat),
                    "），回退常规遍历"@,
                ),
                PointerReply::Failed => r matches Err(e) && e.0@
                    == "FSCTL_GET_RETRIEVAL_POINTERS 失败（拿不到 MFT 物理簇映射），回退常规遍历"@,
                PointerReply::Buffer(b) => {
                    let total = crate::mft_scan::bits_u64(mft_valid_data_length as int);
                    let covered = byte_total(runs_of(b@), geometry.cluster);
                    if total < geometry.record {
                        r matches Err(e) && e.0@ == around(
                            "$MFT 有效数据长度异常（"@,
                            decimal(total as nat),
                            " 字节），回退常规遍历"@,
                        )
                    } else if covered > u64::MAX {
                        r matches Err(e) && e.0@ == "MFT run 列表异常，回退常规遍历"@
                    } else if covered < total {
                        r matches Err(e) && e.0@ == around(
                            "MFT run 列表只覆盖 "@,
                            decimal(covered as nat).push('/') + decimal(total as nat),
                            " 字节（解析异常），回退常规遍历"@,
                        )
                    } else {
                        &&& r matches Ok(m)
                        &&& m.wf()
                        &&& m.geo() == geometry
                        &&& m.run_list() == runs_of(b@)
                        &&& m.length() == total
                        &&& m.position() == (Position { run: 0, run_done: 0, logical_done: 0 })
                        &&& m.record_count() == 0
                        &&& m.gathered() == (ContextView {
                            records: Map::empty(),
                            children: Map::empty(),
                            fixup_failures: 0,
                            fixup_unreadable: 0,
                        })
                    }
                },
            },
    {
        match reply {
            PointerReply::NotOpened(code) => {
                let text = number_text(code as u64);
                Err(message("无法打开 $MFT::$DATA（错误码 ", text.as_str(), "），回退常规遍历"))
            },
            PointerReply::Failed => Err(
                MftError(
                    owned(
                        "FSCTL_GET_RETRIEVAL_POINTERS 失败（拿不到 MFT 物理簇映射），回退常规遍历",
                    ),
                ),
            ),
            PointerReply::Buffer(b) => {
                let runs = parse_retrieval_pointers(b.as_slice());
                let total: u64 = crate::mft_scan::as_bits(mft_valid_data_length);
                if total < geometry.record as u64 {
                    let text = number_text(total);
                    return Err(
                        message("$MFT 有效数据长度异常（", text.as_str(), " 字节），回退常规遍历"),
                    );
                }
                match covered_bytes(&runs, geometry.cluster) {
                    None => Err(MftError(owned("MFT run 列表异常，回退常规遍历"))),
                    Some(covered) => {
                        if covered < total {
                            let mut text = number_text(covered);
                            text.push('/');
                            push_decimal(&mut text, total);
                            return Err(
                                message(
                                    "MFT run 列表只覆盖 ",
                                    text.as_str(),
                                    " 字节（解析异常），回退常规遍历",
                                ),
                            );
                        }
                        let ctx = NtfsContext {
                            base_file_records: HashMap::new(),
                            parent_to_children: HashMap::new(),
                            bytes_per_cluster: geometry.cluster,
                            bytes_per_record: geometry.record,
                            fixup_failures: 0,
                            fixup_unreadable: 0,
                        };
                        proof {
                            assert(children_view(ctx.parent_to_children@) =~= Map::<
                                u64,
                                Seq<LinkView>,
                            >::empty());
                            assert(runs@.take(0) =~= Seq::<Run>::empty());
                            assert(0 * geometry.cluster == 0);
                            if runs@.len() > 0 {
                                let n = runs@[0].2;
                                assert(n * geometry.cluster >= 0) by (nonlinear_arith)
                                    requires
                                        n >= 0,
                                        geometry.cluster >= 0,
                                ;
                            }
                        }
                        Ok(
                            MftReader {
                                geometry,
                                runs,
                                total,
                                run: 0,
                                run_done: 0,
                                logical_done: 0,
                                records: 0,
                                ctx,
                            },
                        )
                    },
                }
            },
        }
    }
}


/// A piece of the volume to read.
#[derive(Clone, Copy, Debug, PartialEq, Eq, Structural)]
pub struct ReadRequest {
    pub offset: u64,
    pub len: usize,
}

/// The piece to read at a position.
pub open spec fn request_at(runs: Seq<Run>, cluster: u32, p: Position) -> Option<ReadRequest> {
    if 0 <= p.run < runs.len() {
        let (vcn, lcn, clusters) = runs[p.run];
        let left = clusters * cluster - p.run_done;
        Some(
            ReadRequest {
                offset: (lcn * cluster + p.run_done) as u64,
                len: (if left < CHUNK_SIZE {
                    left
                } else {
                    CHUNK_SIZE as int
                }) as usize,
            },
        )
    } else {
        None
    }
}

proof fn lemma_run_bytes(runs: Seq<Run>, cluster: u32, i: int)
    requires
        0 <= i < runs.len(),
    ensures
        byte_total(runs.take(i + 1), cluster) == byte_total(runs.take(i), cluster) + runs[i].2
            * cluster,
        0 <= byte_total(runs.take(i), cluster),
        0 <= runs[i].2 * cluster,
        byte_total(runs.take(i + 1), cluster) <= byte_total(runs, cluster),
{
    assert(runs.take(i + 1).drop_last() =~= runs.take(i));
    let a = cluster_total(runs.take(i));
    let b = runs[i].2;
    let t = cluster_total(runs);
    let c = cluster_total(runs.take(i + 1));
    lemma_cluster_prefix(runs, i);
    lemma_cluster_prefix(runs, i + 1);
    assert((a + b) * cluster == a * cluster + b * cluster) by (nonlinear_arith);
    assert(a * cluster >= 0) by (nonlinear_arith)
        requires
            a >= 0,
            cluster >= 0,
    ;
    assert(b * cluster >= 0) by (nonlinear_arith)
        requires
            b >= 0,
            cluster >= 0,
    ;
    assert(c * cluster <= t * cluster) by (nonlinear_arith)
        requires
            c <= t,
            cluster >= 0,
    ;
}

impl MftReader {
    /// Everything but the position stays.
    pub open spec fn same_table(&self, other: &MftReader) -> bool {
        &&& self.geo() == other.geo()
        &&& self.run_list() == other.run_list()
        &&& self.length() == other.length()
    }

    /// Goes to the next piece of the table, and says where it lies.
    pub fn next_read(&mut self) -> (r: Option<ReadRequest>)
        requires
            old(self).wf(),
        ensures
            final(self).wf(),
            final(self).same_table(old(self)),
            final(self).gathered() == old(self).gathered(),
            final(self).record_count() == old(self).record_count(),
            final(self).position() == settled(
                old(self).run_list(),
                old(self).geo().cluster,
                old(self).length(),
                old(self).position(),
            ),
            r == request_at(
                final(self).run_list(),
                final(self).geo().cluster,
                final(self).position(),
            ),
    {
        let ghost goal = settled(self.runs@, self.geometry.cluster, self.total, self.position());
        while self.run < self.runs.len()
            invariant
                self.wf(),
                self.same_table(old(self)),
                self.gathered() == old(self).gathered(),
                self.record_count() == old(self).record_count(),
                goal == settled(
                    old(self).run_list(),
                    old(self).geo().cluster,
                    old(self).length(),
                    old(self).position(),
                ),
                goal == settled(
                    self.runs@,
                    self.geometry.cluster,
                    self.total,
                    self.position(),
                ),
            decreases self.runs@.len() - self.run,
        {
            let (_vcn, lcn, clusters) = self.runs[self.run];
            proof {
                lemma_run_bytes(self.runs@, self.geometry.cluster, self.run as int);
            }
            let cluster: u64 = self.geometry.cluster as u64;
            let bytes: u64 = clusters * cluster;
            if lcn < 0 {
                proof {
                    self.lemma_next_run();
                }
                self.logical_done = self.logical_done + bytes;
                self.run = self.run + 1;
                self.run_done = 0;
            } else if self.run_done < bytes && self.logical_done < self.total {
                match (lcn as u64).checked_mul(cluster) {
                    Some(start) if bytes <= u64::MAX - start => {
                        let left: u64 = bytes - self.run_done;
                        let len: usize = if left < CHUNK_SIZE as u64 {
                            left as usize
                        } else {
                            CHUNK_SIZE
                        };
                        return Some(ReadRequest { offset: start + self.run_done, len });
                    },
                    _ => {
                        proof {
                            self.lemma_last_run();
                        }
                        self.run = self.runs.len();
                        self.run_done = 0;
                        return None;
                    },
                }
            } else {
                proof {
                    self.lemma_next_run();
                }
                self.run = self.run + 1;
                self.run_done = 0;
            }
        }
        None
    }

    /// Takes the piece that was read at the position: reads the records in it, and goes on
    /// behind it. The number of records so far, where it is time to report it.
    pub fn accept(&mut self, chunk: &[u8]) -> (progress: Option<u64>)
        requires
            old(self).wf(),
            old(self).position() == settled(
                old(self).run_list(),
                old(self).geo().cluster,
                old(self).length(),
                old(self).position(),
            ),
            request_at(
                old(self).run_list(),
                old(self).geo().cluster,
                old(self).position(),
            ) matches Some(q) && chunk@.len() <= q.len,
        ensures
            final(self).wf(),
            final(self).same_table(old(self)),
            final(self).position() == (Position {
                run_done: old(self).position().run_done + chunk@.len(),
                logical_done: old(self).position().logical_done + chunk@.len(),
                ..old(self).position()
            }),
            final(self).gathered() == with_chunk(
                old(self).gathered(),
                chunk@,
                old(self).position().logical_done,
                0,
                old(self).geo().record as int,
                old(self).geo().sector as int,
            ),
            final(self).record_count() == old(self).record_count() + chunk@.len() / (
            old(self).geo().record as nat),
            progress == if old(self).record_count() / PROGRESS_STEP != final(self).record_count()
                / PROGRESS_STEP {
                Some(final(self).record_count())
            } else {
                None
            },
    {
        let record: usize = self.geometry.record as usize;
        let sector: usize = self.geometry.sector as usize;
        let len: usize = chunk.len();
        let before: u64 = self.records;
        let start: u64 = self.logical_done;
        let ghost p0 = self.position();
        proof {
            lemma_run_bytes(self.runs@, self.geometry.cluster, self.run as int);
            lemma_settled_forward(self.runs@, self.geometry.cluster, self.total, p0);
        }
        let ghost goal = with_chunk(
            self.ctx@,
            chunk@,
            start as int,
            0,
            record as int,
            sector as int,
        );
        let mut off: usize = 0;
        let mut n: u64 = 0;
        while len - off >= record
            invariant
                len == chunk@.len(),
                off <= len,
                record >= 1024,
                record == self.geometry.record,
                sector == self.geometry.sector,
                sector >= 512,
                off == n * record,
                self.records == before + n,
                before * 1024 <= start,
                start + len <= u64::MAX,
                self.ctx.fixup_failures <= self.records,
                self.ctx.fixup_unreadable <= self.records,
                self.ctx.bytes_per_cluster == self.geometry.cluster,
                self.ctx.bytes_per_record == self.geometry.record,
                *self == (MftReader { records: self.records, ctx: self.ctx, ..*old(self) }),
                goal == with_chunk(
                    self.ctx@,
                    chunk@,
                    start as int,
                    off as int,
                    record as int,
                    sector as int,
                ),
            decreases len - off,
        {
            let piece = slice_subrange(chunk, off, off + record);
            let mut rec = copy_bytes(piece);
            let number: u64 = (start + off as u64) / record as u64;
            proof {
                assert(n * 1024 <= n * record) by (nonlinear_arith)
                    requires
                        n >= 0,
                        record >= 1024,
                ;
                assert((n + 1) * record == n * record + record) by (nonlinear_arith);
            }
            process_record(rec.as_mut_slice(), number, &mut self.ctx, sector);
            self.records = self.records + 1;
            n = n + 1;
            off = off + record;
        }
        proof {
            assert(n * 1024 <= n * record) by (nonlinear_arith)
                requires
                    n >= 0,
                    record >= 1024,
            ;
            let rest = (len - off) as int;
            vstd::arithmetic::div_mod::lemma_fundamental_div_mod_converse(
                len as int,
                record as int,
                n as int,
                rest,
            );
        }
        self.run_done = self.run_done + len as u64;
        self.logical_done = start + len as u64;
        if before / PROGRESS_STEP != self.records / PROGRESS_STEP {
            Some(self.records)
        } else {
            None
        }
    }

    /// What was gathered, if the whole table was read.
    pub fn finish(self) -> (r: Result<NtfsContext, MftError>)
        requires
            self.wf(),
        ensures
            if self.position().logical_done < self.length() {
                r matches Err(e) && e.0@ == around(
                    "$MFT 读取中断（读到 "@,
                    decimal(self.position().logical_done as nat).push('/') + decimal(
                        self.length() as nat,
                    ),
                    " 字节），回退常规遍历"@,
                )
            } else {
                &&& r matches Ok(ctx)
                &&& ctx@ == self.gathered()
                &&& ctx.bytes_per_cluster == self.geo().cluster
                &&& ctx.bytes_per_record == self.geo().record
            },
    {
        if self.logical_done < self.total {
            let mut text = number_text(self.logical_done);
            text.push('/');
            push_decimal(&mut text, self.total);
            return Err(message("$MFT 读取中断（读到 ", text.as_str(), " 字节），回退常规遍历"));
        }
        Ok(self.ctx)
    }

    proof fn lemma_next_run(&self)
        requires
            self.wf(),
            self.run < self.runs@.len(),
        ensures
            ({
                let next = self.run + 1;
                let bytes = self.runs@[self.run as int].2 * self.geometry.cluster;
                &&& self.logical_done <= byte_total(
                    self.runs@.take(next as int),
                    self.geometry.cluster,
                )
                &&& self.run_done <= bytes
                &&& self.logical_done - self.run_done + bytes <= byte_total(
                    self.runs@.take(next as int),
                    self.geometry.cluster,
                )
                &&& byte_total(self.runs@.take(next as int), self.geometry.cluster) <= u64::MAX
                &&& next < self.runs@.len() ==> self.runs@[next as int].2 * self.geometry.cluster
                    >= 0
            }),
    {
        let i = self.run as int;
        lemma_run_bytes(self.runs@, self.geometry.cluster, i);
        if i + 1 < self.runs@.len() {
            lemma_run_bytes(self.runs@, self.geometry.cluster, i + 1);
        }
    }

    proof fn lemma_last_run(&self)
        requires
            self.wf(),
            self.run < self.runs@.len(),
        ensures
            self.logical_done <= byte_total(
                self.runs@.take(self.runs@.len() as int),
                self.geometry.cluster,
            ),
    {
        self.lemma_next_run();
        lemma_run_bytes(self.runs@, self.geometry.cluster, self.run as int);
        assert(self.runs@.take(self.runs@.len() as int) =~= self.runs@);
    }
}


fn copy_bytes(b: &[u8]) -> (r: Vec<u8>)
    ensures
        r@ == b@,
{
    let mut r: Vec<u8> = Vec::new();
    r.extend_from_slice(b);
    assert(r@ =~= b@);
    r
}

} // verus!
