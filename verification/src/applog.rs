//! The diagnostic log: what its lines look like and when it starts over.

use vstd::prelude::*;
use vstd::string::*;

use crate::about::{APP_NAME, APP_VERSION};
use crate::file_ops::strings_view;
use crate::text::{chars_of, decimal, owned, push_decimal, starts_with};

verus! {

/// How large the log may get before it starts over.
pub const MAX_LOG_BYTES: u64 = 5_242_880;

/// What the targets of the program's own messages start with.
pub const OWN_CRATE_TARGET_PREFIX: &'static str = "diskforge";

/// Whether a message belongs to the program itself.
pub fn enabled(target: &str) -> (r: bool)
    ensures
        r == OWN_CRATE_TARGET_PREFIX@.is_prefix_of(target@),
{
    let v = chars_of(target);
    starts_with(&v, OWN_CRATE_TARGET_PREFIX)
}

/// A text in square brackets, a blank and another text.
pub open spec fn tagged(tag: Seq<char>, msg: Seq<char>) -> Seq<char> {
    "["@ + tag + "] "@ + msg
}

/// A line of the log: the time, then the message. The same form, with a level in place of the
/// time, has a message that comes with one.
pub fn log(tag: &str, msg: &str) -> (r: String)
    ensures
        r@ == tagged(tag@, msg@),
{
    let mut s = owned("[");
    s.append(tag);
    s.append("] ");
    s.append(msg);
    s
}

/// How the log is opened.
pub struct Opening {
    /// Whether what is in it goes.
    pub truncate: bool,
    /// How many bytes it then holds.
    pub size: u64,
}

/// How to open a log of a given size: one that is too large starts over.
pub fn init(existing_len: u64) -> (r: Opening)
    ensures
        r.truncate == (existing_len >= MAX_LOG_BYTES),
        r.size == if r.truncate {
            0
        } else {
            existing_len
        },
{
    let truncate = existing_len >= MAX_LOG_BYTES;
    Opening {
        truncate,
        size: if truncate {
            0
        } else {
            existing_len
        },
    }
}

/// The size of the log once a line of `line_len` bytes and a line break are in it.
pub open spec fn grown(size: u64, line_len: u64) -> u64 {
    if size + line_len + 1 > u64::MAX {
        u64::MAX
    } else {
        (size + line_len + 1) as u64
    }
}

/// The size of the log once a line is in it, and whether it has to start over before the line is
/// written. Where that succeeds, [`restarted`] gives its size.
pub fn write_line(size: u64, line_len: u64) -> (r: (u64, bool))
    ensures
        r.0 == grown(size, line_len),
        r.1 == (r.0 >= MAX_LOG_BYTES),
{
    let next: u64 = if line_len > u64::MAX - 1 || size > u64::MAX - 1 - line_len {
        u64::MAX
    } else {
        size + line_len + 1
    };
    (next, next >= MAX_LOG_BYTES)
}

/// The size that counts for a log that has started over.
pub fn restarted() -> (r: u64)
    ensures
        r == 0,
{
    0
}

/// While every restart succeeds, the log counts fewer bytes than the limit after each line.
pub proof fn law_log_stays_small(size: u64, line_len: u64)
    requires
        size < MAX_LOG_BYTES,
    ensures
        (if grown(size, line_len) >= MAX_LOG_BYTES {
            0
        } else {
            grown(size, line_len)
        }) < MAX_LOG_BYTES,
{
}

/// The line that says that the program has started. `unix_ts` is the time in seconds.
pub fn start_line(unix_ts: u64) -> (r: String)
    ensures
        r@ == "==== "@ + APP_NAME@ + " "@ + APP_VERSION@ + " 启动 (unix_ts="@ + decimal(
            unix_ts as nat,
        ) + ") ===="@,
{
    let mut s = owned("==== ");
    s.append(APP_NAME);
    s.append(" ");
    s.append(APP_VERSION);
    s.append(" 启动 (unix_ts=");
    push_decimal(&mut s, unix_ts);
    s.append(") ====");
    s
}

/// What the console shows of the log file that was opened, or could not be.
pub fn opened_line(path: &str, opened: bool, truncate: bool) -> (r: String)
    ensures
        r@ == if opened {
            "[applog] 诊断日志会写到: "@ + path@ + if truncate {
                "（已超过 5MB，重新开始）"@
            } else {
                ""@
            }
        } else {
            "[applog] 打开日志文件失败（仅控制台可见诊断信息）: "@ + path@
        },
{
    if opened {
        let mut s = owned("[applog] 诊断日志会写到: ");
        s.append(path);
        s.append(
            if truncate {
                "（已超过 5MB，重新开始）"
            } else {
                ""
            },
        );
        s
    } else {
        let mut s = owned("[applog] 打开日志文件失败（仅控制台可见诊断信息）: ");
        s.append(path);
        s
    }
}

/// The lines of a batch, each with the same time in front.
pub open spec fn batch_lines(stamp: Seq<char>, lines: Seq<Seq<char>>) -> Seq<Seq<char>> {
    Seq::new(lines.len(), |i: int| tagged(stamp, lines[i]))
}

/// The lines of a batch, each with the same time in front.
pub fn log_batch(stamp: &str, lines: &[String]) -> (r: Vec<String>)
    ensures
        strings_view(r@) == batch_lines(stamp@, strings_view(lines@)),
{
    let mut r: Vec<String> = Vec::new();
    let mut i: usize = 0;
    while i < lines.len()
        invariant
            i <= lines.len(),
            r@.len() == i,
            forall|k: int| 0 <= k < i ==> (#[trigger] r@[k])@ == tagged(stamp@, lines@[k]@),
        decreases lines.len() - i,
    {
        r.push(self::log(stamp, lines[i].as_str()));
        i += 1;
    }
    assert(strings_view(r@) =~= batch_lines(stamp@, strings_view(lines@)));
    r
}

} // verus!
