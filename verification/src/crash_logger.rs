//! The last lines of the log: what brought the program down.

use vstd::prelude::*;
use vstd::string::*;

use crate::text::{decimal, hex_fixed, owned, push_decimal, push_hex_fixed};

verus! {

/// An access to memory that is not there.
pub const ACCESS_VIOLATION: u32 = 0xC000_0005;

/// What is said of an exception code.
pub open spec fn description(code: u32) -> Seq<char> {
    if code == 0xC0000005 {
        "访问越界（读/写了无效的内存地址）"@
    } else if code == 0xC00000FD {
        "栈溢出（递归过深或单帧局部变量过大）"@
    } else if code == 0xC0000094 {
        "整数除零"@
    } else if code == 0xC0000096 {
        "执行了特权指令"@
    } else if code == 0xC0000374 {
        "堆损坏（内存被重复释放或越界写破坏）"@
    } else if code == 0xC0000409 {
        "栈缓冲区溢出保护触发（安全检查失败）"@
    } else if code == 0xC0000135 {
        "找不到依赖的 DLL"@
    } else if code == 0xC0000142 {
        "DLL 初始化失败"@
    } else if code == 0xE06D7363 {
        "C++ 异常（throw）"@
    } else {
        "未知异常类型"@
    }
}

/// What is said of an exception code.
pub fn describe(code: u32) -> (r: &'static str)
    ensures
        r@ == description(code),
{
    if code == 0xC0000005 {
        "访问越界（读/写了无效的内存地址）"
    } else if code == 0xC00000FD {
        "栈溢出（递归过深或单帧局部变量过大）"
    } else if code == 0xC0000094 {
        "整数除零"
    } else if code == 0xC0000096 {
        "执行了特权指令"
    } else if code == 0xC0000374 {
        "堆损坏（内存被重复释放或越界写破坏）"
    } else if code == 0xC0000409 {
        "栈缓冲区溢出保护触发（安全检查失败）"
    } else if code == 0xC0000135 {
        "找不到依赖的 DLL"
    } else if code == 0xC0000142 {
        "DLL 初始化失败"
    } else if code == 0xE06D7363 {
        "C++ 异常（throw）"
    } else {
        "未知异常类型"
    }
}

/// What an access violation tried to do, by the first word that comes with it.
pub open spec fn access_mode(kind: u64) -> Seq<char> {
    if kind == 0 {
        "读取"@
    } else if kind == 1 {
        "写入"@
    } else if kind == 8 {
        "执行（DEP 数据执行保护拦截）"@
    } else {
        "访问"@
    }
}

fn mode_text(kind: u64) -> (r: &'static str)
    ensures
        r@ == access_mode(kind),
{
    if kind == 0 {
        "读取"
    } else if kind == 1 {
        "写入"
    } else if kind == 8 {
        "执行（DEP 数据执行保护拦截）"
    } else {
        "访问"
    }
}

/// What is known of an exception.
#[derive(Clone, Copy)]
pub struct CrashFacts {
    pub code: u32,
    pub address: u64,
    pub thread_id: u32,
    /// The first two words that come with it, where there are so many.
    pub words: Option<(u64, u64)>,
}

/// The line for an exception, or for one of which nothing can be read.
pub open spec fn crash_text(facts: Option<CrashFacts>) -> Seq<char> {
    match facts {
        None => "==== CRASH 发生系统级异常，但异常信息不可读 ===="@,
        Some(f) => "==== CRASH [线程 ID "@ + decimal(f.thread_id as nat) + "] 异常 0x"@ + hex_fixed(
            f.code as nat,
            8,
        ) + "（"@ + description(f.code) + "），发生地址 0x"@ + hex_fixed(f.address as nat, 16)
            + access_text(f) + " ===="@,
    }
}

/// What is added for an access violation: what it tried to do, and where.
pub open spec fn access_text(f: CrashFacts) -> Seq<char> {
    match f.words {
        Some((kind, target)) => if f.code == ACCESS_VIOLATION {
            "，试图"@ + access_mode(kind) + " 0x"@ + hex_fixed(target as nat, 16)
        } else {
            Seq::empty()
        },
        None => Seq::empty(),
    }
}

fn push_access(s: &mut String, f: CrashFacts)
    ensures
        final(s)@ == old(s)@ + access_text(f),
{
    let ghost start = s@;
    if let Some((kind, target)) = f.words {
        if f.code == ACCESS_VIOLATION {
            s.append("，试图");
            s.append(mode_text(kind));
            s.append(" 0x");
            push_hex_fixed(s, target, 16);
            assert(s@ =~= start + access_text(f));
            return;
        }
    }
    assert(s@ =~= start + access_text(f));
}

/// The line for an exception, or for one of which nothing can be read.
pub fn crash_line(facts: Option<CrashFacts>) -> (r: String)
    ensures
        r@ == crash_text(facts),
{
    match facts {
        None => owned("==== CRASH 发生系统级异常，但异常信息不可读 ===="),
        Some(f) => {
            let mut s = owned("==== CRASH [线程 ID ");
            push_decimal(&mut s, f.thread_id as u64);
            s.append("] 异常 0x");
            push_hex_fixed(&mut s, f.code as u64, 8);
            s.append("（");
            s.append(describe(f.code));
            s.append("），发生地址 0x");
            push_hex_fixed(&mut s, f.address, 16);
            push_access(&mut s, f);
            s.append(" ====");
            s
        },
    }
}

/// What the log says once the program is told of exceptions, which only Windows does.
pub fn install(told: bool) -> (r: Option<&'static str>)
    ensures
        match r {
            Some(s) => told && s@
                == "[main] 系统级崩溃日志已安装（panic 之外的 SEH 异常也会写入 diskforge_log.txt）"@,
            None => !told,
        },
{
    if told {
        Some("[main] 系统级崩溃日志已安装（panic 之外的 SEH 异常也会写入 diskforge_log.txt）")
    } else {
        None
    }
}

/// Where a panic came from: a file, a line and a column.
pub struct PanicPlace<'a> {
    pub file: &'a str,
    pub line: u32,
    pub column: u32,
}

/// How the place of a panic is written.
pub open spec fn place_text(place: Option<PanicPlace<'_>>) -> Seq<char> {
    match place {
        Some(p) => p.file@ + ":"@ + decimal(p.line as nat) + ":"@ + decimal(p.column as nat),
        None => "<unknown location>"@,
    }
}

/// A text, or another where there is none.
pub open spec fn text_or(s: Option<&str>, other: Seq<char>) -> Seq<char> {
    match s {
        Some(t) => t@,
        None => other,
    }
}

/// The line for a panic. A thread may have no name, and what it panicked with may be no text.
pub fn panic_line(thread: Option<&str>, place: Option<PanicPlace<'_>>, message: Option<&str>) -> (r:
    String)
    ensures
        r@ == "==== PANIC [线程 "@ + text_or(thread, "<unnamed>"@) + "] "@ + place_text(place)
            + ": "@ + text_or(message, "<non-string panic payload>"@) + " ===="@,
{
    let mut s = owned("==== PANIC [线程 ");
    s.append(
        match thread {
            Some(t) => t,
            None => "<unnamed>",
        },
    );
    s.append("] ");
    let ghost start = s@;
    match &place {
        Some(p) => {
            s.append(p.file);
            s.append(":");
            push_decimal(&mut s, p.line as u64);
            s.append(":");
            push_decimal(&mut s, p.column as u64);
        },
        None => {
            s.append("<unknown location>");
        },
    }
    assert(s@ =~= start + place_text(place));
    s.append(": ");
    s.append(
        match message {
            Some(t) => t,
            None => "<non-string panic payload>",
        },
    );
    s.append(" ====");
    s
}

} // verus!
