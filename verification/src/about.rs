//! Who made the program, under what terms, and whether the user wants to be reminded of it.

use vstd::prelude::*;
use vstd::string::*;

use crate::text::owned;

verus! {

/// The name of the program.
pub const APP_NAME: &'static str = "DiskForge";

/// Its version.
pub const APP_VERSION: &'static str = "v0.1.0 Beta";

/// Its author.
pub const APP_AUTHOR: &'static str = "WMS";

/// Where to write to.
pub const APP_EMAIL: &'static str = "wumingshifn@gmail.com";

/// The copyright line.
pub const COPYRIGHT_LINE: &'static str = "版权所有 (C) 2026 WMS";

/// The terms.
pub const LICENSE_NOTICE: &'static str = "本软件是免费软件，依据 MIT 许可证授权发布：您可以自由地使用、复制、修改及分发本软件，但须保留上述版权声明与许可声明。本软件按“现状”提供，不附带任何明示或默示的担保——包括但不限于对适销性和特定用途适用性的担保。无论何种情况，作者或版权持有人均不对因使用本软件或本软件的其他交易而产生的任何索赔、损害或其他责任承担责任。";

/// What stands above the sponsor codes.
pub const SPONSOR_HINT: &'static str = "如果这个软件帮到了你，欢迎扫码请作者喝杯咖啡（金额随意，不强求）";

/// The file whose presence says that the user wants no reminder.
pub const SPONSOR_FLAG_FILE: &'static str = "sponsor_suppressed.flag";

/// The folder for it, below the user's application data.
pub const DATA_DIR_NAME: &'static str = "DiskForge";

/// Whether the user wants no reminder, by whether the flag file is there; without a folder for it
/// nothing is remembered.
pub open spec fn reminder_off(flag_exists: Option<bool>) -> bool {
    flag_exists == Some(true)
}

/// Whether the user wants no reminder. `flag_exists` says whether the flag file is there, and is
/// `None` where there is no folder for it: then nothing is remembered.
pub fn is_sponsor_suppressed(flag_exists: Option<bool>) -> (r: bool)
    ensures
        r == reminder_off(flag_exists),
{
    match flag_exists {
        Some(there) => there,
        None => false,
    }
}

/// What the flag file says, where there is a folder for it.
pub open spec fn flag_text(has_dir: bool, stamp: Seq<char>) -> Option<Seq<char>> {
    if has_dir {
        Some(
            APP_NAME@ + " "@ + APP_VERSION@ + " 赞助提示已选择\"不再提醒\"。\n写入时间: "@ + stamp
                + "\n删除本文件即可恢复首次启动提示。\n"@,
        )
    } else {
        None
    }
}

/// What to write into the flag file, where there is a folder for it. `stamp` is the time.
pub fn set_sponsor_suppressed(has_dir: bool, stamp: &str) -> (r: Option<String>)
    ensures
        crate::model::text_option(r) == flag_text(has_dir, stamp@),
{
    if !has_dir {
        return None;
    }
    let mut s = owned(APP_NAME);
    s.append(" ");
    s.append(APP_VERSION);
    s.append(" 赞助提示已选择\"不再提醒\"。\n写入时间: ");
    s.append(stamp);
    s.append("\n删除本文件即可恢复首次启动提示。\n");
    Some(s)
}

/// Whether the flag file is there once the user has asked for no reminder; `before` says whether
/// it was there, and is `None` where there is no folder for it. What is written goes into it.
pub open spec fn flag_after(before: Option<bool>, stamp: Seq<char>) -> Option<bool> {
    match (before, flag_text(before is Some, stamp)) {
        (Some(_), Some(_)) => Some(true),
        (found, _) => found,
    }
}

/// Once the user has asked for no reminder it stays off, however often they ask, as long as the
/// flag file is there; a flag that is missing, or a folder that is, leaves the reminder on.
pub proof fn law_reminder_stays_off(before: Option<bool>, stamp: Seq<char>, again: Seq<char>)
    ensures
        flag_text(before is Some, stamp) is Some <==> before is Some,
        before is Some ==> reminder_off(flag_after(before, stamp)),
        before is Some ==> reminder_off(flag_after(flag_after(before, stamp), again)),
        before is None ==> !reminder_off(flag_after(before, stamp)),
        reminder_off(Some(true)),
        !reminder_off(Some(false)),
        !reminder_off(None),
{
}

} // verus!
