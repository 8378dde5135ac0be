//! Chinese UI strings.

use super::{push_html_escaped, spec_html_escape};
use crate::mms::MmsExpiry;
use crate::strutil::{
    new_string, push_decimal, push_decimal_pad2, push_str, spec_decimal, spec_decimal_pad2,
};
use vstd::prelude::*;

verus! {

/// Start-up announcement.
pub fn started() -> (r: &'static str)
    ensures
        r@ == "✅ smsgate 已启动"@,
{
    "✅ smsgate 已启动"
}

/// Warning sent when persistent storage could not be opened.
pub fn nvs_fail() -> (r: &'static str)
    ensures
        r@ == "⚠️ NVS 初始化失败，以无持久化模式运行。黑名单和游标将在重启后重置。"@,
{
    "⚠️ NVS 初始化失败，以无持久化模式运行。黑名单和游标将在重启后重置。"
}

/// Announcement before a reboot.
pub fn rebooting() -> (r: &'static str)
    ensures
        r@ == "♻️ 正在重启…"@,
{
    "♻️ 正在重启…"
}

/// Low free-heap warning.
pub fn low_heap(free_bytes: u32) -> (r: String)
    ensures
        r@ == "⚠️ 可用内存不足："@ + spec_decimal(free_bytes as nat) + " 字节"@,
{
    let mut out = new_string();
    push_str(&mut out, "⚠️ 可用内存不足：");
    push_decimal(&mut out, free_bytes as u64);
    push_str(&mut out, " 字节");
    assert(out@ =~= "⚠️ 可用内存不足："@ + spec_decimal(free_bytes as nat) + " 字节"@);
    out
}

/// Confirmation of a delivered outbound SMS.
pub fn sms_sent_ok(phone: &str) -> (r: String)
    ensures
        r@ == "✅ 短信已发出："@ + phone@,
{
    let mut out = new_string();
    push_str(&mut out, "✅ 短信已发出：");
    push_str(&mut out, phone);
    assert(out@ =~= "✅ 短信已发出："@ + phone@);
    out
}

/// Report of an outbound SMS that gave up.
pub fn sms_failed(phone: &str) -> (r: String)
    ensures
        r@ == "❌ 发往 "@ + phone@ + " 的短信发送失败（已达最大重试次数）"@,
{
    let mut out = new_string();
    push_str(&mut out, "❌ 发往 ");
    push_str(&mut out, phone);
    push_str(&mut out, " 的短信发送失败（已达最大重试次数）");
    assert(out@ =~= "❌ 发往 "@ + phone@ + " 的短信发送失败（已达最大重试次数）"@);
    out
}

/// Weak-signal warning.
pub fn low_signal(csq: u8) -> (r: String)
    ensures
        r@ == "⚠️ 蜂窝信号弱（CSQ "@ + spec_decimal(csq as nat) + "）"@,
{
    let mut out = new_string();
    push_str(&mut out, "⚠️ 蜂窝信号弱（CSQ ");
    push_decimal(&mut out, csq as u64);
    push_str(&mut out, "）");
    assert(out@ =~= "⚠️ 蜂窝信号弱（CSQ "@ + spec_decimal(csq as nat) + "）"@);
    out
}

/// Signal recovered notice.
pub fn signal_restored(csq: u8) -> (r: String)
    ensures
        r@ == "✅ 蜂窝信号已恢复（CSQ "@ + spec_decimal(csq as nat) + "）"@,
{
    let mut out = new_string();
    push_str(&mut out, "✅ 蜂窝信号已恢复（CSQ ");
    push_decimal(&mut out, csq as u64);
    push_str(&mut out, "）");
    assert(out@ =~= "✅ 蜂窝信号已恢复（CSQ "@ + spec_decimal(csq as nat) + "）"@);
    out
}

/// Network operator change notice.
pub fn operator_changed(old: &str, new: &str) -> (r: String)
    ensures
        r@ == "⚠️ 运营商变更："@ + old@ + " → "@ + new@,
{
    let mut out = new_string();
    push_str(&mut out, "⚠️ 运营商变更：");
    push_str(&mut out, old);
    push_str(&mut out, " → ");
    push_str(&mut out, new);
    assert(out@ =~= "⚠️ 运营商变更："@ + old@ + " → "@ + new@);
    out
}

/// Refusal of an update without WiFi.
pub fn ota_wifi_required() -> (r: &'static str)
    ensures
        r@ == "OTA 需要 WiFi。蜂窝回退模式不能下载固件。"@,
{
    "OTA 需要 WiFi。蜂窝回退模式不能下载固件。"
}

/// Update written; reboot follows.
pub fn ota_complete() -> (r: &'static str)
    ensures
        r@ == "✅ OTA 写入完成，正在重启到新固件。"@,
{
    "✅ OTA 写入完成，正在重启到新固件。"
}

/// Update failure report.
pub fn ota_failed(error: &str) -> (r: String)
    ensures
        r@ == "❌ OTA 失败："@ + error@,
{
    let mut out = new_string();
    push_str(&mut out, "❌ OTA 失败：");
    push_str(&mut out, error);
    assert(out@ =~= "❌ OTA 失败："@ + error@);
    out
}

/// Notice for an update file superseded by a newer one.
pub fn ota_ignored_stale(name: &str) -> (r: String)
    ensures
        r@ == "已忽略较旧的 OTA 文件："@ + name@ + "。本批次将使用最新的 OTA 文件。"@,
{
    let mut out = new_string();
    push_str(&mut out, "已忽略较旧的 OTA 文件：");
    push_str(&mut out, name);
    push_str(&mut out, "。本批次将使用最新的 OTA 文件。");
    assert(out@ =~= "已忽略较旧的 OTA 文件："@ + name@ + "。本批次将使用最新的 OTA 文件。"@);
    out
}

/// Incoming call notice.
pub fn incoming_call(display: &str) -> (r: String)
    ensures
        r@ == "📞 来电："@ + display@,
{
    let mut out = new_string();
    push_str(&mut out, "📞 来电：");
    push_str(&mut out, display);
    assert(out@ =~= "📞 来电："@ + display@);
    out
}

/// Operator name when none is known.
pub fn status_op_unknown() -> (r: &'static str)
    ensures
        r@ == "未知"@,
{
    "未知"
}

/// Registration state: registered.
pub fn status_reg_ok() -> (r: &'static str)
    ensures
        r@ == "已注册"@,
{
    "已注册"
}

/// Registration state: not registered.
pub fn status_reg_no() -> (r: &'static str)
    ensures
        r@ == "未注册"@,
{
    "未注册"
}

/// Forwarding state: on.
pub fn status_fwd_on() -> (r: &'static str)
    ensures
        r@ == "已启用"@,
{
    "已启用"
}

/// Forwarding state: paused.
pub fn status_fwd_off() -> (r: &'static str)
    ensures
        r@ == "已暂停"@,
{
    "已暂停"
}

/// Build identification line.
pub fn status_build(commit: &str) -> (r: String)
    ensures
        r@ == "🔖 版本："@ + commit@,
{
    let mut out = new_string();
    push_str(&mut out, "🔖 版本：");
    push_str(&mut out, commit);
    assert(out@ =~= "🔖 版本："@ + commit@);
    out
}

/// Usage of /send.
pub fn send_usage() -> (r: &'static str)
    ensures
        r@ == "用法：/send <号码> <消息内容>"@,
{
    "用法：/send <号码> <消息内容>"
}

/// Rejection of a malformed number.
pub fn send_invalid_number() -> (r: &'static str)
    ensures
        r@ == "无效号码"@,
{
    "无效号码"
}

/// Rejection of an empty message.
pub fn send_empty_body() -> (r: &'static str)
    ensures
        r@ == "消息内容为空"@,
{
    "消息内容为空"
}

/// Rejection of an over-long message.
pub fn send_too_long() -> (r: &'static str)
    ensures
        r@ == "消息过长（超过 10 条短信）"@,
{
    "消息过长（超过 10 条短信）"
}

/// Rate-limit refusal.
pub fn send_rate_limited() -> (r: &'static str)
    ensures
        r@ == "频率限制：每分钟最多发送 5 条 /send 命令。"@,
{
    "频率限制：每分钟最多发送 5 条 /send 命令。"
}

/// Empty log notice.
pub fn log_empty() -> (r: &'static str)
    ensures
        r@ == "暂无短信记录。"@,
{
    "暂无短信记录。"
}

/// Header of a log page.
pub fn log_header(page_len: usize, total: usize, offset: usize, _page_size: usize) -> (r: String)
    ensures
        r@ == "日志页：本页 "@ + spec_decimal(page_len as nat) + " 条，总计 "@ + spec_decimal(total as nat) + " 条，offset "@ + spec_decimal(offset as nat) + "。\n"@,
{
    let mut out = new_string();
    push_str(&mut out, "日志页：本页 ");
    push_decimal(&mut out, page_len as u64);
    push_str(&mut out, " 条，总计 ");
    push_decimal(&mut out, total as u64);
    push_str(&mut out, " 条，offset ");
    push_decimal(&mut out, offset as u64);
    push_str(&mut out, "。\n");
    assert(out@ =~= "日志页：本页 "@ + spec_decimal(page_len as nat) + " 条，总计 "@ + spec_decimal(total as nat) + " 条，offset "@ + spec_decimal(offset as nat) + "。\n"@);
    out
}

/// Log read failure.
pub fn log_read_failed(error: &str) -> (r: String)
    ensures
        r@ == "读取日志失败："@ + error@,
{
    let mut out = new_string();
    push_str(&mut out, "读取日志失败：");
    push_str(&mut out, error);
    assert(out@ =~= "读取日志失败："@ + error@);
    out
}

/// Label of the newer-page button.
pub fn log_button_newer() -> (r: &'static str)
    ensures
        r@ == "新日志"@,
{
    "新日志"
}

/// Label of the older-page button.
pub fn log_button_older() -> (r: &'static str)
    ensures
        r@ == "旧日志"@,
{
    "旧日志"
}

/// Usage of /block.
pub fn block_usage() -> (r: &'static str)
    ensures
        r@ == "用法：/block <号码>"@,
{
    "用法：/block <号码>"
}

/// Confirmation of a block.
pub fn block_ok(phone: &str) -> (r: String)
    ensures
        r@ == "已屏蔽："@ + phone@,
{
    let mut out = new_string();
    push_str(&mut out, "已屏蔽：");
    push_str(&mut out, phone);
    assert(out@ =~= "已屏蔽："@ + phone@);
    out
}

/// Empty block list notice.
pub fn blocklist_empty() -> (r: &'static str)
    ensures
        r@ == "屏蔽名单为空。"@,
{
    "屏蔽名单为空。"
}

/// Header of the block list.
pub fn blocklist_header(n: usize) -> (r: String)
    ensures
        r@ == "屏蔽名单（"@ + spec_decimal(n as nat) + " 个）：\n"@,
{
    let mut out = new_string();
    push_str(&mut out, "屏蔽名单（");
    push_decimal(&mut out, n as u64);
    push_str(&mut out, " 个）：\n");
    assert(out@ =~= "屏蔽名单（"@ + spec_decimal(n as nat) + " 个）：\n"@);
    out
}

/// Usage of /unblock.
pub fn unblock_usage() -> (r: &'static str)
    ensures
        r@ == "用法：/unblock <号码>"@,
{
    "用法：/unblock <号码>"
}

/// Unblock of a number that is not blocked.
pub fn unblock_not_found(phone: &str) -> (r: String)
    ensures
        r@ == phone@ + " 不在屏蔽名单中。"@,
{
    let mut out = new_string();
    push_str(&mut out, phone);
    push_str(&mut out, " 不在屏蔽名单中。");
    assert(out@ =~= phone@ + " 不在屏蔽名单中。"@);
    out
}

/// Confirmation of an unblock.
pub fn unblock_ok(phone: &str) -> (r: String)
    ensures
        r@ == "已解除屏蔽："@ + phone@,
{
    let mut out = new_string();
    push_str(&mut out, "已解除屏蔽：");
    push_str(&mut out, phone);
    assert(out@ =~= "已解除屏蔽："@ + phone@);
    out
}

/// Confirmation of a pause.
pub fn pause_ok(mins: u32) -> (r: String)
    ensures
        r@ == "转发已暂停 "@ + spec_decimal(mins as nat) + " 分钟。"@,
{
    let mut out = new_string();
    push_str(&mut out, "转发已暂停 ");
    push_decimal(&mut out, mins as u64);
    push_str(&mut out, " 分钟。");
    assert(out@ =~= "转发已暂停 "@ + spec_decimal(mins as nat) + " 分钟。"@);
    out
}

/// Resume while not paused.
pub fn resume_already_active() -> (r: &'static str)
    ensures
        r@ == "转发已处于启用状态。"@,
{
    "转发已处于启用状态。"
}

/// Confirmation of a resume.
pub fn resume_ok() -> (r: &'static str)
    ensures
        r@ == "转发已恢复。"@,
{
    "转发已恢复。"
}

/// Confirmation of /restart.
pub fn restart_ok() -> (r: &'static str)
    ensures
        r@ == "正在重启…"@,
{
    "正在重启…"
}

/// Description of /help.
pub fn desc_help() -> (r: &'static str)
    ensures
        r@ == "显示帮助"@,
{
    "显示帮助"
}

/// Description of /status.
pub fn desc_status() -> (r: &'static str)
    ensures
        r@ == "设备状态"@,
{
    "设备状态"
}

/// Description of /send.
pub fn desc_send() -> (r: &'static str)
    ensures
        r@ == "发送短信：/send <号码> <内容>"@,
{
    "发送短信：/send <号码> <内容>"
}

/// Description of /log.
pub fn desc_log() -> (r: &'static str)
    ensures
        r@ == "查看事件日志分页：/log [offset]"@,
{
    "查看事件日志分页：/log [offset]"
}

/// Description of /block.
pub fn desc_block() -> (r: &'static str)
    ensures
        r@ == "屏蔽号码"@,
{
    "屏蔽号码"
}

/// Description of /blocklist.
pub fn desc_blocklist() -> (r: &'static str)
    ensures
        r@ == "查看屏蔽名单"@,
{
    "查看屏蔽名单"
}

/// Description of /unblock.
pub fn desc_unblock() -> (r: &'static str)
    ensures
        r@ == "解除屏蔽"@,
{
    "解除屏蔽"
}

/// Description of /pause.
pub fn desc_pause() -> (r: &'static str)
    ensures
        r@ == "暂停转发（默认 60 分钟）"@,
{
    "暂停转发（默认 60 分钟）"
}

/// Description of /resume.
pub fn desc_resume() -> (r: &'static str)
    ensures
        r@ == "恢复转发"@,
{
    "恢复转发"
}

/// Description of /restart.
pub fn desc_restart() -> (r: &'static str)
    ensures
        r@ == "重启设备"@,
{
    "重启设备"
}

/// Forwarded SMS text, with the sender in a code span and all three parts HTML-escaped.
pub fn sms_received(sender: &str, ts: &str, body: &str) -> (r: String)
    ensures
        r@ == "📱 <code>"@ + spec_html_escape(sender@) + "</code>\n🕐 "@ + spec_html_escape(ts@)
            + "\n\n"@ + spec_html_escape(body@),
{
    let mut out = new_string();
    push_str(&mut out, "📱 <code>");
    push_html_escaped(&mut out, sender);
    push_str(&mut out, "</code>\n🕐 ");
    push_html_escaped(&mut out, ts);
    push_str(&mut out, "\n\n");
    push_html_escaped(&mut out, body);
    assert(out@ =~= "📱 <code>"@ + spec_html_escape(sender@) + "</code>\n🕐 "@ + spec_html_escape(ts@)
        + "\n\n"@ + spec_html_escape(body@));
    out
}

/// Confirmation that a message was queued; the preview ends with `…` when it was cut.
pub fn send_queued(phone: &str, preview: &str, truncated: bool, parts: usize) -> (r: String)
    ensures
        r@ == "已入队："@ + phone@ + " → \""@ + preview@ + (if truncated { "…"@ } else { ""@ })
            + "\"（"@ + spec_decimal(parts as nat) + " 条）"@,
{
    let ellipsis = if truncated { "…" } else { "" };
    let mut out = new_string();
    push_str(&mut out, "已入队：");
    push_str(&mut out, phone);
    push_str(&mut out, " → \"");
    push_str(&mut out, preview);
    push_str(&mut out, ellipsis);
    push_str(&mut out, "\"（");
    push_decimal(&mut out, parts as u64);
    push_str(&mut out, " 条）");
    assert(out@ =~= "已入队："@ + phone@ + " → \""@ + preview@ + (if truncated { "…"@ } else { ""@ })
        + "\"（"@ + spec_decimal(parts as nat) + " 条）"@);
    out
}

/// A relative expiry in the largest whole unit: days, hours, minutes, else seconds.
pub open spec fn spec_duration_after(seconds: u64) -> Seq<char> {
    if seconds % 86_400 == 0 {
        "收到后 "@ + spec_decimal((seconds / 86_400) as nat) + " 天"@
    } else if seconds % 3_600 == 0 {
        "收到后 "@ + spec_decimal((seconds / 3_600) as nat) + " 小时"@
    } else if seconds % 60 == 0 {
        "收到后 "@ + spec_decimal((seconds / 60) as nat) + " 分钟"@
    } else {
        "收到后 "@ + spec_decimal(seconds as nat) + " 秒"@
    }
}

/// Text of an MMS expiry.
pub open spec fn spec_mms_expiry_text(expiry: MmsExpiry) -> Seq<char> {
    match expiry {
        MmsExpiry::RelativeSeconds(seconds) => spec_duration_after(seconds),
        MmsExpiry::AbsoluteUnixSeconds(seconds) => "Unix 时间戳 "@ + spec_decimal(seconds as nat),
    }
}

/// A relative expiry in the largest whole unit.
pub fn format_duration_after(seconds: u64) -> (r: String)
    ensures
        r@ == spec_duration_after(seconds),
{
    let mut out = new_string();
    push_str(&mut out, "收到后 ");
    if seconds % 86_400 == 0 {
        push_decimal(&mut out, seconds / 86_400);
        push_str(&mut out, " 天");
    } else if seconds % 3_600 == 0 {
        push_decimal(&mut out, seconds / 3_600);
        push_str(&mut out, " 小时");
    } else if seconds % 60 == 0 {
        push_decimal(&mut out, seconds / 60);
        push_str(&mut out, " 分钟");
    } else {
        push_decimal(&mut out, seconds);
        push_str(&mut out, " 秒");
    }
    assert(out@ =~= spec_duration_after(seconds));
    out
}

/// Text of an MMS expiry.
pub fn format_mms_expiry(expiry: MmsExpiry) -> (r: String)
    ensures
        r@ == spec_mms_expiry_text(expiry),
{
    match expiry {
        MmsExpiry::RelativeSeconds(seconds) => format_duration_after(seconds),
        MmsExpiry::AbsoluteUnixSeconds(seconds) => {
            let mut out = new_string();
            push_str(&mut out, "Unix 时间戳 ");
            push_decimal(&mut out, seconds);
            assert(out@ =~= "Unix 时间戳 "@ + spec_decimal(seconds as nat));
            out
        },
    }
}

/// The uptime lines of the status report.
pub open spec fn status_head(h: u32, m: u32, s: u32) -> Seq<char> {
    "📊 smsgate 状态\n⏱ 运行时间："@ + spec_decimal_pad2(h as nat) + "h "@ + spec_decimal_pad2(m as nat) + "m "@
        + spec_decimal_pad2(s as nat) + "s\n"@
}

fn push_status_head(out: &mut String, h: u32, m: u32, s: u32)
    ensures
        final(out)@ == old(out)@ + status_head(h, m, s),
{
    push_str(out, "📊 smsgate 状态\n⏱ 运行时间：");
    push_decimal_pad2(out, h as u64);
    push_str(out, "h ");
    push_decimal_pad2(out, m as u64);
    push_str(out, "m ");
    push_decimal_pad2(out, s as u64);
    push_str(out, "s\n");
    assert(final(out)@ =~= old(out)@ + status_head(h, m, s));
}

/// The WiFi line of the status report, empty when there is no WiFi information.
pub open spec fn status_wifi_line(wifi_info: Seq<char>) -> Seq<char> {
    if wifi_info.len() == 0 {
        Seq::empty()
    } else {
        "📶 WiFi："@ + wifi_info + "\n"@
    }
}

fn push_status_wifi_line(out: &mut String, wifi_info: &str)
    ensures
        final(out)@ == old(out)@ + status_wifi_line(wifi_info@),
{
    if !wifi_info.is_empty() {
        push_str(out, "📶 WiFi：");
        push_str(out, wifi_info);
        push_str(out, "\n");
    }
    assert(final(out)@ =~= old(out)@ + status_wifi_line(wifi_info@));
}

/// The signal and network lines of the status report.
pub open spec fn status_network(signal: Seq<char>, operator: Seq<char>, registered: bool) -> Seq<char> {
    "📶 信号："@ + signal + " — "@ + operator + "\n🌐 网络："@
        + (if registered { "已注册"@ } else { "未注册"@ }) + "\n"@
}

fn push_status_network(out: &mut String, signal: &str, operator: &str, registered: bool)
    ensures
        final(out)@ == old(out)@ + status_network(signal@, operator@, registered),
{
    let reg = if registered { status_reg_ok() } else { status_reg_no() };
    push_str(out, "📶 信号：");
    push_str(out, signal);
    push_str(out, " — ");
    push_str(out, operator);
    push_str(out, "\n🌐 网络：");
    push_str(out, reg);
    push_str(out, "\n");
    assert(final(out)@ =~= old(out)@ + status_network(signal@, operator@, registered));
}

/// The heap line of the status report: free heap, and the low-water mark when known.
pub open spec fn status_heap_line(free_heap_kb: u32, min_free_heap_kb: u32) -> Seq<char> {
    if free_heap_kb > 0 {
        if min_free_heap_kb > 0 {
            "💾 内存："@ + spec_decimal(free_heap_kb as nat) + " KB 可用，最低 "@ + spec_decimal(
                min_free_heap_kb as nat,
            ) + " KB\n"@
        } else {
            "💾 内存："@ + spec_decimal(free_heap_kb as nat) + " KB 可用\n"@
        }
    } else {
        Seq::empty()
    }
}

fn push_status_heap_line(out: &mut String, free_heap_kb: u32, min_free_heap_kb: u32)
    ensures
        final(out)@ == old(out)@ + status_heap_line(free_heap_kb, min_free_heap_kb),
{
    if free_heap_kb > 0 {
        push_str(out, "💾 内存：");
        push_decimal(out, free_heap_kb as u64);
        if min_free_heap_kb > 0 {
            push_str(out, " KB 可用，最低 ");
            push_decimal(out, min_free_heap_kb as u64);
            push_str(out, " KB\n");
        } else {
            push_str(out, " KB 可用\n");
        }
    }
    assert(final(out)@ =~= old(out)@ + status_heap_line(free_heap_kb, min_free_heap_kb));
}

/// The queue, block-list, log and forwarding lines of the status report.
pub open spec fn status_counts(queue_n: usize, blocked_n: usize, log_n: usize, fwd_on: bool) -> Seq<char> {
    "📬 队列："@ + spec_decimal(queue_n as nat) + " 条待发\n🚫 屏蔽："@ + spec_decimal(blocked_n as nat) + " 个号码\n📋 日志："@
        + spec_decimal(log_n as nat) + " 条\n🔄 转发："@ + (if fwd_on { "已启用"@ } else { "已暂停"@ }) + "\n"@
}

fn push_status_counts(out: &mut String, queue_n: usize, blocked_n: usize, log_n: usize, fwd_on: bool)
    ensures
        final(out)@ == old(out)@ + status_counts(queue_n, blocked_n, log_n, fwd_on),
{
    let fwd = if fwd_on { status_fwd_on() } else { status_fwd_off() };
    push_str(out, "📬 队列：");
    push_decimal(out, queue_n as u64);
    push_str(out, " 条待发\n🚫 屏蔽：");
    push_decimal(out, blocked_n as u64);
    push_str(out, " 个号码\n📋 日志：");
    push_decimal(out, log_n as u64);
    push_str(out, " 条\n🔄 转发：");
    push_str(out, fwd);
    push_str(out, "\n");
    assert(final(out)@ =~= old(out)@ + status_counts(queue_n, blocked_n, log_n, fwd_on));
}

/// The last-SMS line of the status report.
pub open spec fn status_last_line(last_sms: Option<(&str, &str)>) -> Seq<char> {
    match last_sms {
        Some((sender, ts)) => "📩 最近："@ + sender@ + "（"@ + ts@ + "）\n"@,
        None => Seq::empty(),
    }
}

fn push_status_last_line(out: &mut String, last_sms: Option<(&str, &str)>)
    ensures
        final(out)@ == old(out)@ + status_last_line(last_sms),
{
    match last_sms {
        Some((sender, ts)) => {
            push_str(out, "📩 最近：");
            push_str(out, sender);
            push_str(out, "（");
            push_str(out, ts);
            push_str(out, "）\n");
        },
        None => {},
    }
    assert(final(out)@ =~= old(out)@ + status_last_line(last_sms));
}

/// The whole `/status` report.
pub open spec fn spec_format_status(
    h: u32,
    m: u32,
    s: u32,
    signal: Seq<char>,
    operator: Seq<char>,
    registered: bool,
    free_heap_kb: u32,
    min_free_heap_kb: u32,
    queue_n: usize,
    blocked_n: usize,
    log_n: usize,
    fwd_on: bool,
    last_sms: Option<(&str, &str)>,
    wifi_info: Seq<char>,
) -> Seq<char> {
    status_head(h, m, s) + status_wifi_line(wifi_info) + status_network(signal, operator, registered)
        + status_heap_line(free_heap_kb, min_free_heap_kb) + status_counts(queue_n, blocked_n, log_n, fwd_on)
        + status_last_line(last_sms)
}

/// The `/status` report.
pub fn format_status(
    h: u32,
    m: u32,
    s: u32,
    signal: &str,
    operator: &str,
    registered: bool,
    free_heap_kb: u32,
    min_free_heap_kb: u32,
    queue_n: usize,
    blocked_n: usize,
    log_n: usize,
    fwd_on: bool,
    last_sms: Option<(&str, &str)>,
    wifi_info: &str,
) -> (r: String)
    ensures
        r@ == spec_format_status(
            h,
            m,
            s,
            signal@,
            operator@,
            registered,
            free_heap_kb,
            min_free_heap_kb,
            queue_n,
            blocked_n,
            log_n,
            fwd_on,
            last_sms,
            wifi_info@,
        ),
{
    let mut out = new_string();
    push_status_head(&mut out, h, m, s);
    push_status_wifi_line(&mut out, wifi_info);
    push_status_network(&mut out, signal, operator, registered);
    push_status_heap_line(&mut out, free_heap_kb, min_free_heap_kb);
    push_status_counts(&mut out, queue_n, blocked_n, log_n, fwd_on);
    push_status_last_line(&mut out, last_sms);
    assert(out@ =~= status_head(h, m, s) + status_wifi_line(wifi_info@) + status_network(
        signal@,
        operator@,
        registered,
    ) + status_heap_line(free_heap_kb, min_free_heap_kb) + status_counts(queue_n, blocked_n, log_n, fwd_on)
        + status_last_line(last_sms));
    out
}

/// Watchdog warning for a stalled polling thread.
pub fn poll_thread_stale(mins: u32) -> (r: String)
    ensures
        r@ == "⚠️ Telegram 轮询线程已 "@ + spec_decimal(mins as nat) + " 分钟无响应"@,
{
    let mut out = new_string();
    push_str(&mut out, "⚠️ Telegram 轮询线程已 ");
    push_decimal(&mut out, mins as u64);
    push_str(&mut out, " 分钟无响应");
    assert(out@ =~= "⚠️ Telegram 轮询线程已 "@ + spec_decimal(mins as nat) + " 分钟无响应"@);
    out
}

} // verus!
