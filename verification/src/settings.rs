//! Settings values and the decisions taken from them: switches, the global
//! shortcut, automatic synchronisation, start with the system, update checks,
//! and what the windows do at start, on losing focus and on closing.
use vstd::prelude::*;
use crate::item::ReleaseCheck;
use crate::launch::{err_msg, err_msg_spec};
use crate::text::{
    chars_of, contains, contains_exec, lowercase_chars, opt_view, parse_u128, parse_u128_exec,
    push_char, push_text, starts_with, starts_with_exec, str_eq, str_lowercase, string_from,
    string_of, string_views, trim, trim_str,
};

verus! {

// ---------------------------------------------------------------------------
// Switches
// ---------------------------------------------------------------------------

/// A switch setting: on when its stored text is `true`, the default when it
/// is not stored.
pub open spec fn bool_setting_spec(stored: Option<Seq<char>>, default: bool) -> bool {
    match stored {
        Some(v) => v == "true"@,
        None => default,
    }
}

/// The value of a switch setting from its stored text (`None` when it is not
/// stored or cannot be read).
pub fn bool_setting(stored: Option<&str>, default: bool) -> (r: bool)
    ensures
        r == bool_setting_spec(opt_view(stored), default),
{
    match stored {
        Some(v) => str_eq(v, "true"),
        None => default,
    }
}

/// The stored text of a switch: `true` or `false`.
pub fn bool_text(b: bool) -> (r: String)
    ensures
        b ==> r@ == "true"@,
        !b ==> r@ == "false"@,
{
    if b {
        string_from("true")
    } else {
        string_from("false")
    }
}

// ---------------------------------------------------------------------------
// Global shortcut
// ---------------------------------------------------------------------------

/// The shortcut used when none is stored.
pub const DEFAULT_SHORTCUT: &'static str = "Alt+Space";

/// The shortcut registered at start: the stored one unless it is blank.
pub fn startup_shortcut(stored: Option<&str>) -> (r: String)
    ensures
        stored is Some && trim(stored->0@).len() > 0 ==> r@ == stored->0@,
        !(stored is Some && trim(stored->0@).len() > 0) ==> r@ == DEFAULT_SHORTCUT@,
{
    if let Some(v) = stored {
        if trim_str(v).len() > 0 {
            return string_from(v);
        }
    }
    string_from(DEFAULT_SHORTCUT)
}

/// The key combination to register for a shortcut setting: the trimmed
/// text; `None` when it is blank, and then no shortcut is registered.
pub fn shortcut_to_register(combo: &str) -> (r: Option<String>)
    ensures
        trim(combo@).len() == 0 ==> r is None,
        trim(combo@).len() > 0 ==> r is Some && r->0@ == trim(combo@),
{
    let t = trim_str(combo);
    if t.len() == 0 {
        None
    } else {
        Some(string_of(&t))
    }
}

/// The message shown when a shortcut cannot be registered.
pub fn shortcut_error(combo: &str, cause: &str) -> (r: String)
    ensures
        r@ == "快捷键 “"@ + combo@ + "” 注册失败（可能已被其他程序占用）："@ + cause@,
{
    let mut s = string_from("快捷键 “");
    push_text(&mut s, combo);
    push_text(&mut s, "” 注册失败（可能已被其他程序占用）：");
    push_text(&mut s, cause);
    s
}

// ---------------------------------------------------------------------------
// Automatic application sync
// ---------------------------------------------------------------------------

/// How old the last application sync must be, in milliseconds, for the
/// automatic sync to run again: one day.
pub const SYNC_INTERVAL_MS: u128 = 86400000;

/// Whether the automatic application sync is switched on: unless its stored
/// text is `false`.
pub open spec fn auto_sync_enabled(stored: Option<Seq<char>>) -> bool {
    match stored {
        Some(v) => v != "false"@,
        None => true,
    }
}

/// Whether the last sync, stored as milliseconds since the epoch, is more
/// than a day before `now`; a missing or unreadable time counts as stale.
pub open spec fn sync_is_stale(last: Option<Seq<char>>, now: u128) -> bool {
    match last {
        Some(v) => match parse_u128(v) {
            Some(t) => (if now > t {
                now - t
            } else {
                0
            }) > SYNC_INTERVAL_MS,
            None => true,
        },
        None => true,
    }
}

/// Whether the automatic application sync runs at `now`, from the stored
/// `autoSyncApps` and `lastSync` settings.
pub fn auto_sync_due(auto_sync_apps: Option<&str>, last_sync: Option<&str>, now: u128) -> (r: bool)
    ensures
        r == (auto_sync_enabled(opt_view(auto_sync_apps)) && sync_is_stale(opt_view(last_sync), now)),
{
    if let Some(v) = auto_sync_apps {
        if str_eq(v, "false") {
            return false;
        }
    }
    match last_sync {
        Some(v) => match parse_u128_exec(v) {
            Some(t) => now.saturating_sub(t) > SYNC_INTERVAL_MS,
            None => true,
        },
        None => true,
    }
}

/// Once the last sync is stale it stays stale: a later time never makes the
/// automatic sync unnecessary again.
pub proof fn sync_staleness_persists(last: Option<Seq<char>>, now: u128, later: u128)
    requires
        sync_is_stale(last, now),
        now <= later,
    ensures
        sync_is_stale(last, later),
{
}

// ---------------------------------------------------------------------------
// Start with the system
// ---------------------------------------------------------------------------

/// The name of the launcher's value under the registry's `Run` key.
pub const AUTOSTART_VALUE: &'static str = "NexiousQuick";

/// The argument that marks a start with the system.
pub const AUTOSTART_FLAG: &'static str = "--autostart";

/// The registry key of programs started with the user's session.
pub const RUN_KEY: &'static str = "HKCU\\Software\\Microsoft\\Windows\\CurrentVersion\\Run";

/// Switching start with the system where the system offers no such
/// registry: switching on fails, switching off reports it off.
pub fn autostart_command(enabled: bool) -> (r: Result<bool, String>)
    ensures
        enabled ==> (r matches Err(m) && m@ == "当前系统暂不支持开机自启动"@),
        !enabled ==> (r matches Ok(b) && !b),
{
    if enabled {
        Err(string_from("当前系统暂不支持开机自启动"))
    } else {
        Ok(false)
    }
}

/// Whether the launcher starts with the system, where the system offers no
/// such registry: never.
pub fn autostart_state() -> (r: Result<bool, String>)
    ensures
        r matches Ok(b) && !b,
{
    Ok(false)
}

/// The command line registered to start the launcher: the quoted program
/// path and the start flag.
pub open spec fn autostart_value_spec(exe: Seq<char>) -> Seq<char> {
    seq!['"'] + exe + seq!['"', ' '] + AUTOSTART_FLAG@
}

/// The registered command line of the launcher at `exe`.
pub fn autostart_value(exe: &str) -> (r: String)
    ensures
        r@ == autostart_value_spec(exe@),
{
    let mut s = String::new();
    push_char(&mut s, '"');
    push_text(&mut s, exe);
    push_char(&mut s, '"');
    push_char(&mut s, ' ');
    push_text(&mut s, AUTOSTART_FLAG);
    assert(s@ =~= autostart_value_spec(exe@));
    s
}

/// The `reg.exe` arguments that switch start with the system on (adding the
/// command line of `exe`) or off (deleting the value).
pub open spec fn autostart_reg_args_spec(enabled: bool, exe: Seq<char>) -> Seq<Seq<char>> {
    if enabled {
        seq![
            "add"@,
            RUN_KEY@,
            "/v"@,
            AUTOSTART_VALUE@,
            "/t"@,
            "REG_SZ"@,
            "/d"@,
            autostart_value_spec(exe),
            "/f"@,
        ]
    } else {
        seq!["delete"@, RUN_KEY@, "/v"@, AUTOSTART_VALUE@, "/f"@]
    }
}

/// The `reg.exe` arguments to switch start with the system.
pub fn autostart_reg_args(enabled: bool, exe: &str) -> (r: Vec<String>)
    ensures
        string_views(r@) == autostart_reg_args_spec(enabled, exe@),
{
    let mut v: Vec<String> = Vec::new();
    if enabled {
        v.push(string_from("add"));
        v.push(string_from(RUN_KEY));
        v.push(string_from("/v"));
        v.push(string_from(AUTOSTART_VALUE));
        v.push(string_from("/t"));
        v.push(string_from("REG_SZ"));
        v.push(string_from("/d"));
        v.push(autostart_value(exe));
        v.push(string_from("/f"));
    } else {
        v.push(string_from("delete"));
        v.push(string_from(RUN_KEY));
        v.push(string_from("/v"));
        v.push(string_from(AUTOSTART_VALUE));
        v.push(string_from("/f"));
    }
    assert(string_views(v@) =~= autostart_reg_args_spec(enabled, exe@));
    v
}

/// The `reg.exe` arguments that read the launcher's `Run` value.
pub fn autostart_query_args() -> (r: Vec<String>)
    ensures
        string_views(r@) == seq!["query"@, RUN_KEY@, "/v"@, AUTOSTART_VALUE@],
{
    let mut v: Vec<String> = Vec::new();
    v.push(string_from("query"));
    v.push(string_from(RUN_KEY));
    v.push(string_from("/v"));
    v.push(string_from(AUTOSTART_VALUE));
    assert(string_views(v@) =~= seq!["query"@, RUN_KEY@, "/v"@, AUTOSTART_VALUE@]);
    v
}

/// What a finished `reg.exe` run reported.
pub struct RegOutput {
    pub success: bool,
    pub code: Option<i32>,
    /// The error output, decoded as UTF-8 with replacement characters.
    pub stderr: String,
}

/// The answer to switching start with the system through the registry, from
/// the `reg.exe` run (`Err` when it could not be started): the new state, or
/// the error to show.
pub fn registry_autostart_outcome(enabled: bool, run: Result<RegOutput, String>) -> (r: Result<
    bool,
    String,
>)
    ensures
        match run {
            Err(e) => r matches Err(m) && m@ == err_msg_spec(
                if enabled {
                    "开启开机自启动失败"@
                } else {
                    "关闭开机自启动失败"@
                },
                e@,
            ),
            Ok(o) => if !enabled {
                r matches Ok(b) && b == (o.success || o.code == Some(1i32))
            } else if o.success {
                r matches Ok(b) && b
            } else {
                r matches Err(m) && m@ == trim(o.stderr@)
            },
        },
{
    match run {
        Err(e) => {
            if enabled {
                Err(err_msg("开启开机自启动失败", e.as_str()))
            } else {
                Err(err_msg("关闭开机自启动失败", e.as_str()))
            }
        },
        Ok(o) => {
            if enabled {
                if o.success {
                    Ok(true)
                } else {
                    Err(string_of(&trim_str(o.stderr.as_str())))
                }
            } else {
                let gone = match o.code {
                    Some(c) => c == 1,
                    None => false,
                };
                Ok(o.success || gone)
            }
        },
    }
}

/// Whether the launcher starts with the system, from the registry query
/// (`Err` when it could not be started): on when the value was found.
pub fn registry_autostart_state(run: Result<bool, String>) -> (r: Result<bool, String>)
    ensures
        match run {
            Err(e) => r matches Err(m) && m@ == err_msg_spec("读取开机自启动状态失败"@, e@),
            Ok(found) => r == Ok::<bool, String>(found),
        },
{
    match run {
        Err(e) => Err(err_msg("读取开机自启动状态失败", e.as_str())),
        Ok(found) => Ok(found),
    }
}

/// Whether a command line registered by an older version lacks the start
/// flag: the query output names this program (ignoring case) but not the
/// flag.
pub open spec fn needs_autostart_flag_spec(query_output: Seq<char>, exe: Seq<char>) -> bool {
    let text = str_lowercase(query_output);
    contains(text, str_lowercase(exe)) && !contains(text, AUTOSTART_FLAG@)
}

/// Whether the registered command line must be written again with the flag.
pub fn needs_autostart_flag(query_output: &str, exe: &str) -> (r: bool)
    ensures
        r == needs_autostart_flag_spec(query_output@, exe@),
{
    let text = lowercase_chars(&chars_of(query_output));
    let exe_lower = lowercase_chars(&chars_of(exe));
    contains_exec(&text, &exe_lower) && !contains_exec(&text, &chars_of(AUTOSTART_FLAG))
}

/// Whether the process was started with the system: one of its arguments is
/// the start flag.
pub fn is_autostart_launch(args: &Vec<String>) -> (r: bool)
    ensures
        r == exists|i: int| 0 <= i < args@.len() && #[trigger] args@[i]@ == AUTOSTART_FLAG@,
{
    let n = args.len();
    let mut i: usize = 0;
    while i < n
        invariant
            n == args.len(),
            i <= n,
            forall|k: int| 0 <= k < i ==> #[trigger] args@[k]@ != AUTOSTART_FLAG@,
        decreases n - i,
    {
        if str_eq(args[i].as_str(), AUTOSTART_FLAG) {
            return true;
        }
        i = i + 1;
    }
    false
}

// ---------------------------------------------------------------------------
// Update check
// ---------------------------------------------------------------------------

/// The page that redirects to the newest release.
pub const RELEASES_URL: &'static str = "https://github.com/Nexius-Nova/nexious-quick/releases/latest";

/// The script text before the address.
pub const RELEASE_SCRIPT_HEAD: &'static str = "\n$ErrorActionPreference = 'SilentlyContinue'\n$url = '";

/// The script text after the address: follow the redirects and print where
/// they end, or `__NOT_FOUND__` on a 404.
pub const RELEASE_SCRIPT_TAIL: &'static str = r#"'
$out = ''
try {
    $resp = Invoke-WebRequest -UseBasicParsing -Uri $url -TimeoutSec 12 -MaximumRedirection 5
    if ($resp.BaseResponse.ResponseUri) {
        $out = $resp.BaseResponse.ResponseUri.AbsoluteUri
    }
} catch {
    if ($_.Exception.Response) {
        $status = [int]$_.Exception.Response.StatusCode
        if ($status -eq 404) { $out = '__NOT_FOUND__' }
    }
}
[Console]::OutputEncoding = [System.Text.Encoding]::ASCII
[Console]::Write($out)
"#;

/// The PowerShell script of the update check.
pub fn release_check_script() -> (r: String)
    ensures
        r@ == RELEASE_SCRIPT_HEAD@ + RELEASES_URL@ + RELEASE_SCRIPT_TAIL@,
{
    let mut s = string_from(RELEASE_SCRIPT_HEAD);
    push_text(&mut s, RELEASES_URL);
    push_text(&mut s, RELEASE_SCRIPT_TAIL);
    s
}

/// The answer of the update check from what its script printed: no release
/// on `__NOT_FOUND__`, the release page for an `https://` address, an error
/// otherwise.
pub fn interpret_release_output(stdout: &str) -> (r: Result<ReleaseCheck, String>)
    ensures
        trim(stdout@) == "__NOT_FOUND__"@ ==> (r matches Ok(c) && !c.found && c.url@.len() == 0),
        trim(stdout@) != "__NOT_FOUND__"@ && starts_with(trim(stdout@), "https://"@) ==> (r matches Ok(
            c,
        ) && c.found && c.url@ == trim(stdout@)),
        trim(stdout@) != "__NOT_FOUND__"@ && !starts_with(trim(stdout@), "https://"@) ==> (r matches Err(
            m,
        ) && m@ == "检查更新失败：无法连接 GitHub，请检查网络后重试"@),
{
    let text = trim_str(stdout);
    let not_found = chars_of("__NOT_FOUND__");
    if crate::text::chars_eq(&text, &not_found) {
        return Ok(ReleaseCheck { found: false, url: String::new() });
    }
    if starts_with_exec(&text, &chars_of("https://")) {
        return Ok(ReleaseCheck { found: true, url: string_of(&text) });
    }
    Err(string_from("检查更新失败：无法连接 GitHub，请检查网络后重试"))
}

// ---------------------------------------------------------------------------
// Windows
// ---------------------------------------------------------------------------

/// What the launcher does at start: when started with the system it stays
/// hidden in the tray, repairs the registered command line, and waits longer
/// before its background work.
pub struct StartupPlan {
    pub show_launcher: bool,
    pub repair_autostart_flag: bool,
    /// Seconds before the automatic application sync.
    pub sync_delay_secs: u64,
    /// Seconds before duplicate entries are cleaned up.
    pub dedupe_delay_secs: u64,
}

/// The start plan, for a start with the system or by the user.
pub fn startup_plan(autostart: bool) -> (r: StartupPlan)
    ensures
        r.show_launcher == !autostart,
        r.repair_autostart_flag == autostart,
        r.sync_delay_secs == if autostart {
            20u64
        } else {
            6u64
        },
        r.dedupe_delay_secs == if autostart {
            15u64
        } else {
            4u64
        },
{
    StartupPlan {
        show_launcher: !autostart,
        repair_autostart_flag: autostart,
        sync_delay_secs: if autostart {
            20
        } else {
            6
        },
        dedupe_delay_secs: if autostart {
            15
        } else {
            4
        },
    }
}

/// How long a drag keeps the launcher from hiding at most, in milliseconds.
pub const DRAG_TIMEOUT_MS: u128 = 5000;

/// How long after start a loss of focus never hides the launcher, in
/// milliseconds.
pub const BLUR_GRACE_MS: u128 = 2000;

/// Whether the launcher window is being dragged, and until when (in
/// milliseconds since the epoch, as 64 bits) a drag counts at most.
#[derive(Clone, Copy, Debug)]
pub struct DragState {
    pub dragging: bool,
    pub until: u64,
}

/// The drag state after a drag starts (`active`) or ends at `now`.
pub open spec fn drag_set_spec(st: DragState, active: bool, now: u128) -> DragState {
    DragState {
        dragging: active,
        until: if active {
            (now + DRAG_TIMEOUT_MS) as u64
        } else {
            st.until
        },
    }
}

/// Whether a drag is on at `now`, and the state after asking: a drag past
/// its time limit is ended.
pub open spec fn drag_query_spec(st: DragState, now: u128) -> (bool, DragState) {
    if !st.dragging {
        (false, st)
    } else if (now as u64) > st.until {
        (false, DragState { dragging: false, until: st.until })
    } else {
        (true, st)
    }
}

impl DragState {
    /// No drag.
    pub fn new() -> (r: DragState)
        ensures
            !r.dragging,
            r.until == 0,
    {
        DragState { dragging: false, until: 0 }
    }

    /// Records that a drag starts (`active`) or ends at `now`.
    pub fn set_launcher_drag(&mut self, active: bool, now: u128)
        requires
            active ==> now + DRAG_TIMEOUT_MS <= u128::MAX,
        ensures
            *final(self) == drag_set_spec(*old(self), active, now),
    {
        self.dragging = active;
        if active {
            self.until = (now + DRAG_TIMEOUT_MS) as u64;
        }
    }

    /// Whether a drag is on at `now`; a drag past its limit is ended.
    pub fn launcher_dragging(&mut self, now: u128) -> (r: bool)
        ensures
            (r, *final(self)) == drag_query_spec(*old(self), now),
    {
        if !self.dragging {
            return false;
        }
        if (now as u64) > self.until {
            self.dragging = false;
            return false;
        }
        true
    }

    /// Whether the launcher hides when it loses focus `elapsed_ms` after
    /// start at `now`: not during the grace period, not while it is dragged,
    /// and only when the `hideOnBlur` setting is on (off when not stored).
    /// The drag state is consulted only after the grace period.
    pub fn hides_on_blur(&mut self, elapsed_ms: u128, now: u128, hide_on_blur: Option<&str>) -> (r:
        bool)
        ensures
            elapsed_ms < BLUR_GRACE_MS ==> !r && *final(self) == *old(self),
            elapsed_ms >= BLUR_GRACE_MS ==> *final(self) == drag_query_spec(*old(self), now).1 && r
                == (!drag_query_spec(*old(self), now).0 && bool_setting_spec(
                opt_view(hide_on_blur),
                false,
            )),
    {
        if elapsed_ms < BLUR_GRACE_MS {
            return false;
        }
        if self.launcher_dragging(now) {
            return false;
        }
        bool_setting(hide_on_blur, false)
    }
}

/// A drag that was started stops keeping the launcher visible once its time
/// limit has passed, and a drag that was ended stops at once.
pub proof fn drag_protection_ends(st: DragState, started_at: u128, now: u128)
    ensures
        (now as u64) > ((started_at + DRAG_TIMEOUT_MS) as u64) ==> !drag_query_spec(
            drag_set_spec(st, true, started_at),
            now,
        ).0,
        !drag_query_spec(drag_set_spec(st, false, started_at), now).0,
        (now as u64) <= ((started_at + DRAG_TIMEOUT_MS) as u64) ==> drag_query_spec(
            drag_set_spec(st, true, started_at),
            now,
        ).0,
{
}

/// The drag state after queries at the times `times`, in order.
pub open spec fn drag_after_queries(st: DragState, times: Seq<u128>) -> DragState
    decreases times.len(),
{
    if times.len() == 0 {
        st
    } else {
        drag_query_spec(drag_after_queries(st, times.drop_last()), times.last()).1
    }
}

/// The answers of queries at the times `times`, in order.
pub open spec fn drag_answers(st: DragState, times: Seq<u128>) -> Seq<bool>
    decreases times.len(),
{
    if times.len() == 0 {
        Seq::empty()
    } else {
        drag_answers(st, times.drop_last()).push(
            drag_query_spec(drag_after_queries(st, times.drop_last()), times.last()).0,
        )
    }
}

/// Every query so far, up to `i`, came at or before the drag's time limit.
pub open spec fn all_within(times: Seq<u128>, i: int, until: u64) -> bool {
    forall|k: int| 0 <= k <= i ==> (#[trigger] times[k] as u64) <= until
}

proof fn lemma_drag_answers(st: DragState, times: Seq<u128>)
    ensures
        drag_answers(st, times).len() == times.len(),
        drag_after_queries(st, times).until == st.until,
        drag_after_queries(st, times).dragging == (st.dragging && all_within(
            times,
            times.len() - 1,
            st.until,
        )),
        forall|i: int|
            0 <= i < times.len() ==> #[trigger] drag_answers(st, times)[i] == (st.dragging
                && all_within(times, i, st.until)),
    decreases times.len(),
{
    if times.len() > 0 {
        let pre = times.drop_last();
        lemma_drag_answers(st, pre);
        assert forall|i: int| 0 <= i < times.len() implies #[trigger] drag_answers(st, times)[i] == (
        st.dragging && all_within(times, i, st.until)) by {
            if i < pre.len() {
                assert(drag_answers(st, times)[i] == drag_answers(st, pre)[i]);
                assert(all_within(times, i, st.until) == all_within(pre, i, st.until)) by {
                    assert forall|k: int| 0 <= k <= i implies times[k] == pre[k] by {}
                }
            } else {
                assert(all_within(times, i, st.until) == (all_within(pre, pre.len() - 1, st.until)
                    && (times[i] as u64) <= st.until)) by {
                    assert forall|k: int| 0 <= k < i implies times[k] == pre[k] by {}
                    if all_within(pre, pre.len() - 1, st.until) && (times[i] as u64) <= st.until {
                        assert forall|k: int| 0 <= k <= i implies (#[trigger] times[k] as u64) <= st.until by {
                            if k < i {
                                assert(times[k] == pre[k]);
                            }
                        }
                    }
                }
            }
        }
        assert(all_within(times, times.len() - 1, st.until) == (all_within(
            pre,
            pre.len() - 1,
            st.until,
        ) && (times.last() as u64) <= st.until)) by {
            if all_within(times, times.len() - 1, st.until) {
                assert forall|k: int| 0 <= k <= pre.len() - 1 implies (#[trigger] pre[k] as u64) <= st.until by {
                    assert(pre[k] == times[k]);
                }
            }
            if all_within(pre, pre.len() - 1, st.until) && (times.last() as u64) <= st.until {
                assert forall|k: int| 0 <= k <= times.len() - 1 implies (#[trigger] times[k] as u64) <= st.until by {
                    if k < times.len() - 1 {
                        assert(times[k] == pre[k]);
                    }
                }
            }
        }
    }
}

/// Once a query says the launcher is not being dragged, every later query
/// says so too, until the next drag starts.
pub proof fn drag_stays_off(st: DragState, times: Seq<u128>, i: int, j: int)
    requires
        0 <= i < j < times.len(),
        !drag_answers(st, times)[i],
    ensures
        !drag_answers(st, times)[j],
{
    lemma_drag_answers(st, times);
    if st.dragging && all_within(times, j, st.until) {
        assert(all_within(times, i, st.until));
    }
}

/// After a drag starts at `t0`, a query says the launcher is being dragged
/// exactly while every query since came within 5000 ms of `t0`; with a clock
/// that does not go back, a query at `t1 >= t0` says so exactly when
/// `t1 <= t0 + 5000`.
pub proof fn drag_answers_after_start(st: DragState, t0: u128, times: Seq<u128>, i: int)
    requires
        t0 + DRAG_TIMEOUT_MS <= u64::MAX,
        0 <= i < times.len(),
        forall|k: int| 0 <= k < times.len() ==> #[trigger] times[k] <= u64::MAX,
    ensures
        drag_answers(drag_set_spec(st, true, t0), times)[i] == forall|k: int|
            0 <= k <= i ==> #[trigger] times[k] <= t0 + DRAG_TIMEOUT_MS,
        (forall|a: int, b: int| 0 <= a <= b < times.len() ==> #[trigger] times[a] <= #[trigger] times[b])
            && t0 <= times[0] ==> drag_answers(drag_set_spec(st, true, t0), times)[i] == (times[i] <= t0
            + DRAG_TIMEOUT_MS),
{
    let s0 = drag_set_spec(st, true, t0);
    lemma_drag_answers(s0, times);
    assert(s0.until == t0 + DRAG_TIMEOUT_MS);
    assert forall|k: int| 0 <= k < times.len() implies (#[trigger] times[k] as u64) == times[k] by {}
    if (forall|a: int, b: int| 0 <= a <= b < times.len() ==> #[trigger] times[a] <= #[trigger] times[b])
        && times[i] <= t0 + DRAG_TIMEOUT_MS {
        assert forall|k: int| 0 <= k <= i implies #[trigger] times[k] <= t0 + DRAG_TIMEOUT_MS by {
            assert(times[k] <= times[i]);
        }
    }
}

/// After a drag ends, or before any drag, every query says the launcher is
/// not being dragged.
pub proof fn drag_off_answers_no(st: DragState, t: u128, times: Seq<u128>, i: int)
    requires
        0 <= i < times.len(),
    ensures
        !drag_answers(drag_set_spec(st, false, t), times)[i],
        !drag_answers(DragState { dragging: false, until: 0 }, times)[i],
{
    lemma_drag_answers(drag_set_spec(st, false, t), times);
    lemma_drag_answers(DragState { dragging: false, until: 0 }, times);
}

/// What closing a window does.
#[derive(Clone, Copy, Debug, PartialEq, Eq)]
pub enum CloseAction {
    HideToTray,
    ExitApp,
}

/// Closing a window hides it to the tray when the `closeToTray` setting is
/// on (on when not stored), and exits the launcher otherwise.
pub fn close_action(close_to_tray: Option<&str>) -> (r: CloseAction)
    ensures
        (r == CloseAction::HideToTray) == bool_setting_spec(opt_view(close_to_tray), true),
        (r == CloseAction::ExitApp) == !bool_setting_spec(opt_view(close_to_tray), true),
{
    if bool_setting(close_to_tray, true) {
        CloseAction::HideToTray
    } else {
        CloseAction::ExitApp
    }
}

/// What a tray menu entry does.
#[derive(Clone, Copy, Debug, PartialEq, Eq)]
pub enum TrayAction {
    ShowLauncher,
    OpenSettings,
    Quit,
    Ignore,
}

/// The action of the tray menu entry with identifier `id`.
pub fn tray_menu_action(id: &str) -> (r: TrayAction)
    ensures
        id@ == "show-launcher"@ ==> r == TrayAction::ShowLauncher,
        id@ == "open-settings"@ ==> r == TrayAction::OpenSettings,
        id@ == "quit"@ ==> r == TrayAction::Quit,
        id@ != "show-launcher"@ && id@ != "open-settings"@ && id@ != "quit"@ ==> r
            == TrayAction::Ignore,
{
    proof {
        reveal_strlit("show-launcher");
        reveal_strlit("open-settings");
        reveal_strlit("quit");
        assert("show-launcher"@[0] != "open-settings"@[0]);
        assert("show-launcher"@.len() != "quit"@.len());
        assert("open-settings"@.len() != "quit"@.len());
    }
    if str_eq(id, "show-launcher") {
        TrayAction::ShowLauncher
    } else if str_eq(id, "open-settings") {
        TrayAction::OpenSettings
    } else if str_eq(id, "quit") {
        TrayAction::Quit
    } else {
        TrayAction::Ignore
    }
}

} // verus!
