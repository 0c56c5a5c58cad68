use nexious_quick::settings::{
    auto_sync_due, autostart_command, autostart_query_args, autostart_reg_args, autostart_state,
    autostart_value, bool_setting, bool_text, close_action, interpret_release_output,
    is_autostart_launch, needs_autostart_flag, registry_autostart_outcome,
    registry_autostart_state, release_check_script, shortcut_error, shortcut_to_register,
    startup_plan, startup_shortcut, tray_menu_action, CloseAction, DragState, RegOutput,
    TrayAction, DEFAULT_SHORTCUT, RELEASES_URL, SYNC_INTERVAL_MS,
};

#[test]
fn switch_settings_read_true_only_from_true() {
    assert!(bool_setting(Some("true"), false));
    assert!(!bool_setting(Some("TRUE"), true));
    assert!(!bool_setting(Some("1"), true));
    assert!(bool_setting(None, true));
    assert!(!bool_setting(None, false));
    assert_eq!(bool_text(true), "true");
    assert_eq!(bool_text(false), "false");
}

#[test]
fn startup_shortcut_defaults_when_blank() {
    assert_eq!(DEFAULT_SHORTCUT, "Alt+Space");
    assert_eq!(startup_shortcut(None), "Alt+Space");
    assert_eq!(startup_shortcut(Some("   ")), "Alt+Space");
    assert_eq!(startup_shortcut(Some(" Ctrl+K ")), " Ctrl+K ");
    assert_eq!(shortcut_to_register(" Ctrl+K "), Some("Ctrl+K".to_string()));
    assert_eq!(shortcut_to_register("\t"), None);
    assert_eq!(
        shortcut_error("Alt+Space", "HotKey already registered"),
        "快捷键 “Alt+Space” 注册失败（可能已被其他程序占用）：HotKey already registered"
    );
}

#[test]
fn automatic_sync_runs_when_on_and_stale() {
    let day = SYNC_INTERVAL_MS;
    assert_eq!(day, 86_400_000);
    assert!(auto_sync_due(None, None, 0));
    assert!(!auto_sync_due(Some("false"), None, 0));
    assert!(auto_sync_due(Some("no"), None, 0));
    assert!(auto_sync_due(None, Some("1000"), 1000 + day + 1));
    assert!(!auto_sync_due(None, Some("1000"), 1000 + day));
    assert!(!auto_sync_due(None, Some("5000"), 10));
    assert!(auto_sync_due(None, Some("not a number"), 0));
    assert!(auto_sync_due(None, Some(" 1000"), 0));
    assert!(!auto_sync_due(None, Some("+1000"), 2000));
}

#[test]
fn staleness_persists_over_time() {
    let last = Some("1700000000000");
    let now: u128 = 1_700_000_000_000 + SYNC_INTERVAL_MS + 1;
    assert!(auto_sync_due(None, last, now));
    assert!(auto_sync_due(None, last, now + 1));
    assert!(auto_sync_due(None, last, now * 2));
}

#[test]
fn autostart_without_registry() {
    assert_eq!(autostart_command(true), Err("当前系统暂不支持开机自启动".to_string()));
    assert_eq!(autostart_command(false), Ok(false));
    assert_eq!(autostart_state(), Ok(false));
}

#[test]
fn autostart_registry_commands() {
    let exe = "C:\\Apps\\Nexious Quick\\nexious-quick.exe";
    assert_eq!(autostart_value(exe), "\"C:\\Apps\\Nexious Quick\\nexious-quick.exe\" --autostart");
    assert_eq!(
        autostart_reg_args(true, exe),
        vec![
            "add",
            "HKCU\\Software\\Microsoft\\Windows\\CurrentVersion\\Run",
            "/v",
            "NexiousQuick",
            "/t",
            "REG_SZ",
            "/d",
            "\"C:\\Apps\\Nexious Quick\\nexious-quick.exe\" --autostart",
            "/f",
        ]
    );
    assert_eq!(
        autostart_reg_args(false, exe),
        vec!["delete", "HKCU\\Software\\Microsoft\\Windows\\CurrentVersion\\Run", "/v", "NexiousQuick", "/f"]
    );
    assert_eq!(
        autostart_query_args(),
        vec!["query", "HKCU\\Software\\Microsoft\\Windows\\CurrentVersion\\Run", "/v", "NexiousQuick"]
    );
}

fn reg(success: bool, code: Option<i32>, stderr: &str) -> Result<RegOutput, String> {
    Ok(RegOutput { success, code, stderr: stderr.to_string() })
}

#[test]
fn autostart_registry_outcomes() {
    assert_eq!(registry_autostart_outcome(true, reg(true, Some(0), "")), Ok(true));
    assert_eq!(
        registry_autostart_outcome(true, reg(false, Some(1), "  ERROR: Access is denied.\r\n")),
        Err("ERROR: Access is denied.".to_string())
    );
    assert_eq!(registry_autostart_outcome(false, reg(true, Some(0), "")), Ok(true));
    assert_eq!(registry_autostart_outcome(false, reg(false, Some(1), "not found")), Ok(true));
    assert_eq!(registry_autostart_outcome(false, reg(false, Some(5), "denied")), Ok(false));
    assert_eq!(registry_autostart_outcome(false, reg(false, None, "")), Ok(false));
    assert_eq!(
        registry_autostart_outcome(true, Err("not found".to_string())),
        Err("开启开机自启动失败：not found".to_string())
    );
    assert_eq!(
        registry_autostart_outcome(false, Err("not found".to_string())),
        Err("关闭开机自启动失败：not found".to_string())
    );
    assert_eq!(registry_autostart_state(Ok(true)), Ok(true));
    assert_eq!(registry_autostart_state(Ok(false)), Ok(false));
    assert_eq!(
        registry_autostart_state(Err("boom".to_string())),
        Err("读取开机自启动状态失败：boom".to_string())
    );
}

#[test]
fn old_autostart_lines_get_the_flag() {
    let exe = "C:\\Apps\\Nexious.exe";
    assert!(needs_autostart_flag("NexiousQuick REG_SZ \"C:\\APPS\\nexious.exe\"", exe));
    assert!(!needs_autostart_flag("NexiousQuick REG_SZ \"C:\\Apps\\Nexious.exe\" --autostart", exe));
    assert!(!needs_autostart_flag("NexiousQuick REG_SZ \"D:\\Other.exe\"", exe));
    let args: Vec<String> = vec!["nexious.exe".to_string(), "--autostart".to_string()];
    assert!(is_autostart_launch(&args));
    assert!(!is_autostart_launch(&vec!["nexious.exe".to_string(), "--autostart=1".to_string()]));
    assert!(!is_autostart_launch(&vec![]));
}

const ORIGINAL_RELEASE_SCRIPT: &str = r#"
$ErrorActionPreference = 'SilentlyContinue'
$url = '{url}'
$out = ''
try {
    $resp = Invoke-WebRequest -UseBasicParsing -Uri $url -TimeoutSec 12 -MaximumRedirection 5
    if ($resp.BaseResponse.ResponseUri) {
        $out = $resp.BaseResponse.ResponseUri.AbsoluteUri
    }
} catch {
    if ($_.Exception.Response) {
        $status = [int]$_.Exception.Response.StatusCode
        if ($status -eq 404) { $out = '__NOT_FOUND__' }
    }
}
[Console]::OutputEncoding = [System.Text.Encoding]::ASCII
[Console]::Write($out)
"#;

#[test]
fn release_check_script_and_answers() {
    assert_eq!(release_check_script(), ORIGINAL_RELEASE_SCRIPT.replace("{url}", RELEASES_URL));
    let none = interpret_release_output(" __NOT_FOUND__\r\n").unwrap();
    assert!(!none.found);
    assert_eq!(none.url, "");
    let tag = "https://github.com/Nexius-Nova/nexious-quick/releases/tag/v1.2.0";
    let found = interpret_release_output(&format!("{tag}\n")).unwrap();
    assert!(found.found);
    assert_eq!(found.url, tag);
    assert_eq!(
        interpret_release_output("http://insecure.example").err(),
        Some("检查更新失败：无法连接 GitHub，请检查网络后重试".to_string())
    );
    assert!(interpret_release_output("").is_err());
}

#[test]
fn start_plan_depends_on_how_the_launcher_started() {
    let auto = startup_plan(true);
    assert!(!auto.show_launcher);
    assert!(auto.repair_autostart_flag);
    assert_eq!((auto.sync_delay_secs, auto.dedupe_delay_secs), (20, 15));
    let user = startup_plan(false);
    assert!(user.show_launcher);
    assert!(!user.repair_autostart_flag);
    assert_eq!((user.sync_delay_secs, user.dedupe_delay_secs), (6, 4));
}

#[test]
fn drags_lapse_after_five_seconds() {
    let mut d = DragState::new();
    assert!(!d.launcher_dragging(0));
    d.set_launcher_drag(true, 1_000);
    assert_eq!(d.until, 6_000);
    assert!(d.launcher_dragging(6_000));
    assert!(d.dragging);
    assert!(!d.launcher_dragging(6_001));
    assert!(!d.dragging);
    assert!(!d.launcher_dragging(2_000));
    d.set_launcher_drag(true, 2_000);
    d.set_launcher_drag(false, 2_500);
    assert!(!d.launcher_dragging(2_600));
    assert_eq!(d.until, 7_000);
}

#[test]
fn losing_focus_hides_only_when_asked() {
    let mut d = DragState::new();
    assert!(!d.hides_on_blur(1_999, 10_000, Some("true")));
    assert!(d.hides_on_blur(2_000, 10_000, Some("true")));
    assert!(!d.hides_on_blur(5_000, 10_000, Some("false")));
    assert!(!d.hides_on_blur(5_000, 10_000, None));
    d.set_launcher_drag(true, 10_000);
    assert!(!d.hides_on_blur(1_000, 20_000, Some("true")));
    assert!(d.dragging);
    assert!(!d.hides_on_blur(5_000, 12_000, Some("true")));
    assert!(d.hides_on_blur(5_000, 16_000, Some("true")));
    assert!(!d.dragging);
}

#[test]
fn closing_and_tray_actions() {
    assert_eq!(close_action(None), CloseAction::HideToTray);
    assert_eq!(close_action(Some("true")), CloseAction::HideToTray);
    assert_eq!(close_action(Some("false")), CloseAction::ExitApp);
    assert_eq!(tray_menu_action("show-launcher"), TrayAction::ShowLauncher);
    assert_eq!(tray_menu_action("open-settings"), TrayAction::OpenSettings);
    assert_eq!(tray_menu_action("quit"), TrayAction::Quit);
    assert_eq!(tray_menu_action("Quit"), TrayAction::Ignore);
}

#[test]
fn drag_answers_follow_the_start_time() {
    let mut d = DragState::new();
    d.set_launcher_drag(true, 10_000);
    let answers: Vec<bool> = [10_000u128, 12_000, 15_000, 15_001, 14_000, 20_000]
        .iter()
        .map(|t| d.launcher_dragging(*t))
        .collect();
    assert_eq!(answers, vec![true, true, true, false, false, false]);
    d.set_launcher_drag(true, 30_000);
    assert!(d.launcher_dragging(34_999));
    d.set_launcher_drag(false, 35_000);
    assert!(!d.launcher_dragging(35_000));
}
