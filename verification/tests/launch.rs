use nexious_quick::item::Item;
use nexious_quick::launch::{
    append_arg, argv_command_line, choose_window, elevated_parameters, elevation_outcome,
    err_msg, find_process, is_console_app, is_console_subsystem, is_elevation_required,
    is_pe_signature, normalize_path, open_url_target, pe_header_offset, plan_launch,
    plan_path_launch, shell_open_outcome, spawn_failure, split_args, subsystem_offset,
    LaunchStep, PathLaunch, ProcessInfo, SpawnFailure, WindowInfo, ERROR_ELEVATION_REQUIRED,
};

fn item(kind: &str, url: &str, args: &str, workdir: &str) -> Item {
    Item {
        id: 1,
        icon: String::new(),
        name: "x".to_string(),
        alias: String::new(),
        kind: kind.to_string(),
        url: url.to_string(),
        args: args.to_string(),
        workdir: workdir.to_string(),
        description: String::new(),
        enabled: true,
        updated_at: String::new(),
    }
}

fn quoted(arg: &str) -> String {
    let mut s = String::new();
    append_arg(&mut s, arg);
    s
}

#[test]
fn error_messages_use_a_full_width_colon() {
    assert_eq!(err_msg("启动失败", "denied"), "启动失败：denied");
}

#[test]
fn arguments_split_at_white_space() {
    assert_eq!(split_args("  -a  --b=1\tc "), vec!["-a", "--b=1", "c"]);
    assert!(split_args("   ").is_empty());
    assert_eq!(argv_command_line(" /k dir "), Some("x  /k dir ".to_string()));
    assert_eq!(argv_command_line("  "), None);
}

#[test]
fn arguments_are_quoted_like_the_standard_library() {
    assert_eq!(quoted("plain"), "plain");
    assert_eq!(quoted(""), "\"\"");
    assert_eq!(quoted("a b"), "\"a b\"");
    assert_eq!(quoted("say \"hi\""), "\"say \\\"hi\\\"\"");
    assert_eq!(quoted("C:\\dir with space\\"), "\"C:\\dir with space\\\\\"");
    assert_eq!(quoted("a\\\\\"b c"), "\"a\\\\\\\\\\\"b c\"");
    assert_eq!(quoted("no\\quote"), "no\\quote");
    let args: Vec<String> = vec!["/k".to_string(), "C:\\My Files\\run.bat".to_string(), "".to_string()];
    assert_eq!(elevated_parameters(&args), "/k \"C:\\My Files\\run.bat\" \"\"");
    assert_eq!(elevated_parameters(&vec![]), "");
}

#[test]
fn system_call_results() {
    assert_eq!(ERROR_ELEVATION_REQUIRED, 740);
    assert!(is_elevation_required(Some(740)));
    assert!(!is_elevation_required(Some(5)));
    assert!(!is_elevation_required(None));
    assert_eq!(shell_open_outcome(42), Ok(()));
    assert_eq!(shell_open_outcome(2), Err("系统无法打开该目标（错误码 2）".to_string()));
    assert_eq!(shell_open_outcome(-1), Err("系统无法打开该目标（错误码 4294967295）".to_string()));
    assert_eq!(elevation_outcome(33), Ok(()));
    assert_eq!(elevation_outcome(1223), Ok(()));
    assert_eq!(elevation_outcome(5), Err("需要管理员权限，提权启动未成功（错误码 5）".to_string()));
    assert_eq!(elevation_outcome(-3073), Err("需要管理员权限，提权启动未成功（错误码 4294964223）".to_string()));
    assert!(matches!(spawn_failure(Some(740), "x"), SpawnFailure::Elevate));
    match spawn_failure(Some(2), "not found") {
        SpawnFailure::Report(m) => assert_eq!(m, "启动应用失败：not found"),
        SpawnFailure::Elevate => panic!("should report"),
    }
}

#[test]
fn launch_plans_by_target() {
    assert!(matches!(plan_launch(&item("application", "  ", "", "")), LaunchStep::Fail(m) if m == "启动项路径为空"));
    assert!(matches!(
        plan_launch(&item("website", " example.com ", "", "")),
        LaunchStep::OpenUrl { url, failure } if url == "example.com" && failure == "打开网站失败"
    ));
    assert!(matches!(plan_launch(&item("application", "https://x.org", "", "")), LaunchStep::OpenUrl { .. }));
    match plan_launch(&item("application", "shell:AppsFolder\\Microsoft.WindowsCalculator_8wekyb3d8bbwe!App", "", "")) {
        LaunchStep::Spawn { program, args, failure } => {
            assert_eq!(program, "explorer.exe");
            assert_eq!(args, vec!["shell:AppsFolder\\Microsoft.WindowsCalculator_8wekyb3d8bbwe!App"]);
            assert_eq!(failure, "启动失败");
        }
        _ => panic!("expected explorer"),
    }
    assert!(matches!(plan_launch(&item("application", "shell:AppsFolder\\", "", "")), LaunchStep::Fail(m) if m == "无效的应用标识"));
    assert!(matches!(
        plan_launch(&item("application", "::{20D04FE0-3AEA-1069-A2D8-08002B30309D}", "", "")),
        LaunchStep::ShellOpen { target, .. } if target == "::{20D04FE0-3AEA-1069-A2D8-08002B30309D}"
    ));
    assert!(matches!(plan_launch(&item("application", "steam://run/570", "", "")), LaunchStep::ShellOpen { .. }));
    assert!(matches!(plan_launch(&item("file", " C:\\a.txt ", "", "")), LaunchStep::InspectPath(p) if p == "C:\\a.txt"));
}

#[test]
fn path_launch_plans_by_extension() {
    let it = item("application", "C:\\Apps\\tool.exe", " --fast  --x ", "");
    assert!(matches!(
        plan_path_launch(&it, split_args(&it.args), "C:\\Apps", true, true, "", Some("C:\\")),
        PathLaunch::OpenPath { target, failure } if target == "C:\\Apps" && failure == "打开文件夹失败"
    ));
    assert!(matches!(
        plan_path_launch(&it, split_args(&it.args), "C:\\missing.exe", false, false, "exe", Some("C:\\")),
        PathLaunch::Fail(m) if m == "路径不存在：C:\\missing.exe"
    ));
    match plan_path_launch(&it, split_args(&it.args), "C:\\Apps\\tool.exe", false, true, "EXE", Some("C:\\Apps")) {
        PathLaunch::Executable { args, check_running, workdir } => {
            assert_eq!(args, vec!["--fast", "--x"]);
            assert!(!check_running);
            assert_eq!(workdir, Some("C:\\Apps".to_string()));
        }
        _ => panic!("expected an executable"),
    }
    let bare = item("application", "C:\\Apps\\tool.exe", "", "  D:\\Work ");
    match plan_path_launch(&bare, split_args(&bare.args), "C:\\Apps\\tool.exe", false, true, "exe", Some("C:\\Apps")) {
        PathLaunch::Executable { args, check_running, workdir } => {
            assert!(args.is_empty());
            assert!(check_running);
            assert_eq!(workdir, Some("D:\\Work".to_string()));
        }
        _ => panic!("expected an executable"),
    }
    match plan_path_launch(&it, split_args(&it.args), "C:\\run.cmd", false, true, "cmd", None) {
        PathLaunch::Spawn { program, args, .. } => {
            assert_eq!(program, "cmd");
            assert_eq!(args, vec!["/C", "start", "", "C:\\run.cmd"]);
        }
        _ => panic!("expected cmd"),
    }
    assert!(matches!(plan_path_launch(&it, split_args(&it.args), "C:\\a.lnk", false, true, "LNK", None), PathLaunch::Spawn { program, .. } if program == "explorer.exe"));
    assert!(matches!(
        plan_path_launch(&it, split_args(&it.args), "C:\\a.pdf", false, true, "pdf", None),
        PathLaunch::OpenPath { failure, .. } if failure == "打开文件失败"
    ));
    assert!(matches!(plan_path_launch(&it, split_args(&it.args), "C:\\README", false, true, "", None), PathLaunch::OpenPath { .. }));
    let system_split = vec!["C:\\My Files\\a.txt".to_string(), "--x".to_string()];
    match plan_path_launch(&it, system_split.clone(), "C:\\Apps\\tool.exe", false, true, "exe", None) {
        PathLaunch::Executable { args, check_running, workdir } => {
            assert_eq!(args, system_split);
            assert!(!check_running);
            assert_eq!(workdir, None);
        }
        _ => panic!("expected an executable"),
    }
}

#[test]
fn website_addresses_get_a_scheme() {
    assert_eq!(open_url_target("example.com"), "https://example.com");
    assert_eq!(open_url_target("//example.com/a"), "https://example.com/a");
    assert_eq!(open_url_target("http://x.org"), "http://x.org");
    assert_eq!(open_url_target("shell:Downloads"), "shell:Downloads");
}

#[test]
fn console_programs_are_recognised_from_their_headers() {
    let mut head = vec![0u8; 0x40];
    head[0] = b'M';
    head[1] = b'Z';
    head[0x3c] = 0x80;
    head[0x3d] = 0x01;
    assert_eq!(pe_header_offset(&head), Some(0x180));
    assert_eq!(pe_header_offset(&head[..0x3f]), None);
    assert_eq!(pe_header_offset(&[0u8; 0x40]), None);
    assert!(is_pe_signature(b"PE\0\0"));
    assert!(!is_pe_signature(b"PE\0"));
    assert_eq!(subsystem_offset(0x180), Some(0x180 + 92));
    assert_eq!(subsystem_offset(u64::MAX - 10), None);
    assert!(is_console_subsystem(&[3, 0]));
    assert!(!is_console_subsystem(&[2, 0]));
    let sig: &[u8] = b"PE\0\0";
    let cui: &[u8] = &[3, 0];
    let gui: &[u8] = &[2, 0];
    assert!(is_console_app(Some(head.as_slice()), Some(sig), Some(cui)));
    assert!(!is_console_app(Some(head.as_slice()), Some(sig), Some(gui)));
    assert!(!is_console_app(Some(head.as_slice()), None, Some(cui)));
    assert!(!is_console_app(None, Some(sig), Some(cui)));
}

#[test]
fn canonical_paths_are_normalised() {
    assert_eq!(normalize_path("\\\\?\\C:\\Program Files\\App.EXE"), "c:\\program files\\app.exe");
    assert_eq!(normalize_path("\\\\?\\UNC\\Server\\Share\\a.exe"), "\\\\server\\share\\a.exe");
    assert_eq!(normalize_path("D:\\Plain.exe"), "d:\\plain.exe");
}

fn process(pid: u32, exe: &str, image: Option<&str>) -> ProcessInfo {
    ProcessInfo { pid, exe_name: exe.to_string(), image: image.map(|s| s.to_string()) }
}

#[test]
fn running_programs_are_found_by_name_and_image() {
    let procs = vec![
        process(4, "Code.exe", Some("D:\\Other\\Code.exe")),
        process(8, "code.exe", None),
        process(12, "CODE.EXE", Some("C:\\Apps\\Code.exe")),
        process(16, "code.exe", Some("c:\\apps\\code.exe")),
    ];
    assert_eq!(find_process("code.exe", "c:\\apps\\code.exe", &procs), Some(12));
    assert_eq!(find_process("code.exe", "e:\\code.exe", &procs), None);
    assert_eq!(find_process("", "c:\\apps\\code.exe", &procs), None);
}

fn window(visible: bool, has_owner: bool, pid: u32) -> WindowInfo {
    WindowInfo { visible, has_owner, pid }
}

#[test]
fn main_windows_prefer_ones_without_owner() {
    let ws = vec![window(true, true, 7), window(false, false, 7), window(true, false, 9), window(true, false, 7)];
    assert_eq!(choose_window(&ws, 7), Some(3));
    let owned_only = vec![window(false, false, 7), window(true, true, 7)];
    assert_eq!(choose_window(&owned_only, 7), Some(1));
    assert_eq!(choose_window(&ws, 5), None);
}
