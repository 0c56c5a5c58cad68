use nexious_quick::platform::{activate_if_running, open, spawn_elevated};

#[test]
fn no_running_program_is_found_without_a_window_system() {
    assert!(!activate_if_running("/usr/bin/app"));
}

#[test]
fn shell_targets_are_refused_without_a_shell() {
    assert_eq!(open("steam://run/1"), Err("当前平台不支持该启动方式".to_string()));
}

#[test]
fn elevated_starts_are_refused_without_elevation() {
    assert_eq!(
        spawn_elevated("/opt/app", &vec!["--x".to_string()], Some("/opt")),
        Err("当前平台不支持自动提权启动".to_string())
    );
    assert_eq!(spawn_elevated("/opt/app", &vec![], None), Err("当前平台不支持自动提权启动".to_string()));
}
