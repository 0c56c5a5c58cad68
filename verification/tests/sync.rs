use nexious_quick::json::Json;
use nexious_quick::item::{ScannedApp, SyncResult, SyncedItem};
use nexious_quick::sync::{
    accept_scanned, apps_of_report, icon_data_url, plan_app_merge, plan_item_merge, rescan_app, resync_entry,
    scanned_apps, sync_summary, unique_by_url, AppRow, MergeAction, RawScannedApp, StoredApp,
    StoredEntry, UrlRow,
};

fn app(name: &str, target: &str, args: &str) -> ScannedApp {
    ScannedApp { name: name.to_string(), target: target.to_string(), args: args.to_string(), dir: String::new(), icon: String::new() }
}

fn synced(name: &str, url: &str) -> SyncedItem {
    SyncedItem {
        name: name.to_string(),
        alias: String::new(),
        kind: "website".to_string(),
        url: url.to_string(),
        description: String::new(),
        icon: String::new(),
    }
}

fn raw(name: &str, target: &str) -> RawScannedApp {
    RawScannedApp {
        name: name.to_string(),
        target: target.to_string(),
        args: " -x ".to_string(),
        dir: "C:\\Dir".to_string(),
        icon: "AAAA".to_string(),
    }
}

#[test]
fn scanned_applications_update_or_insert() {
    let rows = vec![
        AppRow { id: 10, url: "C:\\Apps\\Code.exe".to_string(), args: "".to_string() },
        AppRow { id: 11, url: "c:\\apps\\code.exe".to_string(), args: " ".to_string() },
        AppRow { id: 12, url: "C:\\Apps\\Code.exe".to_string(), args: " --New-Window ".to_string() },
    ];
    let apps = vec![
        app("Code", "C:\\APPS\\CODE.EXE", ""),
        app("Code (new window)", "C:\\Apps\\Code.exe", "--new-window"),
        app("Notepad", "C:\\Windows\\notepad.exe", ""),
        app("Code", "C:\\Apps\\Code.exe", "  "),
    ];
    let (actions, counts) = plan_app_merge(&rows, &apps);
    assert_eq!(
        actions,
        vec![MergeAction::Update(10), MergeAction::Update(12), MergeAction::Insert, MergeAction::Update(10)]
    );
    assert_eq!(counts, SyncResult { added: 1, updated: 3, total: 4 });
    assert_eq!(counts.added + counts.updated, counts.total);
}

#[test]
fn synchronised_entries_match_by_lowercased_address() {
    let rows = vec![
        UrlRow { id: 1, url: "HTTPS://A.com".to_string() },
        UrlRow { id: 2, url: "https://a.com".to_string() },
        UrlRow { id: 3, url: "D:\\Music".to_string() },
    ];
    let items = vec![synced("A", "https://A.COM"), synced("Music", "d:\\music"), synced("B", "https://b.com"), synced("A/", "https://a.com/")];
    let (actions, counts) = plan_item_merge(&rows, &items);
    assert_eq!(actions, vec![MergeAction::Update(1), MergeAction::Update(3), MergeAction::Insert, MergeAction::Insert]);
    assert_eq!(counts, SyncResult { added: 2, updated: 2, total: 4 });
    let (none, zero) = plan_item_merge(&rows, &vec![]);
    assert!(none.is_empty());
    assert_eq!(zero, SyncResult { added: 0, updated: 0, total: 0 });
}

#[test]
fn icons_and_summaries() {
    assert_eq!(icon_data_url(""), "");
    assert_eq!(icon_data_url("iVBOR"), "data:image/png;base64,iVBOR");
    assert_eq!(sync_summary(&SyncResult { added: 3, updated: 12, total: 15 }), "added:3,updated:12");
    assert_eq!(sync_summary(&SyncResult { added: 0, updated: -1, total: 0 }), "added:0,updated:-1");
}

#[test]
fn scan_output_is_cleaned() {
    let ok = accept_scanned(raw("  Visual Studio Code ", " C:\\Code.exe ")).unwrap();
    assert_eq!(ok.name, "Visual Studio Code");
    assert_eq!(ok.target, "C:\\Code.exe");
    assert_eq!(ok.args, " -x ");
    assert_eq!(ok.dir, "C:\\Dir");
    assert_eq!(ok.icon, "AAAA");
    assert!(accept_scanned(raw("Uninstall Foo", "C:\\u.exe")).is_none());
    assert!(accept_scanned(raw("Foo README", "C:\\r.txt")).is_none());
    assert!(accept_scanned(raw("软件卸载", "C:\\u.exe")).is_none());
    assert!(accept_scanned(raw("帮助文档", "C:\\h.chm")).is_none());
    assert!(accept_scanned(raw("Troubleshooter", "C:\\t.exe")).is_none());
    assert!(accept_scanned(raw("许可协议", "C:\\l.txt")).is_none());
    assert!(accept_scanned(raw("   ", "C:\\x.exe")).is_none());
    assert!(accept_scanned(raw("Name", "  ")).is_none());
}

#[test]
fn one_entry_is_kept_per_address() {
    let items = vec![
        synced("first", "https://A.com"),
        synced("second", "https://b.com"),
        synced("dup", "https://a.COM"),
        synced("slash", "https://a.com/"),
        synced("dup b", "HTTPS://B.COM"),
    ];
    let kept: Vec<String> = unique_by_url(&items).into_iter().map(|i| i.name).collect();
    assert_eq!(kept, vec!["first", "second", "slash"]);
    assert!(unique_by_url(&vec![]).is_empty());
}

fn fields(a: &ScannedApp) -> (String, String, String, String, String) {
    (a.name.clone(), a.target.clone(), a.args.clone(), a.dir.clone(), a.icon.clone())
}

#[test]
fn scan_report_is_read_into_applications() {
    let report = r#"
      {"apps": [
        {"name": "  Notepad  ", "target": " C:\\Windows\\notepad.exe ", "args": "-a", "dir": "C:\\Windows", "icon": "QUJD"},
        {"name": "Uninstall Foo", "target": "C:\\foo\\unins.exe"},
        {"name": "   ", "target": "C:\\x.exe"},
        {"name": "Blank target", "target": ""},
        {"name": "Calc", "target": "calc.exe", "args": 5, "icon": null},
        "not an object",
        {"name": "游戏帮助", "target": "help.exe"}
      ]}
    "#;
    let apps = scanned_apps(report).unwrap();
    let got: Vec<_> = apps.iter().map(fields).collect();
    assert_eq!(
        got,
        vec![
            (
                "Notepad".to_string(),
                "C:\\Windows\\notepad.exe".to_string(),
                "-a".to_string(),
                "C:\\Windows".to_string(),
                "QUJD".to_string(),
            ),
            ("Calc".to_string(), "calc.exe".to_string(), String::new(), String::new(), String::new()),
        ]
    );
}

#[test]
fn scan_report_without_apps_gives_none() {
    assert!(scanned_apps("{}").unwrap().is_empty());
    assert!(scanned_apps("  {\"apps\": {\"name\": \"x\"}}  ").unwrap().is_empty());
    assert!(scanned_apps("[1, 2]").unwrap().is_empty());
}

#[test]
fn scan_report_that_is_not_json_is_an_error() {
    let e = scanned_apps("Scan failed: access denied").unwrap_err();
    assert!(e.starts_with("解析扫描结果失败："));
    assert!(e.len() > "解析扫描结果失败：".len());
    assert!(scanned_apps("").is_err());
}

fn stored_entry(name: &str, alias: &str, kind: &str, description: &str, icon: &str, enabled: i64) -> StoredEntry {
    StoredEntry {
        id: 7,
        name: name.to_string(),
        alias: alias.to_string(),
        kind: kind.to_string(),
        description: description.to_string(),
        icon: icon.to_string(),
        enabled,
    }
}

#[test]
fn resync_keeps_what_the_user_filled_in() {
    let mut item = synced("Rust", "https://rust-lang.org");
    item.alias = "edge default".to_string();
    item.description = "来自Edge Default收藏夹".to_string();
    item.icon = "fresh-icon".to_string();
    let stored = stored_entry("Old name", "my alias", "website", "", "", 1);
    let row = resync_entry(&stored, &item).unwrap();
    assert_eq!(row.id, 7);
    assert_eq!(row.name, "Rust");
    assert_eq!(row.alias, "my alias");
    assert_eq!(row.kind, "website");
    assert_eq!(row.description, "来自Edge Default收藏夹");
    assert_eq!(row.icon, "fresh-icon");
    assert_eq!(row.enabled, 1);
}

#[test]
fn resync_writes_only_on_change() {
    let item = synced("Rust", "https://rust-lang.org");
    let same = stored_entry("Rust", "mine", "website", "desc", "icon", 1);
    assert!(resync_entry(&same, &item).is_none());
    let filled = stored_entry("Rust", "", "website", "", "", 1);
    assert!(resync_entry(&filled, &item).is_none());
    let disabled = stored_entry("Rust", "mine", "website", "desc", "icon", 0);
    let row = resync_entry(&disabled, &item).unwrap();
    assert_eq!(row.enabled, 1);
    assert_eq!(row.alias, "mine");
    let retyped = stored_entry("Rust", "", "file", "", "", 1);
    assert_eq!(resync_entry(&retyped, &item).unwrap().kind, "website");
}

fn stored_app(name: &str, args: &str, workdir: &str, icon: &str) -> StoredApp {
    StoredApp { id: 3, name: name.to_string(), args: args.to_string(), workdir: workdir.to_string(), icon: icon.to_string() }
}

#[test]
fn rescan_replaces_fields_and_keeps_icon_without_a_new_one() {
    let mut a = app("Notepad 2", "notepad.exe", "-b");
    a.dir = "C:\\Win".to_string();
    let stored = stored_app("Notepad", "-a", "C:\\Windows", "data:old");
    let row = rescan_app(&stored, &a, "").unwrap();
    assert_eq!(row.id, 3);
    assert_eq!((row.name.as_str(), row.args.as_str(), row.workdir.as_str()), ("Notepad 2", "-b", "C:\\Win"));
    assert_eq!(row.icon, "data:old");
    let row = rescan_app(&stored, &a, "data:new").unwrap();
    assert_eq!(row.icon, "data:new");
}

#[test]
fn rescan_writes_only_on_change() {
    let mut a = app("Notepad", "notepad.exe", "-a");
    a.dir = "C:\\Windows".to_string();
    let stored = stored_app("Notepad", "-a", "C:\\Windows", "data:old");
    assert!(rescan_app(&stored, &a, "").is_none());
    assert!(rescan_app(&stored, &a, "data:old").is_none());
    assert_eq!(rescan_app(&stored, &a, "data:other").unwrap().icon, "data:other");
}

#[test]
fn second_resync_and_rescan_write_nothing() {
    let mut item = synced("Rust", "https://rust-lang.org");
    item.alias = "edge default".to_string();
    item.icon = "icon".to_string();
    let stored = stored_entry("Old", "", "file", "", "", 0);
    let row = resync_entry(&stored, &item).unwrap();
    assert!(resync_entry(&row, &item).is_none());

    let mut a = app("Notepad", "notepad.exe", "-a");
    a.dir = "C:\\Windows".to_string();
    let stored = stored_app("Old", "", "", "data:old");
    let row = rescan_app(&stored, &a, "data:new").unwrap();
    assert!(rescan_app(&row, &a, "data:new").is_none());
    let row = rescan_app(&stored, &a, "").unwrap();
    assert!(rescan_app(&row, &a, "").is_none());
}

#[test]
fn parsed_report_is_read_into_applications() {
    let rec = |name: &str, target: &str| {
        Json::Object(vec![
            ("name".to_string(), Json::Str(name.to_string())),
            ("target".to_string(), Json::Str(target.to_string())),
            ("dir".to_string(), Json::Str("D".to_string())),
        ])
    };
    let report = Json::Object(vec![(
        "apps".to_string(),
        Json::Array(vec![rec(" Word ", "word.exe"), rec("README", "r.txt"), Json::Number, rec("Excel", " ")]),
    )]);
    let apps = apps_of_report(&report);
    assert_eq!(apps.len(), 1);
    assert_eq!(fields(&apps[0]), ("Word".to_string(), "word.exe".to_string(), String::new(), "D".to_string(), String::new()));
    assert!(apps_of_report(&Json::Array(vec![rec("Word", "word.exe")])).is_empty());
}
