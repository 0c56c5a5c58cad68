use nexious_quick::folders::{
    add_root, check_new_root, classify_roots_setting, default_folder_root, drive_entry,
    drive_paths, home_root_entry, is_hidden_attributes, list_directory, name_sort_key,
    normalize_alias, normalize_root_path, order_directory, remove_root, root_name_of,
    select_roots, should_skip_attributes, standard_dirs, DirCandidate, FolderScan, ListedEntry,
    RootsSetting, MAX_SYNC_DEPTH, MAX_SYNC_ITEMS_PER_ROOT,
};
use nexious_quick::item::FolderRoot;

fn root(path: &str, name: &str, recursive: bool) -> FolderRoot {
    FolderRoot { path: path.to_string(), name: name.to_string(), recursive }
}

fn cand(name: &str, is_dir: bool, hidden: bool) -> DirCandidate {
    DirCandidate { name: name.to_string(), path: format!("C:\\{name}"), is_dir, hidden }
}

fn listed(name: &str, is_dir: bool, skipped: bool) -> ListedEntry {
    ListedEntry { name: name.to_string(), path: format!("R\\{name}"), is_dir, skipped }
}

#[test]
fn aliases_drop_white_space_and_lowercase() {
    assert_eq!(normalize_alias(" My Documents\t"), "mydocuments");
    assert_eq!(normalize_alias("İstanbul"), "i\u{307}stanbul");
    assert_eq!(normalize_alias("   "), "");
}

#[test]
fn root_names_come_from_the_last_component() {
    assert_eq!(root_name_of("D:\\Work\\Projects", Some("Projects"), Some("D:")), "Projects");
    assert_eq!(root_name_of("D:\\", None, Some("D:")), "D:");
    assert_eq!(root_name_of("/", None, Some("/")), "/");
    assert_eq!(root_name_of("weird", Some("  "), Some("weird")), "weird");
    assert_eq!(root_name_of("", None, None), "");
}

#[test]
fn typed_root_paths_are_normalised_and_checked() {
    assert_eq!(normalize_root_path("  D:\\Work\\\\ "), "D:\\Work");
    assert_eq!(normalize_root_path("C:\\"), "C:\\");
    assert_eq!(normalize_root_path("c:/"), "c:/");
    assert_eq!(normalize_root_path("D:\\Work/"), "D:\\Work/");
    assert_eq!(check_new_root("", true), Err("目录不能为空".to_string()));
    assert_eq!(check_new_root("D:\\Nope", false), Err("目录不存在或不可访问：D:\\Nope".to_string()));
    assert_eq!(check_new_root("D:\\Work", true), Ok(()));
}

#[test]
fn roots_are_added_once_and_removed_ignoring_case() {
    let mut roots = vec![root("D:\\Work", "Work", false)];
    assert!(!add_root(&mut roots, "d:\\work".to_string(), "work".to_string()));
    assert_eq!(roots.len(), 1);
    assert!(add_root(&mut roots, "E:\\Music".to_string(), "Music".to_string()));
    assert_eq!(roots[1], root("E:\\Music", "Music", true));
    let left = remove_root(&roots, "D:\\WORK");
    assert_eq!(left, vec![root("E:\\Music", "Music", true)]);
    assert_eq!(remove_root(&roots, "F:\\None"), roots);
    assert_eq!(select_roots(&roots, None), roots);
    assert_eq!(select_roots(&roots, Some("e:\\music")), vec![root("E:\\Music", "Music", true)]);
    assert!(select_roots(&roots, Some("Z:\\")).is_empty());
}

#[test]
fn stored_roots_setting_is_classified() {
    assert!(matches!(classify_roots_setting(None), RootsSetting::Missing));
    assert!(matches!(classify_roots_setting(Some("  ")), RootsSetting::Empty));
    assert!(matches!(classify_roots_setting(Some(" [] ")), RootsSetting::Empty));
    assert!(matches!(classify_roots_setting(Some("[ ]")), RootsSetting::Stored));
    assert!(matches!(classify_roots_setting(Some("[{\"path\":\"D:\"}]")), RootsSetting::Stored));
}

#[test]
fn attribute_masks() {
    assert!(should_skip_attributes(0x2));
    assert!(should_skip_attributes(0x4));
    assert!(should_skip_attributes(0x400));
    assert!(!should_skip_attributes(0x10 | 0x20));
    assert!(is_hidden_attributes(0x2 | 0x10));
    assert!(!is_hidden_attributes(0x400));
}

#[test]
fn directory_listing_is_filtered_and_sorted() {
    assert_eq!(name_sort_key("Ab"), vec![97, 98]);
    let cands = vec![
        cand("beta", true, false),
        cand("Alpha", true, false),
        cand("file.txt", false, false),
        cand("$Recycle", true, true),
        cand("", true, false),
        cand("alpha", true, false),
    ];
    let names: Vec<String> = order_directory(&cands).into_iter().map(|e| e.name).collect();
    assert_eq!(names, vec!["Alpha", "alpha", "beta"]);
    let listing = list_directory(true, &cands).unwrap();
    assert_eq!(listing[0].path, "C:\\Alpha");
    assert!(listing.iter().all(|e| e.is_dir));
    assert_eq!(list_directory(false, &cands).err(), Some("目录不存在或不可访问".to_string()));
}

#[test]
fn drive_roots_and_standard_folders() {
    let drives = drive_paths();
    assert_eq!(drives.len(), 24);
    assert_eq!(drives[0], "C:\\");
    assert_eq!(drives[23], "Z:\\");
    let d = drive_entry("D:\\");
    assert_eq!((d.name.as_str(), d.path.as_str(), d.is_dir), ("D:\\", "D:\\", true));
    let h = home_root_entry(Some("/home/me"));
    assert_eq!((h.name.as_str(), h.path.as_str(), h.is_dir), ("/", "/home/me", true));
    assert_eq!(home_root_entry(None).path, "/");
    let std_dirs = standard_dirs();
    let labels: Vec<&str> = std_dirs.iter().map(|d| d.label.as_str()).collect();
    assert_eq!(labels, vec!["桌面", "文档", "下载", "图片"]);
    assert_eq!(std_dirs[2].candidates, vec!["Downloads", "下载"]);
    assert_eq!(default_folder_root("桌面", "C:\\Users\\me\\Desktop"), root("C:\\Users\\me\\Desktop", "桌面", true));
}

#[test]
fn folder_scan_is_breadth_first_and_sorted() {
    let r = root("R", "My Root", true);
    let mut scan = FolderScan::start(&r, true, true);
    assert_eq!(scan.next_dir(), Some("R".to_string()));
    scan.accept_listing(&vec![
        listed("b", true, false),
        listed(".git", true, false),
        listed("a.txt", false, false),
        listed("A", true, false),
        listed("sys", true, true),
        listed("", false, false),
    ]);
    assert_eq!(scan.next_dir(), Some("R\\A".to_string()));
    scan.accept_listing(&vec![listed("deep", true, false)]);
    assert_eq!(scan.next_dir(), Some("R\\b".to_string()));
    scan.accept_listing(&vec![]);
    assert_eq!(scan.next_dir(), Some("R\\deep".to_string()));
    scan.accept_listing(&vec![]);
    assert_eq!(scan.next_dir(), None);
    let items = scan.into_items();
    let got: Vec<(String, String, String)> = items.iter().map(|i| (i.name.clone(), i.kind.clone(), i.alias.clone())).collect();
    assert_eq!(
        got,
        vec![
            ("My Root".to_string(), "folder".to_string(), "myroot".to_string()),
            ("b".to_string(), "folder".to_string(), "myroot".to_string()),
            ("a.txt".to_string(), "file".to_string(), "myroot".to_string()),
            ("A".to_string(), "folder".to_string(), "myroot".to_string()),
            ("deep".to_string(), "folder".to_string(), "myroot".to_string()),
        ]
    );
    assert_eq!(items[0].description, "同步目录");
    assert_eq!(items[1].description, "来自My Root");
    assert_eq!(items[3].url, "R\\A");
}

#[test]
fn dot_entries_are_kept_where_they_are_not_hidden() {
    let r = root("R", "Root", true);
    let mut scan = FolderScan::start(&r, true, false);
    assert_eq!(scan.next_dir(), Some("R".to_string()));
    scan.accept_listing(&vec![listed(".config", false, false)]);
    assert_eq!(scan.into_items().len(), 2);
}

#[test]
fn scans_of_flat_and_missing_roots() {
    let flat = FolderScan::start(&root("R", "Flat", false), true, true);
    let mut flat = flat;
    assert_eq!(flat.next_dir(), None);
    assert_eq!(flat.into_items().len(), 1);
    let mut missing = FolderScan::start(&root("R", "Gone", true), false, true);
    assert_eq!(missing.next_dir(), None);
    assert!(missing.into_items().is_empty());
}

#[test]
fn scans_stop_at_the_entry_limit() {
    let r = root("R", "Big", true);
    let mut scan = FolderScan::start(&r, true, true);
    assert_eq!(scan.next_dir(), Some("R".to_string()));
    let many: Vec<ListedEntry> = (0..MAX_SYNC_ITEMS_PER_ROOT + 5).map(|i| listed(&format!("f{i}"), false, false)).collect();
    scan.accept_listing(&many);
    assert_eq!(scan.count, MAX_SYNC_ITEMS_PER_ROOT);
    assert_eq!(scan.next_dir(), None);
    assert_eq!(scan.into_items().len(), MAX_SYNC_ITEMS_PER_ROOT + 1);
}

#[test]
fn scans_stop_at_the_depth_limit() {
    let r = root("R", "Deep", true);
    let mut scan = FolderScan::start(&r, true, true);
    let mut listed_dirs = 0;
    while let Some(dir) = scan.next_dir() {
        listed_dirs += 1;
        scan.accept_listing(&vec![ListedEntry { name: "d".to_string(), path: format!("{dir}\\d"), is_dir: true, skipped: false }]);
    }
    assert_eq!(listed_dirs, MAX_SYNC_DEPTH);
    assert_eq!(scan.into_items().len(), MAX_SYNC_DEPTH + 1);
}
