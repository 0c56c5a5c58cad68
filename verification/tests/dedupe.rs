use nexious_quick::dedupe::{
    enabled_flag, find_duplicate_id, item_dedupe_key, plan_dedupe, plan_save, richness, with_id,
    DedupeRow, KeyRow, SaveDecision,
};
use nexious_quick::item::Item;

fn item(id: i64, kind: &str, name: &str, url: &str, args: &str) -> Item {
    Item {
        id,
        icon: String::new(),
        name: name.to_string(),
        alias: String::new(),
        kind: kind.to_string(),
        url: url.to_string(),
        args: args.to_string(),
        workdir: String::new(),
        description: String::new(),
        enabled: true,
        updated_at: String::new(),
    }
}

fn key_row(id: i64, kind: &str, name: &str, url: &str, args: &str) -> KeyRow {
    KeyRow { id, name: name.to_string(), kind: kind.to_string(), url: url.to_string(), args: args.to_string() }
}

fn drow(id: i64, kind: &str, name: &str, url: &str, alias: &str, description: &str, icon: &str) -> DedupeRow {
    DedupeRow {
        id,
        name: name.to_string(),
        kind: kind.to_string(),
        url: url.to_string(),
        args: String::new(),
        alias: alias.to_string(),
        description: description.to_string(),
        icon: icon.to_string(),
    }
}

#[test]
fn dedupe_keys_per_type() {
    assert_eq!(
        item_dedupe_key("file", " Report.PDF ", " D:\\Docs\\Report.pdf ", ""),
        Some("file|report.pdf|d:\\docs\\report.pdf".to_string())
    );
    assert_eq!(item_dedupe_key("folder", "  ", "D:\\Docs", ""), None);
    assert_eq!(item_dedupe_key("folder", "Docs", " ", ""), None);
    assert_eq!(item_dedupe_key("website", "x", "HTTPS://Example.com//", ""), Some("website|https://example.com".to_string()));
    assert_eq!(item_dedupe_key("website", "x", " https://a.com/ ", ""), Some("website| https://a.com/ ".to_string()));
    assert_eq!(item_dedupe_key("website", "x", "///", ""), None);
    assert_eq!(
        item_dedupe_key("application", "Any", " C:\\App.EXE ", " --Flag "),
        Some("application|c:\\app.exe|--flag".to_string())
    );
    assert_eq!(item_dedupe_key("application", "Any", "  ", "--x"), None);
    assert_eq!(item_dedupe_key("note", "a", "b", "c"), None);
}

#[test]
fn website_keys_ignore_trailing_slashes_and_application_keys_ignore_names() {
    assert_eq!(item_dedupe_key("website", "a", "https://x.org/", ""), item_dedupe_key("website", "b", "https://x.org", ""));
    assert_eq!(item_dedupe_key("application", "A", "C:\\a.exe", ""), item_dedupe_key("application", "B", "C:\\a.exe", ""));
    assert_ne!(item_dedupe_key("file", "a", "C:\\a", ""), item_dedupe_key("folder", "a", "C:\\a", ""));
}

#[test]
fn duplicate_lookup_skips_the_entry_itself() {
    let rows = vec![
        key_row(3, "website", "Mine", "https://example.com", ""),
        key_row(5, "application", "Other", "https://example.com", ""),
        key_row(7, "website", "Copy", "https://EXAMPLE.com/", ""),
        key_row(9, "website", "Copy 2", "https://example.com", ""),
    ];
    assert_eq!(find_duplicate_id(&item(3, "website", "Mine", "https://example.com/", ""), &rows), Some(7));
    assert_eq!(find_duplicate_id(&item(0, "website", "New", "https://example.com", ""), &rows), Some(3));
    assert_eq!(find_duplicate_id(&item(0, "website", "New", "https://other.com", ""), &rows), None);
    assert_eq!(find_duplicate_id(&item(0, "note", "New", "https://example.com", ""), &rows), None);
}

#[test]
fn saving_updates_inserts_or_refuses() {
    assert!(matches!(plan_save(&item(4, "file", "a", "b", ""), Some(9)), SaveDecision::Update));
    assert!(matches!(plan_save(&item(0, "file", "a", "b", ""), None), SaveDecision::Insert));
    match plan_save(&item(0, "file", "a", "b", ""), Some(2)) {
        SaveDecision::Reject(m) => assert_eq!(m, "该数据项已存在（相同路径/网址/名称），不能重复添加"),
        _ => panic!("expected a refusal"),
    }
    let mut off = item(0, "file", "a", "b", "");
    assert_eq!(enabled_flag(&off), 1);
    off.enabled = false;
    assert_eq!(enabled_flag(&off), 0);
    let saved = with_id(off.clone(), 42);
    assert_eq!(saved.id, 42);
    assert_eq!(saved.name, off.name);
}

#[test]
fn richness_counts_filled_fields() {
    assert_eq!(richness(&drow(1, "file", "a", "b", "", " ", "")), 0);
    assert_eq!(richness(&drow(1, "file", "a", "b", "x", " ", "icon")), 2);
    assert_eq!(richness(&drow(1, "file", "a", "b", "x", "d", "i")), 3);
}

#[test]
fn clean_up_keeps_the_most_complete_entry() {
    let rows = vec![
        drow(1, "website", "A", "https://a.com", "", "", ""),
        drow(2, "website", "A2", "https://a.com/", "alias", "", ""),
        drow(3, "website", "A3", "https://A.com", "", "", ""),
        drow(4, "note", "N", "x", "", "", ""),
        drow(5, "file", "f", "C:\\f", "", "", ""),
        drow(6, "file", "F", "c:\\F", "", "", ""),
        drow(7, "website", "A4", "https://a.com", "x", "y", ""),
    ];
    assert_eq!(plan_dedupe(&rows), vec![1, 3, 6, 2]);
    assert!(plan_dedupe(&vec![]).is_empty());
}

#[test]
fn clean_up_keeps_the_earliest_of_equally_complete_entries() {
    let rows = vec![
        drow(10, "website", "A", "https://a.com", "x", "", ""),
        drow(11, "website", "B", "https://A.com/", "", "y", ""),
        drow(12, "website", "C", "https://a.com", "", "", "z"),
    ];
    assert_eq!(plan_dedupe(&rows), vec![11, 12]);
}

#[test]
fn second_clean_up_deletes_nothing() {
    let rows = vec![
        drow(1, "website", "A", "https://a.com", "", "", ""),
        drow(2, "website", "A2", "https://a.com/", "alias", "", ""),
        drow(4, "note", "N", "x", "", "", ""),
        drow(5, "file", "f", "C:\\f", "", "", ""),
        drow(6, "file", "F", "c:\\F", "", "", ""),
    ];
    let deleted = plan_dedupe(&rows);
    assert_eq!(deleted, vec![1, 6]);
    let survivors: Vec<DedupeRow> = rows.into_iter().filter(|r| !deleted.contains(&r.id)).collect();
    assert_eq!(survivors.len(), 3);
    assert!(plan_dedupe(&survivors).is_empty());
}
