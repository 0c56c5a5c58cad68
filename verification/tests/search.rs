use nexious_quick::item::Item;
use nexious_quick::search::{
    alias_list, allowed_kinds_clause, escape_like, items_by_kind_sql, items_where_clause,
    like_pattern, normalize_kind_filter, normalize_query, page_query, page_request,
    rank_search_results, score_search_item, search_limit, search_order, search_sql,
    type_priority,
};

fn item(id: i64, kind: &str, name: &str, alias: &str, url: &str, description: &str) -> Item {
    Item {
        id,
        icon: String::new(),
        name: name.to_string(),
        alias: alias.to_string(),
        kind: kind.to_string(),
        url: url.to_string(),
        args: String::new(),
        workdir: String::new(),
        description: description.to_string(),
        enabled: true,
        updated_at: String::new(),
    }
}

fn unescape(s: &str) -> String {
    let mut out = String::new();
    let mut chars = s.chars();
    while let Some(c) = chars.next() {
        if c == '\\' {
            out.push(chars.next().unwrap());
        } else {
            out.push(c);
        }
    }
    out
}

#[test]
fn like_wildcards_are_escaped() {
    assert_eq!(escape_like("50%_off\\now"), "50\\%\\_off\\\\now");
    assert_eq!(escape_like("plain"), "plain");
    assert_eq!(escape_like(""), "");
    assert_eq!(like_pattern("a_b"), "%a\\_b%");
}

#[test]
fn escaping_round_trips() {
    for s in ["", "%", "__", "\\\\%x", "C:\\Program Files\\100%_sure", "中文_%"] {
        assert_eq!(unescape(&escape_like(s)), s);
    }
}

#[test]
fn aliases_split_at_both_commas() {
    let it = item(1, "application", "Visual Studio Code", " VSCode, code，编辑器 ,, ", "", "");
    assert_eq!(alias_list(&it), vec!["vscode", "code", "编辑器"]);
    assert!(alias_list(&item(1, "website", "x", "", "", "")).is_empty());
}

#[test]
fn scores_follow_the_match_kind() {
    let it = item(1, "application", "Visual Studio Code", "vscode, code", "C:/Apps/Code.exe", "Microsoft editor");
    assert_eq!(score_search_item(&it, "visual studio code"), 100);
    assert_eq!(score_search_item(&it, "code"), 90);
    assert_eq!(score_search_item(&it, "visual"), 80);
    assert_eq!(score_search_item(&it, "vsc"), 75);
    assert_eq!(score_search_item(&it, "studio"), 70);
    assert_eq!(score_search_item(&it, "scod"), 60);
    assert_eq!(score_search_item(&it, "apps/"), 50);
    assert_eq!(score_search_item(&it, "micro"), 40);
    assert_eq!(score_search_item(&it, "zzz"), 0);
}

#[test]
fn type_priority_orders_applications_first() {
    assert_eq!(type_priority("application"), 0);
    assert_eq!(type_priority("website"), 1);
    assert_eq!(type_priority("file"), 2);
    assert_eq!(type_priority("folder"), 2);
}

#[test]
fn results_are_ranked_and_limited() {
    let items = vec![
        item(1, "folder", "code", "", "", ""),
        item(2, "website", "Code Search", "", "", ""),
        item(3, "application", "Xcode", "", "", ""),
        item(4, "application", "code", "", "", ""),
        item(5, "application", "Codex", "", "", ""),
        item(6, "application", "VS", "", "", "code editor"),
    ];
    assert_eq!(search_order(&items, "code"), vec![3, 4, 2, 5, 1, 0]);
    let top: Vec<i64> = rank_search_results(&items, "code", 3).iter().map(|i| i.id).collect();
    assert_eq!(top, vec![4, 5, 3]);
    let one: Vec<i64> = rank_search_results(&items, "code", 0).iter().map(|i| i.id).collect();
    assert_eq!(one, vec![4]);
    assert!(rank_search_results(&vec![], "code", 6).is_empty());
}

#[test]
fn equal_ranks_keep_their_order() {
    let items = vec![
        item(1, "website", "ab", "", "", ""),
        item(2, "website", "ab", "", "", ""),
        item(3, "website", "ab", "", "", ""),
    ];
    assert_eq!(search_order(&items, "a"), vec![0, 1, 2]);
}

#[test]
fn query_and_limit_normalisation() {
    assert_eq!(normalize_query("  Chrome "), Some("chrome".to_string()));
    assert_eq!(normalize_query(" \t "), None);
    assert_eq!(search_limit(None), 6);
    assert_eq!(search_limit(Some(0)), 1);
    assert_eq!(search_limit(Some(7)), 7);
    assert_eq!(search_limit(Some(100)), 20);
}

#[test]
fn type_filters_become_sql_conditions() {
    assert_eq!(items_where_clause("application"), "type='application'");
    assert_eq!(items_where_clause("website"), "type='website'");
    assert_eq!(items_where_clause("file"), "type='file'");
    assert_eq!(items_where_clause("folder"), "type IN ('folder','file')");
    assert_eq!(items_where_clause("all"), "1=1");
    assert_eq!(items_where_clause("Folder"), "1=1");
    assert_eq!(normalize_kind_filter("  "), "all");
    assert_eq!(normalize_kind_filter(" website "), "website");
    assert_eq!(items_by_kind_sql("file"), "SELECT * FROM launch_items WHERE type='file' ORDER BY id DESC");
}

#[test]
fn search_query_lists_the_allowed_types() {
    assert_eq!(allowed_kinds_clause(false, false), "type='application'");
    assert_eq!(allowed_kinds_clause(true, false), "type='application' OR type='website'");
    assert_eq!(
        allowed_kinds_clause(true, true),
        "type='application' OR type='website' OR type IN ('folder','file')"
    );
    assert_eq!(allowed_kinds_clause(false, true), "type='application' OR type IN ('folder','file')");
    assert_eq!(
        search_sql(true, false),
        "SELECT * FROM launch_items WHERE enabled=1 AND (type='application' OR type='website') AND \
         (name LIKE ?1 ESCAPE '\\' OR alias LIKE ?1 ESCAPE '\\' \
          OR url LIKE ?1 ESCAPE '\\' OR description LIKE ?1 ESCAPE '\\')"
    );
}

#[test]
fn page_queries() {
    let plain = page_query("website", "  ", 40, 20);
    assert_eq!(plain.count_sql, "SELECT COUNT(*) FROM launch_items WHERE type='website'");
    assert_eq!(plain.page_sql, "SELECT * FROM launch_items WHERE type='website' ORDER BY id DESC LIMIT 20 OFFSET 40");
    assert_eq!(plain.like, "");
    let kw = page_query("folder", " Foo_1 ", 0, -5);
    let filter = " AND (name LIKE ?1 ESCAPE '\\' OR alias LIKE ?1 ESCAPE '\\' OR url LIKE ?1 ESCAPE '\\' OR description LIKE ?1 ESCAPE '\\')";
    assert_eq!(kw.count_sql, format!("SELECT COUNT(*) FROM launch_items WHERE type IN ('folder','file'){filter}"));
    assert_eq!(
        kw.page_sql,
        format!("SELECT * FROM launch_items WHERE type IN ('folder','file'){filter} ORDER BY id DESC LIMIT -5 OFFSET 0")
    );
    assert_eq!(kw.like, "%foo\\_1%");
    assert_eq!(page_request(" ", -3, 0), ("all".to_string(), 0, 1));
    assert_eq!(page_request("file", 7, 9000), ("file".to_string(), 7, 5000));
    assert_eq!(page_request(" website ", 0, 50), ("website".to_string(), 0, 50));
}

#[test]
fn searches_return_at_most_the_asked_number() {
    let items: Vec<Item> = (1..=30)
        .map(|i| item(i, "website", &format!("code {i}"), "", &format!("https://c{i}.example"), ""))
        .collect();
    assert_eq!(rank_search_results(&items, "code", search_limit(None)).len(), 6);
    assert_eq!(rank_search_results(&items, "code", search_limit(Some(50))).len(), 20);
    assert_eq!(rank_search_results(&items, "code", search_limit(Some(0))).len(), 1);
    assert_eq!(rank_search_results(&items[..3].to_vec(), "code", search_limit(None)).len(), 3);
}
