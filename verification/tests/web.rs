use nexious_quick::item::SyncedItem;
use nexious_quick::web::{
    bookmark_description_text, bookmark_source_label, bookmark_source_order, browser_base,
    browser_priority, build_favicon_map, collect_bookmark_branch, collect_bookmarks,
    detect_image_mime, http_default_browser_key, image_data_url, is_default_profile,
    is_profile_dir_name, normalize_bookmark_url, parse_bookmark_file, site_icon_from_output, site_icon_script,
    url_host, website_icon_key, BookmarkFile, BookmarkNode, FaviconMap, FaviconRow,
    ICON_SCRIPT_HEAD, ICON_SCRIPT_TAIL, MAX_ICON_BYTES,
};

const PNG: [u8; 8] = [0x89, 0x50, 0x4E, 0x47, 0x0D, 0x0A, 0x1A, 0x0A];
const GIF: [u8; 6] = [0x47, 0x49, 0x46, 0x38, 0x39, 0x61];

fn node(kind: Option<&str>, name: Option<&str>, url: Option<&str>, children: Option<Vec<BookmarkNode>>) -> BookmarkNode {
    BookmarkNode {
        kind: kind.map(|s| s.to_string()),
        name: name.map(|s| s.to_string()),
        url: url.map(|s| s.to_string()),
        children,
    }
}

fn bookmark(name: &str, url: &str) -> BookmarkNode {
    node(Some("url"), Some(name), Some(url), None)
}

#[test]
fn bookmark_url_is_trimmed_lowercased_and_loses_trailing_slashes() {
    assert_eq!(normalize_bookmark_url("  HTTPS://Example.com/Path//  "), "https://example.com/path");
    assert_eq!(normalize_bookmark_url("///"), "");
    assert_eq!(normalize_bookmark_url("https://a.com/#Top"), "https://a.com/#top");
}

#[test]
fn image_formats_are_recognised_by_signature() {
    assert_eq!(detect_image_mime(&PNG), Some("png"));
    assert_eq!(detect_image_mime(&PNG[..7]), None);
    assert_eq!(detect_image_mime(&[0xFF, 0xD8, 0x00]), Some("jpeg"));
    assert_eq!(detect_image_mime(b"RIFF\x10\x00\x00\x00WEBPVP8 "), Some("webp"));
    assert_eq!(detect_image_mime(b"RIFF\x10\x00\x00\x00WEBQ"), None);
    assert_eq!(detect_image_mime(&[0, 0, 1, 0, 1, 0]), Some("x-icon"));
    assert_eq!(detect_image_mime(b"GIF87a"), Some("gif"));
    assert_eq!(detect_image_mime(&GIF), Some("gif"));
    assert_eq!(detect_image_mime(b"GIF88a"), None);
    assert_eq!(detect_image_mime(b""), None);
    assert_eq!(detect_image_mime(b"<svg/>"), None);
}

#[test]
fn host_is_taken_between_scheme_and_path() {
    assert_eq!(url_host("https://user:pw@Example.com:8080/path?q#f"), Some("Example.com".to_string()));
    assert_eq!(url_host("http://example.com"), Some("example.com".to_string()));
    assert_eq!(url_host("ftp://x?y"), Some("x".to_string()));
    assert_eq!(url_host("https:// host /x"), Some("host".to_string()));
    assert_eq!(url_host("a://b://c"), Some("b".to_string()));
    assert_eq!(url_host("example.com"), None);
    assert_eq!(url_host("https://"), None);
    assert_eq!(url_host("https://@:80/"), None);
    assert_eq!(url_host("https://a@b@c.org#x"), Some("c.org".to_string()));
}

#[test]
fn image_data_url_encodes_recognised_images() {
    assert_eq!(image_data_url(&GIF), Some("data:image/gif;base64,R0lGODlh".to_string()));
    assert_eq!(image_data_url(&PNG), Some("data:image/png;base64,iVBORw0KGgo=".to_string()));
    assert_eq!(image_data_url(b"hello"), None);
}

#[test]
fn downloaded_icon_text_is_decoded_checked_and_encoded_again() {
    assert_eq!(site_icon_from_output("  R0lGODlh \r\n"), "data:image/gif;base64,R0lGODlh");
    assert_eq!(site_icon_from_output("iVBORw0KGgo="), "data:image/png;base64,iVBORw0KGgo=");
    assert_eq!(site_icon_from_output("aGVsbG8="), "");
    assert_eq!(site_icon_from_output("!!!"), "");
    assert_eq!(site_icon_from_output(""), "");
}

#[test]
fn favicon_map_keeps_first_usable_icon_per_page() {
    let mut big = PNG.to_vec();
    big.resize(MAX_ICON_BYTES + 1, 0);
    let rows = vec![
        FaviconRow { page_url: "https://B.com/".to_string(), image: vec![] },
        FaviconRow { page_url: "https://A.com/".to_string(), image: PNG.to_vec() },
        FaviconRow { page_url: "https://a.com".to_string(), image: GIF.to_vec() },
        FaviconRow { page_url: "  ".to_string(), image: PNG.to_vec() },
        FaviconRow { page_url: "https://c.com".to_string(), image: b"plain".to_vec() },
        FaviconRow { page_url: "https://c.com".to_string(), image: GIF.to_vec() },
        FaviconRow { page_url: "https://d.com".to_string(), image: big },
    ];
    let map = build_favicon_map(&rows);
    assert_eq!(map.get("https://a.com"), Some("data:image/png;base64,iVBORw0KGgo=".to_string()));
    assert_eq!(map.get("https://c.com"), Some("data:image/gif;base64,R0lGODlh".to_string()));
    assert_eq!(map.get("https://b.com"), None);
    assert_eq!(map.get("https://d.com"), None);
    assert_eq!(map.get(""), None);
    assert!(map.contains("https://a.com"));
    assert!(!map.contains("https://A.com/"));
}

#[test]
fn icon_lookup_falls_back_to_the_page_without_fragment() {
    let mut map = FaviconMap::new();
    map.insert("https://a.com/page".to_string(), "icon-a".to_string());
    map.insert("https://b.com#x".to_string(), "icon-b".to_string());
    assert_eq!(map.icon_for("https://a.com/page"), Some("icon-a".to_string()));
    assert_eq!(map.icon_for("https://a.com/page#section#2"), Some("icon-a".to_string()));
    assert_eq!(map.icon_for("https://b.com#x"), Some("icon-b".to_string()));
    assert_eq!(map.icon_for("https://c.com#x"), None);
    assert_eq!(map.icon_for("https://a.com/other"), None);
}

#[test]
fn website_icon_lookup_needs_a_web_address() {
    let found = website_icon_key(" https://Example.com/a/ ").unwrap();
    assert_eq!(found.page_key, "https://example.com/a");
    assert_eq!(found.host, Some("Example.com".to_string()));
    let bare = website_icon_key("http://").unwrap();
    assert_eq!(bare.page_key, "http:");
    assert_eq!(bare.host, None);
    assert!(website_icon_key("ftp://example.com").is_none());
    assert!(website_icon_key("example.com").is_none());
}

fn edge_file() -> BookmarkFile {
    let dev = node(
        Some("folder"),
        Some(" Dev "),
        None,
        Some(vec![
            bookmark("Docs", "https://docs.rs"),
            bookmark("  ", "https://nameless.example"),
            bookmark("FTP", "ftp://files.example"),
            node(Some("folder"), None, None, Some(vec![bookmark("Lost", "https://lost.example")])),
        ]),
    );
    let bar = node(
        Some("folder"),
        Some("书签栏"),
        None,
        Some(vec![bookmark(" Rust ", " https://www.rust-lang.org/ "), dev]),
    );
    let other = node(Some("folder"), Some("其他"), None, Some(vec![]));
    BookmarkFile { roots: vec![bar, other], top: node(None, None, None, None) }
}

fn view(it: &SyncedItem) -> (String, String, String, String, String, String) {
    (
        it.name.clone(),
        it.alias.clone(),
        it.kind.clone(),
        it.url.clone(),
        it.description.clone(),
        it.icon.clone(),
    )
}

#[test]
fn bookmarks_are_collected_with_folder_paths_and_icons() {
    let mut icons = FaviconMap::new();
    icons.insert("https://www.rust-lang.org".to_string(), "rust-icon".to_string());
    let mut out = Vec::new();
    collect_bookmarks(&edge_file(), "Edge Default", &icons, &mut out);
    let got: Vec<_> = out.iter().map(view).collect();
    assert_eq!(
        got,
        vec![
            (
                "Rust".to_string(),
                "edge default".to_string(),
                "website".to_string(),
                "https://www.rust-lang.org/".to_string(),
                "来自Edge Default收藏夹 · 书签栏".to_string(),
                "rust-icon".to_string(),
            ),
            (
                "Docs".to_string(),
                "edge default".to_string(),
                "website".to_string(),
                "https://docs.rs".to_string(),
                "来自Edge Default收藏夹 · 书签栏/Dev".to_string(),
                String::new(),
            ),
        ]
    );
}

#[test]
fn bookmark_file_without_groups_uses_its_top_node() {
    let file = BookmarkFile {
        roots: vec![],
        top: node(None, None, None, Some(vec![bookmark("Home", "http://home.example")])),
    };
    let mut out = Vec::new();
    collect_bookmarks(&file, "Chrome Profile 1", &FaviconMap::new(), &mut out);
    assert_eq!(out.len(), 1);
    assert_eq!(out[0].description, "来自Chrome Profile 1收藏夹");
    assert_eq!(out[0].alias, "chrome profile 1");
    let mut none = Vec::new();
    collect_bookmark_branch(&node(None, None, None, None), "x", &vec![], &FaviconMap::new(), &mut none);
    assert!(none.is_empty());
}

#[test]
fn bookmark_description_names_source_and_folder() {
    assert_eq!(bookmark_description_text("Brave Default", &vec![]), "来自Brave Default收藏夹");
    assert_eq!(bookmark_description_text("Brave Default", &"工作".chars().collect()), "来自Brave Default收藏夹 · 工作");
}

#[test]
fn browser_labels_split_into_browser_and_profile() {
    assert_eq!(browser_base("Edge Profile 1"), "Edge");
    assert_eq!(browser_base("   "), "");
    assert!(is_default_profile("Edge Default"));
    assert!(is_default_profile("Edge DEFAULT"));
    assert!(is_default_profile("Brave"));
    assert!(!is_default_profile("Chrome Profile 1"));
    assert!(is_profile_dir_name("Default"));
    assert!(is_profile_dir_name("Profile 3"));
    assert!(!is_profile_dir_name("default"));
    assert!(!is_profile_dir_name("System Profile"));
    assert_eq!(bookmark_source_label("Edge", "Profile 2"), "Edge Profile 2");
}

#[test]
fn browser_priority_puts_the_default_browser_first() {
    assert_eq!(browser_priority("Chrome", Some("chrome")), 0);
    assert_eq!(browser_priority("Chrome", Some("edge")), 2);
    assert_eq!(browser_priority("EDGE", None), 1);
    assert_eq!(browser_priority("Brave", None), 3);
    assert_eq!(browser_priority("Firefox", None), 4);
}

#[test]
fn bookmark_sources_are_ordered_stably() {
    let labels: Vec<String> = ["Chrome Profile 1", "Edge Profile 2", "Chrome Default", "Edge Default", "Brave Default", "Edge Profile 3"]
        .iter()
        .map(|s| s.to_string())
        .collect();
    assert_eq!(bookmark_source_order(&labels, Some("chrome")), vec![2, 0, 3, 1, 5, 4]);
    assert_eq!(bookmark_source_order(&labels, None), vec![3, 1, 5, 2, 0, 4]);
    assert_eq!(bookmark_source_order(&vec![], None), Vec::<usize>::new());
}

#[test]
fn default_browser_is_read_from_the_registry_answer() {
    let answer = "\r\nHKEY_CURRENT_USER\\...\\UserChoice\r\n    ProgId    REG_SZ    ChromeHTML\r\n";
    assert_eq!(http_default_browser_key(Some(answer)), Some("chrome".to_string()));
    assert_eq!(http_default_browser_key(Some("ProgId REG_SZ MSEdgeHTM")), Some("edge".to_string()));
    assert_eq!(http_default_browser_key(Some("ProgId REG_SZ BraveHTML")), Some("brave".to_string()));
    assert_eq!(http_default_browser_key(Some("ProgId REG_SZ FirefoxURL")), None);
    assert_eq!(http_default_browser_key(None), None);
}

const ORIGINAL_TEMPLATE: &str = r#"
$ErrorActionPreference = 'SilentlyContinue'
$hostName = '{host}'
$tmp = [System.IO.Path]::GetTempFileName()
$ok = $false
foreach ($template in @('https://{0}/favicon.ico', 'https://www.google.com/s2/favicons?domain={0}&sz=64', 'https://icons.duckduckgo.com/ip3/{0}.ico')) {
    $uri = [string]::Format($template, $hostName)
    try {
        Invoke-WebRequest -UseBasicParsing -Uri $uri -OutFile $tmp -TimeoutSec 5 | Out-Null
        if ((Get-Item $tmp).Length -gt 0) {
            $ok = $true
            break
        }
    } catch { }
}
if ($ok) {
    $data = [System.IO.File]::ReadAllBytes($tmp)
    [Console]::OutputEncoding = [System.Text.Encoding]::ASCII
    [Console]::Write([System.Convert]::ToBase64String($data))
}
Remove-Item $tmp -ErrorAction SilentlyContinue
"#;

#[test]
fn icon_script_quotes_the_host() {
    let script = site_icon_script("o'neil.example");
    assert_eq!(script, format!("{}o''neil.example{}", ICON_SCRIPT_HEAD, ICON_SCRIPT_TAIL));
    assert_eq!(script, ORIGINAL_TEMPLATE.replace("{host}", "o''neil.example"));
    assert_eq!(site_icon_script("a.com"), ORIGINAL_TEMPLATE.replace("{host}", "a.com"));
}

#[test]
fn bookmark_file_is_read_from_its_json() {
    let text = r#"{
      "checksum": "abc",
      "roots": {
        "bookmark_bar": {"type": "folder", "name": "书签栏", "children": [
          {"type": "url", "name": "Rust", "url": "https://www.rust-lang.org/"},
          {"type": "folder", "name": "Dev", "children": [
            {"type": "url", "name": "Docs", "url": "https://docs.rs"}
          ]}
        ]},
        "other": {"type": "folder", "name": "其他", "children": []},
        "sync_transaction_version": "1"
      },
      "version": 1
    }"#;
    let file = parse_bookmark_file(text).unwrap();
    assert_eq!(file.roots.len(), 3);
    assert!(file.top.children.is_none());
    let mut icons = FaviconMap::new();
    icons.insert("https://www.rust-lang.org".to_string(), "rust-icon".to_string());
    let mut out = Vec::new();
    collect_bookmarks(&file, "Edge Default", &icons, &mut out);
    let got: Vec<_> = out.iter().map(|i| (i.name.clone(), i.url.clone(), i.description.clone(), i.icon.clone())).collect();
    assert_eq!(
        got,
        vec![
            (
                "Rust".to_string(),
                "https://www.rust-lang.org/".to_string(),
                "来自Edge Default收藏夹 · 书签栏".to_string(),
                "rust-icon".to_string(),
            ),
            (
                "Docs".to_string(),
                "https://docs.rs".to_string(),
                "来自Edge Default收藏夹 · 书签栏/Dev".to_string(),
                String::new(),
            ),
        ]
    );
}

#[test]
fn bookmark_file_fields_of_other_types_are_absent() {
    let text = r#"{"type": 3, "name": ["x"], "url": null, "children": {"a": 1}}"#;
    let file = parse_bookmark_file(text).unwrap();
    assert!(file.roots.is_empty());
    assert!(file.top.kind.is_none());
    assert!(file.top.name.is_none());
    assert!(file.top.url.is_none());
    assert!(file.top.children.is_none());
    let top = parse_bookmark_file(r#"{"children": [{"type": "url", "name": "Home", "url": "http://home.example"}]}"#).unwrap();
    let kids = top.top.children.unwrap();
    assert_eq!(kids.len(), 1);
    assert_eq!(kids[0].name.as_deref(), Some("Home"));
    assert_eq!(kids[0].url.as_deref(), Some("http://home.example"));
    let not_object_roots = parse_bookmark_file(r#"{"roots": [1, 2]}"#).unwrap();
    assert!(not_object_roots.roots.is_empty());
}

#[test]
fn bookmark_file_that_is_not_json_is_skipped() {
    assert!(parse_bookmark_file("").is_none());
    assert!(parse_bookmark_file("{\"roots\": ").is_none());
    assert!(parse_bookmark_file("not json").is_none());
}
