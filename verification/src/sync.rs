//! Synchronisation plans: which scanned applications and synchronised entries
//! update a stored row and which are inserted, and the clean-up of scan output.
use vstd::prelude::*;
use vstd::hash_map::StringHashMap;
use vstd::hash_set::StringHashSet;
use crate::item::{ScannedApp, SyncResult, SyncedItem};
use crate::json::{
    get_field, items_of, json_field, json_items, json_parsed, json_text, json_view, json_views,
    lemma_json_views, parse_json, text_of, Json, JsonView,
};
use crate::launch::{err_msg, err_msg_spec};
use crate::text::{
    chars_of, contains, contains_exec, lowercase, lowercase_chars, push_char, push_chars,
    push_text, str_lowercase, string_from, string_of, trim, trim_str, u128_to_string, decimal,
    int_decimal, i64_to_string, str_eq,
};

verus! {

// ---------------------------------------------------------------------------
// Merge plans
// ---------------------------------------------------------------------------

/// What happens to one synchronised record.
#[derive(Clone, Copy, Debug, PartialEq, Eq)]
pub enum MergeAction {
    /// The stored row with this id is updated from the record.
    Update(i64),
    /// The record is inserted as a new row.
    Insert,
}

/// An application row already stored: id, path and arguments.
pub struct AppRow {
    pub id: i64,
    pub url: String,
    pub args: String,
}

/// A stored row: id and address.
pub struct UrlRow {
    pub id: i64,
    pub url: String,
}

/// How an application is matched against stored ones: lowercased path and
/// lowercased trimmed arguments, joined by `|`.
pub open spec fn app_key(url: Seq<char>, args: Seq<char>) -> Seq<char> {
    str_lowercase(url) + "|"@ + str_lowercase(trim(args))
}

/// The same program started with different arguments is a different
/// application: keys of one path differ when the trimmed, lowercased
/// arguments differ.
pub proof fn app_key_separates_arguments(url: Seq<char>, args1: Seq<char>, args2: Seq<char>)
    requires
        str_lowercase(trim(args1)) != str_lowercase(trim(args2)),
    ensures
        app_key(url, args1) != app_key(url, args2),
{
    let p = str_lowercase(url) + "|"@;
    let (s1, s2) = (str_lowercase(trim(args1)), str_lowercase(trim(args2)));
    if app_key(url, args1) == app_key(url, args2) {
        assert((p + s1).skip(p.len() as int) =~= s1);
        assert((p + s2).skip(p.len() as int) =~= s2);
    }
}

/// Stored applications by key; the first row of a key wins.
pub open spec fn known_apps(rows: Seq<AppRow>) -> Map<Seq<char>, i64>
    decreases rows.len(),
{
    if rows.len() == 0 {
        Map::empty()
    } else {
        let m = known_apps(rows.drop_last());
        let k = app_key(rows.last().url@, rows.last().args@);
        if m.contains_key(k) {
            m
        } else {
            m.insert(k, rows.last().id)
        }
    }
}

/// Stored rows by lowercased address; the first row of an address wins.
pub open spec fn known_urls(rows: Seq<UrlRow>) -> Map<Seq<char>, i64>
    decreases rows.len(),
{
    if rows.len() == 0 {
        Map::empty()
    } else {
        let m = known_urls(rows.drop_last());
        let k = str_lowercase(rows.last().url@);
        if m.contains_key(k) {
            m
        } else {
            m.insert(k, rows.last().id)
        }
    }
}

/// The action for a record with key `k`.
pub open spec fn merge_action(known: Map<Seq<char>, i64>, k: Seq<char>) -> MergeAction {
    if known.contains_key(k) {
        MergeAction::Update(known[k])
    } else {
        MergeAction::Insert
    }
}

/// How many of the actions insert.
pub open spec fn insert_count(actions: Seq<MergeAction>) -> nat
    decreases actions.len(),
{
    if actions.len() == 0 {
        0
    } else {
        insert_count(actions.drop_last()) + (if actions.last() is Insert {
            1nat
        } else {
            0nat
        })
    }
}

/// The counts of a merge: inserts, updates and records, as 32-bit counters
/// that wrap around past their range.
pub open spec fn merge_counts(actions: Seq<MergeAction>) -> SyncResult {
    SyncResult {
        added: insert_count(actions) as i32,
        updated: (actions.len() - insert_count(actions)) as i32,
        total: actions.len() as i32,
    }
}

proof fn lemma_insert_count_le(actions: Seq<MergeAction>)
    ensures
        insert_count(actions) <= actions.len(),
    decreases actions.len(),
{
    if actions.len() > 0 {
        lemma_insert_count_le(actions.drop_last());
    }
}

/// A merge reports every record once: inserts and updates add up to the
/// number of records.
pub proof fn merge_counts_add_up(actions: Seq<MergeAction>)
    requires
        actions.len() <= i32::MAX,
    ensures
        merge_counts(actions).added + merge_counts(actions).updated == merge_counts(actions).total,
        0 <= merge_counts(actions).added <= merge_counts(actions).total,
{
    lemma_insert_count_le(actions);
}

fn app_key_exec(url: &str, args: &str) -> (r: String)
    ensures
        r@ == app_key(url@, args@),
{
    let mut k = lowercase(url);
    push_char(&mut k, '|');
    let a = trim_str(args);
    push_chars(&mut k, &lowercase_chars(&a));
    proof {
        reveal_strlit("|");
    }
    assert(k@ =~= app_key(url@, args@));
    k
}

fn known_app_map(rows: &Vec<AppRow>) -> (m: StringHashMap<i64>)
    ensures
        m@ == known_apps(rows@),
{
    let mut m: StringHashMap<i64> = StringHashMap::new();
    let n = rows.len();
    let mut i: usize = 0;
    assert(rows@.take(0) =~= Seq::<AppRow>::empty());
    while i < n
        invariant
            n == rows.len(),
            i <= n,
            m@ == known_apps(rows@.take(i as int)),
        decreases n - i,
    {
        assert(rows@.take(i + 1).drop_last() =~= rows@.take(i as int));
        assert(rows@.take(i + 1).last() == rows@[i as int]);
        let k = app_key_exec(rows[i].url.as_str(), rows[i].args.as_str());
        if !m.contains_key(k.as_str()) {
            m.insert(k, rows[i].id);
        }
        i = i + 1;
    }
    assert(rows@.take(n as int) =~= rows@);
    m
}

fn known_url_map(rows: &Vec<UrlRow>) -> (m: StringHashMap<i64>)
    ensures
        m@ == known_urls(rows@),
{
    let mut m: StringHashMap<i64> = StringHashMap::new();
    let n = rows.len();
    let mut i: usize = 0;
    assert(rows@.take(0) =~= Seq::<UrlRow>::empty());
    while i < n
        invariant
            n == rows.len(),
            i <= n,
            m@ == known_urls(rows@.take(i as int)),
        decreases n - i,
    {
        assert(rows@.take(i + 1).drop_last() =~= rows@.take(i as int));
        assert(rows@.take(i + 1).last() == rows@[i as int]);
        let k = lowercase(rows[i].url.as_str());
        if !m.contains_key(k.as_str()) {
            m.insert(k, rows[i].id);
        }
        i = i + 1;
    }
    assert(rows@.take(n as int) =~= rows@);
    m
}

/// Actions for records with the given keys against a map of stored keys.
fn plan_keys(known: &StringHashMap<i64>, keys: &Vec<String>) -> (r: (Vec<MergeAction>, SyncResult))
    ensures
        r.0.len() == keys.len(),
        forall|i: int| 0 <= i < keys.len() ==> #[trigger] r.0@[i] == merge_action(known@, keys@[i]@),
        r.1 == merge_counts(r.0@),
{
    let mut actions: Vec<MergeAction> = Vec::new();
    let mut added: usize = 0;
    let mut updated: usize = 0;
    let n = keys.len();
    let mut i: usize = 0;
    while i < n
        invariant
            n == keys.len(),
            i <= n,
            actions.len() == i,
            forall|j: int| 0 <= j < i ==> #[trigger] actions@[j] == merge_action(known@, keys@[j]@),
            added == insert_count(actions@),
            updated == i - insert_count(actions@),
        decreases n - i,
    {
        proof {
            lemma_insert_count_le(actions@);
        }
        let ghost old_actions = actions@;
        match known.get(keys[i].as_str()) {
            Some(id) => {
                actions.push(MergeAction::Update(*id));
                updated = updated + 1;
            },
            None => {
                actions.push(MergeAction::Insert);
                added = added + 1;
            },
        }
        assert(actions@.drop_last() =~= old_actions);
        i = i + 1;
    }
    proof {
        lemma_insert_count_le(actions@);
    }
    // Counts past the 32-bit range wrap around, as the stored counters do.
    let total = n as i32;
    (actions, SyncResult { added: added as i32, updated: updated as i32, total })
}

/// Plans a merge of scanned applications: an application whose key matches a
/// stored application row updates that row (the first such row), any other is
/// inserted. The counts report inserts, updates and scanned applications.
pub fn plan_app_merge(rows: &Vec<AppRow>, apps: &Vec<ScannedApp>) -> (r: (
    Vec<MergeAction>,
    SyncResult,
))
    ensures
        r.0.len() == apps.len(),
        forall|i: int|
            0 <= i < apps.len() ==> #[trigger] r.0@[i] == merge_action(
                known_apps(rows@),
                app_key(apps@[i].target@, apps@[i].args@),
            ),
        r.1 == merge_counts(r.0@),
{
    let known = known_app_map(rows);
    let mut keys: Vec<String> = Vec::new();
    let n = apps.len();
    let mut i: usize = 0;
    while i < n
        invariant
            n == apps.len(),
            i <= n,
            keys.len() == i,
            forall|j: int| 0 <= j < i ==> #[trigger] keys@[j]@ == app_key(apps@[j].target@, apps@[j].args@),
        decreases n - i,
    {
        keys.push(app_key_exec(apps[i].target.as_str(), apps[i].args.as_str()));
        i = i + 1;
    }
    plan_keys(&known, &keys)
}

/// Plans a merge of synchronised entries: an entry whose lowercased address
/// matches a stored row updates that row (the first such row), any other is
/// inserted.
pub fn plan_item_merge(rows: &Vec<UrlRow>, items: &Vec<SyncedItem>) -> (r: (
    Vec<MergeAction>,
    SyncResult,
))
    ensures
        r.0.len() == items.len(),
        forall|i: int|
            0 <= i < items.len() ==> #[trigger] r.0@[i] == merge_action(
                known_urls(rows@),
                str_lowercase(items@[i].url@),
            ),
        r.1 == merge_counts(r.0@),
{
    let known = known_url_map(rows);
    let mut keys: Vec<String> = Vec::new();
    let n = items.len();
    let mut i: usize = 0;
    while i < n
        invariant
            n == items.len(),
            i <= n,
            keys.len() == i,
            forall|j: int| 0 <= j < i ==> #[trigger] keys@[j]@ == str_lowercase(items@[j].url@),
        decreases n - i,
    {
        keys.push(lowercase(items[i].url.as_str()));
        i = i + 1;
    }
    plan_keys(&known, &keys)
}

/// The icon column for a scanned PNG icon: a data URL, or empty without icon.
pub fn icon_data_url(icon: &str) -> (r: String)
    ensures
        icon@.len() == 0 ==> r@.len() == 0,
        icon@.len() > 0 ==> r@ == "data:image/png;base64,"@ + icon@,
{
    if icon.is_empty() {
        String::new()
    } else {
        let mut s = string_from("data:image/png;base64,");
        push_text(&mut s, icon);
        s
    }
}

/// The summary stored after an application sync.
pub fn sync_summary(result: &SyncResult) -> (r: String)
    ensures
        r@ == "added:"@ + int_decimal(result.added as int) + ",updated:"@ + int_decimal(
            result.updated as int,
        ),
{
    let mut s = string_from("added:");
    push_text(&mut s, i64_to_string(result.added as i64).as_str());
    push_text(&mut s, ",updated:");
    push_text(&mut s, i64_to_string(result.updated as i64).as_str());
    s
}

// ---------------------------------------------------------------------------
// Updating stored rows
// ---------------------------------------------------------------------------

/// A stored entry as a re-sync reads it.
pub struct StoredEntry {
    pub id: i64,
    pub name: String,
    pub alias: String,
    pub kind: String,
    pub description: String,
    pub icon: String,
    pub enabled: i64,
}

/// A value the user filled in is kept; an empty one takes the fresh value.
pub open spec fn keep_filled(stored: Seq<char>, fresh: Seq<char>) -> Seq<char> {
    if stored.len() == 0 {
        fresh
    } else {
        stored
    }
}

/// Whether a re-synced entry changes its stored row: another name or type, a
/// disabled row, or an empty alias, description or icon that the entry fills.
pub open spec fn resync_changes(s: StoredEntry, it: SyncedItem) -> bool {
    ||| s.name@ != it.name@
    ||| s.kind@ != it.kind@
    ||| s.enabled != 1
    ||| s.alias@.len() == 0 && it.alias@.len() > 0
    ||| s.description@.len() == 0 && it.description@.len() > 0
    ||| s.icon@.len() == 0 && it.icon@.len() > 0
}

fn keep_filled_exec(stored: &String, fresh: &String) -> (r: String)
    ensures
        r@ == keep_filled(stored@, fresh@),
{
    if chars_of(stored.as_str()).len() == 0 {
        string_from(fresh.as_str())
    } else {
        string_from(stored.as_str())
    }
}

/// `n` is the row `s` becomes when `it` is re-synced into it: name and type
/// from the entry, enabled, and alias, description and icon kept where the
/// user filled them in.
pub open spec fn resynced(s: StoredEntry, it: SyncedItem, n: StoredEntry) -> bool {
    &&& n.id == s.id
    &&& n.name@ == it.name@
    &&& n.kind@ == it.kind@
    &&& n.enabled == 1
    &&& n.alias@ == keep_filled(s.alias@, it.alias@)
    &&& n.description@ == keep_filled(s.description@, it.description@)
    &&& n.icon@ == keep_filled(s.icon@, it.icon@)
}

/// What a re-sync writes, said field by field: a row whose name or type
/// differs from the entry, or that is disabled, is rewritten with the entry's
/// name and type, enabled; an alias, description or icon the user filled in
/// is kept, an empty one takes the entry's; and nothing is written when the
/// row already holds all that.
pub open spec fn resync_written(s: StoredEntry, it: SyncedItem, r: Option<StoredEntry>) -> bool {
    &&& (s.name@ != it.name@ || s.kind@ != it.kind@ || s.enabled != 1) ==> r is Some
    &&& (s.alias@.len() == 0 && it.alias@.len() > 0) ==> r is Some
    &&& (s.description@.len() == 0 && it.description@.len() > 0) ==> r is Some
    &&& (s.icon@.len() == 0 && it.icon@.len() > 0) ==> r is Some
    &&& r matches Some(n) ==> {
        &&& n.id == s.id
        &&& n.name@ == it.name@
        &&& n.kind@ == it.kind@
        &&& n.enabled == 1
        &&& s.alias@.len() > 0 ==> n.alias@ == s.alias@
        &&& s.alias@.len() == 0 ==> n.alias@ == it.alias@
        &&& s.description@.len() > 0 ==> n.description@ == s.description@
        &&& s.description@.len() == 0 ==> n.description@ == it.description@
        &&& s.icon@.len() > 0 ==> n.icon@ == s.icon@
        &&& s.icon@.len() == 0 ==> n.icon@ == it.icon@
    }
}

/// The stored row after re-syncing `item` into it, `None` when nothing
/// changes.
pub fn resync_entry(stored: &StoredEntry, item: &SyncedItem) -> (r: Option<StoredEntry>)
    ensures
        !resync_changes(*stored, *item) ==> r is None,
        resync_changes(*stored, *item) ==> (r matches Some(n) && resynced(*stored, *item, n)),
        resync_written(*stored, *item, r),
{
    let fills = |s: &String, f: &String| -> (b: bool)
        ensures
            b == (s@.len() == 0 && f@.len() > 0),
        { chars_of(s.as_str()).len() == 0 && chars_of(f.as_str()).len() > 0 };
    let changes = !str_eq(stored.name.as_str(), item.name.as_str()) || !str_eq(
        stored.kind.as_str(),
        item.kind.as_str(),
    ) || stored.enabled != 1 || fills(&stored.alias, &item.alias) || fills(
        &stored.description,
        &item.description,
    ) || fills(&stored.icon, &item.icon);
    if !changes {
        return None;
    }
    Some(
        StoredEntry {
            id: stored.id,
            name: string_from(item.name.as_str()),
            alias: keep_filled_exec(&stored.alias, &item.alias),
            kind: string_from(item.kind.as_str()),
            description: keep_filled_exec(&stored.description, &item.description),
            icon: keep_filled_exec(&stored.icon, &item.icon),
            enabled: 1,
        },
    )
}

/// A stored application as a re-scan reads it.
pub struct StoredApp {
    pub id: i64,
    pub name: String,
    pub args: String,
    pub workdir: String,
    pub icon: String,
}

/// Whether a re-scanned application changes its stored row: another name,
/// arguments or directory, or a new icon (`icon`, empty when the scan found
/// none) that differs from the stored one.
pub open spec fn rescan_changes(s: StoredApp, a: ScannedApp, icon: Seq<char>) -> bool {
    ||| s.name@ != a.name@
    ||| s.args@ != a.args@
    ||| s.workdir@ != a.dir@
    ||| icon.len() > 0 && s.icon@ != icon
}

/// `n` is the row `s` becomes when `a` (with icon `icon`) is re-scanned into
/// it: name, arguments and directory from the scan, and the icon replaced
/// only by a found one.
pub open spec fn rescanned(s: StoredApp, a: ScannedApp, icon: Seq<char>, n: StoredApp) -> bool {
    &&& n.id == s.id
    &&& n.name@ == a.name@
    &&& n.args@ == a.args@
    &&& n.workdir@ == a.dir@
    &&& n.icon@ == (if icon.len() == 0 {
        s.icon@
    } else {
        icon
    })
}

/// What a re-scan writes, said field by field: a row whose name, arguments
/// or directory differ from the scan, or whose icon differs from a found one,
/// is rewritten with the scan's name, arguments and directory; its icon
/// becomes the found one, and stays when none was found; and nothing is
/// written when the row already holds all that.
pub open spec fn rescan_written(s: StoredApp, a: ScannedApp, icon: Seq<char>, r: Option<StoredApp>) -> bool {
    &&& (s.name@ != a.name@ || s.args@ != a.args@ || s.workdir@ != a.dir@) ==> r is Some
    &&& (icon.len() > 0 && s.icon@ != icon) ==> r is Some
    &&& r matches Some(n) ==> {
        &&& n.id == s.id
        &&& n.name@ == a.name@
        &&& n.args@ == a.args@
        &&& n.workdir@ == a.dir@
        &&& icon.len() > 0 ==> n.icon@ == icon
        &&& icon.len() == 0 ==> n.icon@ == s.icon@
    }
}

/// The stored row after re-scanning `app` (with icon `icon`) into it, `None`
/// when nothing changes.
pub fn rescan_app(stored: &StoredApp, app: &ScannedApp, icon: &str) -> (r: Option<StoredApp>)
    ensures
        !rescan_changes(*stored, *app, icon@) ==> r is None,
        rescan_changes(*stored, *app, icon@) ==> (r matches Some(n) && rescanned(*stored, *app, icon@, n)),
        rescan_written(*stored, *app, icon@, r),
{
    let has_icon = chars_of(icon).len() > 0;
    let changes = !str_eq(stored.name.as_str(), app.name.as_str()) || !str_eq(
        stored.args.as_str(),
        app.args.as_str(),
    ) || !str_eq(stored.workdir.as_str(), app.dir.as_str()) || (has_icon && !str_eq(
        stored.icon.as_str(),
        icon,
    ));
    if !changes {
        return None;
    }
    Some(
        StoredApp {
            id: stored.id,
            name: string_from(app.name.as_str()),
            args: string_from(app.args.as_str()),
            workdir: string_from(app.dir.as_str()),
            icon: if has_icon {
                string_from(icon)
            } else {
                string_from(stored.icon.as_str())
            },
        },
    )
}

/// A re-sync writes a row exactly when the stored row differs from what the
/// entry brings: another name or type, disabled, or an empty alias,
/// description or icon that the entry fills; the row written carries the
/// entry's name and type, enabled, and keeps every field the user filled in.
pub proof fn resync_writes_what_changed(s: StoredEntry, it: SyncedItem, r: Option<StoredEntry>)
    requires
        !resync_changes(s, it) ==> r is None,
        resync_changes(s, it) ==> (r matches Some(n) && resynced(s, it, n)),
    ensures
        (s.name@ != it.name@ || s.kind@ != it.kind@ || s.enabled != 1) ==> r is Some,
        (s.alias@.len() == 0 && it.alias@.len() > 0) ==> r is Some,
        (s.description@.len() == 0 && it.description@.len() > 0) ==> r is Some,
        (s.icon@.len() == 0 && it.icon@.len() > 0) ==> r is Some,
        r matches Some(n) ==> n.id == s.id && n.name@ == it.name@ && n.kind@ == it.kind@ && n.enabled
            == 1,
        r matches Some(n) ==> (s.alias@.len() > 0 ==> n.alias@ == s.alias@) && (s.alias@.len() == 0
            ==> n.alias@ == it.alias@),
        r matches Some(n) ==> (s.description@.len() > 0 ==> n.description@ == s.description@) && (
        s.description@.len() == 0 ==> n.description@ == it.description@),
        r matches Some(n) ==> (s.icon@.len() > 0 ==> n.icon@ == s.icon@) && (s.icon@.len() == 0
            ==> n.icon@ == it.icon@),
        r is None ==> s.name@ == it.name@ && s.kind@ == it.kind@ && s.enabled == 1
            && (s.alias@.len() == 0 ==> it.alias@.len() == 0)
            && (s.description@.len() == 0 ==> it.description@.len() == 0)
            && (s.icon@.len() == 0 ==> it.icon@.len() == 0),
{
}

/// A re-scan writes a row exactly when the stored row differs from the scan:
/// another name, arguments or directory, or a found icon other than the
/// stored one; the row written carries the scan's name, arguments and
/// directory, and the found icon if there is one.
pub proof fn rescan_writes_what_changed(s: StoredApp, a: ScannedApp, icon: Seq<char>, r: Option<StoredApp>)
    requires
        !rescan_changes(s, a, icon) ==> r is None,
        rescan_changes(s, a, icon) ==> (r matches Some(n) && rescanned(s, a, icon, n)),
    ensures
        (s.name@ != a.name@ || s.args@ != a.args@ || s.workdir@ != a.dir@) ==> r is Some,
        (icon.len() > 0 && s.icon@ != icon) ==> r is Some,
        r matches Some(n) ==> n.id == s.id && n.name@ == a.name@ && n.args@ == a.args@ && n.workdir@
            == a.dir@,
        r matches Some(n) ==> (icon.len() > 0 ==> n.icon@ == icon) && (icon.len() == 0 ==> n.icon@
            == s.icon@),
        r is None ==> s.name@ == a.name@ && s.args@ == a.args@ && s.workdir@ == a.dir@ && (icon.len()
            == 0 || s.icon@ == icon),
{
}

/// Re-syncing an entry a second time writes nothing: the row a re-sync
/// writes already holds what the entry brings.
pub proof fn resync_settles(s: StoredEntry, it: SyncedItem, n: StoredEntry)
    requires
        resynced(s, it, n),
    ensures
        !resync_changes(n, it),
{
}

/// Re-scanning an application a second time writes nothing: the row a
/// re-scan writes already holds what the scan found.
pub proof fn rescan_settles(s: StoredApp, a: ScannedApp, icon: Seq<char>, n: StoredApp)
    requires
        rescanned(s, a, icon, n),
    ensures
        !rescan_changes(n, a, icon),
{
}

// ---------------------------------------------------------------------------
// Scan output
// ---------------------------------------------------------------------------

/// An application as the system scan reports it, before clean-up; absent
/// fields are empty.
pub struct RawScannedApp {
    pub name: String,
    pub target: String,
    pub args: String,
    pub dir: String,
    pub icon: String,
}

/// Words that mark uninstallers, help pages, read-me files and licences.
pub open spec fn skip_words() -> Seq<Seq<char>> {
    seq!["uninstall"@, "卸载"@, "帮助"@, "readme"@, "troubleshoot"@, "许可"@]
}

/// The lowercased name contains one of the skip words.
pub open spec fn has_skip_word(lower: Seq<char>) -> bool {
    exists|i: int| 0 <= i < skip_words().len() && contains(lower, #[trigger] skip_words()[i])
}

/// The cleaned scan entry: name and target trimmed; `None` when either is
/// blank or the lowercased name contains a skip word.
pub fn accept_scanned(raw: RawScannedApp) -> (r: Option<ScannedApp>)
    ensures
        match r {
            Some(a) => {
                &&& trim(raw.name@).len() > 0
                &&& trim(raw.target@).len() > 0
                &&& !has_skip_word(str_lowercase(trim(raw.name@)))
                &&& a.name@ == trim(raw.name@)
                &&& a.target@ == trim(raw.target@)
                &&& a.args == raw.args
                &&& a.dir == raw.dir
                &&& a.icon == raw.icon
            },
            None => trim(raw.name@).len() == 0 || trim(raw.target@).len() == 0 || has_skip_word(
                str_lowercase(trim(raw.name@)),
            ),
        },
{
    let name = trim_str(raw.name.as_str());
    let target = trim_str(raw.target.as_str());
    if name.len() == 0 || target.len() == 0 {
        return None;
    }
    let lower = lowercase_chars(&name);
    let words: [&str; 6] = ["uninstall", "卸载", "帮助", "readme", "troubleshoot", "许可"];
    let mut k: usize = 0;
    while k < 6
        invariant
            k <= 6,
            words@ == seq!["uninstall", "卸载", "帮助", "readme", "troubleshoot", "许可"],
            lower@ == str_lowercase(trim(raw.name@)),
            forall|j: int| 0 <= j < k ==> !contains(lower@, #[trigger] skip_words()[j]),
        decreases 6 - k,
    {
        let w = chars_of(words[k]);
        assert(w@ == skip_words()[k as int]);
        if contains_exec(&lower, &w) {
            return None;
        }
        k = k + 1;
    }
    Some(
        ScannedApp {
            name: string_of(&name),
            target: string_of(&target),
            args: raw.args,
            dir: raw.dir,
            icon: raw.icon,
        },
    )
}

/// The five texts of a scan record: name, target, arguments, directory, icon.
pub type ScanFields = (Seq<char>, Seq<char>, Seq<char>, Seq<char>, Seq<char>);

/// A text member, empty when missing or not a string.
pub open spec fn text_or_empty(o: Option<Seq<char>>) -> Seq<char> {
    match o {
        Some(t) => t,
        None => Seq::empty(),
    }
}

/// The fields a scan record is read with.
pub open spec fn scan_record(jv: JsonView) -> ScanFields {
    (
        text_or_empty(json_text(json_field(jv, "name"@))),
        text_or_empty(json_text(json_field(jv, "target"@))),
        text_or_empty(json_text(json_field(jv, "args"@))),
        text_or_empty(json_text(json_field(jv, "dir"@))),
        text_or_empty(json_text(json_field(jv, "icon"@))),
    )
}

/// The records of a scan report: the items of its `apps` array, none when
/// there is no such array.
pub open spec fn scan_records(jv: JsonView) -> Seq<ScanFields> {
    match json_items(json_field(jv, "apps"@)) {
        Some(ks) => ks.map_values(|k: JsonView| scan_record(k)),
        None => Seq::empty(),
    }
}

/// A record names an application to keep: name and target are not blank and
/// the name has no skip word.
pub open spec fn record_accepted(r: ScanFields) -> bool {
    trim(r.0).len() > 0 && trim(r.1).len() > 0 && !has_skip_word(str_lowercase(trim(r.0)))
}

/// The applications kept from the records, in order, name and target
/// trimmed.
pub open spec fn accepted_apps(recs: Seq<ScanFields>) -> Seq<ScanFields>
    decreases recs.len(),
{
    if recs.len() == 0 {
        Seq::empty()
    } else {
        let r = recs.last();
        let rest = accepted_apps(recs.drop_last());
        if record_accepted(r) {
            rest.push((trim(r.0), trim(r.1), r.2, r.3, r.4))
        } else {
            rest
        }
    }
}

/// The fields of a scanned application.
pub open spec fn app_fields(a: ScannedApp) -> ScanFields {
    (a.name@, a.target@, a.args@, a.dir@, a.icon@)
}

/// The fields of a list of scanned applications.
pub open spec fn apps_fields(apps: Seq<ScannedApp>) -> Seq<ScanFields> {
    apps.map_values(|a: ScannedApp| app_fields(a))
}

fn text_member(j: &Json, key: &str) -> (r: String)
    ensures
        r@ == text_or_empty(json_text(json_field(j@, key@))),
{
    match text_of(get_field(j, key)) {
        Some(t) => t,
        None => String::new(),
    }
}

/// The applications of the system scan's report: the report is trimmed and
/// read as JSON (its parse error reported), and each record of its `apps`
/// array that names an application to keep becomes one.
pub fn scanned_apps(stdout: &str) -> (r: Result<Vec<ScannedApp>, String>)
    ensures
        match json_parsed(trim(stdout@)) {
            Err(e) => r matches Err(m) && m@ == err_msg_spec("解析扫描结果失败"@, e),
            Ok(jv) => r matches Ok(v) && apps_fields(v@) == accepted_apps(scan_records(jv)),
        },
{
    let text = string_of(&trim_str(stdout));
    match parse_json(text.as_str()) {
        Ok(j) => Ok(apps_of_report(&j)),
        Err(e) => Err(err_msg("解析扫描结果失败", e.as_str())),
    }
}

/// The applications of a parsed scan report: each record of its `apps` array
/// that names an application to keep, in order.
pub fn apps_of_report(j: &Json) -> (r: Vec<ScannedApp>)
    ensures
        apps_fields(r@) == accepted_apps(scan_records(j@)),
{
    let mut apps: Vec<ScannedApp> = Vec::new();
    let list = match get_field(j, "apps") {
        Some(a) => items_of(a),
        None => None,
    };
    let kids = match list {
        Some(k) => k,
        None => {
            assert(apps_fields(apps@) =~= accepted_apps(scan_records(j@)));
            return apps;
        },
    };
    proof {
        lemma_json_views(kids@);
    }
    let ghost recs = json_views(kids@).map_values(|k: JsonView| scan_record(k));
    assert(recs == scan_records(j@));
    let n = kids.len();
    let mut i: usize = 0;
    assert(recs.take(0) =~= Seq::<ScanFields>::empty());
    while i < n
        invariant
            n == kids.len(),
            i <= n,
            recs == json_views(kids@).map_values(|k: JsonView| scan_record(k)),
            json_views(kids@).len() == n,
            forall|t: int| 0 <= t < n ==> #[trigger] json_views(kids@)[t] == json_view(kids@[t]),
            apps_fields(apps@) == accepted_apps(recs.take(i as int)),
        decreases n - i,
    {
        let k = &kids[i];
        let raw = RawScannedApp {
            name: text_member(k, "name"),
            target: text_member(k, "target"),
            args: text_member(k, "args"),
            dir: text_member(k, "dir"),
            icon: text_member(k, "icon"),
        };
        assert(recs[i as int] == scan_record(k@));
        assert(recs.take(i + 1).drop_last() =~= recs.take(i as int));
        assert(recs.take(i + 1).last() == recs[i as int]);
        let ghost before = apps@;
        if let Some(a) = accept_scanned(raw) {
            apps.push(a);
            assert(apps_fields(apps@) =~= apps_fields(before).push(app_fields(a)));
        }
        i = i + 1;
    }
    assert(recs.take(n as int) =~= recs);
    apps
}

// ---------------------------------------------------------------------------
// One entry per address
// ---------------------------------------------------------------------------

/// Position `i` holds the first entry with its lowercased address.
pub open spec fn is_first_of_url(items: Seq<SyncedItem>, i: int) -> bool {
    forall|j: int| 0 <= j < i ==> str_lowercase(#[trigger] items[j].url@) != str_lowercase(items[i].url@)
}

/// The entries that are the first with their lowercased address, in order.
pub open spec fn first_by_url(items: Seq<SyncedItem>) -> Seq<SyncedItem>
    decreases items.len(),
{
    if items.len() == 0 {
        Seq::empty()
    } else {
        let rest = first_by_url(items.drop_last());
        if is_first_of_url(items, items.len() - 1) {
            rest.push(items.last())
        } else {
            rest
        }
    }
}

proof fn lemma_first_by_url_members(items: Seq<SyncedItem>)
    ensures
        forall|k: int|
            0 <= k < first_by_url(items).len() ==> exists|j: int|
                0 <= j < items.len() && #[trigger] first_by_url(items)[k] == items[j],
    decreases items.len(),
{
    if items.len() > 0 {
        let prev = items.drop_last();
        lemma_first_by_url_members(prev);
        assert forall|k: int| 0 <= k < first_by_url(items).len() implies exists|j: int|
            0 <= j < items.len() && #[trigger] first_by_url(items)[k] == items[j] by {
            if k < first_by_url(prev).len() {
                let j = choose|j: int| 0 <= j < prev.len() && #[trigger] first_by_url(prev)[k] == prev[j];
                assert(prev[j] == items[j]);
            } else {
                assert(first_by_url(items)[k] == items[items.len() - 1]);
            }
        }
    }
}

/// After keeping the first entry per address, no two kept entries share a
/// lowercased address.
pub proof fn unique_urls_are_distinct(items: Seq<SyncedItem>)
    ensures
        forall|a: int, b: int|
            0 <= a < b < first_by_url(items).len() ==> str_lowercase(
                #[trigger] first_by_url(items)[a].url@,
            ) != str_lowercase(#[trigger] first_by_url(items)[b].url@),
    decreases items.len(),
{
    if items.len() > 0 {
        let prev = items.drop_last();
        unique_urls_are_distinct(prev);
        lemma_first_by_url_members(prev);
        let fb = first_by_url(items);
        assert forall|a: int, b: int| 0 <= a < b < fb.len() implies str_lowercase(
            #[trigger] fb[a].url@,
        ) != str_lowercase(#[trigger] fb[b].url@) by {
            if b >= first_by_url(prev).len() {
                let j = choose|j: int| 0 <= j < prev.len() && #[trigger] first_by_url(prev)[a] == prev[j];
                assert(prev[j] == items[j]);
                assert(is_first_of_url(items, items.len() - 1));
                assert(str_lowercase(items[j].url@) != str_lowercase(items[items.len() - 1].url@));
            }
        }
    }
}

/// Keeps one entry per lowercased address, the first one, in order.
pub fn unique_by_url(items: &Vec<SyncedItem>) -> (r: Vec<SyncedItem>)
    ensures
        r@ == first_by_url(items@),
{
    let mut seen = StringHashSet::new();
    let mut out: Vec<SyncedItem> = Vec::new();
    let n = items.len();
    let mut i: usize = 0;
    assert(items@.take(0) =~= Seq::<SyncedItem>::empty());
    while i < n
        invariant
            n == items.len(),
            i <= n,
            out@ == first_by_url(items@.take(i as int)),
            forall|k: Seq<char>| seen@.contains(k) <==> exists|j: int| 0 <= j < i && str_lowercase(#[trigger] items@[j].url@) == k,
        decreases n - i,
    {
        let key = lowercase(items[i].url.as_str());
        let ghost pre = items@.take(i as int);
        let ghost cur = items@.take(i + 1);
        assert(cur.drop_last() =~= pre);
        assert(cur.last() == items@[i as int]);
        if seen.contains(key.as_str()) {
            proof {
                let j = choose|j: int| 0 <= j < i && str_lowercase(#[trigger] items@[j].url@) == key@;
                assert(cur[j] == items@[j]);
                assert(!is_first_of_url(cur, i as int));
            }
        } else {
            assert forall|j: int| 0 <= j < i implies str_lowercase(#[trigger] cur[j].url@) != str_lowercase(cur[i as int].url@) by {
                assert(cur[j] == items@[j]);
            }
            out.push(items[i].duplicate());
            seen.insert(key);
        }
        i = i + 1;
    }
    assert(items@.take(n as int) =~= items@);
    out
}

} // verus!
