//! Synchronised folders: the list of roots, the breadth-first scan of a root,
//! and the folder picker's listing.
use vstd::prelude::*;
use crate::item::{DirEntry, FolderRoot, SyncedItem};
use crate::order::{is_stable_order, key_views, lemma_stable_order_sorted, lex_lt, precedes, stable_order};
use crate::text::{
    ascii_lower, chars_of, char_lowercase, ends_with, ends_with_exec, eq_ignore_ascii_case,
    eq_ignore_ascii_case_exec, is_white_space, is_whitespace, lowercase, lowercase_char,
    push_chars, push_text, str_lowercase, string_from, string_of, trim, trim_chars,
    trim_end_char, trim_end_char_exec, trim_str, string_views,
};

verus! {

/// Deepest directory level a scan descends to (the root is level 1).
pub const MAX_SYNC_DEPTH: usize = 24;

/// Most entries one root contributes besides the root itself.
pub const MAX_SYNC_ITEMS_PER_ROOT: usize = 20000;

// ---------------------------------------------------------------------------
// Names
// ---------------------------------------------------------------------------

/// A name with white space removed and every character lowercased, used as
/// the alias of synchronised entries.
pub open spec fn alias_form(name: Seq<char>) -> Seq<char>
    decreases name.len(),
{
    if name.len() == 0 {
        Seq::empty()
    } else {
        let rest = alias_form(name.drop_last());
        if is_white_space(name.last()) {
            rest
        } else {
            rest + char_lowercase(name.last())
        }
    }
}

/// The alias form of a root name.
pub fn normalize_alias(name: &str) -> (r: String)
    ensures
        r@ == alias_form(name@),
{
    let v = chars_of(name);
    let mut out = String::new();
    let n = v.len();
    let mut i: usize = 0;
    assert(v@.take(0) =~= Seq::<char>::empty());
    while i < n
        invariant
            n == v.len(),
            i <= n,
            out@ == alias_form(v@.take(i as int)),
        decreases n - i,
    {
        assert(v@.take(i + 1).drop_last() =~= v@.take(i as int));
        assert(v@.take(i + 1).last() == v@[i as int]);
        if !is_whitespace(v[i]) {
            let l = lowercase_char(v[i]);
            push_chars(&mut out, &l);
        }
        i = i + 1;
    }
    assert(v@.take(n as int) =~= v@);
    out
}

/// The display name of a new root: its last path component, trimmed, when not
/// blank; else its first component when that is a drive (`C:`) or `/`; else
/// the path itself. The components are those the platform's path rules give.
pub fn root_name_of(path: &str, file_name: Option<&str>, first_component: Option<&str>) -> (r: String)
    ensures
        r@ == (if file_name is Some && trim(file_name->0@).len() > 0 {
            trim(file_name->0@)
        } else if first_component is Some && (ends_with(first_component->0@, seq![':'])
            || first_component->0@ == seq!['/']) {
            first_component->0@
        } else {
            path@
        }),
{
    if let Some(f) = file_name {
        let t = trim_str(f);
        if t.len() > 0 {
            return string_of(&t);
        }
    }
    if let Some(c) = first_component {
        let label = chars_of(c);
        let mut colon: Vec<char> = Vec::new();
        colon.push(':');
        let mut slash: Vec<char> = Vec::new();
        slash.push('/');
        let is_slash = label.len() == 1 && label[0] == '/';
        proof {
            if label@.len() == 1 && label@[0] == '/' {
                assert(label@ =~= seq!['/']);
            }
            if label@ == seq!['/'] {
                assert(label@.len() == 1);
            }
        }
        if ends_with_exec(&label, &colon) || is_slash {
            return string_of(&label);
        }
    }
    string_from(path)
}

/// A folder path as typed: trimmed, and trailing backslashes removed unless
/// it is a drive root (`C:\` or `C:/`).
pub open spec fn normalize_root_path_spec(path: Seq<char>) -> Seq<char> {
    let value = trim(path);
    let lower = str_lowercase(value);
    if ends_with(value, seq!['\\']) && !(ends_with(lower, seq![':', '\\']) || ends_with(
        lower,
        seq![':', '/'],
    )) {
        trim_end_char(value, '\\')
    } else {
        value
    }
}

/// Normalises a folder path typed by the user.
pub fn normalize_root_path(path: &str) -> (r: String)
    ensures
        r@ == normalize_root_path_spec(path@),
{
    let value = trim_str(path);
    let lower = chars_of(lowercase(string_of(&value).as_str()).as_str());
    let mut backslash: Vec<char> = Vec::new();
    backslash.push('\\');
    let mut drive1: Vec<char> = Vec::new();
    drive1.push(':');
    drive1.push('\\');
    let mut drive2: Vec<char> = Vec::new();
    drive2.push(':');
    drive2.push('/');
    assert(backslash@ =~= seq!['\\']);
    assert(drive1@ =~= seq![':', '\\']);
    assert(drive2@ =~= seq![':', '/']);
    if ends_with_exec(&value, &backslash) && !(ends_with_exec(&lower, &drive1) || ends_with_exec(
        &lower,
        &drive2,
    )) {
        string_of(&trim_end_char_exec(&value, '\\'))
    } else {
        string_of(&value)
    }
}

/// Why a typed folder cannot be added, if it cannot.
pub fn check_new_root(path: &str, is_dir: bool) -> (r: Result<(), String>)
    ensures
        path@.len() == 0 ==> (r matches Err(m) && m@ == "目录不能为空"@),
        path@.len() > 0 && !is_dir ==> (r matches Err(m) && m@ == "目录不存在或不可访问："@
            + path@),
        path@.len() > 0 && is_dir ==> r is Ok,
{
    if path.is_empty() {
        Err(string_from("目录不能为空"))
    } else if !is_dir {
        let mut m = string_from("目录不存在或不可访问：");
        push_text(&mut m, path);
        Err(m)
    } else {
        Ok(())
    }
}

// ---------------------------------------------------------------------------
// The list of roots
// ---------------------------------------------------------------------------

/// Some root's path equals `path`, ignoring ASCII case.
pub open spec fn has_root(roots: Seq<FolderRoot>, path: Seq<char>) -> bool {
    exists|i: int| 0 <= i < roots.len() && eq_ignore_ascii_case(#[trigger] roots[i].path@, path)
}

fn find_root(roots: &Vec<FolderRoot>, path: &str) -> (r: bool)
    ensures
        r == has_root(roots@, path@),
{
    let n = roots.len();
    let mut i: usize = 0;
    while i < n
        invariant
            n == roots.len(),
            i <= n,
            forall|j: int| 0 <= j < i ==> !eq_ignore_ascii_case(#[trigger] roots@[j].path@, path@),
        decreases n - i,
    {
        if eq_ignore_ascii_case_exec(roots[i].path.as_str(), path) {
            return true;
        }
        i = i + 1;
    }
    false
}

/// Adds a recursive root with this path and name unless a root with the same
/// path (ignoring ASCII case) is listed; says whether the list changed.
pub fn add_root(roots: &mut Vec<FolderRoot>, path: String, name: String) -> (changed: bool)
    ensures
        changed == !has_root(old(roots)@, path@),
        changed ==> final(roots)@ == old(roots)@.push(FolderRoot { path, name, recursive: true }),
        !changed ==> final(roots)@ == old(roots)@,
{
    if find_root(roots, path.as_str()) {
        false
    } else {
        roots.push(FolderRoot { path, name, recursive: true });
        true
    }
}

/// The roots whose path differs from `path` (ignoring ASCII case), in order.
pub open spec fn roots_without(roots: Seq<FolderRoot>, path: Seq<char>) -> Seq<FolderRoot>
    decreases roots.len(),
{
    if roots.len() == 0 {
        Seq::empty()
    } else {
        let rest = roots_without(roots.drop_last(), path);
        if eq_ignore_ascii_case(roots.last().path@, path) {
            rest
        } else {
            rest.push(roots.last())
        }
    }
}

/// Removes every root whose path equals `path`, ignoring ASCII case.
pub fn remove_root(roots: &Vec<FolderRoot>, path: &str) -> (r: Vec<FolderRoot>)
    ensures
        r@ == roots_without(roots@, path@),
{
    let mut out: Vec<FolderRoot> = Vec::new();
    let n = roots.len();
    let mut i: usize = 0;
    assert(roots@.take(0) =~= Seq::<FolderRoot>::empty());
    while i < n
        invariant
            n == roots.len(),
            i <= n,
            out@ == roots_without(roots@.take(i as int), path@),
        decreases n - i,
    {
        assert(roots@.take(i + 1).drop_last() =~= roots@.take(i as int));
        assert(roots@.take(i + 1).last() == roots@[i as int]);
        if !eq_ignore_ascii_case_exec(roots[i].path.as_str(), path) {
            out.push(roots[i].duplicate());
        }
        i = i + 1;
    }
    assert(roots@.take(n as int) =~= roots@);
    out
}

/// The roots a sync covers: all of them, or those whose path equals the one
/// asked for (ignoring ASCII case).
pub open spec fn roots_selected(roots: Seq<FolderRoot>, only: Option<Seq<char>>) -> Seq<FolderRoot>
    decreases roots.len(),
{
    if roots.len() == 0 {
        Seq::empty()
    } else {
        let rest = roots_selected(roots.drop_last(), only);
        let keep = match only {
            Some(p) => eq_ignore_ascii_case(roots.last().path@, p),
            None => true,
        };
        if keep {
            rest.push(roots.last())
        } else {
            rest
        }
    }
}

/// Selects the roots a sync covers.
pub fn select_roots(roots: &Vec<FolderRoot>, only: Option<&str>) -> (r: Vec<FolderRoot>)
    ensures
        r@ == roots_selected(
            roots@,
            match only {
                Some(p) => Some(p@),
                None => None,
            },
        ),
{
    let ghost o = match only {
        Some(p) => Some(p@),
        None => None,
    };
    let mut out: Vec<FolderRoot> = Vec::new();
    let n = roots.len();
    let mut i: usize = 0;
    assert(roots@.take(0) =~= Seq::<FolderRoot>::empty());
    while i < n
        invariant
            n == roots.len(),
            i <= n,
            o == (match only {
                Some(p) => Some(p@),
                None => None,
            }),
            out@ == roots_selected(roots@.take(i as int), o),
        decreases n - i,
    {
        assert(roots@.take(i + 1).drop_last() =~= roots@.take(i as int));
        assert(roots@.take(i + 1).last() == roots@[i as int]);
        let keep = match only {
            Some(p) => eq_ignore_ascii_case_exec(roots[i].path.as_str(), p),
            None => true,
        };
        if keep {
            out.push(roots[i].duplicate());
        }
        i = i + 1;
    }
    assert(roots@.take(n as int) =~= roots@);
    out
}

/// After removal, no remaining root has the removed path, and every root with
/// another path is still listed.
pub proof fn remove_root_removes_exactly(roots: Seq<FolderRoot>, path: Seq<char>)
    ensures
        !has_root(roots_without(roots, path), path),
        forall|i: int| 0 <= i < roots.len() && !eq_ignore_ascii_case(#[trigger] roots[i].path@, path) ==> roots_without(roots, path).contains(roots[i]),
    decreases roots.len(),
{
    if roots.len() > 0 {
        let pre = roots.drop_last();
        remove_root_removes_exactly(pre, path);
        let rest = roots_without(pre, path);
        let out = roots_without(roots, path);
        assert forall|j: int| 0 <= j < out.len() implies !eq_ignore_ascii_case(#[trigger] out[j].path@, path) by {
            if j < rest.len() {
                assert(out[j] == rest[j]);
                if eq_ignore_ascii_case(rest[j].path@, path) {
                    assert(has_root(rest, path));
                }
            }
        }
        assert forall|i: int| 0 <= i < roots.len() && !eq_ignore_ascii_case(#[trigger] roots[i].path@, path) implies out.contains(roots[i]) by {
            if i < pre.len() {
                assert(pre[i] == roots[i]);
                assert(rest.contains(roots[i]));
                let k = choose|k: int| 0 <= k < rest.len() && rest[k] == roots[i];
                assert(out[k] == rest[k]);
            } else {
                assert(out[out.len() - 1] == roots[i]);
            }
        }
    }
}

/// Where the stored list of roots comes from.
pub enum RootsSetting {
    /// The setting holds an empty list (the user removed every root).
    Empty,
    /// The setting holds a list to parse.
    Stored,
    /// There is no setting yet: the standard folders are used and stored.
    Missing,
}

/// Classifies the stored roots setting: blank or `[]` means no roots, absent
/// means first run.
pub fn classify_roots_setting(raw: Option<&str>) -> (r: RootsSetting)
    ensures
        raw is None ==> r is Missing,
        raw is Some && (trim(raw->0@).len() == 0 || trim(raw->0@) == seq!['[', ']']) ==> r is Empty,
        raw is Some && !(trim(raw->0@).len() == 0 || trim(raw->0@) == seq!['[', ']']) ==> r is Stored,
{
    match raw {
        None => RootsSetting::Missing,
        Some(text) => {
            let t = trim_str(text);
            let is_pair = t.len() == 2 && t[0] == '[' && t[1] == ']';
            proof {
                if t@.len() == 2 && t@[0] == '[' && t@[1] == ']' {
                    assert(t@ =~= seq!['[', ']']);
                }
            }
            if t.len() == 0 || is_pair {
                RootsSetting::Empty
            } else {
                RootsSetting::Stored
            }
        },
    }
}

// ---------------------------------------------------------------------------
// File attributes
// ---------------------------------------------------------------------------

/// Entries a folder scan skips: hidden (0x2), system (0x4) or reparse points
/// (0x400, such as links).
pub fn should_skip_attributes(attrs: u32) -> (r: bool)
    ensures
        r == (attrs & 0x406u32 != 0),
{
    // hidden | system | reparse point
    attrs & 0x406u32 != 0
}

/// Entries the folder picker hides: hidden (0x2) or system (0x4).
pub fn is_hidden_attributes(attrs: u32) -> (r: bool)
    ensures
        r == (attrs & 0x6u32 != 0),
{
    // hidden | system
    attrs & 0x6u32 != 0
}

// ---------------------------------------------------------------------------
// Ordering by name
// ---------------------------------------------------------------------------

/// The ordering key of a name: its lowercased characters as code points.
pub open spec fn name_key(name: Seq<char>) -> Seq<u64> {
    str_lowercase(name).map_values(|c: char| c as u64)
}

/// The ordering key of a name.
pub fn name_sort_key(name: &str) -> (r: Vec<u64>)
    ensures
        r@ == name_key(name@),
{
    let l = chars_of(lowercase(name).as_str());
    let mut out: Vec<u64> = Vec::new();
    let n = l.len();
    let mut i: usize = 0;
    while i < n
        invariant
            n == l.len(),
            l@ == str_lowercase(name@),
            i <= n,
            out@ == l@.take(i as int).map_values(|c: char| c as u64),
        decreases n - i,
    {
        out.push(l[i] as u64);
        assert(l@.take(i + 1).map_values(|c: char| c as u64) =~= l@.take(i as int).map_values(
            |c: char| c as u64,
        ).push(l@[i as int] as u64));
        i = i + 1;
    }
    assert(l@.take(n as int) =~= l@);
    out
}

/// A directory seen by the folder picker, with what the file system says of it.
pub struct DirCandidate {
    pub name: String,
    pub path: String,
    pub is_dir: bool,
    pub hidden: bool,
}

/// The picker shows directories that are not hidden and have a name.
pub open spec fn is_shown(c: DirCandidate) -> bool {
    c.is_dir && !c.hidden && c.name@.len() > 0
}

/// The shown candidates, in order.
pub open spec fn shown(cands: Seq<DirCandidate>) -> Seq<DirCandidate>
    decreases cands.len(),
{
    if cands.len() == 0 {
        Seq::empty()
    } else if is_shown(cands.last()) {
        shown(cands.drop_last()).push(cands.last())
    } else {
        shown(cands.drop_last())
    }
}

/// The name keys of the shown candidates.
pub open spec fn shown_keys(cands: Seq<DirCandidate>) -> Seq<Seq<u64>> {
    shown(cands).map_values(|c: DirCandidate| name_key(c.name@))
}

/// `r` lists the shown directories sorted by lowercased name, ties in order.
pub open spec fn is_listing(cands: Seq<DirCandidate>, r: Seq<DirEntry>) -> bool {
    let s = shown(cands);
    exists|p: Seq<usize>|
        #![trigger is_stable_order(shown_keys(cands), p)]
        is_stable_order(shown_keys(cands), p) && r.len() == s.len()
            && forall|j: int|
            0 <= j < r.len() ==> {
                let c = s[#[trigger] p[j] as int];
                r[j].name == c.name && r[j].path == c.path && r[j].is_dir
            }
}

/// A listing runs in name order: no entry has a lowercased name that sorts
/// after the name of an entry listed later.
pub proof fn listing_is_sorted_by_name(cands: Seq<DirCandidate>, r: Seq<DirEntry>)
    requires
        is_listing(cands, r),
    ensures
        forall|i: int, j: int|
            0 <= i < j < r.len() ==> lex_lt(name_key(#[trigger] r[i].name@), name_key(#[trigger] r[j].name@))
                || name_key(r[i].name@) == name_key(r[j].name@),
{
    let s = shown(cands);
    let p = choose|p: Seq<usize>|
        #![trigger is_stable_order(shown_keys(cands), p)]
        is_stable_order(shown_keys(cands), p) && r.len() == s.len() && forall|j: int|
            0 <= j < r.len() ==> {
                let c = s[#[trigger] p[j] as int];
                r[j].name == c.name && r[j].path == c.path && r[j].is_dir
            };
    assert forall|i: int, j: int| 0 <= i < j < r.len() implies lex_lt(
        name_key(#[trigger] r[i].name@),
        name_key(#[trigger] r[j].name@),
    ) || name_key(r[i].name@) == name_key(r[j].name@) by {
        lemma_stable_order_sorted(shown_keys(cands), p, i, j);
        assert(r[i].name == s[p[i] as int].name);
        assert(r[j].name == s[p[j] as int].name);
    }
}

/// The folder picker's listing: shown directories sorted by name.
pub fn order_directory(cands: &Vec<DirCandidate>) -> (r: Vec<DirEntry>)
    ensures
        is_listing(cands@, r@),
{
    let mut kept: Vec<&DirCandidate> = Vec::new();
    let mut keys: Vec<Vec<u64>> = Vec::new();
    let n = cands.len();
    let mut i: usize = 0;
    let ghost f = |c: DirCandidate| name_key(c.name@);
    assert(cands@.take(0) =~= Seq::<DirCandidate>::empty());
    while i < n
        invariant
            n == cands.len(),
            i <= n,
            f == (|c: DirCandidate| name_key(c.name@)),
            kept@.map_values(|c: &DirCandidate| *c) == shown(cands@.take(i as int)),
            key_views(keys@) == shown(cands@.take(i as int)).map_values(f),
        decreases n - i,
    {
        assert(cands@.take(i + 1).drop_last() =~= cands@.take(i as int));
        assert(cands@.take(i + 1).last() == cands@[i as int]);
        let c = &cands[i];
        if c.is_dir && !c.hidden && !c.name.as_str().is_empty() {
            let ghost old_kept = kept@;
            let ghost old_keys = keys@;
            kept.push(c);
            keys.push(name_sort_key(c.name.as_str()));
            assert(kept@.map_values(|c: &DirCandidate| *c) =~= old_kept.map_values(
                |c: &DirCandidate| *c,
            ).push(*c));
            assert(key_views(keys@) =~= key_views(old_keys).push(name_key(c.name@)));
            assert(shown(cands@.take(i + 1)) == shown(cands@.take(i as int)).push(*c));
            assert(shown(cands@.take(i + 1)).map_values(f) =~= shown(cands@.take(i as int)).map_values(
                f,
            ).push(f(*c)));
        }
        i = i + 1;
    }
    assert(cands@.take(n as int) =~= cands@);
    let p = stable_order(&keys);
    let mut out: Vec<DirEntry> = Vec::new();
    let m = p.len();
    let mut j: usize = 0;
    let ghost s = shown(cands@);
    while j < m
        invariant
            m == p.len(),
            m == kept.len(),
            s == shown(cands@),
            kept@.map_values(|c: &DirCandidate| *c) == s,
            is_stable_order(key_views(keys@), p@),
            j <= m,
            out.len() == j,
            forall|t: int|
                0 <= t < j ==> {
                    let c = s[#[trigger] p@[t] as int];
                    out@[t].name == c.name && out@[t].path == c.path && out@[t].is_dir
                },
        decreases m - j,
    {
        let idx = p[j];
        assert(p@[j as int] < kept@.len());
        let c = kept[idx];
        assert(*c == s[idx as int]);
        out.push(DirEntry { name: c.name.clone(), path: c.path.clone(), is_dir: true });
        j = j + 1;
    }
    assert(key_views(keys@) == shown_keys(cands@));
    out
}

// ---------------------------------------------------------------------------
// Folder scan
// ---------------------------------------------------------------------------

/// A directory entry met during a scan, with what the file system says of it
/// (`skipped`: hidden, system or a reparse point).
pub struct ListedEntry {
    pub name: String,
    pub path: String,
    pub is_dir: bool,
    pub skipped: bool,
}

/// An entry a scan records: it has a name, is not skipped, and is not a dot
/// entry where those are hidden.
pub open spec fn is_listable(e: ListedEntry, hide_dot: bool) -> bool {
    e.name@.len() > 0 && !e.skipped && !(hide_dot && e.name@[0] == '.')
}

/// The entries of a listing that a scan records while it has `room` left.
pub open spec fn accepted_entries(entries: Seq<ListedEntry>, hide_dot: bool, room: int) -> Seq<
    ListedEntry,
>
    decreases entries.len(),
{
    if entries.len() == 0 || room <= 0 {
        Seq::empty()
    } else if is_listable(entries[0], hide_dot) {
        seq![entries[0]] + accepted_entries(entries.drop_first(), hide_dot, room - 1)
    } else {
        accepted_entries(entries.drop_first(), hide_dot, room)
    }
}

/// The directories among recorded entries, in order.
pub open spec fn dirs_of(acc: Seq<ListedEntry>) -> Seq<ListedEntry>
    decreases acc.len(),
{
    if acc.len() == 0 {
        Seq::empty()
    } else if acc.last().is_dir {
        dirs_of(acc.drop_last()).push(acc.last())
    } else {
        dirs_of(acc.drop_last())
    }
}

proof fn lemma_dirs_of_contains(acc: Seq<ListedEntry>, k: int)
    requires
        0 <= k < acc.len(),
        acc[k].is_dir,
    ensures
        exists|m: int| 0 <= m < dirs_of(acc).len() && dirs_of(acc)[m] == acc[k],
    decreases acc.len(),
{
    let pre = acc.drop_last();
    if k == acc.len() - 1 {
        assert(dirs_of(acc) == dirs_of(pre).push(acc.last()));
        let m = dirs_of(acc).len() - 1;
        assert(0 <= m < dirs_of(acc).len() && dirs_of(acc)[m] == acc[k]);
    } else {
        assert(pre[k] == acc[k]);
        lemma_dirs_of_contains(pre, k);
        let m = choose|m: int| 0 <= m < dirs_of(pre).len() && dirs_of(pre)[m] == pre[k];
        if acc.last().is_dir {
            assert(dirs_of(acc) == dirs_of(pre).push(acc.last()));
            assert(dirs_of(acc)[m] == dirs_of(pre)[m]);
        } else {
            assert(dirs_of(acc) == dirs_of(pre));
        }
        assert(0 <= m < dirs_of(acc).len() && dirs_of(acc)[m] == acc[k]);
    }
}

/// The name keys of directories.
pub open spec fn dir_keys(dirs: Seq<ListedEntry>) -> Seq<Seq<u64>> {
    dirs.map_values(|e: ListedEntry| name_key(e.name@))
}

/// The record a scan makes of an entry.
pub open spec fn is_entry_item(it: SyncedItem, e: ListedEntry, alias: String, desc: String) -> bool {
    &&& it.name == e.name
    &&& it.alias == alias
    &&& it.kind@ == (if e.is_dir {
        "folder"@
    } else {
        "file"@
    })
    &&& it.url == e.path
    &&& it.description == desc
    &&& it.icon@.len() == 0
}

/// The index of the next directory a scan lists: the first pending one from
/// `from` on that is not too deep, while there is room; the queue's length
/// when there is none.
pub open spec fn next_eligible(pending: Seq<(String, usize)>, from: int, count: usize) -> int
    decreases pending.len() - from,
{
    if from >= pending.len() {
        pending.len() as int
    } else if pending[from].1 <= MAX_SYNC_DEPTH && count < MAX_SYNC_ITEMS_PER_ROOT {
        from
    } else {
        next_eligible(pending, from + 1, count)
    }
}

/// A breadth-first scan of one synchronised folder. Directories wait in
/// `pending` with their level; `next` is the first one not yet handed out,
/// and `listed` holds the queue positions handed out so far, in order.
pub struct FolderScan {
    pub root_alias: String,
    pub description: String,
    pub hide_dot_entries: bool,
    pub pending: Vec<(String, usize)>,
    pub next: usize,
    pub depth: usize,
    pub count: usize,
    pub items: Vec<SyncedItem>,
    pub listed: Ghost<Seq<int>>,
}

impl FolderScan {
    /// The scan's bookkeeping is consistent: the bookkeeping of `wf_core`,
    /// and every directory recorded below the root waits in the queue.
    pub open spec fn wf(&self) -> bool {
        &&& self.wf_core()
        &&& self.dirs_queued(self.items@.len() as int)
    }

    /// The cursor is within the queue, at most the per-root number of entries
    /// has been recorded, and besides them only the root itself.
    pub open spec fn wf_core(&self) -> bool {
        &&& self.next <= self.pending.len()
        &&& self.count <= MAX_SYNC_ITEMS_PER_ROOT
        &&& self.items@.len() <= self.count + 1
        &&& forall|i: int| 0 <= i < self.pending@.len() ==> 1 <= (#[trigger] self.pending@[i]).1
        &&& self.levels_in_order()
        &&& self.listing_complete()
    }

    /// Each directory recorded below the root, among the first `n` records,
    /// waits in the queue.
    pub open spec fn dirs_queued(&self, n: int) -> bool {
        forall|i: int|
            1 <= i < n && i < self.items@.len() && (#[trigger] self.items@[i]).kind@ == "folder"@
                ==> exists|k: int| 0 <= k < self.pending@.len() && (#[trigger] self.pending@[k]).0 == self.items@[i].url
    }

    /// Directories are handed out in queue order, each at most once and none
    /// deeper than the limit; every queued directory passed so far that is
    /// not too deep was handed out, unless the root has no room left.
    pub open spec fn listing_complete(&self) -> bool {
        &&& forall|t: int| 0 <= t < self.listed@.len() ==> 0 <= #[trigger] self.listed@[t] < self.next
        &&& forall|s: int, t: int|
            0 <= s < t < self.listed@.len() ==> #[trigger] self.listed@[s] < #[trigger] self.listed@[t]
        &&& forall|t: int|
            0 <= t < self.listed@.len() ==> self.pending@[#[trigger] self.listed@[t]].1 <= MAX_SYNC_DEPTH
        &&& forall|k: int|
            0 <= k < self.next && (#[trigger] self.pending@[k]).1 <= MAX_SYNC_DEPTH ==> self.count
                == MAX_SYNC_ITEMS_PER_ROOT || self.listed@.contains(k)
    }

    /// The queue is breadth-first: levels never decrease along it, none is
    /// more than one below the level being listed, and none still waiting is
    /// above it.
    pub open spec fn levels_in_order(&self) -> bool {
        &&& forall|a: int, b: int|
            0 <= a < b < self.pending@.len() ==> (#[trigger] self.pending@[a]).1 <= (
            #[trigger] self.pending@[b]).1
        &&& forall|k: int| 0 <= k < self.pending@.len() ==> (#[trigger] self.pending@[k]).1 <= self.depth + 1
        &&& forall|k: int| self.next <= k < self.pending@.len() ==> self.depth <= (
            #[trigger] self.pending@[k]).1
    }

    /// Starts the scan of `root`. A root that is not a directory yields
    /// nothing; otherwise the root itself is recorded as a folder and, when the
    /// root is recursive, its directory waits at level 1.
    pub fn start(root: &FolderRoot, root_is_dir: bool, hide_dot_entries: bool) -> (r: FolderScan)
        ensures
            r.wf(),
            r.next == 0,
            r.count == 0,
            r.depth == 0,
            r.listed@.len() == 0,
            r.hide_dot_entries == hide_dot_entries,
            r.root_alias@ == alias_form(root.name@),
            r.description@ == "来自"@ + root.name@,
            !root_is_dir ==> r.items@.len() == 0 && r.pending@.len() == 0,
            root_is_dir ==> {
                &&& r.items@.len() == 1
                &&& r.items@[0].name == root.name
                &&& r.items@[0].alias@ == alias_form(root.name@)
                &&& r.items@[0].kind@ == "folder"@
                &&& r.items@[0].url == root.path
                &&& r.items@[0].description@ == "同步目录"@
                &&& r.items@[0].icon@.len() == 0
                &&& r.pending@ == (if root.recursive {
                    seq![(root.path, 1usize)]
                } else {
                    Seq::empty()
                })
            },
    {
        let root_alias = normalize_alias(root.name.as_str());
        let mut description = string_from("来自");
        push_text(&mut description, root.name.as_str());
        let mut items: Vec<SyncedItem> = Vec::new();
        let mut pending: Vec<(String, usize)> = Vec::new();
        if root_is_dir {
            items.push(
                SyncedItem {
                    name: root.name.clone(),
                    alias: root_alias.clone(),
                    kind: string_from("folder"),
                    url: root.path.clone(),
                    description: string_from("同步目录"),
                    icon: String::new(),
                },
            );
            if root.recursive {
                pending.push((root.path.clone(), 1));
            }
        }
        let r = FolderScan {
            root_alias,
            description,
            hide_dot_entries,
            pending,
            next: 0,
            depth: 0,
            count: 0,
            items,
            listed: Ghost(Seq::empty()),
        };
        assert(root_is_dir && root.recursive ==> r.pending@ =~= seq![(root.path, 1usize)]);
        assert(!(root_is_dir && root.recursive) ==> r.pending@ =~= Seq::<(String, usize)>::empty());
        r
    }

    /// Hands out the next directory to list: pending directories deeper than
    /// the limit are passed over, and nothing more is listed once the root has
    /// recorded its maximum number of entries. Levels handed out never
    /// decrease: the scan is breadth first.
    pub fn next_dir(&mut self) -> (r: Option<String>)
        requires
            old(self).wf(),
        ensures
            final(self).wf(),
            ({
                let j = next_eligible(old(self).pending@, old(self).next as int, old(self).count);
                &&& j < old(self).pending@.len() ==> {
                    &&& r == Some(old(self).pending@[j].0)
                    &&& final(self).listed@ == old(self).listed@.push(j)
                    &&& final(self).next == j + 1
                    &&& final(self).depth == old(self).pending@[j].1
                    &&& 1 <= final(self).depth <= MAX_SYNC_DEPTH
                    &&& old(self).depth <= final(self).depth
                }
                &&& j >= old(self).pending@.len() ==> r is None && final(self).next == old(
                    self,
                ).pending@.len() && final(self).depth == old(self).depth && final(self).listed
                    == old(self).listed
            }),
            final(self).pending == old(self).pending,
            final(self).count == old(self).count,
            final(self).items == old(self).items,
            final(self).root_alias == old(self).root_alias,
            final(self).description == old(self).description,
            final(self).hide_dot_entries == old(self).hide_dot_entries,
    {
        while self.next < self.pending.len()
            invariant
                self.wf(),
                old(self).next <= self.next,
                self.pending == old(self).pending,
                self.count == old(self).count,
                self.items == old(self).items,
                self.depth == old(self).depth,
                self.listed == old(self).listed,
                self.root_alias == old(self).root_alias,
                self.description == old(self).description,
                self.hide_dot_entries == old(self).hide_dot_entries,
                next_eligible(old(self).pending@, old(self).next as int, old(self).count)
                    == next_eligible(self.pending@, self.next as int, self.count),
            decreases self.pending.len() - self.next,
        {
            let idx = self.next;
            let d = self.pending[idx].1;
            self.next = idx + 1;
            if d <= MAX_SYNC_DEPTH && self.count < MAX_SYNC_ITEMS_PER_ROOT {
                self.depth = d;
                self.listed = Ghost(self.listed@.push(idx as int));
                proof {
                    assert(self.listed@.contains(idx as int)) by {
                        assert(self.listed@[self.listed@.len() - 1] == idx as int);
                    }
                    assert forall|k: int|
                        0 <= k < self.next && (#[trigger] self.pending@[k]).1 <= MAX_SYNC_DEPTH implies self.count
                            == MAX_SYNC_ITEMS_PER_ROOT || self.listed@.contains(k) by {
                        if k < idx && self.count != MAX_SYNC_ITEMS_PER_ROOT {
                            assert(old(self).listed@.contains(k));
                            let t = choose|t: int| 0 <= t < old(self).listed@.len() && old(self).listed@[t] == k;
                            assert(self.listed@[t] == k);
                        }
                    }
                    assert forall|k: int| self.next <= k < self.pending@.len() implies self.depth <= (
                        #[trigger] self.pending@[k]).1 by {
                        assert(self.pending@[idx as int].1 <= self.pending@[k].1);
                    }
                }
                return Some(self.pending[idx].0.clone());
            }
        }
        None
    }

    /// Records the listing of the directory last handed out: entries in
    /// order, while the root has room, skipping nameless, skipped and (where
    /// hidden) dot entries; then queues the recorded directories one level
    /// deeper, sorted by lowercased name with ties in listing order.
    pub fn accept_listing(&mut self, entries: &Vec<ListedEntry>)
        requires
            old(self).wf(),
            1 <= old(self).depth <= MAX_SYNC_DEPTH,
        ensures
            final(self).wf(),
            ({
                let acc = accepted_entries(
                    entries@,
                    old(self).hide_dot_entries,
                    MAX_SYNC_ITEMS_PER_ROOT - old(self).count,
                );
                let dirs = dirs_of(acc);
                &&& final(self).count == old(self).count + acc.len()
                &&& final(self).items@.len() == old(self).items@.len() + acc.len()
                &&& forall|k: int| 0 <= k < old(self).items@.len() ==> #[trigger] final(self).items@[k] == old(self).items@[k]
                &&& forall|k: int| 0 <= k < acc.len() ==> is_entry_item(
                    #[trigger] final(self).items@[old(self).items@.len() + k],
                    acc[k],
                    old(self).root_alias,
                    old(self).description,
                )
                &&& final(self).pending@.len() == old(self).pending@.len() + dirs.len()
                &&& forall|k: int| 0 <= k < old(self).pending@.len() ==> #[trigger] final(self).pending@[k] == old(self).pending@[k]
                &&& exists|p: Seq<usize>|
                    #![trigger is_stable_order(dir_keys(dirs), p)]
                    is_stable_order(dir_keys(dirs), p) && forall|j: int|
                        0 <= j < dirs.len() ==> #[trigger] final(self).pending@[old(self).pending@.len() + j]
                            == (dirs[p[j] as int].path, (old(self).depth + 1) as usize)
                &&& exists|p: Seq<usize>|
                    #![trigger p.len()]
                    p.len() == dirs.len() && (forall|j: int|
                        0 <= j < dirs.len() ==> #[trigger] p[j] < dirs.len() && final(self).pending@[old(
                            self,
                        ).pending@.len() + j] == (dirs[p[j] as int].path, (old(self).depth + 1) as usize))
                        && (forall|j: int, k: int|
                        0 <= j < k < dirs.len() ==> !lex_lt(
                            str_lowercase(dirs[#[trigger] p[k] as int].name@).map_values(|c: char| c as u64),
                            str_lowercase(dirs[#[trigger] p[j] as int].name@).map_values(|c: char| c as u64),
                        ) && (str_lowercase(dirs[p[j] as int].name@) == str_lowercase(dirs[p[k] as int].name@)
                            ==> p[j] < p[k]))
            }),
            final(self).next == old(self).next,
            final(self).depth == old(self).depth,
            final(self).listed == old(self).listed,
            final(self).root_alias == old(self).root_alias,
            final(self).description == old(self).description,
            final(self).hide_dot_entries == old(self).hide_dot_entries,
    {
        let ghost hide = self.hide_dot_entries;
        let ghost room0 = MAX_SYNC_ITEMS_PER_ROOT - self.count;
        let ghost all = accepted_entries(entries@, hide, room0 as int);
        let ghost mut acc: Seq<ListedEntry> = Seq::empty();
        let ghost items0 = self.items@;
        let mut dirs: Vec<&ListedEntry> = Vec::new();
        let mut keys: Vec<Vec<u64>> = Vec::new();
        let n = entries.len();
        let mut i: usize = 0;
        assert(entries@.skip(0) =~= entries@);
        while i < n && self.count < MAX_SYNC_ITEMS_PER_ROOT
            invariant
                n == entries.len(),
                i <= n,
                self.wf_core(),
                forall|t: int|
                    1 <= t < items0.len() && (#[trigger] items0[t]).kind@ == "folder"@ ==> exists|k: int|
                        0 <= k < old(self).pending@.len() && (#[trigger] old(self).pending@[k]).0 == items0[t].url,
                hide == self.hide_dot_entries,
                self.hide_dot_entries == old(self).hide_dot_entries,
                self.root_alias == old(self).root_alias,
                self.description == old(self).description,
                self.pending == old(self).pending,
                self.next == old(self).next,
                self.depth == old(self).depth,
                self.listed == old(self).listed,
                items0 == old(self).items@,
                room0 == MAX_SYNC_ITEMS_PER_ROOT - old(self).count,
                all == accepted_entries(entries@, hide, room0 as int),
                all == acc + accepted_entries(entries@.skip(i as int), hide, room0 - acc.len()),
                self.count == old(self).count + acc.len(),
                self.items@.len() == items0.len() + acc.len(),
                forall|k: int| 0 <= k < items0.len() ==> #[trigger] self.items@[k] == items0[k],
                forall|k: int| 0 <= k < acc.len() ==> is_entry_item(
                    #[trigger] self.items@[items0.len() + k],
                    acc[k],
                    self.root_alias,
                    self.description,
                ),
                dirs@.map_values(|e: &ListedEntry| *e) == dirs_of(acc),
                key_views(keys@) == dir_keys(dirs_of(acc)),
            decreases n - i,
        {
            let e = &entries[i];
            let ghost rest = entries@.skip(i as int);
            assert(rest[0] == *e);
            assert(rest.drop_first() =~= entries@.skip(i + 1));
            let name = chars_of(e.name.as_str());
            let dot = self.hide_dot_entries && name.len() > 0 && name[0] == '.';
            if name.len() > 0 && !e.skipped && !dot {
                let ghost old_dirs = dirs@;
                let ghost old_keys = keys@;
                let ghost old_items = self.items@;
                let kind = if e.is_dir {
                    string_from("folder")
                } else {
                    string_from("file")
                };
                self.items.push(
                    SyncedItem {
                        name: e.name.clone(),
                        alias: self.root_alias.clone(),
                        kind,
                        url: e.path.clone(),
                        description: self.description.clone(),
                        icon: String::new(),
                    },
                );
                self.count = self.count + 1;
                proof {
                    assert(is_listable(*e, hide));
                    assert(all == acc.push(*e) + accepted_entries(
                        entries@.skip(i + 1),
                        hide,
                        room0 - (acc.len() + 1),
                    )) by {
                        assert(acc + (seq![*e] + accepted_entries(
                            entries@.skip(i + 1),
                            hide,
                            room0 - acc.len() - 1,
                        )) =~= acc.push(*e) + accepted_entries(
                            entries@.skip(i + 1),
                            hide,
                            room0 - (acc.len() + 1),
                        ));
                    }
                    assert(acc.push(*e).drop_last() =~= acc);
                    assert forall|k: int| 0 <= k < acc.len() + 1 implies is_entry_item(
                        #[trigger] self.items@[items0.len() + k],
                        acc.push(*e)[k],
                        self.root_alias,
                        self.description,
                    ) by {
                        if k < acc.len() {
                            assert(self.items@[items0.len() + k] == old_items[items0.len() + k]);
                        }
                    }
                    assert forall|k: int| 0 <= k < items0.len() implies #[trigger] self.items@[k] == items0[k] by {
                        assert(self.items@[k] == old_items[k]);
                    }
                }
                if e.is_dir {
                    dirs.push(e);
                    keys.push(name_sort_key(e.name.as_str()));
                    proof {
                        assert(dirs_of(acc.push(*e)) == dirs_of(acc).push(*e));
                        assert(dirs@.map_values(|e: &ListedEntry| *e) =~= old_dirs.map_values(
                            |e: &ListedEntry| *e,
                        ).push(*e));
                        assert(key_views(keys@) =~= key_views(old_keys).push(name_key(e.name@)));
                        assert(dir_keys(dirs_of(acc).push(*e)) =~= dir_keys(dirs_of(acc)).push(
                            name_key(e.name@),
                        ));
                    }
                } else {
                    proof {
                        assert(dirs_of(acc.push(*e)) == dirs_of(acc));
                    }
                }
                proof {
                    acc = acc.push(*e);
                }
            } else {
                proof {
                    if name@.len() > 0 && !e.skipped {
                        assert(name@[0] == e.name@[0]);
                    }
                    assert(!is_listable(*e, hide));
                }
            }
            i = i + 1;
        }
        proof {
            let rest = entries@.skip(i as int);
            if i < n {
                assert(room0 - acc.len() <= 0);
            } else {
                assert(rest.len() == 0);
            }
            assert(accepted_entries(rest, hide, room0 - acc.len()) =~= Seq::<ListedEntry>::empty());
            assert(all =~= acc);
        }
        let p = stable_order(&keys);
        let ghost pending0 = self.pending@;
        let ghost d = dirs_of(acc);
        let m = p.len();
        let mut j: usize = 0;
        while j < m
            invariant
                m == p.len(),
                m == dirs.len(),
                d == dirs_of(acc),
                dirs@.map_values(|e: &ListedEntry| *e) == d,
                is_stable_order(key_views(keys@), p@),
                key_views(keys@) == dir_keys(d),
                j <= m,
                self.wf_core(),
                forall|t: int|
                    1 <= t < items0.len() && (#[trigger] items0[t]).kind@ == "folder"@ ==> exists|k: int|
                        0 <= k < old(self).pending@.len() && (#[trigger] old(self).pending@[k]).0 == items0[t].url,
                self.depth == old(self).depth,
                self.next == old(self).next,
                self.listed == old(self).listed,
                self.hide_dot_entries == old(self).hide_dot_entries,
                self.root_alias == old(self).root_alias,
                self.description == old(self).description,
                pending0 == old(self).pending@,
                all == acc,
                all == accepted_entries(entries@, old(self).hide_dot_entries, MAX_SYNC_ITEMS_PER_ROOT - old(self).count),
                self.count == old(self).count + acc.len(),
                items0 == old(self).items@,
                self.items@.len() == items0.len() + acc.len(),
                forall|k: int| 0 <= k < items0.len() ==> #[trigger] self.items@[k] == items0[k],
                forall|k: int| 0 <= k < acc.len() ==> is_entry_item(
                    #[trigger] self.items@[items0.len() + k],
                    acc[k],
                    self.root_alias,
                    self.description,
                ),
                1 <= self.depth <= MAX_SYNC_DEPTH,
                self.pending@.len() == pending0.len() + j,
                forall|k: int| 0 <= k < pending0.len() ==> #[trigger] self.pending@[k] == pending0[k],
                forall|t: int| 0 <= t < j ==> #[trigger] self.pending@[pending0.len() + t] == (
                    d[p@[t] as int].path,
                    (self.depth + 1) as usize,
                ),
            decreases m - j,
        {
            let idx = p[j];
            assert(p@[j as int] < dirs@.len());
            let e = dirs[idx];
            assert(*e == d[idx as int]);
            let ghost before = self.pending@;
            self.pending.push((e.path.clone(), self.depth + 1));
            proof {
                assert forall|k: int| 0 <= k < pending0.len() implies #[trigger] self.pending@[k] == pending0[k] by {
                    assert(self.pending@[k] == before[k]);
                }
                assert forall|t: int| 0 <= t < j + 1 implies #[trigger] self.pending@[pending0.len() + t] == (
                    d[p@[t] as int].path,
                    (self.depth + 1) as usize,
                ) by {
                    if t < j {
                        assert(self.pending@[pending0.len() + t] == before[pending0.len() + t]);
                    }
                }
                assert forall|k: int| 0 <= k < self.pending@.len() implies 1 <= (#[trigger] self.pending@[k]).1 by {
                    if k < before.len() {
                        assert(self.pending@[k] == before[k]);
                    }
                }
                assert forall|a: int, b: int|
                    0 <= a < b < self.pending@.len() implies (#[trigger] self.pending@[a]).1 <= (
                    #[trigger] self.pending@[b]).1 by {
                    assert(self.pending@[a] == before[a]);
                    if b < before.len() {
                        assert(self.pending@[b] == before[b]);
                    }
                }
                assert forall|k: int| 0 <= k < self.pending@.len() implies (
                #[trigger] self.pending@[k]).1 <= self.depth + 1 by {
                    if k < before.len() {
                        assert(self.pending@[k] == before[k]);
                    }
                }
                assert forall|k: int| self.next <= k < self.pending@.len() implies self.depth <= (
                    #[trigger] self.pending@[k]).1 by {
                    if k < before.len() {
                        assert(self.pending@[k] == before[k]);
                    }
                }
            }
            j = j + 1;
        }
        proof {
            queued_directories_in_name_order(d, p@);
            assert(p@.len() == d.len());
            reveal_strlit("folder");
            reveal_strlit("file");
            assert forall|t: int|
                1 <= t < self.items@.len() && (#[trigger] self.items@[t]).kind@ == "folder"@ implies exists|k: int|
                    0 <= k < self.pending@.len() && (#[trigger] self.pending@[k]).0 == self.items@[t].url by {
                if t < items0.len() {
                    assert(self.items@[t] == items0[t]);
                    let k = choose|k: int| 0 <= k < old(self).pending@.len() && (#[trigger] old(self).pending@[k]).0 == items0[t].url;
                    assert(self.pending@[k] == pending0[k]);
                } else {
                    let a = t - items0.len();
                    assert(is_entry_item(self.items@[items0.len() + a], acc[a], self.root_alias, self.description));
                    assert("folder"@.len() == 6 && "file"@.len() == 4);
                    assert(acc[a].is_dir);
                    lemma_dirs_of_contains(acc, a);
                    let mi = choose|mi: int| 0 <= mi < d.len() && d[mi] == acc[a];
                    crate::order::stable_order_covers(key_views(keys@), p@, mi);
                    let u = choose|u: int| 0 <= u < p@.len() && #[trigger] p@[u] == mi;
                    assert(self.pending@[pending0.len() + u] == (d[p@[u] as int].path, (self.depth + 1) as usize));
                }
            }
        }
    }

    /// The entries recorded so far.
    pub fn into_items(self) -> (r: Vec<SyncedItem>)
        ensures
            r == self.items,
    {
        self.items
    }
}

/// The entries a scan keeps: they have a name, are not skipped (hidden,
/// system, reparse point), and, where dot entries are hidden, do not start
/// with a dot.
pub open spec fn kept_entry(hide_dot: bool) -> spec_fn(ListedEntry) -> bool {
    |e: ListedEntry| e.name@.len() > 0 && !e.skipped && !(hide_dot && e.name@[0] == '.')
}

/// A listing records, in listing order, the entries it keeps, as many as the
/// room left allows and no more.
pub proof fn listing_records_first_kept_entries(entries: Seq<ListedEntry>, hide_dot: bool, room: int)
    ensures
        ({
            let f = entries.filter(kept_entry(hide_dot));
            let n = if room < 0 {
                0
            } else if room < f.len() {
                room
            } else {
                f.len() as int
            };
            accepted_entries(entries, hide_dot, room) == f.take(n)
        }),
    decreases entries.len(),
{
    let pred = kept_entry(hide_dot);
    let f = entries.filter(pred);
    if entries.len() == 0 {
        assert(f.take(0) =~= Seq::<ListedEntry>::empty());
        return;
    }
    let e0 = entries[0];
    let rest = entries.drop_first();
    assert(entries =~= seq![e0] + rest);
    Seq::filter_distributes_over_add(seq![e0], rest, pred);
    assert(f == seq![e0].filter(pred) + rest.filter(pred));
    let fr = rest.filter(pred);
    let s1 = seq![e0];
    assert(s1.drop_last() =~= Seq::<ListedEntry>::empty());
    assert(s1.drop_last().filter(pred) =~= Seq::<ListedEntry>::empty());
    assert(s1.last() == e0);
    assert(Seq::<ListedEntry>::empty().push(e0) =~= s1);
    reveal_with_fuel(Seq::filter, 2);
    if pred(e0) {
        assert(s1.filter(pred) =~= s1);
    } else {
        assert(s1.filter(pred) =~= Seq::<ListedEntry>::empty());
    }
    assert(pred(e0) == is_listable(e0, hide_dot));
    if room <= 0 {
        assert(f.take(0) =~= Seq::<ListedEntry>::empty());
        return;
    }
    if is_listable(e0, hide_dot) {
        listing_records_first_kept_entries(rest, hide_dot, room - 1);
        assert(f == seq![e0] + fr);
        let n1 = if room - 1 < fr.len() { room - 1 } else { fr.len() as int };
        assert(seq![e0] + fr.take(n1) =~= f.take(n1 + 1));
    } else {
        listing_records_first_kept_entries(rest, hide_dot, room);
        assert(f =~= fr);
    }
}

/// Sub-directories wait in the queue in the order of their lowercased names
/// (compared character by character), and those whose lowercased names are
/// equal in the order they were listed.
pub proof fn queued_directories_in_name_order(dirs: Seq<ListedEntry>, p: Seq<usize>)
    requires
        is_stable_order(dir_keys(dirs), p),
    ensures
        forall|j: int, k: int|
            0 <= j < k < p.len() ==> !lex_lt(
                str_lowercase(dirs[#[trigger] p[k] as int].name@).map_values(|c: char| c as u64),
                str_lowercase(dirs[#[trigger] p[j] as int].name@).map_values(|c: char| c as u64),
            ) && (str_lowercase(dirs[p[j] as int].name@) == str_lowercase(dirs[p[k] as int].name@) ==> p[j]
                < p[k]),
{
    let keys = dir_keys(dirs);
    assert forall|j: int, k: int| 0 <= j < k < p.len() implies !lex_lt(
        str_lowercase(dirs[#[trigger] p[k] as int].name@).map_values(|c: char| c as u64),
        str_lowercase(dirs[#[trigger] p[j] as int].name@).map_values(|c: char| c as u64),
    ) && (str_lowercase(dirs[p[j] as int].name@) == str_lowercase(dirs[p[k] as int].name@) ==> p[j] < p[k]) by {
        let (a, b) = (p[j] as int, p[k] as int);
        assert(precedes(keys, a, b));
        assert(keys[a] == name_key(dirs[a].name@));
        assert(keys[b] == name_key(dirs[b].name@));
        crate::order::lemma_lex_irreflexive(keys[a]);
        if lex_lt(keys[b], keys[a]) && lex_lt(keys[a], keys[b]) {
            crate::order::lemma_lex_transitive(keys[a], keys[b], keys[a]);
        }
        if str_lowercase(dirs[a].name@) == str_lowercase(dirs[b].name@) {
            assert(keys[a] == keys[b]);
        }
    }
}

/// However large a folder is, its scan yields at most the per-root number
/// of entries besides the root itself.
pub proof fn scan_respects_limit(scan: FolderScan)
    requires
        scan.wf(),
    ensures
        scan.items@.len() <= MAX_SYNC_ITEMS_PER_ROOT + 1,
{
}

/// When a scan has no directory left to hand out, it has listed every queued
/// directory no deeper than the limit, unless the root recorded its maximum
/// number of entries; every directory it recorded below the root was queued,
/// so was listed too unless it lies deeper than the limit; and it listed each
/// queued directory at most once, in queue order, and none deeper than the
/// limit.
pub proof fn finished_scan_listed_every_directory(scan: FolderScan)
    requires
        scan.wf(),
        scan.next == scan.pending@.len(),
    ensures
        forall|i: int|
            1 <= i < scan.items@.len() && (#[trigger] scan.items@[i]).kind@ == "folder"@ ==> exists|k: int|
                0 <= k < scan.pending@.len() && (#[trigger] scan.pending@[k]).0 == scan.items@[i].url && (
                scan.pending@[k].1 > MAX_SYNC_DEPTH || scan.count == MAX_SYNC_ITEMS_PER_ROOT
                    || scan.listed@.contains(k)),
        forall|k: int|
            0 <= k < scan.pending@.len() && (#[trigger] scan.pending@[k]).1 <= MAX_SYNC_DEPTH ==> scan.count
                == MAX_SYNC_ITEMS_PER_ROOT || scan.listed@.contains(k),
        forall|s: int, t: int|
            0 <= s < t < scan.listed@.len() ==> #[trigger] scan.listed@[s] < #[trigger] scan.listed@[t],
        forall|t: int|
            0 <= t < scan.listed@.len() ==> scan.pending@[#[trigger] scan.listed@[t]].1 <= MAX_SYNC_DEPTH,
{
    assert forall|i: int|
        1 <= i < scan.items@.len() && (#[trigger] scan.items@[i]).kind@ == "folder"@ implies exists|k: int|
            0 <= k < scan.pending@.len() && (#[trigger] scan.pending@[k]).0 == scan.items@[i].url && (
            scan.pending@[k].1 > MAX_SYNC_DEPTH || scan.count == MAX_SYNC_ITEMS_PER_ROOT
                || scan.listed@.contains(k)) by {
        let k = choose|k: int| 0 <= k < scan.pending@.len() && (#[trigger] scan.pending@[k]).0 == scan.items@[i].url;
        assert(scan.pending@[k].1 <= MAX_SYNC_DEPTH ==> scan.count == MAX_SYNC_ITEMS_PER_ROOT || scan.listed@.contains(k));
    }
}

// ---------------------------------------------------------------------------
// Folder picker
// ---------------------------------------------------------------------------

/// The folder picker's listing of a directory: refused when the path is not
/// a readable directory, else its shown sub-directories sorted by name.
pub fn list_directory(path_is_dir: bool, cands: &Vec<DirCandidate>) -> (r: Result<
    Vec<DirEntry>,
    String,
>)
    ensures
        !path_is_dir ==> (r matches Err(m) && m@ == "目录不存在或不可访问"@),
        path_is_dir ==> (r matches Ok(l) && is_listing(cands@, l@)),
{
    if !path_is_dir {
        return Err(string_from("目录不存在或不可访问"));
    }
    Ok(order_directory(cands))
}

/// The root of drive number `i` counted from `C:` (`C:\`, `D:\`, ...).
pub open spec fn drive_path(i: int) -> Seq<char> {
    seq![((67 + i) as u8) as char, ':', '\\']
}

/// The roots of the drives `C:` to `Z:`, in order.
pub fn drive_paths() -> (r: Vec<String>)
    ensures
        r.len() == 24,
        forall|i: int| 0 <= i < 24 ==> (#[trigger] r@[i])@ == drive_path(i),
{
    let mut out: Vec<String> = Vec::new();
    let mut i: u8 = 0;
    while i < 24
        invariant
            i <= 24,
            out.len() == i,
            forall|k: int| 0 <= k < i ==> (#[trigger] out@[k])@ == drive_path(k),
        decreases 24 - i,
    {
        let letter = (67 + i) as char;
        let mut v: Vec<char> = Vec::new();
        v.push(letter);
        v.push(':');
        v.push('\\');
        let s = string_of(&v);
        assert(s@ =~= drive_path(i as int));
        out.push(s);
        i = i + 1;
    }
    out
}

/// The picker entry of an existing drive root: named by its path.
pub fn drive_entry(path: &str) -> (r: DirEntry)
    ensures
        r.name@ == path@,
        r.path@ == path@,
        r.is_dir,
{
    DirEntry { name: string_from(path), path: string_from(path), is_dir: true }
}

/// The single picker root where there are no drive letters: named `/`, at
/// the home directory (or `/` when it is unknown).
pub fn home_root_entry(home: Option<&str>) -> (r: DirEntry)
    ensures
        r.name@ == "/"@,
        r.is_dir,
        match home {
            Some(h) => r.path@ == h@,
            None => r.path@ == "/"@,
        },
{
    let path = match home {
        Some(h) => string_from(h),
        None => string_from("/"),
    };
    DirEntry { name: string_from("/"), path, is_dir: true }
}

/// A default synchronised folder: the first existing home sub-folder of
/// one of the standard kinds, under its Chinese label, scanned recursively.
pub struct StandardDir {
    pub label: String,
    /// Folder names tried under the home directory, in order.
    pub candidates: Vec<String>,
}

/// The standard folders offered on first run: desktop, documents, downloads
/// and pictures, each under its English or Chinese folder name.
pub fn standard_dirs() -> (r: Vec<StandardDir>)
    ensures
        r.len() == 4,
        r@[0].label@ == "桌面"@ && string_views(r@[0].candidates@) == seq!["Desktop"@, "桌面"@],
        r@[1].label@ == "文档"@ && string_views(r@[1].candidates@) == seq!["Documents"@, "文档"@],
        r@[2].label@ == "下载"@ && string_views(r@[2].candidates@) == seq!["Downloads"@, "下载"@],
        r@[3].label@ == "图片"@ && string_views(r@[3].candidates@) == seq!["Pictures"@, "图片"@],
{
    let mut r: Vec<StandardDir> = Vec::new();
    r.push(standard_dir("桌面", "Desktop"));
    r.push(standard_dir("文档", "Documents"));
    r.push(standard_dir("下载", "Downloads"));
    r.push(standard_dir("图片", "Pictures"));
    r
}

fn standard_dir(label: &str, english: &str) -> (r: StandardDir)
    ensures
        r.label@ == label@,
        string_views(r.candidates@) == seq![english@, label@],
{
    let mut candidates: Vec<String> = Vec::new();
    candidates.push(string_from(english));
    candidates.push(string_from(label));
    assert(string_views(candidates@) =~= seq![english@, label@]);
    StandardDir { label: string_from(label), candidates }
}

/// The synchronised folder made of a standard folder found at `path`.
pub fn default_folder_root(label: &str, path: &str) -> (r: FolderRoot)
    ensures
        r.path@ == path@,
        r.name@ == label@,
        r.recursive,
{
    FolderRoot { path: string_from(path), name: string_from(label), recursive: true }
}

} // verus!
