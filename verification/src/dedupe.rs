//! Duplicate detection: the identity key of an entry, the duplicate check on
//! saving, and the clean-up that keeps one entry per key.
use vstd::prelude::*;
use vstd::hash_map::StringHashMap;
use crate::item::Item;
use crate::text::{
    chars_of, lowercase_chars, push_char, push_chars, str_eq, str_lowercase, string_from,
    string_of, trim, trim_chars, trim_end_char, trim_end_char_exec, trim_str,
};

verus! {

// ---------------------------------------------------------------------------
// Identity keys
// ---------------------------------------------------------------------------

/// The identity of an entry: files and folders by type, name and path;
/// websites by their address without trailing slashes; applications by path
/// and arguments; all compared case-insensitively. Entries without the needed
/// fields, and other types, have no key.
pub open spec fn dedupe_key_spec(
    kind: Seq<char>,
    name: Seq<char>,
    url: Seq<char>,
    args: Seq<char>,
) -> Option<Seq<char>> {
    if kind == "folder"@ || kind == "file"@ {
        if trim(name).len() == 0 || trim(url).len() == 0 {
            None
        } else {
            Some(kind + "|"@ + str_lowercase(trim(name)) + "|"@ + str_lowercase(trim(url)))
        }
    } else if kind == "website"@ {
        let u = str_lowercase(trim_end_char(url, '/'));
        if u.len() == 0 {
            None
        } else {
            Some("website|"@ + u)
        }
    } else if kind == "application"@ {
        if trim(url).len() == 0 {
            None
        } else {
            Some("application|"@ + str_lowercase(trim(url)) + "|"@ + str_lowercase(trim(args)))
        }
    } else {
        None
    }
}

/// The identity key of an entry with the given type, name, address and
/// arguments.
pub fn item_dedupe_key(kind: &str, name: &str, url: &str, args: &str) -> (r: Option<String>)
    ensures
        match r {
            Some(k) => dedupe_key_spec(kind@, name@, url@, args@) == Some(k@),
            None => dedupe_key_spec(kind@, name@, url@, args@) is None,
        },
{
    if str_eq(kind, "folder") || str_eq(kind, "file") {
        let n = trim_str(name);
        let u = trim_str(url);
        if n.len() == 0 || u.len() == 0 {
            return None;
        }
        let mut key = string_from(kind);
        push_char(&mut key, '|');
        push_chars(&mut key, &lowercase_chars(&n));
        push_char(&mut key, '|');
        push_chars(&mut key, &lowercase_chars(&u));
        proof {
            reveal_strlit("|");
            assert(key@ =~= kind@ + "|"@ + str_lowercase(trim(name@)) + "|"@ + str_lowercase(
                trim(url@),
            ));
        }
        Some(key)
    } else if str_eq(kind, "website") {
        let v = chars_of(url);
        let stripped = trim_end_char_exec(&v, '/');
        let u = lowercase_chars(&stripped);
        if u.len() == 0 {
            return None;
        }
        let mut key = string_from("website|");
        push_chars(&mut key, &u);
        Some(key)
    } else if str_eq(kind, "application") {
        let u = trim_str(url);
        if u.len() == 0 {
            return None;
        }
        let a = trim_str(args);
        let mut key = string_from("application|");
        push_chars(&mut key, &lowercase_chars(&u));
        push_char(&mut key, '|');
        push_chars(&mut key, &lowercase_chars(&a));
        proof {
            reveal_strlit("|");
            assert(key@ =~= "application|"@ + str_lowercase(trim(url@)) + "|"@ + str_lowercase(
                trim(args@),
            ));
        }
        Some(key)
    } else {
        None
    }
}

/// A website's key does not depend on trailing slashes of its address, nor on
/// its name or arguments.
pub proof fn website_key_ignores_trailing_slash(
    name1: Seq<char>,
    name2: Seq<char>,
    url: Seq<char>,
    args1: Seq<char>,
    args2: Seq<char>,
)
    ensures
        dedupe_key_spec("website"@, name1, url.push('/'), args1) == dedupe_key_spec(
            "website"@,
            name2,
            url,
            args2,
        ),
{
    assert(url.push('/').drop_last() =~= url);
    reveal_strlit("website");
    reveal_strlit("folder");
    reveal_strlit("file");
}

/// An application's key does not depend on its name.
pub proof fn application_key_ignores_name(
    name1: Seq<char>,
    name2: Seq<char>,
    url: Seq<char>,
    args: Seq<char>,
)
    ensures
        dedupe_key_spec("application"@, name1, url, args) == dedupe_key_spec(
            "application"@,
            name2,
            url,
            args,
        ),
{
    reveal_strlit("application");
    reveal_strlit("folder");
    reveal_strlit("file");
    reveal_strlit("website");
}

/// A file and a folder never share a key.
pub proof fn file_and_folder_keys_differ(
    name1: Seq<char>,
    url1: Seq<char>,
    name2: Seq<char>,
    url2: Seq<char>,
    args: Seq<char>,
)
    ensures
        dedupe_key_spec("file"@, name1, url1, args) is None || dedupe_key_spec(
            "file"@,
            name1,
            url1,
            args,
        ) != dedupe_key_spec("folder"@, name2, url2, args),
{
    reveal_strlit("file");
    reveal_strlit("folder");
    reveal_strlit("website");
    reveal_strlit("application");
    let a = dedupe_key_spec("file"@, name1, url1, args);
    let b = dedupe_key_spec("folder"@, name2, url2, args);
    if a is Some && b is Some {
        assert(a->0[1] == 'i');
        assert(b->0[1] == 'o');
    }
}

// ---------------------------------------------------------------------------
// Duplicate check on saving
// ---------------------------------------------------------------------------

/// The identifying columns of a stored entry.
pub struct KeyRow {
    pub id: i64,
    pub name: String,
    pub kind: String,
    pub url: String,
    pub args: String,
}

/// The key of a stored row.
pub open spec fn row_key(r: KeyRow) -> Option<Seq<char>> {
    dedupe_key_spec(r.kind@, r.name@, r.url@, r.args@)
}

/// The first stored row, other than the entry itself, with the entry's key.
pub open spec fn first_duplicate(id: i64, key: Seq<char>, rows: Seq<KeyRow>) -> Option<i64>
    decreases rows.len(),
{
    if rows.len() == 0 {
        None
    } else if rows[0].id != id && row_key(rows[0]) == Some(key) {
        Some(rows[0].id)
    } else {
        first_duplicate(id, key, rows.drop_first())
    }
}

/// Saving finds a duplicate exactly when some stored row, other than the
/// entry itself, has the entry's key: the same rule the clean-up applies.
pub proof fn duplicate_found_iff_same_key(id: i64, key: Seq<char>, rows: Seq<KeyRow>)
    ensures
        first_duplicate(id, key, rows) is Some <==> exists|i: int|
            0 <= i < rows.len() && (#[trigger] rows[i]).id != id && row_key(rows[i]) == Some(key),
        first_duplicate(id, key, rows) matches Some(d) ==> exists|i: int|
            0 <= i < rows.len() && (#[trigger] rows[i]).id == d && d != id && row_key(rows[i]) == Some(key),
    decreases rows.len(),
{
    if rows.len() > 0 {
        let rest = rows.drop_first();
        duplicate_found_iff_same_key(id, key, rest);
        if exists|i: int| 0 <= i < rest.len() && (#[trigger] rest[i]).id != id && row_key(rest[i]) == Some(key) {
            let i = choose|i: int| 0 <= i < rest.len() && (#[trigger] rest[i]).id != id && row_key(rest[i]) == Some(key);
            assert(rows[i + 1] == rest[i]);
        }
        if exists|i: int| 0 <= i < rows.len() && (#[trigger] rows[i]).id != id && row_key(rows[i]) == Some(key) {
            let i = choose|i: int| 0 <= i < rows.len() && (#[trigger] rows[i]).id != id && row_key(rows[i]) == Some(key);
            if i > 0 {
                assert(rest[i - 1] == rows[i]);
            }
        }
        if let Some(d) = first_duplicate(id, key, rest) {
            let i = choose|i: int| 0 <= i < rest.len() && (#[trigger] rest[i]).id == d && d != id && row_key(rest[i]) == Some(key);
            assert(rows[i + 1] == rest[i]);
        }
    }
}

/// The id of a stored row that duplicates `item`: the first row, in the given
/// order, that is not `item` itself and has the same key. An entry without a
/// key has no duplicate.
pub fn find_duplicate_id(item: &Item, rows: &Vec<KeyRow>) -> (r: Option<i64>)
    ensures
        r == (match dedupe_key_spec(item.kind@, item.name@, item.url@, item.args@) {
            Some(k) => first_duplicate(item.id, k, rows@),
            None => None,
        }),
{
    let key = match item_dedupe_key(
        item.kind.as_str(),
        item.name.as_str(),
        item.url.as_str(),
        item.args.as_str(),
    ) {
        Some(k) => k,
        None => return None,
    };
    let n = rows.len();
    let mut i: usize = 0;
    assert(rows@.skip(0) =~= rows@);
    while i < n
        invariant
            n == rows.len(),
            i <= n,
            dedupe_key_spec(item.kind@, item.name@, item.url@, item.args@) == Some(key@),
            first_duplicate(item.id, key@, rows@) == first_duplicate(
                item.id,
                key@,
                rows@.skip(i as int),
            ),
        decreases n - i,
    {
        let row = &rows[i];
        assert(rows@.skip(i as int)[0] == rows@[i as int]);
        assert(rows@.skip(i as int).drop_first() =~= rows@.skip(i + 1));
        if row.id != item.id {
            if let Some(other) = item_dedupe_key(
                row.kind.as_str(),
                row.name.as_str(),
                row.url.as_str(),
                row.args.as_str(),
            ) {
                if str_eq(other.as_str(), key.as_str()) {
                    assert(row_key(rows@.skip(i as int)[0]) == Some(key@));
                    assert(rows@.skip(i as int)[0].id != item.id);
                    assert(rows@.skip(i as int).len() > 0);
                    assert(first_duplicate(item.id, key@, rows@.skip(i as int)) == Some(row.id));
                    return Some(row.id);
                }
            }
        }
        i = i + 1;
    }
    None
}

/// What saving an entry does.
pub enum SaveDecision {
    /// The entry has an id: its stored row is overwritten.
    Update,
    /// A new entry: it is inserted.
    Insert,
    /// A new entry that duplicates a stored one: it is refused.
    Reject(String),
}

/// The message given when a new entry duplicates a stored one.
pub open spec fn duplicate_message() -> Seq<char> {
    "该数据项已存在（相同路径/网址/名称），不能重复添加"@
}

/// Decides how to save `item`, given the stored duplicate found for it (looked
/// up only for new entries).
pub fn plan_save(item: &Item, duplicate: Option<i64>) -> (r: SaveDecision)
    ensures
        item.id > 0 ==> r is Update,
        item.id <= 0 && duplicate is Some ==> (r matches SaveDecision::Reject(m) && m@
            == duplicate_message()),
        item.id <= 0 && duplicate is None ==> r is Insert,
{
    if item.id > 0 {
        SaveDecision::Update
    } else if duplicate.is_some() {
        SaveDecision::Reject(string_from("该数据项已存在（相同路径/网址/名称），不能重复添加"))
    } else {
        SaveDecision::Insert
    }
}

/// The stored `enabled` flag of an entry.
pub fn enabled_flag(item: &Item) -> (r: i64)
    ensures
        r == (if item.enabled {
            1i64
        } else {
            0i64
        }),
{
    if item.enabled {
        1
    } else {
        0
    }
}

/// A newly inserted entry with the id the store gave it.
pub fn with_id(item: Item, id: i64) -> (r: Item)
    ensures
        r == (Item { id, ..item }),
{
    let mut saved = item;
    saved.id = id;
    saved
}

// ---------------------------------------------------------------------------
// Clean-up
// ---------------------------------------------------------------------------

/// The columns the clean-up reads from a stored entry.
pub struct DedupeRow {
    pub id: i64,
    pub name: String,
    pub kind: String,
    pub url: String,
    pub args: String,
    pub alias: String,
    pub description: String,
    pub icon: String,
}

/// The key of a clean-up row.
pub open spec fn dedupe_row_key(r: DedupeRow) -> Option<Seq<char>> {
    dedupe_key_spec(r.kind@, r.name@, r.url@, r.args@)
}

/// How complete an entry is: how many of alias, description and icon are not
/// blank.
pub open spec fn richness_spec(r: DedupeRow) -> usize {
    ((if trim(r.alias@).len() > 0 { 1int } else { 0 }) + (if trim(r.description@).len() > 0 {
        1int
    } else {
        0
    }) + (if trim(r.icon@).len() > 0 {
        1int
    } else {
        0
    })) as usize
}

/// The clean-up state: for each key, the completeness and id of the entry kept
/// so far; and the ids to delete, in the order they were decided.
pub type DedupeState = (Map<Seq<char>, (usize, i64)>, Seq<i64>);

/// One clean-up step: a row without key is left alone; a row whose key is new
/// is kept; otherwise the less complete of the row and the kept entry is
/// deleted, the row when they are equally complete, so that the earliest of
/// equally complete entries stays.
pub open spec fn dedupe_step(st: DedupeState, row: DedupeRow) -> DedupeState {
    match dedupe_row_key(row) {
        None => st,
        Some(k) => {
            let rich = richness_spec(row);
            if st.0.contains_key(k) {
                if rich <= st.0[k].0 {
                    (st.0, st.1.push(row.id))
                } else {
                    (st.0.insert(k, (rich, row.id)), st.1.push(st.0[k].1))
                }
            } else {
                (st.0.insert(k, (rich, row.id)), st.1)
            }
        },
    }
}

/// The clean-up state after the rows, taken in order.
pub open spec fn dedupe_fold(rows: Seq<DedupeRow>) -> DedupeState
    decreases rows.len(),
{
    if rows.len() == 0 {
        (Map::empty(), Seq::empty())
    } else {
        dedupe_step(dedupe_fold(rows.drop_last()), rows.last())
    }
}

/// The ids the clean-up deletes.
pub open spec fn dedupe_deletions(rows: Seq<DedupeRow>) -> Seq<i64> {
    dedupe_fold(rows).1
}

/// How complete an entry is.
pub fn richness(row: &DedupeRow) -> (r: usize)
    ensures
        r == richness_spec(*row),
{
    let a: usize = if trim_str(row.alias.as_str()).len() > 0 {
        1
    } else {
        0
    };
    let d: usize = if trim_str(row.description.as_str()).len() > 0 {
        1
    } else {
        0
    };
    let i: usize = if trim_str(row.icon.as_str()).len() > 0 {
        1
    } else {
        0
    };
    a + d + i
}

/// The ids of the entries to delete so that one entry per key remains, the
/// most complete one (the earliest among equally complete ones). Rows are taken
/// in the given order (by id in the store).
pub fn plan_dedupe(rows: &Vec<DedupeRow>) -> (r: Vec<i64>)
    ensures
        r@ == dedupe_deletions(rows@),
{
    let mut best: StringHashMap<(usize, i64)> = StringHashMap::new();
    let mut to_delete: Vec<i64> = Vec::new();
    let n = rows.len();
    let mut i: usize = 0;
    assert(rows@.take(0) =~= Seq::<DedupeRow>::empty());
    while i < n
        invariant
            n == rows.len(),
            i <= n,
            (best@, to_delete@) == dedupe_fold(rows@.take(i as int)),
        decreases n - i,
    {
        let row = &rows[i];
        assert(rows@.take(i + 1).drop_last() =~= rows@.take(i as int));
        assert(rows@.take(i + 1).last() == rows@[i as int]);
        if let Some(key) = item_dedupe_key(
            row.kind.as_str(),
            row.name.as_str(),
            row.url.as_str(),
            row.args.as_str(),
        ) {
            let rich = richness(row);
            match best.get(key.as_str()) {
                Some(entry) => {
                    let (best_rich, best_id) = *entry;
                    if rich <= best_rich {
                        to_delete.push(row.id);
                    } else {
                        to_delete.push(best_id);
                        best.insert(key, (rich, row.id));
                    }
                },
                None => {
                    best.insert(key, (rich, row.id));
                },
            }
        }
        i = i + 1;
    }
    assert(rows@.take(n as int) =~= rows@);
    to_delete
}

// ---------------------------------------------------------------------------
// Laws of the clean-up
// ---------------------------------------------------------------------------

/// Stored rows have distinct ids.
pub open spec fn ids_distinct(rows: Seq<DedupeRow>) -> bool {
    forall|i: int, j: int| 0 <= i < rows.len() && 0 <= j < rows.len() && i != j ==> #[trigger] rows[i].id != #[trigger] rows[j].id
}

/// `id` belongs to a row with a key.
spec fn is_keyed_row_id(rows: Seq<DedupeRow>, id: i64) -> bool {
    exists|j: int| 0 <= j < rows.len() && (#[trigger] dedupe_row_key(rows[j])) is Some && rows[j].id == id
}

/// The kept entry `e` of key `k` is a row with that key and completeness.
spec fn is_kept_row(rows: Seq<DedupeRow>, k: Seq<char>, e: (usize, i64)) -> bool {
    exists|j: int| 0 <= j < rows.len() && dedupe_row_key(#[trigger] rows[j]) == Some(k)
        && rows[j].id == e.1 && richness_spec(rows[j]) == e.0
}

/// What holds of the clean-up state after a prefix of the rows.
spec fn dedupe_inv(rows: Seq<DedupeRow>, st: DedupeState) -> bool {
    &&& forall|k: Seq<char>| #[trigger] st.0.contains_key(k) ==> is_kept_row(rows, k, st.0[k])
    &&& forall|k: Seq<char>| #[trigger] st.0.contains_key(k) ==> !st.1.contains(st.0[k].1)
    &&& forall|j: int| 0 <= j < rows.len() && (#[trigger] dedupe_row_key(rows[j])) is Some ==> {
        let k = dedupe_row_key(rows[j])->0;
        &&& st.0.contains_key(k)
        &&& st.1.contains(rows[j].id) || rows[j].id == st.0[k].1
        &&& richness_spec(rows[j]) <= st.0[k].0
    }
    &&& forall|t: int| 0 <= t < st.1.len() ==> is_keyed_row_id(rows, #[trigger] st.1[t])
}

/// The facts every step lemma starts from.
spec fn step_pre(pre: Seq<DedupeRow>, x: DedupeRow, st: DedupeState) -> bool {
    &&& dedupe_inv(pre, st)
    &&& forall|j: int| 0 <= j < pre.len() ==> #[trigger] pre[j].id != x.id
}

proof fn lemma_step_facts(pre: Seq<DedupeRow>, x: DedupeRow, st: DedupeState)
    requires
        step_pre(pre, x, st),
    ensures
        !st.1.contains(x.id),
        forall|k: Seq<char>| #[trigger] st.0.contains_key(k) ==> st.0[k].1 != x.id,
{
    let m = st.0;
    let del = st.1;
    if del.contains(x.id) {
        let t = choose|t: int| 0 <= t < del.len() && del[t] == x.id;
        let j = choose|j: int| 0 <= j < pre.len() && (#[trigger] dedupe_row_key(pre[j])) is Some && pre[j].id == #[trigger] del[t];
        assert(pre[j].id != x.id);
    }
    assert forall|k: Seq<char>| #[trigger] m.contains_key(k) implies m[k].1 != x.id by {
        let j = choose|j: int| 0 <= j < pre.len() && dedupe_row_key(#[trigger] pre[j]) == Some(k) && pre[j].id == m[k].1 && richness_spec(pre[j]) == m[k].0;
        assert(pre[j].id != x.id);
    }
}

#[verifier::spinoff_prover]
proof fn lemma_step_unkeyed(pre: Seq<DedupeRow>, x: DedupeRow, st: DedupeState)
    requires
        step_pre(pre, x, st),
        dedupe_row_key(x) is None,
    ensures
        dedupe_inv(pre.push(x), (st.0, st.1)),
{
    let rows = pre.push(x);
    let m = st.0;
    let del = st.1;
    assert forall|j: int| 0 <= j < pre.len() implies #[trigger] rows[j] == pre[j] by {}
    assert forall|k: Seq<char>| #[trigger] m.contains_key(k) implies !del.contains(m[k].1) by {}
    assert forall|k: Seq<char>| #[trigger] m.contains_key(k) implies is_kept_row(rows, k, m[k]) by {
        let j = choose|j: int| 0 <= j < pre.len() && dedupe_row_key(#[trigger] pre[j]) == Some(k) && pre[j].id == m[k].1 && richness_spec(pre[j]) == m[k].0;
        assert(rows[j] == pre[j]);
    }
    assert forall|j: int| 0 <= j < rows.len() && (#[trigger] dedupe_row_key(rows[j])) is Some implies {
        let k = dedupe_row_key(rows[j])->0;
        &&& m.contains_key(k)
        &&& del.contains(rows[j].id) || rows[j].id == m[k].1
        &&& richness_spec(rows[j]) <= m[k].0
    } by {
        if j == pre.len() {
            assert(rows[j] == x);
        } else {
            assert(rows[j] == pre[j]);
            assert(dedupe_row_key(pre[j]) is Some);
        }
    }
    assert forall|t: int| 0 <= t < del.len() implies is_keyed_row_id(rows, #[trigger] del[t]) by {
        let j = choose|j: int| 0 <= j < pre.len() && (#[trigger] dedupe_row_key(pre[j])) is Some && pre[j].id == del[t];
        assert(rows[j] == pre[j]);
        assert(dedupe_row_key(rows[j]) is Some);
    }

}

#[verifier::spinoff_prover]
proof fn lemma_step_new_key(pre: Seq<DedupeRow>, x: DedupeRow, st: DedupeState, kx: Seq<char>)
    requires
        step_pre(pre, x, st),
        dedupe_row_key(x) == Some(kx),
        !st.0.contains_key(kx),
    ensures
        dedupe_inv(pre.push(x), (st.0.insert(kx, (richness_spec(x), x.id)), st.1)),
{
    lemma_step_facts(pre, x, st);
    let rows = pre.push(x);
    let n = pre.len() as int;
    let m = st.0;
    let del = st.1;
    let m2 = m.insert(kx, (richness_spec(x), x.id));
    assert forall|j: int| 0 <= j < pre.len() implies #[trigger] rows[j] == pre[j] by {}
    assert(rows[n] == x);
    assert forall|k: Seq<char>| #[trigger] m2.contains_key(k) implies !del.contains(m2[k].1) by {
        if k != kx {
            assert(m2[k] == m[k]);
        }
    }
    assert forall|k: Seq<char>| #[trigger] m2.contains_key(k) implies is_kept_row(rows, k, m2[k]) by {
        if k == kx {
            assert(dedupe_row_key(rows[n]) == Some(k));
        } else {
            let j = choose|j: int| 0 <= j < pre.len() && dedupe_row_key(#[trigger] pre[j]) == Some(k) && pre[j].id == m[k].1 && richness_spec(pre[j]) == m[k].0;
            assert(rows[j] == pre[j]);
        }
    }
    assert forall|j: int| 0 <= j < rows.len() && (#[trigger] dedupe_row_key(rows[j])) is Some implies {
        let k = dedupe_row_key(rows[j])->0;
        &&& m2.contains_key(k)
        &&& del.contains(rows[j].id) || rows[j].id == m2[k].1
        &&& richness_spec(rows[j]) <= m2[k].0
    } by {
        if j < n {
            assert(rows[j] == pre[j]);
            let k = dedupe_row_key(rows[j])->0;
            assert(m.contains_key(k));
        }
    }
    assert forall|t: int| 0 <= t < del.len() implies is_keyed_row_id(rows, #[trigger] del[t]) by {
        let j = choose|j: int| 0 <= j < pre.len() && (#[trigger] dedupe_row_key(pre[j])) is Some && pre[j].id == del[t];
        assert(rows[j] == pre[j]);
    }
}

#[verifier::spinoff_prover]
proof fn lemma_step_drop_new(pre: Seq<DedupeRow>, x: DedupeRow, st: DedupeState, kx: Seq<char>)
    requires
        step_pre(pre, x, st),
        dedupe_row_key(x) == Some(kx),
        st.0.contains_key(kx),
        richness_spec(x) <= st.0[kx].0,
    ensures
        dedupe_inv(pre.push(x), (st.0, st.1.push(x.id))),
{
    lemma_step_facts(pre, x, st);
    let rows = pre.push(x);
    let n = pre.len() as int;
    let m = st.0;
    let del = st.1;
    let del2 = del.push(x.id);
    assert forall|j: int| 0 <= j < pre.len() implies #[trigger] rows[j] == pre[j] by {}
    assert(rows[n] == x);
    assert forall|k: Seq<char>| #[trigger] m.contains_key(k) implies !del2.contains(m[k].1) by {
        if del2.contains(m[k].1) {
            let t = choose|t: int| 0 <= t < del2.len() && del2[t] == m[k].1;
            if t < del.len() {
                assert(del2[t] == del[t]);
            }
        }
    }
    assert forall|k: Seq<char>| #[trigger] m.contains_key(k) implies is_kept_row(rows, k, m[k]) by {
        let j = choose|j: int| 0 <= j < pre.len() && dedupe_row_key(#[trigger] pre[j]) == Some(k) && pre[j].id == m[k].1 && richness_spec(pre[j]) == m[k].0;
        assert(rows[j] == pre[j]);
    }
    assert forall|j: int| 0 <= j < rows.len() && (#[trigger] dedupe_row_key(rows[j])) is Some implies {
        let k = dedupe_row_key(rows[j])->0;
        &&& m.contains_key(k)
        &&& del2.contains(rows[j].id) || rows[j].id == m[k].1
        &&& richness_spec(rows[j]) <= m[k].0
    } by {
        if j == n {
            assert(del2[del.len() as int] == x.id);
        } else {
            assert(rows[j] == pre[j]);
            if del.contains(rows[j].id) {
                let t = choose|t: int| 0 <= t < del.len() && del[t] == rows[j].id;
                assert(del2[t] == del[t]);
            }
        }
    }
    assert forall|t: int| 0 <= t < del2.len() implies is_keyed_row_id(rows, #[trigger] del2[t]) by {
        if t == del.len() {
            assert(dedupe_row_key(rows[n]) is Some);
        } else {
            assert(del2[t] == del[t]);
            let j = choose|j: int| 0 <= j < pre.len() && (#[trigger] dedupe_row_key(pre[j])) is Some && pre[j].id == del[t];
            assert(rows[j] == pre[j]);
        }
    }
}

#[verifier::spinoff_prover]
proof fn lemma_step_replace(
    pre: Seq<DedupeRow>,
    x: DedupeRow,
    st: DedupeState,
    kx: Seq<char>,
    jb: int,
)
    requires
        step_pre(pre, x, st),
        dedupe_row_key(x) == Some(kx),
        st.0.contains_key(kx),
        richness_spec(x) > st.0[kx].0,
        ids_distinct(pre),
        0 <= jb < pre.len(),
        dedupe_row_key(pre[jb]) == Some(kx),
        pre[jb].id == st.0[kx].1,
    ensures
        dedupe_inv(
            pre.push(x),
            (st.0.insert(kx, (richness_spec(x), x.id)), st.1.push(st.0[kx].1)),
        ),
{
    lemma_step_facts(pre, x, st);
    let rows = pre.push(x);
    let n = pre.len() as int;
    let m = st.0;
    let del = st.1;
    let bid = m[kx].1;
    let m2 = m.insert(kx, (richness_spec(x), x.id));
    let del2 = del.push(bid);
    assert forall|j: int| 0 <= j < pre.len() implies #[trigger] rows[j] == pre[j] by {}
    assert(rows[n] == x);
    assert(x.id != bid);
    assert forall|k: Seq<char>| #[trigger] m2.contains_key(k) implies !del2.contains(m2[k].1) by {
        if k == kx {
            if del2.contains(x.id) {
                let t = choose|t: int| 0 <= t < del2.len() && del2[t] == x.id;
                if t < del.len() {
                    assert(del2[t] == del[t]);
                }
            }
        } else {
            assert(m2[k] == m[k]);
            let j = choose|j: int| 0 <= j < pre.len() && dedupe_row_key(#[trigger] pre[j]) == Some(k) && pre[j].id == m[k].1 && richness_spec(pre[j]) == m[k].0;
            assert(j != jb);
            assert(pre[j].id != pre[jb].id);
            if del2.contains(m2[k].1) {
                let t = choose|t: int| 0 <= t < del2.len() && del2[t] == m2[k].1;
                if t < del.len() {
                    assert(del2[t] == del[t]);
                }
            }
        }
    }
    assert forall|k: Seq<char>| #[trigger] m2.contains_key(k) implies is_kept_row(rows, k, m2[k]) by {
        if k == kx {
            assert(dedupe_row_key(rows[n]) == Some(k));
        } else {
            let j = choose|j: int| 0 <= j < pre.len() && dedupe_row_key(#[trigger] pre[j]) == Some(k) && pre[j].id == m[k].1 && richness_spec(pre[j]) == m[k].0;
            assert(rows[j] == pre[j]);
        }
    }
    assert forall|j: int| 0 <= j < rows.len() && (#[trigger] dedupe_row_key(rows[j])) is Some implies {
        let k = dedupe_row_key(rows[j])->0;
        &&& m2.contains_key(k)
        &&& del2.contains(rows[j].id) || rows[j].id == m2[k].1
        &&& richness_spec(rows[j]) <= m2[k].0
    } by {
        if j < n {
            assert(rows[j] == pre[j]);
            let k = dedupe_row_key(rows[j])->0;
            if del.contains(rows[j].id) {
                let t = choose|t: int| 0 <= t < del.len() && del[t] == rows[j].id;
                assert(del2[t] == del[t]);
            } else if k == kx {
                assert(rows[j].id == bid);
                assert(del2[del.len() as int] == bid);
            }
        }
    }
    assert forall|t: int| 0 <= t < del2.len() implies is_keyed_row_id(rows, #[trigger] del2[t]) by {
        if t == del.len() {
            assert(rows[jb] == pre[jb]);
            assert(dedupe_row_key(rows[jb]) is Some);
        } else {
            assert(del2[t] == del[t]);
            let j = choose|j: int| 0 <= j < pre.len() && (#[trigger] dedupe_row_key(pre[j])) is Some && pre[j].id == del[t];
            assert(rows[j] == pre[j]);
        }
    }
}

proof fn lemma_dedupe_inv(rows: Seq<DedupeRow>)
    requires
        ids_distinct(rows),
    ensures
        dedupe_inv(rows, dedupe_fold(rows)),
    decreases rows.len(),
{
    if rows.len() == 0 {
        return;
    }
    let pre = rows.drop_last();
    let x = rows.last();
    assert(rows =~= pre.push(x));
    assert(ids_distinct(pre)) by {
        assert forall|i: int, j: int| 0 <= i < pre.len() && 0 <= j < pre.len() && i != j implies #[trigger] pre[i].id != #[trigger] pre[j].id by {
            assert(pre[i] == rows[i] && pre[j] == rows[j]);
        }
    }
    lemma_dedupe_inv(pre);
    let st = dedupe_fold(pre);
    assert forall|j: int| 0 <= j < pre.len() implies #[trigger] pre[j].id != x.id by {
        assert(pre[j] == rows[j]);
        assert(rows[rows.len() - 1] == x);
    }
    assert(step_pre(pre, x, st));
    match dedupe_row_key(x) {
        None => {
            lemma_step_unkeyed(pre, x, st);
            assert(st == (st.0, st.1));
        },
        Some(kx) => {
            if st.0.contains_key(kx) {
                if richness_spec(x) <= st.0[kx].0 {
                    lemma_step_drop_new(pre, x, st, kx);
                } else {
                    let jb = choose|j: int| 0 <= j < pre.len() && dedupe_row_key(#[trigger] pre[j]) == Some(kx) && pre[j].id == st.0[kx].1 && richness_spec(pre[j]) == st.0[kx].0;
                    lemma_step_replace(pre, x, st, kx, jb);
                }
            } else {
                lemma_step_new_key(pre, x, st, kx);
            }
        },
    }
}

/// After the clean-up, no two remaining rows share a key: of any two rows with
/// the same key, at least one is deleted.
pub proof fn dedupe_leaves_no_duplicates(rows: Seq<DedupeRow>)
    ensures
        forall|i: int, j: int|
            0 <= i < rows.len() && 0 <= j < rows.len() && i != j && (#[trigger] dedupe_row_key(rows[i])) is Some
                && dedupe_row_key(rows[i]) == #[trigger] dedupe_row_key(rows[j]) ==> dedupe_deletions(rows).contains(rows[i].id)
                || dedupe_deletions(rows).contains(rows[j].id),
{
    lemma_cover(rows);
}

/// Rows without a key are never deleted, and only ids of stored rows are.
pub proof fn dedupe_deletes_only_keyed_rows(rows: Seq<DedupeRow>)
    requires
        ids_distinct(rows),
    ensures
        forall|i: int| 0 <= i < rows.len() && (#[trigger] dedupe_row_key(rows[i])) is None ==> !dedupe_deletions(rows).contains(rows[i].id),
        forall|t: int| 0 <= t < dedupe_deletions(rows).len() ==> exists|j: int| 0 <= j < rows.len() && #[trigger] rows[j].id == #[trigger] dedupe_deletions(rows)[t],
{
    lemma_dedupe_inv(rows);
    let del = dedupe_deletions(rows);
    assert forall|i: int| 0 <= i < rows.len() && (#[trigger] dedupe_row_key(rows[i])) is None implies !del.contains(rows[i].id) by {
        if del.contains(rows[i].id) {
            let t = choose|t: int| 0 <= t < del.len() && del[t] == rows[i].id;
            let j = choose|j: int| 0 <= j < rows.len() && (#[trigger] dedupe_row_key(rows[j])) is Some && rows[j].id == del[t];
            assert(i != j);
        }
    }
    assert forall|t: int| 0 <= t < del.len() implies exists|j: int| 0 <= j < rows.len() && #[trigger] rows[j].id == #[trigger] del[t] by {
        let j = choose|j: int| 0 <= j < rows.len() && (#[trigger] dedupe_row_key(rows[j])) is Some && rows[j].id == del[t];
    }
}


/// Deletes no id twice: the deleted ids are distinct.
pub proof fn dedupe_deletes_each_id_once(rows: Seq<DedupeRow>)
    requires
        ids_distinct(rows),
    ensures
        forall|s: int, t: int|
            0 <= s < t < dedupe_deletions(rows).len() ==> #[trigger] dedupe_deletions(rows)[s]
                != #[trigger] dedupe_deletions(rows)[t],
    decreases rows.len(),
{
    if rows.len() == 0 {
        return;
    }
    let pre = rows.drop_last();
    let x = rows.last();
    assert(ids_distinct(pre)) by {
        assert forall|i: int, j: int| 0 <= i < pre.len() && 0 <= j < pre.len() && i != j implies #[trigger] pre[i].id != #[trigger] pre[j].id by {
            assert(pre[i] == rows[i] && pre[j] == rows[j]);
        }
    }
    dedupe_deletes_each_id_once(pre);
    lemma_dedupe_inv(pre);
    let st = dedupe_fold(pre);
    assert forall|j: int| 0 <= j < pre.len() implies #[trigger] pre[j].id != x.id by {
        assert(pre[j] == rows[j]);
    }
    lemma_step_facts(pre, x, st);
    let del = dedupe_deletions(rows);
    assert(dedupe_fold(rows) == dedupe_step(st, x));
    if del.len() > st.1.len() {
        let e = del[del.len() - 1];
        assert(del == st.1.push(e));
        assert(!st.1.contains(e)) by {
            let kx = dedupe_row_key(x)->0;
            if e != x.id {
                assert(st.0.contains_key(kx) && e == st.0[kx].1);
            }
        }
        assert forall|s: int, t: int| 0 <= s < t < del.len() implies #[trigger] del[s] != #[trigger] del[t] by {
            let pd = dedupe_deletions(pre);
            assert(pd == st.1);
            if t == del.len() - 1 {
                assert(del[s] == pd[s]);
            } else {
                assert(del[s] == pd[s] && del[t] == pd[t]);
                assert(pd[s] != pd[t]);
            }
        }
    } else {
        assert(del == st.1);
        assert(st.1 == dedupe_deletions(pre));
    }
}

/// Among the rows of one key, the kept entry comes no later than any row
/// that is as complete as it.
spec fn ties_kept_early(rows: Seq<DedupeRow>, st: DedupeState) -> bool {
    forall|j: int, l: int|
        #![trigger rows[j], rows[l]]
        0 <= j < rows.len() && 0 <= l < rows.len() && dedupe_row_key(rows[j]) is Some
            && dedupe_row_key(rows[l]) == dedupe_row_key(rows[j]) && rows[j].id == st.0[dedupe_row_key(
            rows[j],
        )->0].1 && richness_spec(rows[l]) == st.0[dedupe_row_key(rows[j])->0].0 ==> j <= l
}

proof fn lemma_ties(rows: Seq<DedupeRow>)
    requires
        ids_distinct(rows),
    ensures
        ties_kept_early(rows, dedupe_fold(rows)),
    decreases rows.len(),
{
    if rows.len() == 0 {
        return;
    }
    let n = rows.len();
    let pre = rows.drop_last();
    let x = rows.last();
    assert(ids_distinct(pre)) by {
        assert forall|i: int, j: int| 0 <= i < pre.len() && 0 <= j < pre.len() && i != j implies #[trigger] pre[i].id != #[trigger] pre[j].id by {
            assert(pre[i] == rows[i] && pre[j] == rows[j]);
        }
    }
    lemma_ties(pre);
    lemma_dedupe_inv(pre);
    let st = dedupe_fold(pre);
    assert forall|j: int| 0 <= j < pre.len() implies #[trigger] pre[j].id != x.id by {
        assert(pre[j] == rows[j]);
    }
    lemma_step_facts(pre, x, st);
    let st2 = dedupe_fold(rows);
    assert(st2 == dedupe_step(st, x));
    assert forall|j: int, l: int|
        #![trigger rows[j], rows[l]]
        0 <= j < rows.len() && 0 <= l < rows.len() && dedupe_row_key(rows[j]) is Some
            && dedupe_row_key(rows[l]) == dedupe_row_key(rows[j]) && rows[j].id == st2.0[dedupe_row_key(
            rows[j],
        )->0].1 && richness_spec(rows[l]) == st2.0[dedupe_row_key(rows[j])->0].0 implies j <= l by {
        let k = dedupe_row_key(rows[j])->0;
        if l < n - 1 {
            assert(rows[l] == pre[l]);
            assert(st.0.contains_key(k));
            if j == n - 1 {
                assert(rows[j] == x);
                if richness_spec(x) <= st.0[k].0 {
                    assert(st2.0 == st.0);
                } else {
                    assert(richness_spec(pre[l]) <= st.0[k].0);
                }
            } else {
                assert(rows[j] == pre[j]);
                if dedupe_row_key(x) == Some(k) {
                    if richness_spec(x) <= st.0[k].0 {
                        assert(st2.0 == st.0);
                    } else {
                        assert(rows[j].id != x.id);
                    }
                } else {
                    assert(st2.0[k] == st.0[k]);
                }
                assert(pre[j] == rows[j] && pre[l] == rows[l]);
            }
        }
    }
}

/// The entry kept for a key is the most complete one and, among equally
/// complete ones, the earliest.
pub proof fn dedupe_keeps_the_earliest_richest(rows: Seq<DedupeRow>, i: int)
    requires
        ids_distinct(rows),
        0 <= i < rows.len(),
        dedupe_row_key(rows[i]) is Some,
    ensures
        exists|j: int|
            0 <= j < rows.len() && #[trigger] dedupe_row_key(rows[j]) == dedupe_row_key(rows[i])
                && !dedupe_deletions(rows).contains(rows[j].id) && forall|l: int|
                0 <= l < rows.len() && dedupe_row_key(rows[l]) == dedupe_row_key(rows[i]) ==> richness_spec(
                    #[trigger] rows[l],
                ) < richness_spec(rows[j]) || (richness_spec(rows[l]) == richness_spec(rows[j]) && j
                    <= l),
{
    lemma_dedupe_inv(rows);
    lemma_ties(rows);
    let st = dedupe_fold(rows);
    let k = dedupe_row_key(rows[i])->0;
    assert(st.0.contains_key(k));
    let j = choose|j: int| 0 <= j < rows.len() && dedupe_row_key(#[trigger] rows[j]) == Some(k) && rows[j].id == st.0[k].1 && richness_spec(rows[j]) == st.0[k].0;
    assert forall|l: int| 0 <= l < rows.len() && dedupe_row_key(rows[l]) == dedupe_row_key(rows[i]) implies richness_spec(
        #[trigger] rows[l],
    ) < richness_spec(rows[j]) || (richness_spec(rows[l]) == richness_spec(rows[j]) && j <= l) by {
        assert(dedupe_row_key(rows[l]) is Some);
        assert(richness_spec(rows[l]) <= st.0[k].0);
    }
}

/// The rows whose ids `del` does not list, in order.
pub open spec fn kept_rows(rows: Seq<DedupeRow>, del: Seq<i64>) -> Seq<DedupeRow>
    decreases rows.len(),
{
    if rows.len() == 0 {
        Seq::empty()
    } else {
        let rest = kept_rows(rows.drop_last(), del);
        if del.contains(rows.last().id) {
            rest
        } else {
            rest.push(rows.last())
        }
    }
}

/// The rows a clean-up leaves.
pub open spec fn dedupe_survivors(rows: Seq<DedupeRow>) -> Seq<DedupeRow> {
    kept_rows(rows, dedupe_deletions(rows))
}

/// Of any two rows with one key, `del` lists one.
spec fn pairs_covered(rows: Seq<DedupeRow>, del: Seq<i64>) -> bool {
    forall|i: int, j: int|
        0 <= i < rows.len() && 0 <= j < rows.len() && i != j && (#[trigger] dedupe_row_key(rows[i])) is Some
            && dedupe_row_key(rows[i]) == #[trigger] dedupe_row_key(rows[j]) ==> del.contains(rows[i].id)
            || del.contains(rows[j].id)
}

/// No two rows share a key.
spec fn keys_unique(s: Seq<DedupeRow>) -> bool {
    forall|a: int, b: int|
        0 <= a < b < s.len() && (#[trigger] dedupe_row_key(s[a])) is Some ==> dedupe_row_key(s[a])
            != #[trigger] dedupe_row_key(s[b])
}

proof fn lemma_kept_members(rows: Seq<DedupeRow>, del: Seq<i64>)
    ensures
        forall|a: int|
            0 <= a < kept_rows(rows, del).len() ==> exists|j: int|
                0 <= j < rows.len() && #[trigger] kept_rows(rows, del)[a] == rows[j] && !del.contains(
                    rows[j].id,
                ),
    decreases rows.len(),
{
    if rows.len() > 0 {
        let pre = rows.drop_last();
        lemma_kept_members(pre, del);
        assert forall|a: int| 0 <= a < kept_rows(rows, del).len() implies exists|j: int|
            0 <= j < rows.len() && #[trigger] kept_rows(rows, del)[a] == rows[j] && !del.contains(
                rows[j].id,
            ) by {
            if a < kept_rows(pre, del).len() {
                let j = choose|j: int| 0 <= j < pre.len() && #[trigger] kept_rows(pre, del)[a] == pre[j] && !del.contains(pre[j].id);
                assert(pre[j] == rows[j]);
            } else {
                assert(kept_rows(rows, del)[a] == rows[rows.len() - 1]);
            }
        }
    }
}

proof fn lemma_kept_keys_unique(rows: Seq<DedupeRow>, del: Seq<i64>)
    requires
        pairs_covered(rows, del),
    ensures
        keys_unique(kept_rows(rows, del)),
    decreases rows.len(),
{
    if rows.len() > 0 {
        let n = rows.len();
        let pre = rows.drop_last();
        assert(pairs_covered(pre, del)) by {
            assert forall|i: int, j: int|
                0 <= i < pre.len() && 0 <= j < pre.len() && i != j && (#[trigger] dedupe_row_key(pre[i])) is Some
                    && dedupe_row_key(pre[i]) == #[trigger] dedupe_row_key(pre[j]) implies del.contains(pre[i].id)
                    || del.contains(pre[j].id) by {
                assert(pre[i] == rows[i] && pre[j] == rows[j]);
            }
        }
        lemma_kept_keys_unique(pre, del);
        lemma_kept_members(pre, del);
        let s = kept_rows(rows, del);
        let sp = kept_rows(pre, del);
        assert forall|a: int, b: int|
            0 <= a < b < s.len() && (#[trigger] dedupe_row_key(s[a])) is Some implies dedupe_row_key(s[a])
                != #[trigger] dedupe_row_key(s[b]) by {
            if b < sp.len() {
                assert(s[a] == sp[a] && s[b] == sp[b]);
            } else {
                let j = choose|j: int| 0 <= j < pre.len() && #[trigger] sp[a] == pre[j] && !del.contains(pre[j].id);
                assert(s[a] == sp[a]);
                assert(s[b] == rows[n - 1]);
                assert(pre[j] == rows[j]);
                if dedupe_row_key(s[a]) == dedupe_row_key(s[b]) {
                    assert(dedupe_row_key(rows[j]) == dedupe_row_key(rows[n - 1]));
                    assert(j != n - 1);
                }
            }
        }
    }
}

proof fn lemma_unique_keys_delete_nothing(s: Seq<DedupeRow>)
    requires
        keys_unique(s),
    ensures
        dedupe_deletions(s).len() == 0,
        forall|k: Seq<char>| #[trigger] dedupe_fold(s).0.contains_key(k) ==> exists|j: int|
            0 <= j < s.len() && #[trigger] dedupe_row_key(s[j]) == Some(k),
    decreases s.len(),
{
    if s.len() > 0 {
        let n = s.len();
        let pre = s.drop_last();
        let x = s.last();
        assert(keys_unique(pre)) by {
            assert forall|a: int, b: int|
                0 <= a < b < pre.len() && (#[trigger] dedupe_row_key(pre[a])) is Some implies dedupe_row_key(pre[a])
                    != #[trigger] dedupe_row_key(pre[b]) by {
                assert(pre[a] == s[a] && pre[b] == s[b]);
            }
        }
        lemma_unique_keys_delete_nothing(pre);
        let st = dedupe_fold(pre);
        assert(dedupe_fold(s) == dedupe_step(st, x));
        if let Some(kx) = dedupe_row_key(x) {
            if st.0.contains_key(kx) {
                let j = choose|j: int| 0 <= j < pre.len() && #[trigger] dedupe_row_key(pre[j]) == Some(kx);
                assert(pre[j] == s[j]);
                assert(s[n - 1] == x);
                assert(dedupe_row_key(s[j]) != dedupe_row_key(s[n - 1]));
            }
        }
        assert forall|k: Seq<char>| #[trigger] dedupe_fold(s).0.contains_key(k) implies exists|j: int|
            0 <= j < s.len() && #[trigger] dedupe_row_key(s[j]) == Some(k) by {
            if st.0.contains_key(k) {
                let j = choose|j: int| 0 <= j < pre.len() && #[trigger] dedupe_row_key(pre[j]) == Some(k);
                assert(pre[j] == s[j]);
            } else {
                assert(dedupe_row_key(s[n - 1]) == Some(k));
            }
        }
    }
}

/// Every keyed row is deleted or is the kept entry of its key, and of any two
/// rows with one key one is deleted; this needs no assumption on the ids.
proof fn lemma_cover(rows: Seq<DedupeRow>)
    ensures
        forall|j: int|
            0 <= j < rows.len() && (#[trigger] dedupe_row_key(rows[j])) is Some ==> {
                let k = dedupe_row_key(rows[j])->0;
                &&& dedupe_fold(rows).0.contains_key(k)
                &&& dedupe_fold(rows).1.contains(rows[j].id) || rows[j].id == dedupe_fold(rows).0[k].1
            },
        pairs_covered(rows, dedupe_deletions(rows)),
    decreases rows.len(),
{
    if rows.len() == 0 {
        return;
    }
    let pre = rows.drop_last();
    let x = rows.last();
    let n = rows.len() - 1;
    lemma_cover(pre);
    let st = dedupe_fold(pre);
    let st2 = dedupe_fold(rows);
    assert(st2 == dedupe_step(st, x));
    assert(forall|id: i64| st.1.contains(id) ==> st2.1.contains(id)) by {
        assert forall|id: i64| st.1.contains(id) implies st2.1.contains(id) by {
            let t = choose|t: int| 0 <= t < st.1.len() && st.1[t] == id;
            assert(st2.1[t] == st.1[t]);
        }
    }
    assert forall|j: int| 0 <= j < rows.len() && (#[trigger] dedupe_row_key(rows[j])) is Some implies {
        let k = dedupe_row_key(rows[j])->0;
        &&& st2.0.contains_key(k)
        &&& st2.1.contains(rows[j].id) || rows[j].id == st2.0[k].1
    } by {
        let k = dedupe_row_key(rows[j])->0;
        if j < n {
            assert(rows[j] == pre[j]);
            assert(dedupe_row_key(pre[j]) is Some);
            if dedupe_row_key(x) == Some(k) && st.0.contains_key(k) && richness_spec(x) > st.0[k].0 {
                assert(st2.1[st2.1.len() - 1] == st.0[k].1);
            }
        } else {
            if st.0.contains_key(k) && richness_spec(x) <= st.0[k].0 {
                assert(st2.1[st2.1.len() - 1] == x.id);
            }
        }
    }
    assert forall|i: int, j: int|
        0 <= i < rows.len() && 0 <= j < rows.len() && i != j && (#[trigger] dedupe_row_key(rows[i])) is Some
            && dedupe_row_key(rows[i]) == #[trigger] dedupe_row_key(rows[j]) implies st2.1.contains(rows[i].id)
            || st2.1.contains(rows[j].id) by {
        if i < n && j < n {
            assert(rows[i] == pre[i] && rows[j] == pre[j]);
            assert(dedupe_row_key(pre[i]) is Some && dedupe_row_key(pre[i]) == dedupe_row_key(pre[j]));
        } else {
            let a = if i < n { i } else { j };
            let k = dedupe_row_key(rows[a])->0;
            assert(rows[a] == pre[a]);
            assert(dedupe_row_key(pre[a]) is Some);
            assert(st.0.contains_key(k));
            assert(dedupe_row_key(x) == Some(k));
            if richness_spec(x) <= st.0[k].0 {
                assert(st2.1[st2.1.len() - 1] == x.id);
            } else {
                assert(st2.1[st2.1.len() - 1] == st.0[k].1);
            }
        }
    }
}

/// Cleaning up twice deletes nothing the second time: the rows a clean-up
/// leaves have no duplicates left to delete.
pub proof fn dedupe_is_idempotent(rows: Seq<DedupeRow>)
    ensures
        dedupe_deletions(dedupe_survivors(rows)).len() == 0,
{
    lemma_cover(rows);
    let del = dedupe_deletions(rows);
    lemma_kept_keys_unique(rows, del);
    lemma_unique_keys_delete_nothing(kept_rows(rows, del));
}

} // verus!
