//! Launcher search: query normalisation, LIKE patterns, SQL text, relevance
//! scores and the ranking of matched entries.
use vstd::prelude::*;
use crate::item::Item;
use crate::order::{
    is_stable_order, key_views, lemma_lex_first_two, lemma_lex_third, lemma_stable_order_sorted,
    stable_order,
};
use crate::text::{
    char_views, chars_eq, chars_of, contains, contains_exec, i64_to_string, int_decimal,
    lowercase, lowercase_chars, push_char, push_text, starts_with, starts_with_exec, str_eq,
    str_lowercase, string_from, string_of, string_views, strings_of, trim, trim_chars, trim_str,
};

verus! {

// ---------------------------------------------------------------------------
// LIKE patterns
// ---------------------------------------------------------------------------

/// How one character is written inside a LIKE pattern with escape `\`.
pub open spec fn like_escape_char(c: char) -> Seq<char> {
    if c == '\\' {
        seq!['\\', '\\']
    } else if c == '%' {
        seq!['\\', '%']
    } else if c == '_' {
        seq!['\\', '_']
    } else {
        seq![c]
    }
}

/// `s` with every `\`, `%` and `_` escaped by a backslash.
pub open spec fn like_escaped(s: Seq<char>) -> Seq<char>
    decreases s.len(),
{
    if s.len() == 0 {
        Seq::empty()
    } else {
        like_escape_char(s[0]) + like_escaped(s.drop_first())
    }
}

/// What a LIKE matcher with escape character `\` reads as literal text: each
/// backslash makes the next character literal.
pub open spec fn like_unescaped(s: Seq<char>) -> Seq<char>
    decreases s.len(),
{
    if s.len() == 0 {
        Seq::empty()
    } else if s[0] == '\\' && s.len() >= 2 {
        seq![s[1]] + like_unescaped(s.skip(2))
    } else {
        seq![s[0]] + like_unescaped(s.drop_first())
    }
}

/// `s` contains no unescaped LIKE wildcard: every `%` and `_` is the second
/// character of an escape pair.
pub open spec fn no_bare_wildcard(s: Seq<char>) -> bool
    decreases s.len(),
{
    if s.len() == 0 {
        true
    } else if s[0] == '\\' && s.len() >= 2 {
        no_bare_wildcard(s.skip(2))
    } else {
        s[0] != '%' && s[0] != '_' && s[0] != '\\' && no_bare_wildcard(s.drop_first())
    }
}

proof fn lemma_like_escaped_push(s: Seq<char>, c: char)
    ensures
        like_escaped(s.push(c)) == like_escaped(s) + like_escape_char(c),
    decreases s.len(),
{
    if s.len() == 0 {
        assert(s.push(c).drop_first() =~= Seq::<char>::empty());
        assert(s.push(c)[0] == c);
        assert(like_escaped(Seq::<char>::empty()) == Seq::<char>::empty());
        assert(like_escaped(s) == Seq::<char>::empty());
        assert(like_escaped(s.push(c)) =~= like_escape_char(c) + like_escaped(Seq::<char>::empty()));
        assert(like_escaped(s.push(c)) =~= like_escaped(s) + like_escape_char(c));
    } else {
        assert(s.push(c).drop_first() =~= s.drop_first().push(c));
        lemma_like_escaped_push(s.drop_first(), c);
        assert(like_escaped(s.push(c)) =~= like_escaped(s) + like_escape_char(c));
    }
}

/// Escaping is undone by the way LIKE reads escapes: the pattern stands for
/// exactly the text that was escaped.
pub proof fn escape_like_round_trip(s: Seq<char>)
    ensures
        like_unescaped(like_escaped(s)) == s,
        no_bare_wildcard(like_escaped(s)),
    decreases s.len(),
{
    if s.len() > 0 {
        escape_like_round_trip(s.drop_first());
        let e = like_escaped(s);
        let head = like_escape_char(s[0]);
        let rest = like_escaped(s.drop_first());
        assert(e == head + rest);
        if head.len() == 2 {
            assert(e.skip(2) =~= rest);
            assert(e[0] == '\\');
        } else {
            assert(e.drop_first() =~= rest);
        }
        assert(s =~= seq![s[0]] + s.drop_first());
    }
}

/// Escapes the LIKE wildcards `%` and `_` and the escape character `\` in user
/// input, so that the input only matches itself.
pub fn escape_like(input: &str) -> (r: String)
    ensures
        r@ == like_escaped(input@),
{
    let v = chars_of(input);
    let mut out = String::new();
    let n = v.len();
    let mut i: usize = 0;
    while i < n
        invariant
            n == v.len(),
            i <= n,
            out@ == like_escaped(v@.take(i as int)),
        decreases n - i,
    {
        let c = v[i];
        proof {
            lemma_like_escaped_push(v@.take(i as int), c);
            assert(v@.take(i + 1) =~= v@.take(i as int).push(c));
        }
        if c == '\\' {
            push_char(&mut out, '\\');
            push_char(&mut out, '\\');
        } else if c == '%' {
            push_char(&mut out, '\\');
            push_char(&mut out, '%');
        } else if c == '_' {
            push_char(&mut out, '\\');
            push_char(&mut out, '_');
        } else {
            push_char(&mut out, c);
        }
        assert(out@ =~= like_escaped(v@.take(i + 1)));
        i = i + 1;
    }
    assert(v@.take(n as int) =~= v@);
    out
}

/// The substring pattern `%<escaped text>%`.
pub open spec fn like_pattern_spec(text: Seq<char>) -> Seq<char> {
    seq!['%'] + like_escaped(text) + seq!['%']
}

/// The LIKE pattern that matches any value containing `text`.
pub fn like_pattern(text: &str) -> (r: String)
    ensures
        r@ == like_pattern_spec(text@),
{
    let escaped = escape_like(text);
    let mut out = String::new();
    push_char(&mut out, '%');
    push_text(&mut out, escaped.as_str());
    push_char(&mut out, '%');
    assert(out@ =~= like_pattern_spec(text@));
    out
}

// ---------------------------------------------------------------------------
// Aliases
// ---------------------------------------------------------------------------

/// The alias separators: ASCII and full-width commas.
pub open spec fn is_alias_separator(c: char) -> bool {
    c == ',' || c == '，'
}

/// The pieces of `s` between alias separators (as `str::split` yields them,
/// empty pieces included).
pub open spec fn split_aliases(s: Seq<char>) -> Seq<Seq<char>>
    decreases s.len(),
{
    if s.len() == 0 {
        seq![Seq::empty()]
    } else {
        let rest = split_aliases(s.drop_last());
        if is_alias_separator(s.last()) {
            rest.push(Seq::empty())
        } else {
            rest.update(rest.len() - 1, rest.last().push(s.last()))
        }
    }
}

/// The pieces trimmed and lowercased, empty results dropped.
pub open spec fn alias_terms(parts: Seq<Seq<char>>) -> Seq<Seq<char>>
    decreases parts.len(),
{
    if parts.len() == 0 {
        Seq::empty()
    } else {
        let rest = alias_terms(parts.drop_last());
        let term = str_lowercase(trim(parts.last()));
        if term.len() > 0 {
            rest.push(term)
        } else {
            rest
        }
    }
}

/// The aliases of an entry, as search compares them.
pub open spec fn aliases_of(alias: Seq<char>) -> Seq<Seq<char>> {
    alias_terms(split_aliases(alias))
}

proof fn lemma_split_aliases_nonempty(s: Seq<char>)
    ensures
        split_aliases(s).len() >= 1,
    decreases s.len(),
{
    if s.len() > 0 {
        lemma_split_aliases_nonempty(s.drop_last());
    }
}

/// Splits `s` at every alias separator.
fn split_alias_parts(s: &Vec<char>) -> (r: Vec<Vec<char>>)
    ensures
        char_views(r@) == split_aliases(s@),
{
    let mut parts: Vec<Vec<char>> = Vec::new();
    let mut cur: Vec<char> = Vec::new();
    let n = s.len();
    let mut i: usize = 0;
    assert(s@.take(0) =~= Seq::<char>::empty());
    assert(char_views(parts@).push(cur@) =~= split_aliases(s@.take(0)));
    while i < n
        invariant
            n == s.len(),
            i <= n,
            char_views(parts@).push(cur@) == split_aliases(s@.take(i as int)),
        decreases n - i,
    {
        let c = s[i];
        let ghost pre = s@.take(i as int);
        assert(s@.take(i + 1).drop_last() =~= pre);
        assert(s@.take(i + 1).last() == c);
        proof {
            lemma_split_aliases_nonempty(pre);
        }
        if c == ',' || c == '，' {
            let ghost old_parts = parts@;
            let done = cur;
            parts.push(done);
            cur = Vec::new();
            assert(char_views(parts@) =~= char_views(old_parts).push(done@));
            assert(char_views(parts@).push(cur@) =~= split_aliases(s@.take(i + 1)));
        } else {
            let ghost old_cur = cur@;
            cur.push(c);
            assert(char_views(parts@).push(cur@) =~= char_views(parts@).push(old_cur).update(
                parts@.len() as int,
                old_cur.push(c),
            ));
        }
        i = i + 1;
    }
    let ghost old_parts = parts@;
    let last = cur;
    parts.push(last);
    assert(char_views(parts@) =~= char_views(old_parts).push(last@));
    assert(s@.take(n as int) =~= s@);
    parts
}

/// Trims and lowercases each piece, keeping the non-empty results.
fn terms_of(parts: &Vec<Vec<char>>) -> (r: Vec<Vec<char>>)
    ensures
        char_views(r@) == alias_terms(char_views(parts@)),
{
    let mut out: Vec<Vec<char>> = Vec::new();
    let n = parts.len();
    let mut i: usize = 0;
    while i < n
        invariant
            n == parts.len(),
            i <= n,
            char_views(out@) == alias_terms(char_views(parts@.take(i as int))),
        decreases n - i,
    {
        let t = trim_chars(&parts[i]);
        let l = lowercase_chars(&t);
        assert(char_views(parts@.take(i + 1)).drop_last() =~= char_views(parts@.take(i as int)));
        assert(char_views(parts@.take(i + 1)).last() == parts@[i as int]@);
        if l.len() > 0 {
            let ghost old_out = out@;
            out.push(l);
            assert(char_views(out@) =~= char_views(old_out).push(l@));
        }
        i = i + 1;
    }
    assert(parts@.take(n as int) =~= parts@);
    out
}

/// The aliases of an entry as character sequences.
pub fn alias_terms_of(alias: &str) -> (r: Vec<Vec<char>>)
    ensures
        char_views(r@) == aliases_of(alias@),
{
    let v = chars_of(alias);
    let parts = split_alias_parts(&v);
    terms_of(&parts)
}

/// The aliases of an entry: its alias text split at commas (ASCII or
/// full-width), each piece trimmed and lowercased, empty pieces dropped.
pub fn alias_list(item: &Item) -> (r: Vec<String>)
    ensures
        string_views(r@) == aliases_of(item.alias@),
{
    let terms = alias_terms_of(item.alias.as_str());
    strings_of(&terms)
}

// ---------------------------------------------------------------------------
// Scores
// ---------------------------------------------------------------------------

/// Some alias equals the query.
pub open spec fn some_alias_equals(aliases: Seq<Seq<char>>, q: Seq<char>) -> bool {
    exists|i: int| 0 <= i < aliases.len() && aliases[i] == q
}

/// Some alias starts with the query.
pub open spec fn some_alias_starts_with(aliases: Seq<Seq<char>>, q: Seq<char>) -> bool {
    exists|i: int| 0 <= i < aliases.len() && starts_with(aliases[i], q)
}

/// Some alias contains the query.
pub open spec fn some_alias_contains(aliases: Seq<Seq<char>>, q: Seq<char>) -> bool {
    exists|i: int| 0 <= i < aliases.len() && contains(aliases[i], q)
}

/// The relevance of an entry for an already lowercased query: exact name 100,
/// exact alias 90, name prefix 80, alias prefix 75, name substring 70, alias
/// substring 60, address substring 50, description substring 40, else 0.
pub open spec fn search_score(item: Item, q: Seq<char>) -> int {
    let name = str_lowercase(item.name@);
    let aliases = aliases_of(item.alias@);
    if name == q {
        100
    } else if some_alias_equals(aliases, q) {
        90
    } else if starts_with(name, q) {
        80
    } else if some_alias_starts_with(aliases, q) {
        75
    } else if contains(name, q) {
        70
    } else if some_alias_contains(aliases, q) {
        60
    } else if contains(str_lowercase(item.url@), q) {
        50
    } else if contains(str_lowercase(item.description@), q) {
        40
    } else {
        0
    }
}

/// Which of three alias tests is asked for.
enum AliasTest {
    Equals,
    StartsWith,
    Contains,
}

fn any_alias(aliases: &Vec<Vec<char>>, q: &Vec<char>, test: AliasTest) -> (r: bool)
    ensures
        test is Equals ==> r == some_alias_equals(char_views(aliases@), q@),
        test is StartsWith ==> r == some_alias_starts_with(char_views(aliases@), q@),
        test is Contains ==> r == some_alias_contains(char_views(aliases@), q@),
{
    let ghost av = char_views(aliases@);
    let n = aliases.len();
    let mut i: usize = 0;
    while i < n
        invariant
            n == aliases.len(),
            av == char_views(aliases@),
            i <= n,
            test is Equals ==> forall|k: int| 0 <= k < i ==> av[k] != q@,
            test is StartsWith ==> forall|k: int| 0 <= k < i ==> !starts_with(av[k], q@),
            test is Contains ==> forall|k: int| 0 <= k < i ==> !contains(av[k], q@),
        decreases n - i,
    {
        let hit = match test {
            AliasTest::Equals => chars_eq(&aliases[i], q),
            AliasTest::StartsWith => starts_with_exec(&aliases[i], q),
            AliasTest::Contains => contains_exec(&aliases[i], q),
        };
        assert(av[i as int] == aliases@[i as int]@);
        if hit {
            return true;
        }
        i = i + 1;
    }
    false
}

/// The relevance score of `item` for a lowercased query.
pub fn score_search_item(item: &Item, query: &str) -> (r: i32)
    ensures
        r == search_score(*item, query@),
{
    let q = chars_of(query);
    let name = chars_of(lowercase(item.name.as_str()).as_str());
    if chars_eq(&name, &q) {
        return 100;
    }
    let aliases = alias_terms_of(item.alias.as_str());
    if any_alias(&aliases, &q, AliasTest::Equals) {
        return 90;
    }
    if starts_with_exec(&name, &q) {
        return 80;
    }
    if any_alias(&aliases, &q, AliasTest::StartsWith) {
        return 75;
    }
    if contains_exec(&name, &q) {
        return 70;
    }
    if any_alias(&aliases, &q, AliasTest::Contains) {
        return 60;
    }
    let url = chars_of(lowercase(item.url.as_str()).as_str());
    if contains_exec(&url, &q) {
        return 50;
    }
    let description = chars_of(lowercase(item.description.as_str()).as_str());
    if contains_exec(&description, &q) {
        return 40;
    }
    0
}

/// Search priority of an entry type: applications, then websites, then files
/// and folders.
pub open spec fn type_priority_spec(kind: Seq<char>) -> int {
    if kind == "application"@ {
        0
    } else if kind == "website"@ {
        1
    } else {
        2
    }
}

/// The search priority of an entry type.
pub fn type_priority(kind: &str) -> (r: i32)
    ensures
        r == type_priority_spec(kind@),
{
    if str_eq(kind, "application") {
        0
    } else if str_eq(kind, "website") {
        1
    } else {
        2
    }
}

// ---------------------------------------------------------------------------
// Ranking
// ---------------------------------------------------------------------------

/// The sort key of a match: type priority, then higher score first, then
/// shorter name (in UTF-8 bytes) first.
pub open spec fn ranking_key(item: Item, q: Seq<char>) -> Seq<u64> {
    seq![
        type_priority_spec(item.kind@) as u64,
        (100 - search_score(item, q)) as u64,
        (vstd::utf8::encode_utf8(item.name@).len() as usize) as u64,
    ]
}

/// The sort keys of a list of matches.
pub open spec fn ranking_keys(items: Seq<Item>, q: Seq<char>) -> Seq<Seq<u64>> {
    items.map_values(|it: Item| ranking_key(it, q))
}

/// How many matches a search returns: at most `limit`, at least one.
pub open spec fn kept_count(n: int, limit: int) -> int {
    let cap = if limit < 1 { 1 } else { limit };
    if n < cap { n } else { cap }
}

/// `r` is the first `kept_count` matches of `items` in a stable ranking order.
pub open spec fn is_ranking(items: Seq<Item>, q: Seq<char>, limit: int, r: Seq<Item>) -> bool {
    exists|p: Seq<usize>|
        #![trigger is_stable_order(ranking_keys(items, q), p)]
        is_stable_order(ranking_keys(items, q), p) && r.len() == kept_count(items.len() as int, limit)
            && forall|j: int| 0 <= j < r.len() ==> r[j] == items[#[trigger] p[j] as int]
}

/// A search lists applications before websites before files and folders,
/// and within one type the more relevant entry first.
pub proof fn ranking_orders_by_type_then_score(items: Seq<Item>, q: Seq<char>, limit: int, r: Seq<Item>)
    requires
        is_ranking(items, q, limit, r),
    ensures
        forall|i: int, j: int|
            0 <= i < j < r.len() ==> {
                &&& type_priority_spec(#[trigger] r[i].kind@) <= type_priority_spec(#[trigger] r[j].kind@)
                &&& type_priority_spec(r[i].kind@) == type_priority_spec(r[j].kind@) ==> search_score(r[i], q)
                    >= search_score(r[j], q)
            },
{
    let keys = ranking_keys(items, q);
    let p = choose|p: Seq<usize>|
        #![trigger is_stable_order(ranking_keys(items, q), p)]
        is_stable_order(ranking_keys(items, q), p) && r.len() == kept_count(items.len() as int, limit)
            && forall|j: int| 0 <= j < r.len() ==> r[j] == items[#[trigger] p[j] as int];
    assert forall|i: int, j: int| 0 <= i < j < r.len() implies {
        &&& type_priority_spec(#[trigger] r[i].kind@) <= type_priority_spec(#[trigger] r[j].kind@)
        &&& type_priority_spec(r[i].kind@) == type_priority_spec(r[j].kind@) ==> search_score(r[i], q)
            >= search_score(r[j], q)
    } by {
        assert(r[i] == items[p[i] as int]);
        assert(r[j] == items[p[j] as int]);
        lemma_stable_order_sorted(keys, p, i, j);
        let (ki, kj) = (keys[p[i] as int], keys[p[j] as int]);
        assert(ki == ranking_key(items[p[i] as int], q));
        assert(kj == ranking_key(items[p[j] as int], q));
        lemma_lex_first_two(ki, kj);
    }
}

/// Among matches of one type and one score, a search lists the one with the
/// shorter name (in UTF-8 bytes) first.
pub proof fn ranking_puts_shorter_names_first(items: Seq<Item>, q: Seq<char>, limit: int, r: Seq<Item>)
    requires
        is_ranking(items, q, limit, r),
        forall|k: int| 0 <= k < items.len() ==> vstd::utf8::encode_utf8(#[trigger] items[k].name@).len() <= usize::MAX,
    ensures
        forall|i: int, j: int|
            0 <= i < j < r.len() && type_priority_spec(#[trigger] r[i].kind@) == type_priority_spec(
                #[trigger] r[j].kind@,
            ) && search_score(r[i], q) == search_score(r[j], q) ==> vstd::utf8::encode_utf8(r[i].name@).len()
                <= vstd::utf8::encode_utf8(r[j].name@).len(),
{
    let p = choose|p: Seq<usize>|
        #![trigger is_stable_order(ranking_keys(items, q), p)]
        is_stable_order(ranking_keys(items, q), p) && r.len() == kept_count(items.len() as int, limit)
            && forall|j: int| 0 <= j < r.len() ==> r[j] == items[#[trigger] p[j] as int];
    assert forall|i: int, j: int|
        0 <= i < j < r.len() && type_priority_spec(#[trigger] r[i].kind@) == type_priority_spec(
            #[trigger] r[j].kind@,
        ) && search_score(r[i], q) == search_score(r[j], q) implies vstd::utf8::encode_utf8(r[i].name@).len()
            <= vstd::utf8::encode_utf8(r[j].name@).len() by {
        lemma_sorted_names(items, q, p, i, j);
        assert(r[i] == items[p[i] as int]);
        assert(r[j] == items[p[j] as int]);
    }
}

proof fn lemma_sorted_names(items: Seq<Item>, q: Seq<char>, p: Seq<usize>, i: int, j: int)
    requires
        is_stable_order(ranking_keys(items, q), p),
        0 <= i < j < p.len(),
        forall|k: int| 0 <= k < items.len() ==> vstd::utf8::encode_utf8(#[trigger] items[k].name@).len() <= usize::MAX,
        type_priority_spec(items[p[i] as int].kind@) == type_priority_spec(items[p[j] as int].kind@),
        search_score(items[p[i] as int], q) == search_score(items[p[j] as int], q),
    ensures
        vstd::utf8::encode_utf8(items[p[i] as int].name@).len() <= vstd::utf8::encode_utf8(
            items[p[j] as int].name@,
        ).len(),
{
    let keys = ranking_keys(items, q);
    lemma_stable_order_sorted(keys, p, i, j);
    let (a, b) = (items[p[i] as int], items[p[j] as int]);
    let (ki, kj) = (keys[p[i] as int], keys[p[j] as int]);
    assert(ki == ranking_key(a, q));
    assert(kj == ranking_key(b, q));
    lemma_lex_third(ki, kj);
    let la = vstd::utf8::encode_utf8(a.name@).len();
    let lb = vstd::utf8::encode_utf8(b.name@).len();
    assert(la <= usize::MAX && lb <= usize::MAX);
    assert(ki[2] == la && kj[2] == lb);
}

fn score_bound(item: &Item, query: &str) -> (r: i32)
    ensures
        r == search_score(*item, query@),
        0 <= r <= 100,
{
    score_search_item(item, query)
}

/// The ranking order of matches: positions sorted by type priority, score
/// (descending) and name length, ties kept in their given order.
pub fn search_order(items: &Vec<Item>, query: &str) -> (p: Vec<usize>)
    ensures
        is_stable_order(ranking_keys(items@, query@), p@),
{
    let mut keys: Vec<Vec<u64>> = Vec::new();
    let n = items.len();
    let mut i: usize = 0;
    while i < n
        invariant
            n == items.len(),
            i <= n,
            key_views(keys@) == ranking_keys(items@.take(i as int), query@),
        decreases n - i,
    {
        let it = &items[i];
        let pr = type_priority(it.kind.as_str());
        let sc = score_bound(it, query);
        let name_text = it.name.as_str();
        let len = name_text.len();
        assert(name_text@ == it.name@);
        let mut key: Vec<u64> = Vec::new();
        key.push(pr as u64);
        key.push((100 - sc) as u64);
        key.push(len as u64);
        let ghost old_keys = keys@;
        keys.push(key);
        assert(key@ =~= ranking_key(items@[i as int], query@));

        assert(key_views(keys@) =~= key_views(old_keys).push(key@));
        assert(items@.take(i + 1) =~= items@.take(i as int).push(items@[i as int]));
        assert(ranking_keys(items@.take(i + 1), query@) =~= ranking_keys(
            items@.take(i as int),
            query@,
        ).push(ranking_key(items@[i as int], query@)));
        i = i + 1;
    }
    assert(items@.take(n as int) =~= items@);
    stable_order(&keys)
}

/// Orders matched entries by type priority, then score (higher first), then
/// name length (shorter first), keeping ties in their given order, and
/// keeps the first `max(limit, 1)` of them.
pub fn rank_search_results(items: &Vec<Item>, query: &str, limit: usize) -> (r: Vec<Item>)
    ensures
        is_ranking(items@, query@, limit as int, r@),
{
    let p = search_order(items, query);
    let keep: usize = if limit < 1 {
        1
    } else {
        limit
    };
    let count: usize = if items.len() < keep {
        items.len()
    } else {
        keep
    };
    let mut out: Vec<Item> = Vec::new();
    let mut j: usize = 0;
    while j < count
        invariant
            count <= p.len(),
            p.len() == items.len(),
            is_stable_order(ranking_keys(items@, query@), p@),
            j <= count,
            out.len() == j,
            forall|k: int| 0 <= k < j ==> out@[k] == items@[#[trigger] p@[k] as int],
        decreases count - j,
    {
        let idx = p[j];
        assert(p@[j as int] < items@.len());
        out.push(items[idx].duplicate());
        j = j + 1;
    }
    assert(is_stable_order(ranking_keys(items@, query@), p@));
    out
}

// ---------------------------------------------------------------------------
// Query text and SQL
// ---------------------------------------------------------------------------

/// The normalised search text: trimmed and lowercased; `None` when blank.
pub fn normalize_query(q: &str) -> (r: Option<String>)
    ensures
        trim(q@).len() == 0 ==> r is None,
        trim(q@).len() > 0 ==> r is Some && r->0@ == str_lowercase(trim(q@)),
{
    let t = trim_str(q);
    if t.len() == 0 {
        None
    } else {
        Some(string_of(&lowercase_chars(&t)))
    }
}

/// The number of results asked for: six by default, kept between 1 and 20.
pub open spec fn search_limit_spec(limit: Option<usize>) -> int {
    match limit {
        Some(l) => if l < 1 {
            1
        } else if l > 20 {
            20
        } else {
            l as int
        },
        None => 6,
    }
}

/// The number of results asked for: six by default, kept between 1 and 20.
pub fn search_limit(limit: Option<usize>) -> (r: usize)
    ensures
        r == search_limit_spec(limit),
{
    let l = match limit {
        Some(l) => l,
        None => 6,
    };
    if l < 1 {
        1
    } else if l > 20 {
        20
    } else {
        l
    }
}

/// A search returns at most 20 entries, and at most 6 when no limit is asked
/// for: the ranking of the matches cut at the asked number of results.
pub proof fn search_size_is_bounded(items: Seq<Item>, q: Seq<char>, limit: Option<usize>, r: Seq<Item>)
    requires
        is_ranking(items, q, search_limit_spec(limit), r),
    ensures
        r.len() <= 20,
        limit is None ==> r.len() <= 6,
        r.len() <= items.len(),
{
}

/// The SQL condition on the entry type for a type filter.
pub open spec fn where_clause_spec(kind: Seq<char>) -> Seq<char> {
    if kind == "application"@ {
        "type='application'"@
    } else if kind == "website"@ {
        "type='website'"@
    } else if kind == "file"@ {
        "type='file'"@
    } else if kind == "folder"@ {
        "type IN ('folder','file')"@
    } else {
        "1=1"@
    }
}

/// The SQL condition for a type filter; unknown filters select everything and
/// the folder filter also selects files.
pub fn items_where_clause(kind: &str) -> (r: &'static str)
    ensures
        r@ == where_clause_spec(kind@),
{
    if str_eq(kind, "application") {
        "type='application'"
    } else if str_eq(kind, "website") {
        "type='website'"
    } else if str_eq(kind, "file") {
        "type='file'"
    } else if str_eq(kind, "folder") {
        "type IN ('folder','file')"
    } else {
        "1=1"
    }
}

/// A type filter as the settings page sends it: trimmed, `all` when blank.
pub fn normalize_kind_filter(kind: &str) -> (r: String)
    ensures
        trim(kind@).len() == 0 ==> r@ == "all"@,
        trim(kind@).len() > 0 ==> r@ == trim(kind@),
{
    let t = trim_str(kind);
    if t.len() == 0 {
        string_from("all")
    } else {
        string_of(&t)
    }
}

/// The query that lists entries of one type, newest first.
pub fn items_by_kind_sql(kind: &str) -> (r: String)
    ensures
        r@ == "SELECT * FROM launch_items WHERE "@ + where_clause_spec(kind@)
            + " ORDER BY id DESC"@,
{
    let mut s = string_from("SELECT * FROM launch_items WHERE ");
    push_text(&mut s, items_where_clause(kind));
    push_text(&mut s, " ORDER BY id DESC");
    s
}

/// The type condition of a launcher search.
pub open spec fn allowed_kinds_spec(website_on: bool, folder_on: bool) -> Seq<char> {
    "type='application'"@ + (if website_on {
        " OR type='website'"@
    } else {
        Seq::empty()
    }) + (if folder_on {
        " OR type IN ('folder','file')"@
    } else {
        Seq::empty()
    })
}

/// The entry types a launcher search may return: applications always,
/// websites and files/folders when their switches are on.
pub fn allowed_kinds_clause(website_on: bool, folder_on: bool) -> (r: String)
    ensures
        r@ == allowed_kinds_spec(website_on, folder_on),
{
    let mut clause = string_from("type='application'");
    if website_on {
        push_text(&mut clause, " OR type='website'");
    }
    if folder_on {
        push_text(&mut clause, " OR type IN ('folder','file')");
    }
    assert(clause@ =~= allowed_kinds_spec(website_on, folder_on));
    clause
}

/// The text condition shared by search and paging: the pattern `?1` against
/// name, alias, address and description.
pub open spec fn text_filter_spec() -> Seq<char> {
    "(name LIKE ?1 ESCAPE '\\' OR alias LIKE ?1 ESCAPE '\\' OR url LIKE ?1 ESCAPE '\\' OR description LIKE ?1 ESCAPE '\\')"@
}

fn text_filter() -> (r: &'static str)
    ensures
        r@ == text_filter_spec(),
{
    "(name LIKE ?1 ESCAPE '\\' OR alias LIKE ?1 ESCAPE '\\' OR url LIKE ?1 ESCAPE '\\' OR description LIKE ?1 ESCAPE '\\')"
}

/// The launcher search query: enabled entries of the allowed types whose text
/// fields match `?1`.
pub fn search_sql(website_on: bool, folder_on: bool) -> (r: String)
    ensures
        r@ == "SELECT * FROM launch_items WHERE enabled=1 AND ("@ + allowed_kinds_spec(
            website_on,
            folder_on,
        ) + ") AND "@ + text_filter_spec(),
{
    let allowed = allowed_kinds_clause(website_on, folder_on);
    let mut s = string_from("SELECT * FROM launch_items WHERE enabled=1 AND (");
    push_text(&mut s, allowed.as_str());
    push_text(&mut s, ") AND ");
    push_text(&mut s, text_filter());
    s
}

/// The two queries of one settings page and the pattern bound to `?1` (empty
/// when there is no keyword, and then the queries take no parameter).
pub struct PageQuery {
    pub count_sql: String,
    pub page_sql: String,
    pub like: String,
}

/// The keyword condition of a page query.
pub open spec fn page_filter_spec(keyword: Seq<char>) -> Seq<char> {
    if trim(keyword).len() == 0 {
        Seq::empty()
    } else {
        " AND "@ + text_filter_spec()
    }
}

/// The pattern bound to a page query.
pub open spec fn page_like_spec(keyword: Seq<char>) -> Seq<char> {
    if trim(keyword).len() == 0 {
        Seq::empty()
    } else {
        like_pattern_spec(str_lowercase(trim(keyword)))
    }
}

/// Builds the count and page queries for a type filter, a keyword and a page
/// window (newest first).
pub fn page_query(kind: &str, keyword: &str, offset: i64, limit: i64) -> (r: PageQuery)
    ensures
        r.count_sql@ == "SELECT COUNT(*) FROM launch_items WHERE "@ + where_clause_spec(kind@)
            + page_filter_spec(keyword@),
        r.page_sql@ == "SELECT * FROM launch_items WHERE "@ + where_clause_spec(kind@)
            + page_filter_spec(keyword@) + " ORDER BY id DESC LIMIT "@ + int_decimal(limit as int)
            + " OFFSET "@ + int_decimal(offset as int),
        r.like@ == page_like_spec(keyword@),
{
    let where_type = items_where_clause(kind);
    let kw = trim_str(keyword);
    let mut filter = String::new();
    let mut like = String::new();
    if kw.len() > 0 {
        push_text(&mut filter, " AND ");
        push_text(&mut filter, text_filter());
        let lowered = string_of(&lowercase_chars(&kw));
        like = like_pattern(lowered.as_str());
    }
    let mut count_sql = string_from("SELECT COUNT(*) FROM launch_items WHERE ");
    push_text(&mut count_sql, where_type);
    push_text(&mut count_sql, filter.as_str());
    let mut page_sql = string_from("SELECT * FROM launch_items WHERE ");
    push_text(&mut page_sql, where_type);
    push_text(&mut page_sql, filter.as_str());
    push_text(&mut page_sql, " ORDER BY id DESC LIMIT ");
    push_text(&mut page_sql, i64_to_string(limit).as_str());
    push_text(&mut page_sql, " OFFSET ");
    push_text(&mut page_sql, i64_to_string(offset).as_str());
    assert(filter@ =~= page_filter_spec(keyword@));
    assert(count_sql@ =~= "SELECT COUNT(*) FROM launch_items WHERE "@ + where_clause_spec(kind@)
        + page_filter_spec(keyword@));
    PageQuery { count_sql, page_sql, like }
}

/// A settings page request: the type filter normalised, the offset at least
/// zero and the page size between 1 and 5000.
pub fn page_request(kind: &str, offset: i64, limit: i64) -> (r: (String, i64, i64))
    ensures
        trim(kind@).len() == 0 ==> r.0@ == "all"@,
        trim(kind@).len() > 0 ==> r.0@ == trim(kind@),
        r.1 == (if offset < 0 {
            0
        } else {
            offset
        }),
        r.2 == (if limit < 1 {
            1
        } else if limit > 5000 {
            5000
        } else {
            limit
        }),
{
    let k = normalize_kind_filter(kind);
    let o = if offset < 0 {
        0
    } else {
        offset
    };
    let l = if limit < 1 {
        1
    } else if limit > 5000 {
        5000
    } else {
        limit
    };
    (k, o, l)
}

} // verus!
