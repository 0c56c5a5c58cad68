//! Websites and browser bookmarks: page keys, icon data, host names and the
//! bookmark trees of Chromium-based browsers.
use vstd::prelude::*;
use vstd::hash_map::StringHashMap;
use base64::Engine;
use crate::item::SyncedItem;
use crate::json::{
    get_field, items_of, json_field, json_items, json_parsed, json_text, json_view, json_views,
    lemma_json_views, lemma_member_views, member_views, parse_json, text_of, Json, JsonView,
};
use crate::text::{
    chars_of, has_char, has_char_exec, lowercase_chars, occurs_at, occurs_at_exec, push_text,
    slice_chars, starts_with, starts_with_exec, str_lowercase, string_from, string_of, trim,
    trim_start, trim_end, is_white_space,
    trim_chars, trim_end_char, trim_end_char_exec, trim_str, lowercase, push_char, push_chars,
    str_eq, opt_view, contains, contains_exec, eq_ignore_ascii_case, eq_ignore_ascii_case_exec, string_views,
};
use crate::launch::{split_args, words};
use crate::order::{is_stable_order, key_views, stable_order};

verus! {

// ---------------------------------------------------------------------------
// Page keys
// ---------------------------------------------------------------------------

/// The key under which a page's icon is filed: the address trimmed,
/// lowercased and without trailing slashes.
pub open spec fn bookmark_key(url: Seq<char>) -> Seq<char> {
    trim_end_char(str_lowercase(trim(url)), '/')
}

/// The icon key of a page address.
pub fn normalize_bookmark_url(url: &str) -> (r: String)
    ensures
        r@ == bookmark_key(url@),
{
    let t = trim_str(url);
    let l = lowercase_chars(&t);
    let k = trim_end_char_exec(&l, '/');
    string_of(&k)
}

proof fn lemma_trim_end_char_last(s: Seq<char>, c: char)
    ensures
        trim_end_char(s, c).len() == 0 || trim_end_char(s, c).last() != c,
    decreases s.len(),
{
    if s.len() > 0 && s.last() == c {
        lemma_trim_end_char_last(s.drop_last(), c);
    }
}

/// A page key never ends with `/`: trailing slashes are never part of the
/// key under which a page's icon is filed.
pub proof fn bookmark_key_has_no_trailing_slash(url: Seq<char>)
    ensures
        bookmark_key(url).len() == 0 || bookmark_key(url).last() != '/',
{
    lemma_trim_end_char_last(str_lowercase(trim(url)), '/');
}

// ---------------------------------------------------------------------------
// Image formats
// ---------------------------------------------------------------------------

/// PNG signature: `\x89PNG\r\n\x1a\n`.
pub open spec fn is_png(d: Seq<u8>) -> bool {
    d.len() >= 8 && d[0] == 0x89 && d[1] == 0x50 && d[2] == 0x4E && d[3] == 0x47 && d[4] == 0x0D
        && d[5] == 0x0A && d[6] == 0x1A && d[7] == 0x0A
}

/// JPEG start-of-image marker: `\xff\xd8`.
pub open spec fn is_jpeg(d: Seq<u8>) -> bool {
    d.len() >= 2 && d[0] == 0xFF && d[1] == 0xD8
}

/// WebP container: `RIFF`, a length, then `WEBP`.
pub open spec fn is_webp(d: Seq<u8>) -> bool {
    d.len() >= 12 && d[0] == 0x52 && d[1] == 0x49 && d[2] == 0x46 && d[3] == 0x46 && d[8] == 0x57
        && d[9] == 0x45 && d[10] == 0x42 && d[11] == 0x50
}

/// Windows icon header: `\0\0\x01\0`.
pub open spec fn is_ico(d: Seq<u8>) -> bool {
    d.len() >= 4 && d[0] == 0 && d[1] == 0 && d[2] == 1 && d[3] == 0
}

/// GIF header: `GIF87a` or `GIF89a`.
pub open spec fn is_gif(d: Seq<u8>) -> bool {
    d.len() >= 6 && d[0] == 0x47 && d[1] == 0x49 && d[2] == 0x46 && d[3] == 0x38 && (d[4] == 0x37
        || d[4] == 0x39) && d[5] == 0x61
}

/// The image subtype named by the first bytes of `d`, checked in this order.
pub open spec fn image_mime(d: Seq<u8>) -> Option<Seq<char>> {
    if is_png(d) {
        Some("png"@)
    } else if is_jpeg(d) {
        Some("jpeg"@)
    } else if is_webp(d) {
        Some("webp"@)
    } else if is_ico(d) {
        Some("x-icon"@)
    } else if is_gif(d) {
        Some("gif"@)
    } else {
        None
    }
}

/// The image subtype (`png`, `jpeg`, `webp`, `x-icon` or `gif`) of icon
/// data, recognised by its signature; `None` for anything else.
pub fn detect_image_mime(data: &[u8]) -> (r: Option<&'static str>)
    ensures
        match r {
            Some(m) => image_mime(data@) == Some(m@),
            None => image_mime(data@) is None,
        },
{
    let n = data.len();
    if n >= 8 && data[0] == 0x89 && data[1] == 0x50 && data[2] == 0x4E && data[3] == 0x47 && data[4]
        == 0x0D && data[5] == 0x0A && data[6] == 0x1A && data[7] == 0x0A {
        return Some("png");
    }
    if n >= 2 && data[0] == 0xFF && data[1] == 0xD8 {
        return Some("jpeg");
    }
    if n >= 12 && data[0] == 0x52 && data[1] == 0x49 && data[2] == 0x46 && data[3] == 0x46 && data[8]
        == 0x57 && data[9] == 0x45 && data[10] == 0x42 && data[11] == 0x50 {
        return Some("webp");
    }
    if n >= 4 && data[0] == 0 && data[1] == 0 && data[2] == 1 && data[3] == 0 {
        return Some("x-icon");
    }
    if n >= 6 && data[0] == 0x47 && data[1] == 0x49 && data[2] == 0x46 && data[3] == 0x38 && (data[4]
        == 0x37 || data[4] == 0x39) && data[5] == 0x61 {
        return Some("gif");
    }
    None
}

// ---------------------------------------------------------------------------
// Host names
// ---------------------------------------------------------------------------

/// The first position at or after `from` where `p` occurs in `s`.
pub open spec fn find_from(s: Seq<char>, p: Seq<char>, from: int) -> Option<int>
    decreases s.len() - from,
{
    if from < 0 || from + p.len() > s.len() {
        None
    } else if occurs_at(s, p, from) {
        Some(from)
    } else if from >= s.len() {
        None
    } else {
        find_from(s, p, from + 1)
    }
}

/// The position of the first character of `s` at or after `i` that is one of
/// `stops`, or the length of `s` when there is none.
pub open spec fn first_of(s: Seq<char>, stops: Seq<char>, i: int) -> int
    decreases s.len() - i,
{
    if i >= s.len() {
        s.len() as int
    } else if has_char(stops, s[i]) {
        i
    } else {
        first_of(s, stops, i + 1)
    }
}

/// The part of `s` before its first character that is one of `stops`.
pub open spec fn before_any(s: Seq<char>, stops: Seq<char>) -> Seq<char> {
    s.take(first_of(s, stops, 0))
}

/// The position of the last `c` among the first `j` characters of `s`, or -1.
pub open spec fn last_of(s: Seq<char>, c: char, j: int) -> int
    decreases j,
{
    if j <= 0 {
        -1
    } else if s[j - 1] == c {
        j - 1
    } else {
        last_of(s, c, j - 1)
    }
}

/// The part of `s` after its last `c` (all of `s` when there is none).
pub open spec fn after_last(s: Seq<char>, c: char) -> Seq<char> {
    s.skip(last_of(s, c, s.len() as int) + 1)
}

/// The text between the first `://` of `url` and the next one (or the end);
/// `None` when `url` has no `://`.
pub open spec fn after_scheme(url: Seq<char>) -> Option<Seq<char>> {
    match find_from(url, "://"@, 0) {
        None => None,
        Some(i) => Some(
            match find_from(url, "://"@, i + 3) {
                Some(j) => url.subrange(i + 3, j),
                None => url.skip(i + 3),
            },
        ),
    }
}

/// The host of a web address: after the scheme, before any path, query or
/// fragment, after any user information and before any port, trimmed; `None`
/// when that is empty.
pub open spec fn url_host_spec(url: Seq<char>) -> Option<Seq<char>> {
    match after_scheme(url) {
        None => None,
        Some(rest) => {
            let authority = trim(before_any(rest, "/?#"@));
            let host = trim(before_any(after_last(authority, '@'), seq![':']));
            if host.len() == 0 {
                None
            } else {
                Some(host)
            }
        },
    }
}

/// No character of `s` is one of `bad`.
pub open spec fn avoids(s: Seq<char>, bad: Seq<char>) -> bool {
    forall|i: int| 0 <= i < s.len() ==> !has_char(bad, #[trigger] s[i])
}

proof fn lemma_avoids_subrange(s: Seq<char>, bad: Seq<char>, a: int, b: int)
    requires
        avoids(s, bad),
        0 <= a <= b <= s.len(),
    ensures
        avoids(s.subrange(a, b), bad),
{
    assert forall|i: int| 0 <= i < b - a implies !has_char(bad, #[trigger] s.subrange(a, b)[i]) by {
        assert(s.subrange(a, b)[i] == s[a + i]);
    }
}

proof fn lemma_first_of_clear(s: Seq<char>, stops: Seq<char>, i: int)
    requires
        0 <= i <= s.len(),
    ensures
        i <= first_of(s, stops, i) <= s.len(),
        forall|j: int| i <= j < first_of(s, stops, i) ==> !has_char(stops, #[trigger] s[j]),
    decreases s.len() - i,
{
    if i < s.len() && !has_char(stops, s[i]) {
        lemma_first_of_clear(s, stops, i + 1);
    }
}

proof fn lemma_before_any_avoids(s: Seq<char>, stops: Seq<char>)
    ensures
        avoids(before_any(s, stops), stops),
        exists|k: int| 0 <= k <= s.len() && before_any(s, stops) == #[trigger] s.take(k),
{
    lemma_first_of_clear(s, stops, 0);
    let k = first_of(s, stops, 0);
    assert forall|i: int| 0 <= i < k implies !has_char(stops, #[trigger] s.take(k)[i]) by {
        assert(s.take(k)[i] == s[i]);
    }
    assert(before_any(s, stops) == s.take(k));
}

proof fn lemma_last_of_clear(s: Seq<char>, c: char, j: int)
    requires
        j <= s.len(),
    ensures
        forall|k: int| last_of(s, c, j) < k < j ==> #[trigger] s[k] != c,
    decreases j,
{
    if j > 0 && s[j - 1] != c {
        lemma_last_of_clear(s, c, j - 1);
    }
}

proof fn lemma_after_last_avoids(s: Seq<char>, c: char)
    ensures
        avoids(after_last(s, c), seq![c]),
        exists|k: int| 0 <= k <= s.len() && after_last(s, c) == #[trigger] s.skip(k),
{
    lemma_last_of_range(s, c, s.len() as int);
    lemma_last_of_clear(s, c, s.len() as int);
    let k = last_of(s, c, s.len() as int) + 1;
    assert forall|i: int| 0 <= i < s.len() - k implies !has_char(seq![c], #[trigger] s.skip(k)[i]) by {
        assert(s.skip(k)[i] == s[k + i]);
        if has_char(seq![c], s[k + i]) {
            let w = choose|w: int| 0 <= w < 1 && seq![c][w] == s[k + i];
            assert(seq![c][w] == c);
        }
    }
}

proof fn lemma_trim_start_skip(s: Seq<char>)
    ensures
        exists|k: int| 0 <= k <= s.len() && trim_start(s) == #[trigger] s.skip(k),
    decreases s.len(),
{
    if s.len() > 0 && is_white_space(s[0]) {
        lemma_trim_start_skip(s.drop_first());
        let k = choose|k: int|
            0 <= k <= s.drop_first().len() && trim_start(s.drop_first()) == #[trigger] s.drop_first().skip(k);
        assert(s.drop_first().skip(k) =~= s.skip(k + 1));
    } else {
        assert(s.skip(0) =~= s);
    }
}

proof fn lemma_trim_end_take(s: Seq<char>)
    ensures
        exists|k: int| 0 <= k <= s.len() && trim_end(s) == #[trigger] s.take(k),
    decreases s.len(),
{
    if s.len() > 0 && is_white_space(s.last()) {
        lemma_trim_end_take(s.drop_last());
        let k = choose|k: int|
            0 <= k <= s.drop_last().len() && trim_end(s.drop_last())
                == #[trigger] s.drop_last().take(k);
        assert(s.drop_last().take(k) =~= s.take(k));
    } else {
        assert(s.take(s.len() as int) =~= s);
    }
}

proof fn lemma_trim_avoids(s: Seq<char>, bad: Seq<char>)
    requires
        avoids(s, bad),
    ensures
        avoids(trim(s), bad),
{
    lemma_trim_start_skip(s);
    let a = choose|k: int| 0 <= k <= s.len() && trim_start(s) == #[trigger] s.skip(k);
    let t = s.skip(a);
    assert(t =~= s.subrange(a, s.len() as int));
    lemma_avoids_subrange(s, bad, a, s.len() as int);
    lemma_trim_end_take(t);
    let b = choose|k: int| 0 <= k <= t.len() && trim_end(t) == #[trigger] t.take(k);
    assert(t.take(b) =~= t.subrange(0, b));
    lemma_avoids_subrange(t, bad, 0, b);
}

/// A host found in an address never holds a path, query or fragment
/// separator, user information or a port: none of `/ ? # @ :` occurs in it,
/// and it is never empty.
pub proof fn url_host_has_no_separators(url: Seq<char>)
    ensures
        url_host_spec(url) matches Some(h) ==> h.len() > 0 && forall|i: int|
            0 <= i < h.len() ==> {
                let c = #[trigger] h[i];
                c != '/' && c != '?' && c != '#' && c != '@' && c != ':'
            },
{
    if let Some(rest) = after_scheme(url) {
        let ends = "/?#"@;
        let x1 = before_any(rest, ends);
        lemma_before_any_avoids(rest, ends);
        let authority = trim(x1);
        lemma_trim_avoids(x1, ends);
        let x2 = after_last(authority, '@');
        lemma_after_last_avoids(authority, '@');
        let k2 = choose|k: int| 0 <= k <= authority.len() && after_last(authority, '@') == #[trigger] authority.skip(k);
        assert(authority.skip(k2) =~= authority.subrange(k2, authority.len() as int));
        lemma_avoids_subrange(authority, ends, k2, authority.len() as int);
        let x3 = before_any(x2, seq![':']);
        lemma_before_any_avoids(x2, seq![':']);
        let k3 = choose|k: int| 0 <= k <= x2.len() && before_any(x2, seq![':']) == #[trigger] x2.take(k);
        assert(x2.take(k3) =~= x2.subrange(0, k3));
        lemma_avoids_subrange(x2, ends, 0, k3);
        lemma_avoids_subrange(x2, seq!['@'], 0, k3);
        let host = trim(x3);
        lemma_trim_avoids(x3, ends);
        lemma_trim_avoids(x3, seq!['@']);
        lemma_trim_avoids(x3, seq![':']);
        reveal_strlit("/?#");
        assert forall|i: int| 0 <= i < host.len() implies {
            let c = #[trigger] host[i];
            c != '/' && c != '?' && c != '#' && c != '@' && c != ':'
        } by {
            let c = host[i];
            if c == '/' {
                assert(ends[0] == c);
            }
            if c == '?' {
                assert(ends[1] == c);
            }
            if c == '#' {
                assert(ends[2] == c);
            }
            if c == '@' {
                assert(seq!['@'][0] == c);
            }
            if c == ':' {
                assert(seq![':'][0] == c);
            }
        }
    }
}

fn find_from_exec(s: &Vec<char>, p: &Vec<char>, from: usize) -> (r: Option<usize>)
    ensures
        match r {
            Some(i) => find_from(s@, p@, from as int) == Some(i as int) && from <= i && i + p.len()
                <= s.len(),
            None => find_from(s@, p@, from as int) is None,
        },
{
    if p.len() > s.len() || from > s.len() - p.len() {
        return None;
    }
    let last = s.len() - p.len();
    let mut i = from;
    while i < last
        invariant
            last == s.len() - p.len(),
            p.len() <= s.len(),
            from <= i <= last,
            find_from(s@, p@, from as int) == find_from(s@, p@, i as int),
        decreases last - i,
    {
        if occurs_at_exec(s, p, i) {
            return Some(i);
        }
        i = i + 1;
    }
    if occurs_at_exec(s, p, last) {
        return Some(last);
    }
    assert(find_from(s@, p@, last + 1) is None);
    None
}

fn first_of_exec(s: &Vec<char>, stops: &Vec<char>) -> (r: usize)
    ensures
        r as int == first_of(s@, stops@, 0),
        r <= s.len(),
{
    let n = s.len();
    let mut i: usize = 0;
    while i < n
        invariant
            n == s.len(),
            i <= n,
            first_of(s@, stops@, 0) == first_of(s@, stops@, i as int),
        decreases n - i,
    {
        if has_char_exec(stops, s[i]) {
            return i;
        }
        i = i + 1;
    }
    i
}

proof fn lemma_last_of_range(s: Seq<char>, c: char, j: int)
    requires
        j <= s.len(),
    ensures
        -1 <= last_of(s, c, j) < if j < 0 { 0 } else { j },
    decreases j,
{
    if j > 0 && s[j - 1] != c {
        lemma_last_of_range(s, c, j - 1);
    }
}

fn after_last_exec(s: &Vec<char>, c: char) -> (r: Vec<char>)
    ensures
        r@ == after_last(s@, c),
{
    let n = s.len();
    let mut j: usize = n;
    while j > 0 && s[j - 1] != c
        invariant
            n == s.len(),
            j <= n,
            last_of(s@, c, n as int) == last_of(s@, c, j as int),
        decreases j,
    {
        j = j - 1;
    }
    let r = slice_chars(s, j, n);
    assert(r@ =~= s@.skip(j as int));
    r
}

/// The host of a web address (see `url_host_spec`).
pub fn url_host(url: &str) -> (r: Option<String>)
    ensures
        match r {
            Some(h) => url_host_spec(url@) == Some(h@),
            None => url_host_spec(url@) is None,
        },
{
    let s = chars_of(url);
    let sep = chars_of("://");
    proof {
        reveal_strlit("://");
    }
    let i = match find_from_exec(&s, &sep, 0) {
        Some(i) => i,
        None => return None,
    };
    let rest = match find_from_exec(&s, &sep, i + 3) {
        Some(j) => slice_chars(&s, i + 3, j),
        None => slice_chars(&s, i + 3, s.len()),
    };
    assert(after_scheme(url@) == Some(rest@));
    let ends = chars_of("/?#");
    let cut = first_of_exec(&rest, &ends);
    let authority = trim_chars(&slice_chars(&rest, 0, cut));
    let user_free = after_last_exec(&authority, '@');
    let colon = chars_of(":");
    let port_at = first_of_exec(&user_free, &colon);
    let host = trim_chars(&slice_chars(&user_free, 0, port_at));
    proof {
        reveal_strlit(":");
        assert(colon@ =~= seq![':']);
    }
    if host.len() == 0 {
        None
    } else {
        Some(string_of(&host))
    }
}

// ---------------------------------------------------------------------------
// Base64 and data URLs
// ---------------------------------------------------------------------------

/// The digit of the standard base64 alphabet for the six-bit value `v`:
/// `A`-`Z`, `a`-`z`, `0`-`9`, then `+` and `/`.
pub open spec fn base64_digit(v: int) -> char {
    if v < 26 {
        (65 + v) as char
    } else if v < 52 {
        (71 + v) as char
    } else if v < 62 {
        (v - 4) as char
    } else if v == 62 {
        '+'
    } else {
        '/'
    }
}

/// Standard base64 with padding: each group of three bytes becomes four
/// digits of six bits, most significant first; a last group of one or two
/// bytes is filled up with zero bits and padded with `=` to four characters.
pub open spec fn base64_encoded(b: Seq<u8>) -> Seq<char>
    decreases b.len(),
{
    if b.len() == 0 {
        Seq::empty()
    } else if b.len() == 1 {
        let n = b[0] as int;
        seq![base64_digit(n / 4), base64_digit((n % 4) * 16), '=', '=']
    } else if b.len() == 2 {
        let n = b[0] as int * 256 + b[1] as int;
        seq![base64_digit(n / 1024), base64_digit((n / 16) % 64), base64_digit((n % 16) * 4), '=']
    } else {
        let n = b[0] as int * 65536 + b[1] as int * 256 + b[2] as int;
        seq![
            base64_digit(n / 262144),
            base64_digit((n / 4096) % 64),
            base64_digit((n / 64) % 64),
            base64_digit(n % 64),
        ] + base64_encoded(b.subrange(3, b.len() as int))
    }
}

/// The base64 text of `n` bytes has four characters for every started group
/// of three.
pub proof fn base64_length(b: Seq<u8>)
    ensures
        base64_encoded(b).len() == ((b.len() + 2) / 3) * 4,
    decreases b.len(),
{
    if b.len() >= 3 {
        base64_length(b.subrange(3, b.len() as int));
    }
}

/// Base64 digits are never the padding character, and distinct six-bit
/// values have distinct digits.
proof fn lemma_digits(v: int, w: int)
    requires
        0 <= v < 64,
        0 <= w < 64,
    ensures
        base64_digit(v) != '=',
        base64_digit(v) == base64_digit(w) ==> v == w,
{
    assert(('=' as int) == 61);
    assert(('+' as int) == 43);
    assert(('/' as int) == 47);
}

proof fn lemma_split24(n: int)
    requires
        0 <= n < 16777216,
    ensures
        n == (n / 262144) * 262144 + ((n / 4096) % 64) * 4096 + ((n / 64) % 64) * 64 + n % 64,
        0 <= n / 262144 < 64,
{
}

proof fn lemma_split16(n: int)
    requires
        0 <= n < 65536,
    ensures
        n == (n / 1024) * 1024 + ((n / 16) % 64) * 16 + n % 16,
        0 <= n / 1024 < 64,
{
}

/// The first group of a text of three or more bytes: four digits.
proof fn lemma_first_group(a: Seq<u8>)
    requires
        a.len() >= 3,
    ensures
        ({
            let n = a[0] as int * 65536 + a[1] as int * 256 + a[2] as int;
            let e = base64_encoded(a);
            &&& 0 <= n < 16777216
            &&& e[0] == base64_digit(n / 262144)
            &&& e[1] == base64_digit((n / 4096) % 64)
            &&& e[2] == base64_digit((n / 64) % 64)
            &&& e[3] == base64_digit(n % 64)
            &&& e.subrange(4, e.len() as int) == base64_encoded(a.subrange(3, a.len() as int))
        }),
{
    base64_length(a.subrange(3, a.len() as int));
    let e = base64_encoded(a);
    assert(e.subrange(4, e.len() as int) =~= base64_encoded(a.subrange(3, a.len() as int)));
}

proof fn lemma_same_group3(a: Seq<u8>, b: Seq<u8>)
    requires
        a.len() >= 3,
        b.len() >= 3,
        base64_encoded(a).subrange(0, 4) == base64_encoded(b).subrange(0, 4),
    ensures
        a[0] == b[0] && a[1] == b[1] && a[2] == b[2],
{
    lemma_first_group(a);
    lemma_first_group(b);
    let n = a[0] as int * 65536 + a[1] as int * 256 + a[2] as int;
    let m = b[0] as int * 65536 + b[1] as int * 256 + b[2] as int;
    let ea = base64_encoded(a);
    let eb = base64_encoded(b);
    assert(ea[0] == eb[0] && ea[1] == eb[1] && ea[2] == eb[2] && ea[3] == eb[3]) by {
        assert(ea.subrange(0, 4)[0] == eb.subrange(0, 4)[0]);
        assert(ea.subrange(0, 4)[1] == eb.subrange(0, 4)[1]);
        assert(ea.subrange(0, 4)[2] == eb.subrange(0, 4)[2]);
        assert(ea.subrange(0, 4)[3] == eb.subrange(0, 4)[3]);
    }
    lemma_split24(n);
    lemma_split24(m);
    lemma_digits(n / 262144, m / 262144);
    lemma_digits((n / 4096) % 64, (m / 4096) % 64);
    lemma_digits((n / 64) % 64, (m / 64) % 64);
    lemma_digits(n % 64, m % 64);
    assert(n == m);
}

proof fn lemma_short_texts(a: Seq<u8>, b: Seq<u8>)
    requires
        1 <= a.len() <= 3,
        1 <= b.len() <= 3,
        base64_encoded(a) == base64_encoded(b),
        a.len() < 3 || b.len() < 3,
    ensures
        a == b,
{
    let ea = base64_encoded(a);
    if a.len() == 3 {
        lemma_first_group(a);
        let n = a[0] as int * 65536 + a[1] as int * 256 + a[2] as int;
        lemma_split24(n);
        lemma_digits(n % 64, 0);
        assert(ea[3] == '=');
        assert(false);
    }
    if b.len() == 3 {
        lemma_first_group(b);
        let n = b[0] as int * 65536 + b[1] as int * 256 + b[2] as int;
        lemma_split24(n);
        lemma_digits(n % 64, 0);
        assert(ea[3] == '=');
        assert(false);
    }
    if a.len() == 1 && b.len() == 2 {
        let m = b[0] as int * 256 + b[1] as int;
        lemma_split16(m);
        lemma_digits((m % 16) * 4, 0);
        assert(ea[2] == '=');
        assert(false);
    }
    if a.len() == 2 && b.len() == 1 {
        let m = a[0] as int * 256 + a[1] as int;
        lemma_split16(m);
        lemma_digits((m % 16) * 4, 0);
        assert(base64_encoded(b)[2] == '=');
        assert(false);
    }
    if a.len() == 1 {
        let n = a[0] as int;
        let m = b[0] as int;
        lemma_digits(n / 4, m / 4);
        lemma_digits((n % 4) * 16, (m % 4) * 16);
        assert(a =~= b);
    } else {
        let n = a[0] as int * 256 + a[1] as int;
        let m = b[0] as int * 256 + b[1] as int;
        lemma_split16(n);
        lemma_split16(m);
        lemma_digits(n / 1024, m / 1024);
        lemma_digits((n / 16) % 64, (m / 16) % 64);
        lemma_digits((n % 16) * 4, (m % 16) * 4);
        assert(n == m);
        assert(a =~= b);
    }
}

/// Different bytes have different base64 texts.
#[verifier::spinoff_prover]
proof fn lemma_base64_injective(a: Seq<u8>, b: Seq<u8>)
    requires
        base64_encoded(a) == base64_encoded(b),
    ensures
        a == b,
    decreases a.len(),
{
    base64_length(a);
    base64_length(b);
    let la = a.len() as int;
    let lb = b.len() as int;
    if la == 0 || lb == 0 {
        assert(la == 0 && lb == 0) by (nonlinear_arith)
            requires
                ((la + 2) / 3) * 4 == ((lb + 2) / 3) * 4,
                la == 0 || lb == 0,
                la >= 0,
                lb >= 0,
        ;
        assert(a =~= b);
    } else if la > 3 && lb > 3 {
        lemma_same_group3(a, b);
        lemma_first_group(a);
        lemma_first_group(b);
        let ra = a.subrange(3, a.len() as int);
        let rb = b.subrange(3, b.len() as int);
        lemma_base64_injective(ra, rb);
        assert forall|i: int| 0 <= i < a.len() implies a[i] == b[i] by {
            if i >= 3 {
                assert(a[i] == ra[i - 3] && b[i] == rb[i - 3]);
            }
        }
        assert(a =~= b);
    } else {
        assert(la <= 3 && lb <= 3) by (nonlinear_arith)
            requires
                ((la + 2) / 3) * 4 == ((lb + 2) / 3) * 4,
                la <= 3 || lb <= 3,
                la >= 1,
                lb >= 1,
        ;
        if a.len() == 3 && b.len() == 3 {
            lemma_same_group3(a, b);
            assert(a =~= b);
        } else {
            lemma_short_texts(a, b);
        }
    }
}

/// What standard base64 decoding makes of the text with characters `text`:
/// the bytes whose base64 text it is (there is at most one such), `None`
/// when there are none.
pub open spec fn base64_decoded(text: Seq<char>) -> Option<Seq<u8>> {
    if exists|b: Seq<u8>| #[trigger] base64_encoded(b) == text {
        Some(choose|b: Seq<u8>| #[trigger] base64_encoded(b) == text)
    } else {
        None
    }
}

/// Decoding gives back the bytes of a base64 text.
pub proof fn base64_decodes_encoding(b: Seq<u8>)
    ensures
        base64_decoded(base64_encoded(b)) == Some(b),
{
    let t = base64_encoded(b);
    assert(exists|c: Seq<u8>| #[trigger] base64_encoded(c) == t);
    let c = choose|c: Seq<u8>| #[trigger] base64_encoded(c) == t;
    lemma_base64_injective(c, b);
}

/// Whether the base64 text of `n` bytes has a length that fits in `usize`.
pub open spec fn encodable(n: nat) -> bool {
    ((n + 2) / 3) * 4 <= usize::MAX
}

/// Whether the base64 text of `n` bytes has a length that fits in `usize`.
fn fits_base64(n: usize) -> (r: bool)
    ensures
        r == encodable(n as nat),
{
    let groups: usize = n / 3 + if n % 3 == 0 {
        0
    } else {
        1
    };
    proof {
        assert(groups == (n + 2) / 3) by (nonlinear_arith)
            requires
                groups == n / 3 + if n % 3 == 0 {
                    0int
                } else {
                    1int
                },
        ;
        assert((groups <= usize::MAX / 4) == (groups * 4 <= usize::MAX)) by (nonlinear_arith);
    }
    groups <= usize::MAX / 4
}

/// `base64::Engine::encode` with the `STANDARD` engine: standard base64
/// with padding, as `base64_encoded` states it. The call panics when the
/// text's length overflows `usize`, which the precondition rules out.
#[verifier::external_body]
fn base64_encode(bytes: &[u8]) -> (r: String)
    requires
        encodable(bytes@.len()),
    ensures
        r@ == base64_encoded(bytes@),
{
    base64::engine::general_purpose::STANDARD.encode(bytes)
}

/// `base64::Engine::decode` with the `STANDARD` engine, its error dropped.
/// That engine requires canonical padding and zero trailing bits, so
/// decoding succeeds exactly on the texts that encoding makes, and gives back
/// the bytes they were made of.
#[verifier::external_body]
fn base64_decode(text: &str) -> (r: Option<Vec<u8>>)
    ensures
        match r {
            Some(v) => base64_encoded(v@) == text@,
            None => forall|b: Seq<u8>| #[trigger] base64_encoded(b) != text@,
        },
{
    base64::engine::general_purpose::STANDARD.decode(text).ok()
}

/// The data URL of an icon image: its subtype and its base64 text; `None`
/// when the bytes are not a recognised image.
pub open spec fn image_data_url_spec(bytes: Seq<u8>) -> Option<Seq<char>> {
    match image_mime(bytes) {
        None => None,
        Some(m) => Some("data:image/"@ + m + ";base64,"@ + base64_encoded(bytes)),
    }
}

/// The data URL of an icon image, if its format is recognised.
pub fn image_data_url(bytes: &[u8]) -> (r: Option<String>)
    requires
        encodable(bytes@.len()),
    ensures
        match r {
            Some(u) => image_data_url_spec(bytes@) == Some(u@),
            None => image_data_url_spec(bytes@) is None,
        },
{
    let mime = match detect_image_mime(bytes) {
        Some(m) => m,
        None => return None,
    };
    let encoded = base64_encode(bytes);
    let mut s = string_from("data:image/");
    push_text(&mut s, mime);
    push_text(&mut s, ";base64,");
    push_text(&mut s, encoded.as_str());
    Some(s)
}

/// The icon made of what the icon download printed: the printed text,
/// trimmed, decoded from base64 and turned into a data URL; empty when it is
/// not base64 of a recognised image (or too long to encode again).
pub open spec fn site_icon_spec(stdout: Seq<char>) -> Seq<char> {
    match base64_decoded(trim(stdout)) {
        Some(bytes) => if encodable(bytes.len()) {
            match image_data_url_spec(bytes) {
                Some(u) => u,
                None => Seq::empty(),
            }
        } else {
            Seq::empty()
        },
        None => Seq::empty(),
    }
}

/// Turns the base64 text printed by the icon download into an icon; an icon
/// carries the printed text, trimmed, as its base64 part.
pub fn site_icon_from_output(stdout: &str) -> (r: String)
    ensures
        r@ == site_icon_spec(stdout@),
        r@.len() > 0 ==> exists|m: Seq<char>| r@ == "data:image/"@ + m + ";base64,"@ + trim(stdout@),
{
    let text = string_of(&trim_str(stdout));
    let bytes = match base64_decode(text.as_str()) {
        Some(b) => b,
        None => return String::new(),
    };
    proof {
        base64_decodes_encoding(bytes@);
    }
    if !fits_base64(bytes.len()) {
        return String::new();
    }
    match image_data_url(bytes.as_slice()) {
        Some(u) => {
            assert(u@ == "data:image/"@ + image_mime(bytes@)->0 + ";base64,"@ + trim(stdout@));
            u
        },
        None => String::new(),
    }
}

// ---------------------------------------------------------------------------
// Browser icon stores
// ---------------------------------------------------------------------------

/// The largest icon image taken from a browser's icon store, in bytes.
pub const MAX_ICON_BYTES: usize = 262144;

/// A row of a browser's icon store: a page address and one of its images,
/// largest images first.
pub struct FaviconRow {
    pub page_url: String,
    pub image: Vec<u8>,
}

/// Whether a row's image is kept: not empty and not larger than the limit.
pub open spec fn usable_image(data: Seq<u8>) -> bool {
    0 < data.len() <= MAX_ICON_BYTES
}

/// The icon map after one more row: the first usable, recognised image of
/// each non-empty page key is kept.
pub open spec fn favicon_step(m: Map<Seq<char>, Seq<char>>, row: FaviconRow) -> Map<
    Seq<char>,
    Seq<char>,
> {
    let data = row.image@;
    let key = bookmark_key(row.page_url@);
    if !usable_image(data) || key.len() == 0 || m.contains_key(key) {
        m
    } else {
        match image_data_url_spec(data) {
            Some(u) => m.insert(key, u),
            None => m,
        }
    }
}

/// The icon map made of the rows, taken in order.
pub open spec fn favicon_fold(rows: Seq<FaviconRow>) -> Map<Seq<char>, Seq<char>>
    decreases rows.len(),
{
    if rows.len() == 0 {
        Map::empty()
    } else {
        favicon_step(favicon_fold(rows.drop_last()), rows.last())
    }
}

/// The page key of an icon-store row.
pub open spec fn row_key(row: FaviconRow) -> Seq<char> {
    bookmark_key(row.page_url@)
}

/// Row `i` can give its key an icon: its image is usable and recognised and
/// its key is not empty.
pub open spec fn contributes(rows: Seq<FaviconRow>, i: int) -> bool {
    &&& usable_image(rows[i].image@)
    &&& row_key(rows[i]).len() > 0
    &&& image_data_url_spec(rows[i].image@) is Some
}

proof fn lemma_fold_keys(rows: Seq<FaviconRow>, k: Seq<char>)
    ensures
        favicon_fold(rows).contains_key(k) ==> exists|j: int|
            0 <= j < rows.len() && #[trigger] contributes(rows, j) && row_key(rows[j]) == k,
    decreases rows.len(),
{
    if rows.len() > 0 {
        let prev = rows.drop_last();
        lemma_fold_keys(prev, k);
        if favicon_fold(rows).contains_key(k) {
            if favicon_fold(prev).contains_key(k) {
                let j = choose|j: int|
                    0 <= j < prev.len() && #[trigger] contributes(prev, j) && row_key(prev[j]) == k;
                assert(prev[j] == rows[j]);
                assert(contributes(rows, j));
            } else {
                assert(contributes(rows, rows.len() - 1));
            }
        }
    }
}

/// A row that can give its key an icon, after no earlier row of that key
/// could, decides the key's icon: icon-store rows come largest image first,
/// so a page gets its largest usable icon.
pub proof fn favicon_map_keeps_first(rows: Seq<FaviconRow>, i: int)
    requires
        0 <= i < rows.len(),
        contributes(rows, i),
        forall|j: int|
            0 <= j < i && row_key(#[trigger] rows[j]) == row_key(rows[i]) ==> !contributes(rows, j),
    ensures
        favicon_fold(rows).contains_key(row_key(rows[i])),
        favicon_fold(rows)[row_key(rows[i])] == image_data_url_spec(rows[i].image@)->0,
    decreases rows.len(),
{
    let prev = rows.drop_last();
    let k = row_key(rows[i]);
    if i == rows.len() - 1 {
        lemma_fold_keys(prev, k);
        if favicon_fold(prev).contains_key(k) {
            let j = choose|j: int|
                0 <= j < prev.len() && #[trigger] contributes(prev, j) && row_key(prev[j]) == k;
            assert(prev[j] == rows[j]);
            assert(contributes(rows, j));
        }
    } else {
        assert forall|j: int|
            0 <= j < i && row_key(#[trigger] prev[j]) == row_key(prev[i]) implies !contributes(
            prev,
            j,
        ) by {
            assert(prev[j] == rows[j]);
            assert(!contributes(rows, j));
        }
        assert(prev[i] == rows[i]);
        favicon_map_keeps_first(prev, i);
    }
}

/// Every key of an icon map is the key of a row that can give it an icon.
pub proof fn favicon_map_keys_come_from_rows(rows: Seq<FaviconRow>, k: Seq<char>)
    requires
        favicon_fold(rows).contains_key(k),
    ensures
        exists|j: int| 0 <= j < rows.len() && #[trigger] contributes(rows, j) && row_key(rows[j]) == k,
{
    lemma_fold_keys(rows, k);
}

/// The icon of a page key: the key's own icon, else the icon of the key
/// without its fragment.
pub open spec fn favicon_for(m: Map<Seq<char>, Seq<char>>, key: Seq<char>) -> Option<Seq<char>> {
    if m.contains_key(key) {
        Some(m[key])
    } else if has_char(key, '#') && m.contains_key(before_any(key, seq!['#'])) {
        Some(m[before_any(key, seq!['#'])])
    } else {
        None
    }
}

/// Page keys and their icons as data URLs.
pub struct FaviconMap {
    icons: StringHashMap<String>,
}

impl View for FaviconMap {
    type V = Map<Seq<char>, Seq<char>>;

    closed spec fn view(&self) -> Map<Seq<char>, Seq<char>> {
        self.icons@.map_values(|v: String| v@)
    }
}

impl FaviconMap {
    /// A map without icons.
    pub fn new() -> (r: FaviconMap)
        ensures
            r@ == Map::<Seq<char>, Seq<char>>::empty(),
    {
        let r = FaviconMap { icons: StringHashMap::new() };
        assert(r@ =~= Map::<Seq<char>, Seq<char>>::empty());
        r
    }

    /// The icon filed under exactly `key`.
    pub fn get(&self, key: &str) -> (r: Option<String>)
        ensures
            match r {
                Some(u) => self@.contains_key(key@) && self@[key@] == u@,
                None => !self@.contains_key(key@),
            },
    {
        match self.icons.get(key) {
            Some(u) => Some(u.clone()),
            None => None,
        }
    }

    /// Whether an icon is filed under `key`.
    pub fn contains(&self, key: &str) -> (r: bool)
        ensures
            r == self@.contains_key(key@),
    {
        self.icons.contains_key(key)
    }

    /// Files `icon` under `key`.
    pub fn insert(&mut self, key: String, icon: String)
        ensures
            final(self)@ == old(self)@.insert(key@, icon@),
    {
        let ghost k = key@;
        self.icons.insert(key, icon);
        assert(self@ =~= old(self)@.insert(k, icon@));
    }

    /// The icon for a page key, falling back to the key without fragment.
    pub fn icon_for(&self, key: &str) -> (r: Option<String>)
        ensures
            match r {
                Some(u) => favicon_for(self@, key@) == Some(u@),
                None => favicon_for(self@, key@) is None,
            },
    {
        if let Some(u) = self.get(key) {
            return Some(u);
        }
        let k = chars_of(key);
        if !has_char_exec(&k, '#') {
            return None;
        }
        let hash = chars_of("#");
        proof {
            reveal_strlit("#");
            assert(hash@ =~= seq!['#']);
        }
        let cut = first_of_exec(&k, &hash);
        let base = string_of(&slice_chars(&k, 0, cut));
        self.get(base.as_str())
    }
}

/// Builds the icon map of a browser profile from its icon-store rows.
pub fn build_favicon_map(rows: &Vec<FaviconRow>) -> (r: FaviconMap)
    ensures
        r@ == favicon_fold(rows@),
{
    let mut map = FaviconMap::new();
    let n = rows.len();
    let mut i: usize = 0;
    assert(rows@.take(0) =~= Seq::<FaviconRow>::empty());
    while i < n
        invariant
            n == rows.len(),
            i <= n,
            map@ == favicon_fold(rows@.take(i as int)),
        decreases n - i,
    {
        let row = &rows[i];
        assert(rows@.take(i + 1).drop_last() =~= rows@.take(i as int));
        assert(rows@.take(i + 1).last() == rows@[i as int]);
        let len = row.image.len();
        if len > 0 && len <= MAX_ICON_BYTES {
            let key = normalize_bookmark_url(row.page_url.as_str());
            let key_chars = chars_of(key.as_str());
            if key_chars.len() > 0 && !map.contains(key.as_str()) {
                if let Some(u) = image_data_url(row.image.as_slice()) {
                    map.insert(key, u);
                }
            }
        }
        i = i + 1;
    }
    assert(rows@.take(n as int) =~= rows@);
    map
}

/// What the icon lookup of a website needs: the page key of the trimmed
/// address and its host.
pub struct IconLookup {
    pub page_key: String,
    pub host: Option<String>,
}

/// Whether a trimmed address is a web page (`http://` or `https://`).
pub open spec fn is_web_address(t: Seq<char>) -> bool {
    starts_with(t, "http://"@) || starts_with(t, "https://"@)
}

/// The icon lookup of a website entry; `None` for addresses that are not
/// `http(s)`.
pub fn website_icon_key(url: &str) -> (r: Option<IconLookup>)
    ensures
        !is_web_address(trim(url@)) ==> r is None,
        is_web_address(trim(url@)) ==> r is Some && r->0.page_key@ == bookmark_key(trim(url@))
            && match r->0.host {
            Some(h) => url_host_spec(trim(url@)) == Some(h@),
            None => url_host_spec(trim(url@)) is None,
        },
{
    let t = trim_str(url);
    if !(starts_with_exec(&t, &chars_of("http://")) || starts_with_exec(&t, &chars_of("https://"))) {
        return None;
    }
    let trimmed = string_of(&t);
    let page_key = normalize_bookmark_url(trimmed.as_str());
    let host = url_host(trimmed.as_str());
    Some(IconLookup { page_key, host })
}

// ---------------------------------------------------------------------------
// Bookmarks
// ---------------------------------------------------------------------------

/// A node of a browser's bookmark file, as far as the sync reads it: its
/// `type`, `name` and `url` strings and its `children` array, each `None`
/// when missing or of another JSON type.
pub struct BookmarkNode {
    pub kind: Option<String>,
    pub name: Option<String>,
    pub url: Option<String>,
    pub children: Option<Vec<BookmarkNode>>,
}

/// A bookmark file: the groups under `roots` (bookmark bar, other bookmarks,
/// ...) in the order the file's object yields them, and the top node itself.
pub struct BookmarkFile {
    pub roots: Vec<BookmarkNode>,
    pub top: BookmarkNode,
}

/// The view of an optional string.
pub open spec fn opt_string_view(o: Option<String>) -> Option<Seq<char>> {
    match o {
        Some(s) => Some(s@),
        None => None,
    }
}

/// `n` is how the sync reads the JSON value `jv`: the `type`, `name` and
/// `url` members where they are strings, and the `children` member where it
/// is an array, read item by item.
pub open spec fn node_matches(jv: JsonView, n: BookmarkNode) -> bool
    decreases n,
{
    &&& opt_string_view(n.kind) == json_text(json_field(jv, "type"@))
    &&& opt_string_view(n.name) == json_text(json_field(jv, "name"@))
    &&& opt_string_view(n.url) == json_text(json_field(jv, "url"@))
    &&& match n.children {
        None => json_items(json_field(jv, "children"@)) is None,
        Some(v) => json_items(json_field(jv, "children"@)) matches Some(ks) && nodes_match(ks, v@),
    }
}

/// Each node is read from the value at its position.
pub open spec fn nodes_match(ks: Seq<JsonView>, ns: Seq<BookmarkNode>) -> bool
    decreases ns,
{
    if ns.len() == 0 {
        ks.len() == 0
    } else {
        &&& ks.len() == ns.len()
        &&& nodes_match(ks.drop_last(), ns.drop_last())
        &&& node_matches(ks[ks.len() - 1], ns[ns.len() - 1])
    }
}

/// The values of the members of the `roots` object, in order; none when
/// there is no such object.
pub open spec fn root_values(jv: JsonView) -> Seq<JsonView> {
    match json_field(jv, "roots"@) {
        Some(JsonView::Object(es)) => es.map_values(|e: (Seq<char>, JsonView)| e.1),
        _ => Seq::empty(),
    }
}

/// `f` is how the sync reads a bookmark document: its groups from `roots`
/// and the document itself as the top node.
pub open spec fn file_matches(jv: JsonView, f: BookmarkFile) -> bool {
    nodes_match(root_values(jv), f.roots@) && node_matches(jv, f.top)
}

/// Reads a bookmark node out of a JSON value.
pub fn bookmark_node_of(j: &Json) -> (n: BookmarkNode)
    ensures
        node_matches(j@, n),
    decreases j,
{
    let kind = text_of(get_field(j, "type"));
    let name = text_of(get_field(j, "name"));
    let url = text_of(get_field(j, "url"));
    let children = match get_field(j, "children") {
        None => None,
        Some(c) => match items_of(c) {
            None => None,
            Some(kids) => {
                proof {
                    lemma_json_views(kids@);
                }
                let ghost ks = json_views(kids@);
                let mut v: Vec<BookmarkNode> = Vec::new();
                let m = kids.len();
                let mut i: usize = 0;
                assert(ks.take(0) =~= Seq::<JsonView>::empty());
                while i < m
                    invariant
                        m == kids.len(),
                        i <= m,
                        ks == json_views(kids@),
                        ks.len() == m,
                        forall|t: int| 0 <= t < m ==> #[trigger] ks[t] == json_view(kids@[t]),
                        decreases_to!(*j => *c),
                        decreases_to!(*c => *kids),
                        v.len() == i,
                        nodes_match(ks.take(i as int), v@),
                    decreases m - i,
                {
                    proof {
                        assert(decreases_to!(*kids => kids[i as int]));
                    }
                    let node = bookmark_node_of(&kids[i]);
                    let ghost before = v@;
                    v.push(node);
                    assert(ks.take(i + 1).drop_last() =~= ks.take(i as int));
                    assert(v@.drop_last() =~= before);
                    assert(ks.take(i + 1)[i as int] == ks[i as int]);
                    i = i + 1;
                }
                assert(ks.take(m as int) =~= ks);
                Some(v)
            },
        },
    };
    BookmarkNode { kind, name, url, children }
}

/// Reads a bookmark document out of a JSON value.
pub fn bookmark_file_of(j: &Json) -> (f: BookmarkFile)
    ensures
        file_matches(j@, f),
{
    let mut roots: Vec<BookmarkNode> = Vec::new();
    if let Some(r) = get_field(j, "roots") {
        if let Json::Object(es) = r {
            proof {
                lemma_member_views(es@);
            }
            let ghost vals = member_views(es@).map_values(|e: (Seq<char>, JsonView)| e.1);
            let m = es.len();
            let mut i: usize = 0;
            assert(vals.take(0) =~= Seq::<JsonView>::empty());
            while i < m
                invariant
                    m == es.len(),
                    i <= m,
                    vals == member_views(es@).map_values(|e: (Seq<char>, JsonView)| e.1),
                    vals.len() == m,
                    forall|t: int| 0 <= t < m ==> #[trigger] vals[t] == json_view(es@[t].1),
                    roots.len() == i,
                    nodes_match(vals.take(i as int), roots@),
                decreases m - i,
            {
                let node = bookmark_node_of(&es[i].1);
                let ghost before = roots@;
                roots.push(node);
                assert(vals.take(i + 1).drop_last() =~= vals.take(i as int));
                assert(roots@.drop_last() =~= before);
                assert(vals.take(i + 1)[i as int] == vals[i as int]);
                i = i + 1;
            }
            assert(vals.take(m as int) =~= vals);
        }
    }
    let top = bookmark_node_of(j);
    BookmarkFile { roots, top }
}

/// Reads a browser's bookmark file; `None` when it is not JSON.
pub fn parse_bookmark_file(text: &str) -> (r: Option<BookmarkFile>)
    ensures
        match json_parsed(text@) {
            Ok(jv) => r matches Some(f) && file_matches(jv, f),
            Err(_) => r is None,
        },
{
    match parse_json(text) {
        Ok(j) => Some(bookmark_file_of(&j)),
        Err(_) => None,
    }
}

/// The text of an optional string, empty when missing.
pub open spec fn opt_text(o: Option<String>) -> Seq<char> {
    match o {
        Some(s) => s@,
        None => Seq::empty(),
    }
}

/// The fields of a synchronised entry, in declaration order: name, alias,
/// type, address, description, icon.
pub open spec fn synced_view(it: SyncedItem) -> Seq<Seq<char>> {
    seq![it.name@, it.alias@, it.kind@, it.url@, it.description@, it.icon@]
}

/// The field views of a list of synchronised entries.
pub open spec fn synced_views(items: Seq<SyncedItem>) -> Seq<Seq<Seq<char>>> {
    items.map_values(|it: SyncedItem| synced_view(it))
}

/// The folder path of a sub-folder named `name` inside `folder`.
pub open spec fn folder_label(folder: Seq<char>, name: Seq<char>) -> Seq<char> {
    if folder.len() == 0 {
        trim(name)
    } else {
        folder + seq!['/'] + trim(name)
    }
}

/// The description of a bookmark of browser profile `source` in `folder`.
pub open spec fn bookmark_description(source: Seq<char>, folder: Seq<char>) -> Seq<char> {
    "来自"@ + source + "收藏夹"@ + if folder.len() == 0 {
        Seq::empty()
    } else {
        " · "@ + folder
    }
}

/// The icon a bookmark gets: its page's icon, or nothing.
pub open spec fn icon_or_empty(icon: Option<Seq<char>>) -> Seq<char> {
    match icon {
        Some(u) => u,
        None => Seq::empty(),
    }
}

/// The website entry of a node, if it is a bookmark with a name and an
/// `http(s)` address.
pub open spec fn child_entry(
    child: BookmarkNode,
    source: Seq<char>,
    folder: Seq<char>,
    icons: Map<Seq<char>, Seq<char>>,
) -> Seq<Seq<Seq<char>>> {
    let url = trim(opt_text(child.url));
    let name = trim(opt_text(child.name));
    if child.kind is Some && child.kind->0@ == "url"@ && name.len() > 0 && is_web_address(url) {
        seq![
            seq![
                name,
                str_lowercase(source),
                "website"@,
                url,
                bookmark_description(source, folder),
                icon_or_empty(favicon_for(icons, bookmark_key(url))),
            ],
        ]
    } else {
        Seq::empty()
    }
}

/// The entries found under a node: for each child in order, its own entry
/// and then, for a named folder, the entries under it.
pub open spec fn branch_entries(
    node: BookmarkNode,
    source: Seq<char>,
    folder: Seq<char>,
    icons: Map<Seq<char>, Seq<char>>,
) -> Seq<Seq<Seq<char>>>
    decreases node,
{
    match node.children {
        Some(kids) => children_entries(kids@, source, folder, icons),
        None => Seq::empty(),
    }
}

/// The entries found among a list of sibling nodes.
pub open spec fn children_entries(
    kids: Seq<BookmarkNode>,
    source: Seq<char>,
    folder: Seq<char>,
    icons: Map<Seq<char>, Seq<char>>,
) -> Seq<Seq<Seq<char>>>
    decreases kids,
{
    if kids.len() == 0 {
        Seq::empty()
    } else {
        let child = kids[kids.len() - 1];
        let below = if child.children is Some && child.name is Some {
            branch_entries(child, source, folder_label(folder, child.name->0@), icons)
        } else {
            Seq::empty()
        };
        children_entries(kids.drop_last(), source, folder, icons) + child_entry(
            child,
            source,
            folder,
            icons,
        ) + below
    }
}

/// The entries of the bookmark groups, group after group; each group's name
/// is the folder of its bookmarks.
pub open spec fn roots_entries(
    roots: Seq<BookmarkNode>,
    source: Seq<char>,
    icons: Map<Seq<char>, Seq<char>>,
) -> Seq<Seq<Seq<char>>>
    decreases roots.len(),
{
    if roots.len() == 0 {
        Seq::empty()
    } else {
        roots_entries(roots.drop_last(), source, icons) + branch_entries(
            roots.last(),
            source,
            opt_text(roots.last().name),
            icons,
        )
    }
}

/// The entries of a bookmark file: those of its groups, or, in a file without
/// groups, those under its top node.
pub open spec fn bookmark_entries(
    file: BookmarkFile,
    source: Seq<char>,
    icons: Map<Seq<char>, Seq<char>>,
) -> Seq<Seq<Seq<char>>> {
    if file.roots@.len() == 0 {
        branch_entries(file.top, source, Seq::empty(), icons)
    } else {
        roots_entries(file.roots@, source, icons)
    }
}

fn opt_chars(o: &Option<String>) -> (r: Vec<char>)
    ensures
        r@ == opt_text(*o),
{
    match o {
        Some(s) => chars_of(s.as_str()),
        None => Vec::new(),
    }
}

fn folder_label_exec(folder: &Vec<char>, name: &String) -> (r: Vec<char>)
    ensures
        r@ == folder_label(folder@, name@),
{
    let t = trim_str(name.as_str());
    if folder.len() == 0 {
        t
    } else {
        let mut r = slice_chars(folder, 0, folder.len());
        r.push('/');
        let n = t.len();
        let mut i: usize = 0;
        assert(folder@.subrange(0, folder@.len() as int) =~= folder@);
        while i < n
            invariant
                n == t.len(),
                i <= n,
                r@ == folder@ + seq!['/'] + t@.take(i as int),
            decreases n - i,
        {
            r.push(t[i]);
            assert(t@.take(i + 1) =~= t@.take(i as int).push(t@[i as int]));
            i = i + 1;
        }
        assert(t@.take(n as int) =~= t@);
        r
    }
}

/// The description of a bookmark of `source` in `folder`.
pub fn bookmark_description_text(source: &str, folder: &Vec<char>) -> (r: String)
    ensures
        r@ == bookmark_description(source@, folder@),
{
    let mut s = string_from("来自");
    push_text(&mut s, source);
    push_text(&mut s, "收藏夹");
    if folder.len() > 0 {
        push_text(&mut s, " · ");
        push_chars(&mut s, folder);
        assert(s@ =~= bookmark_description(source@, folder@));
    } else {
        assert(s@ =~= bookmark_description(source@, folder@));
    }
    s
}

fn push_child_entry(
    child: &BookmarkNode,
    source: &str,
    folder: &Vec<char>,
    icons: &FaviconMap,
    out: &mut Vec<SyncedItem>,
)
    ensures
        synced_views(final(out)@) == synced_views(old(out)@) + child_entry(
            *child,
            source@,
            folder@,
            icons@,
        ),
{
    let is_url = match &child.kind {
        Some(k) => str_eq(k.as_str(), "url"),
        None => false,
    };
    let url = trim_chars(&opt_chars(&child.url));
    let name = trim_chars(&opt_chars(&child.name));
    if !is_url || name.len() == 0 || !(starts_with_exec(&url, &chars_of("http://"))
        || starts_with_exec(&url, &chars_of("https://"))) {
        assert(synced_views(out@) =~= synced_views(old(out)@) + child_entry(
            *child,
            source@,
            folder@,
            icons@,
        ));
        return;
    }
    let url_text = string_of(&url);
    let key = normalize_bookmark_url(url_text.as_str());
    let icon = match icons.icon_for(key.as_str()) {
        Some(u) => u,
        None => String::new(),
    };
    let it = SyncedItem {
        name: string_of(&name),
        alias: lowercase(source),
        kind: string_from("website"),
        url: url_text,
        description: bookmark_description_text(source, folder),
        icon,
    };
    let ghost before = out@;
    out.push(it);
    assert(synced_views(out@) =~= synced_views(before).push(synced_view(it)));
    assert(synced_views(out@) =~= synced_views(old(out)@) + child_entry(
        *child,
        source@,
        folder@,
        icons@,
    ));
}

/// Appends the entries found under `node` to `out`.
pub fn collect_bookmark_branch(
    node: &BookmarkNode,
    source: &str,
    folder: &Vec<char>,
    icons: &FaviconMap,
    out: &mut Vec<SyncedItem>,
)
    ensures
        synced_views(final(out)@) == synced_views(old(out)@) + branch_entries(
            *node,
            source@,
            folder@,
            icons@,
        ),
    decreases node,
{
    let kids = match &node.children {
        Some(k) => k,
        None => {
            assert(synced_views(out@) =~= synced_views(old(out)@) + branch_entries(
                *node,
                source@,
                folder@,
                icons@,
            ));
            return ;
        },
    };
    let n = kids.len();
    let mut i: usize = 0;
    assert(kids@.take(0) =~= Seq::<BookmarkNode>::empty());
    assert(synced_views(out@) =~= synced_views(old(out)@) + children_entries(
        kids@.take(0),
        source@,
        folder@,
        icons@,
    ));
    while i < n
        invariant
            n == kids.len(),
            i <= n,
            node.children == Some(*kids),
            synced_views(out@) == synced_views(old(out)@) + children_entries(
                kids@.take(i as int),
                source@,
                folder@,
                icons@,
            ),
        decreases n - i,
    {
        let child = &kids[i];
        let ghost start = out@;
        let ghost pre = kids@.take(i as int);
        let ghost cur = kids@.take(i + 1);
        assert(cur.drop_last() =~= pre);
        assert(cur[cur.len() - 1] == kids@[i as int]);
        push_child_entry(child, source, folder, icons, out);
        let ghost mid = out@;
        if child.children.is_some() {
            match &child.name {
                Some(name) => {
                    let next = folder_label_exec(folder, name);
                    proof {
                        let c = node.children;
                        assert(decreases_to!(*node => c));
                        assert(decreases_to!(c => c->0));
                        assert(decreases_to!(*kids => kids[i as int]));
                        assert(decreases_to!(*node => *child));
                    }
                    collect_bookmark_branch(child, source, &next, icons, out);
                },
                None => {},
            }
        }
        assert(synced_views(out@) =~= synced_views(old(out)@) + children_entries(
            cur,
            source@,
            folder@,
            icons@,
        ));
        i = i + 1;
    }
    assert(kids@.take(n as int) =~= kids@);
}

/// Appends the website entries of a bookmark file of browser profile
/// `source` to `out`, with icons from the profile's icon map.
pub fn collect_bookmarks(
    file: &BookmarkFile,
    source: &str,
    favicons: &FaviconMap,
    out: &mut Vec<SyncedItem>,
)
    ensures
        synced_views(final(out)@) == synced_views(old(out)@) + bookmark_entries(
            *file,
            source@,
            favicons@,
        ),
{
    let n = file.roots.len();
    if n == 0 {
        let top_folder: Vec<char> = Vec::new();
        collect_bookmark_branch(&file.top, source, &top_folder, favicons, out);
        assert(top_folder@ =~= Seq::<char>::empty());
        return ;
    }
    let mut i: usize = 0;
    assert(file.roots@.take(0) =~= Seq::<BookmarkNode>::empty());
    assert(synced_views(out@) =~= synced_views(old(out)@) + roots_entries(
        file.roots@.take(0),
        source@,
        favicons@,
    ));
    while i < n
        invariant
            n == file.roots.len(),
            i <= n,
            synced_views(out@) == synced_views(old(out)@) + roots_entries(
                file.roots@.take(i as int),
                source@,
                favicons@,
            ),
        decreases n - i,
    {
        let root = &file.roots[i];
        let ghost cur = file.roots@.take(i + 1);
        assert(cur.drop_last() =~= file.roots@.take(i as int));
        assert(cur.last() == file.roots@[i as int]);
        let folder = opt_chars(&root.name);
        collect_bookmark_branch(root, source, &folder, favicons, out);
        assert(synced_views(out@) =~= synced_views(old(out)@) + roots_entries(
            cur,
            source@,
            favicons@,
        ));
        i = i + 1;
    }
    assert(file.roots@.take(n as int) =~= file.roots@);
}

// ---------------------------------------------------------------------------
// Browsers and profiles
// ---------------------------------------------------------------------------

/// The browser part of a source label such as `Edge Default`: its first
/// word, or nothing.
pub open spec fn browser_base_spec(label: Seq<char>) -> Seq<char> {
    if words(label).len() > 0 {
        words(label)[0]
    } else {
        Seq::empty()
    }
}

/// The browser of a source label.
pub fn browser_base(label: &str) -> (r: String)
    ensures
        r@ == browser_base_spec(label@),
{
    let w = split_args(label);
    if w.len() > 0 {
        assert(string_views(w@)[0] == w@[0]@);
        string_from(w[0].as_str())
    } else {
        String::new()
    }
}

/// The rank of a browser among bookmark sources: the system's default
/// browser first, then Edge, Chrome, Brave and any other.
pub open spec fn browser_priority_spec(base: Seq<char>, default: Option<Seq<char>>) -> u8 {
    let lower = str_lowercase(base);
    if default is Some && lower == default->0 {
        0
    } else if lower == "edge"@ {
        1
    } else if lower == "chrome"@ {
        2
    } else if lower == "brave"@ {
        3
    } else {
        4
    }
}

/// The rank of a browser among bookmark sources.
pub fn browser_priority(base: &str, default: Option<&str>) -> (r: u8)
    ensures
        r == browser_priority_spec(base@, opt_view(default)),
{
    let lower = lowercase(base);
    if let Some(d) = default {
        if str_eq(lower.as_str(), d) {
            return 0;
        }
    }
    if str_eq(lower.as_str(), "edge") {
        1
    } else if str_eq(lower.as_str(), "chrome") {
        2
    } else if str_eq(lower.as_str(), "brave") {
        3
    } else {
        4
    }
}

/// Whether a source label names a browser's default profile: its second word
/// is `default` in any ASCII case, or it has none.
pub open spec fn is_default_profile_spec(label: Seq<char>) -> bool {
    if words(label).len() > 1 {
        eq_ignore_ascii_case(words(label)[1], "default"@)
    } else {
        true
    }
}

/// Whether a source label names a default profile.
pub fn is_default_profile(label: &str) -> (r: bool)
    ensures
        r == is_default_profile_spec(label@),
{
    let w = split_args(label);
    if w.len() > 1 {
        assert(string_views(w@)[1] == w@[1]@);
        eq_ignore_ascii_case_exec(w[1].as_str(), "default")
    } else {
        true
    }
}

/// The sort key of a bookmark source: browser rank, then default profiles
/// before others.
pub open spec fn source_key(label: Seq<char>, default: Option<Seq<char>>) -> Seq<u64> {
    seq![
        browser_priority_spec(browser_base_spec(label), default) as u64,
        if is_default_profile_spec(label) {
            0
        } else {
            1
        },
    ]
}

/// The sort keys of a list of source labels.
pub open spec fn source_keys(labels: Seq<String>, default: Option<Seq<char>>) -> Seq<Seq<u64>> {
    labels.map_values(|l: String| source_key(l@, default))
}

/// The order in which bookmark sources are read, so that the first copy of
/// an address kept is the default browser's: positions sorted by browser
/// rank and default profile first, ties in their given order.
pub fn bookmark_source_order(labels: &Vec<String>, default: Option<&str>) -> (p: Vec<usize>)
    ensures
        is_stable_order(source_keys(labels@, opt_view(default)), p@),
{
    let ghost d = opt_view(default);
    let mut keys: Vec<Vec<u64>> = Vec::new();
    let n = labels.len();
    let mut i: usize = 0;
    while i < n
        invariant
            n == labels.len(),
            i <= n,
            d == opt_view(default),
            key_views(keys@) == source_keys(labels@.take(i as int), d),
        decreases n - i,
    {
        let label = labels[i].as_str();
        let base = browser_base(label);
        let rank = browser_priority(base.as_str(), default);
        let mut key: Vec<u64> = Vec::new();
        key.push(rank as u64);
        key.push(if is_default_profile(label) { 0 } else { 1 });
        let ghost old_keys = keys@;
        keys.push(key);
        assert(key@ =~= source_key(labels@[i as int]@, d));
        assert(key_views(keys@) =~= key_views(old_keys).push(key@));
        assert(labels@.take(i + 1) =~= labels@.take(i as int).push(labels@[i as int]));
        assert(source_keys(labels@.take(i + 1), d) =~= source_keys(labels@.take(i as int), d).push(
            source_key(labels@[i as int]@, d),
        ));
        i = i + 1;
    }
    assert(labels@.take(n as int) =~= labels@);
    stable_order(&keys)
}

/// The browser whose program id the registry reports as the `http` handler:
/// `chrome`, `edge` or `brave`, found in the lowercased query output.
pub open spec fn default_browser_spec(output: Seq<char>) -> Option<Seq<char>> {
    let text = str_lowercase(output);
    if contains(text, "chromehtml"@) {
        Some("chrome"@)
    } else if contains(text, "msedgehtm"@) {
        Some("edge"@)
    } else if contains(text, "bravehtml"@) {
        Some("brave"@)
    } else {
        None
    }
}

/// The default browser among Chrome, Edge and Brave, from the output of the
/// registry query for the `http` handler (`None` when the query failed).
pub fn http_default_browser_key(reg_output: Option<&str>) -> (r: Option<String>)
    ensures
        match reg_output {
            None => r is None,
            Some(out) => match r {
                Some(k) => default_browser_spec(out@) == Some(k@),
                None => default_browser_spec(out@) is None,
            },
        },
{
    let out = match reg_output {
        Some(o) => o,
        None => return None,
    };
    let text = lowercase_chars(&chars_of(out));
    if contains_exec(&text, &chars_of("chromehtml")) {
        Some(string_from("chrome"))
    } else if contains_exec(&text, &chars_of("msedgehtm")) {
        Some(string_from("edge"))
    } else if contains_exec(&text, &chars_of("bravehtml")) {
        Some(string_from("brave"))
    } else {
        None
    }
}

/// Whether a directory of a browser's user data is a profile: `Default` or
/// `Profile ...`.
pub open spec fn is_profile_dir_spec(name: Seq<char>) -> bool {
    name == "Default"@ || starts_with(name, "Profile "@)
}

/// Whether a directory name is that of a browser profile.
pub fn is_profile_dir_name(name: &str) -> (r: bool)
    ensures
        r == is_profile_dir_spec(name@),
{
    str_eq(name, "Default") || starts_with_exec(&chars_of(name), &chars_of("Profile "))
}

/// The label of a bookmark source: browser and profile, separated by a
/// space.
pub fn bookmark_source_label(browser: &str, profile: &str) -> (r: String)
    ensures
        r@ == browser@ + seq![' '] + profile@,
{
    let mut s = string_from(browser);
    push_char(&mut s, ' ');
    push_text(&mut s, profile);
    s
}

// ---------------------------------------------------------------------------
// Icon download script
// ---------------------------------------------------------------------------

/// A text with each `'` doubled, as a single-quoted PowerShell string needs.
pub open spec fn ps_quoted(s: Seq<char>) -> Seq<char>
    decreases s.len(),
{
    if s.len() == 0 {
        Seq::empty()
    } else {
        ps_quoted(s.drop_last()) + if s.last() == '\'' {
            seq!['\'', '\'']
        } else {
            seq![s.last()]
        }
    }
}

/// The script text before the host name.
pub const ICON_SCRIPT_HEAD: &'static str = "\n$ErrorActionPreference = 'SilentlyContinue'\n$hostName = '";

/// The script text after the host name: try the site's own icon, then two
/// icon services, and print the first non-empty download as base64.
pub const ICON_SCRIPT_TAIL: &'static str = r#"'
$tmp = [System.IO.Path]::GetTempFileName()
$ok = $false
foreach ($template in @('https://{0}/favicon.ico', 'https://www.google.com/s2/favicons?domain={0}&sz=64', 'https://icons.duckduckgo.com/ip3/{0}.ico')) {
    $uri = [string]::Format($template, $hostName)
    try {
        Invoke-WebRequest -UseBasicParsing -Uri $uri -OutFile $tmp -TimeoutSec 5 | Out-Null
        if ((Get-Item $tmp).Length -gt 0) {
            $ok = $true
            break
        }
    } catch { }
}
if ($ok) {
    $data = [System.IO.File]::ReadAllBytes($tmp)
    [Console]::OutputEncoding = [System.Text.Encoding]::ASCII
    [Console]::Write([System.Convert]::ToBase64String($data))
}
Remove-Item $tmp -ErrorAction SilentlyContinue
"#;

/// The PowerShell script that downloads the icon of `host`, the host quoted
/// into the script.
pub fn site_icon_script(host: &str) -> (r: String)
    ensures
        r@ == ICON_SCRIPT_HEAD@ + ps_quoted(host@) + ICON_SCRIPT_TAIL@,
{
    let mut s = string_from(ICON_SCRIPT_HEAD);
    let h = chars_of(host);
    let n = h.len();
    let mut i: usize = 0;
    assert(h@.take(0) =~= Seq::<char>::empty());
    while i < n
        invariant
            n == h.len(),
            i <= n,
            s@ == ICON_SCRIPT_HEAD@ + ps_quoted(h@.take(i as int)),
        decreases n - i,
    {
        let c = h[i];
        assert(h@.take(i + 1).drop_last() =~= h@.take(i as int));
        if c == '\'' {
            push_char(&mut s, '\'');
            push_char(&mut s, '\'');
        } else {
            push_char(&mut s, c);
        }
        assert(s@ =~= ICON_SCRIPT_HEAD@ + ps_quoted(h@.take(i + 1)));
        i = i + 1;
    }
    assert(h@.take(n as int) =~= h@);
    push_text(&mut s, ICON_SCRIPT_TAIL);
    s
}

} // verus!
