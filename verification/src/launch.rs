//! Launching an entry: what to do for each kind of target, how arguments are
//! split and quoted, and how the results of the system calls are reported.
use vstd::prelude::*;
use crate::item::Item;
use crate::text::{
    chars_of, contains, contains_exec, decimal, is_white_space, is_whitespace, lowercase,
    lowercase_chars, push_char, push_chars, push_text, starts_with, starts_with_exec, str_eq,
    str_lowercase, string_from, string_of, string_views, trim, trim_str, u128_to_string,
};

verus! {

// ---------------------------------------------------------------------------
// Messages
// ---------------------------------------------------------------------------

/// An error message: a description, a full-width colon, and the cause.
pub open spec fn err_msg_spec(cn: Seq<char>, e: Seq<char>) -> Seq<char> {
    cn + "："@ + e
}

/// Formats an error message from a description and the cause's text.
pub fn err_msg(cn: &str, e: &str) -> (r: String)
    ensures
        r@ == err_msg_spec(cn@, e@),
{
    let mut s = string_from(cn);
    push_text(&mut s, "：");
    push_text(&mut s, e);
    s
}

// ---------------------------------------------------------------------------
// Argument splitting
// ---------------------------------------------------------------------------

/// The white-space separated words of `s` (`str::split_whitespace`).
pub open spec fn words(s: Seq<char>) -> Seq<Seq<char>>
    decreases s.len(),
{
    if s.len() == 0 {
        Seq::empty()
    } else {
        let w = words(s.drop_last());
        let c = s.last();
        if is_white_space(c) {
            w
        } else if s.len() >= 2 && !is_white_space(s[s.len() - 2]) {
            w.update(w.len() - 1, w.last().push(c))
        } else {
            w.push(seq![c])
        }
    }
}

proof fn lemma_words_nonempty(s: Seq<char>)
    requires
        s.len() > 0,
        !is_white_space(s.last()),
    ensures
        words(s).len() > 0,
    decreases s.len(),
{
    if s.len() >= 2 && !is_white_space(s[s.len() - 2]) {
        assert(s.drop_last().last() == s[s.len() - 2]);
        lemma_words_nonempty(s.drop_last());
    }
}

/// Splits launch arguments at white space.
pub fn split_args(raw: &str) -> (r: Vec<String>)
    ensures
        string_views(r@) == words(raw@),
{
    let v = chars_of(raw);
    let mut out: Vec<Vec<char>> = Vec::new();
    let n = v.len();
    let mut i: usize = 0;
    assert(v@.take(0) =~= Seq::<char>::empty());
    while i < n
        invariant
            n == v.len(),
            i <= n,
            crate::text::char_views(out@) == words(v@.take(i as int)),
        decreases n - i,
    {
        let c = v[i];
        let ghost pre = v@.take(i as int);
        let ghost cur = v@.take(i + 1);
        assert(cur.drop_last() =~= pre);
        assert(cur.last() == c);
        if !is_whitespace(c) {
            if i > 0 && !is_whitespace(v[i - 1]) {
                assert(cur[cur.len() - 2] == v@[i - 1]);
                assert(pre.last() == v@[i - 1]);
                proof {
                    lemma_words_nonempty(pre);
                }
                let last = out.len() - 1;
                let ghost before = out@;
                let mut w = out.remove(last);
                w.push(c);
                out.push(w);
                assert(crate::text::char_views(out@) =~= crate::text::char_views(before).update(
                    last as int,
                    before[last as int]@.push(c),
                ));
            } else {
                let ghost before = out@;
                let mut w: Vec<char> = Vec::new();
                w.push(c);
                out.push(w);
                assert(w@ =~= seq![c]);
                assert(crate::text::char_views(out@) =~= crate::text::char_views(before).push(
                    seq![c],
                ));
            }
        }
        i = i + 1;
    }
    assert(v@.take(n as int) =~= v@);
    crate::text::strings_of(&out)
}

/// The command line handed to the system's argument splitter: a placeholder
/// program name, a space and the raw arguments; `None` when they are blank.
pub fn argv_command_line(raw: &str) -> (r: Option<String>)
    ensures
        trim(raw@).len() == 0 ==> r is None,
        trim(raw@).len() > 0 ==> r is Some && r->0@ == seq!['x', ' '] + raw@,
{
    if trim_str(raw).len() == 0 {
        None
    } else {
        let mut s = String::new();
        push_char(&mut s, 'x');
        push_char(&mut s, ' ');
        push_text(&mut s, raw);
        assert(s@ =~= seq!['x', ' '] + raw@);
        Some(s)
    }
}

// ---------------------------------------------------------------------------
// Argument quoting for elevated launches
// ---------------------------------------------------------------------------

/// `n` backslashes.
pub open spec fn backslashes(n: nat) -> Seq<char> {
    Seq::new(n, |i: int| '\\')
}

/// An argument needs quotes when it is empty or has a space, tab or quote.
pub open spec fn needs_quotes(arg: Seq<char>) -> bool {
    arg.len() == 0 || exists|i: int| 0 <= i < arg.len() && (arg[i] == ' ' || arg[i] == '\t' || arg[i] == '"')
}

/// The quoted body so far and the count of backslashes not yet written.
pub open spec fn quote_fold(arg: Seq<char>) -> (Seq<char>, nat)
    decreases arg.len(),
{
    if arg.len() == 0 {
        (Seq::empty(), 0)
    } else {
        let (out, b) = quote_fold(arg.drop_last());
        let c = arg.last();
        if c == '\\' {
            (out, b + 1)
        } else if c == '"' {
            (out + backslashes(2 * b) + seq!['\\', '"'], 0)
        } else {
            (out + backslashes(b) + seq![c], 0)
        }
    }
}

/// One argument as the Windows command-line rules expect it: unchanged when
/// it needs no quotes; otherwise in quotes, with each quote escaped and the
/// backslashes before a quote or the closing quote doubled.
pub open spec fn quoted_arg(arg: Seq<char>) -> Seq<char> {
    if !needs_quotes(arg) {
        arg
    } else {
        let (out, b) = quote_fold(arg);
        seq!['"'] + out + backslashes(2 * b) + seq!['"']
    }
}

/// The parameter string of an elevated launch: the quoted arguments joined by
/// single spaces.
pub open spec fn joined_args(args: Seq<Seq<char>>) -> Seq<char>
    decreases args.len(),
{
    if args.len() == 0 {
        Seq::empty()
    } else if args.len() == 1 {
        quoted_arg(args[0])
    } else {
        joined_args(args.drop_last()) + seq![' '] + quoted_arg(args.last())
    }
}

fn push_backslashes(out: &mut String, n: usize)
    ensures
        final(out)@ == old(out)@ + backslashes(n as nat),
{
    let mut i: usize = 0;
    while i < n
        invariant
            i <= n,
            out@ == old(out)@ + backslashes(i as nat),
        decreases n - i,
    {
        push_char(out, '\\');
        assert(backslashes((i + 1) as nat) =~= backslashes(i as nat).push('\\'));
        i = i + 1;
    }
}

/// Appends one argument, quoted as the Windows command-line rules expect.
pub fn append_arg(out: &mut String, arg: &str)
    ensures
        final(out)@ == old(out)@ + quoted_arg(arg@),
{
    let v = chars_of(arg);
    let n = v.len();
    let mut needs = n == 0;
    let mut k: usize = 0;
    while k < n
        invariant
            n == v.len(),
            v@ == arg@,
            k <= n,
            needs == (n == 0 || exists|i: int| 0 <= i < k && (v@[i] == ' ' || v@[i] == '\t' || v@[i] == '"')),
        decreases n - k,
    {
        if v[k] == ' ' || v[k] == '\t' || v[k] == '"' {
            needs = true;
        }
        k = k + 1;
    }
    if !needs {
        push_chars(out, &v);
        return;
    }
    push_char(out, '"');
    let ghost start = out@;
    let mut b: usize = 0;
    let mut i: usize = 0;
    assert(v@.take(0) =~= Seq::<char>::empty());
    while i < n
        invariant
            n == v.len(),
            i <= n,
            b <= i,
            out@ == start + quote_fold(v@.take(i as int)).0,
            b as nat == quote_fold(v@.take(i as int)).1,
        decreases n - i,
    {
        let c = v[i];
        assert(v@.take(i + 1).drop_last() =~= v@.take(i as int));
        assert(v@.take(i + 1).last() == c);
        let ghost before = out@;
        if c == '\\' {
            b = b + 1;
        } else if c == '"' {
            push_backslashes(out, b);
            push_backslashes(out, b);
            push_char(out, '\\');
            push_char(out, '"');
            assert(backslashes(b as nat) + backslashes(b as nat) =~= backslashes(2 * (b as nat)));
            assert(out@ =~= before + backslashes(2 * (b as nat)) + seq!['\\', '"']);
            b = 0;
        } else {
            push_backslashes(out, b);
            push_char(out, c);
            assert(out@ =~= before + backslashes(b as nat) + seq![c]);
            b = 0;
        }
        i = i + 1;
    }
    assert(v@.take(n as int) =~= v@);
    let ghost body = out@;
    push_backslashes(out, b);
    push_backslashes(out, b);
    push_char(out, '"');
    assert(backslashes(b as nat) + backslashes(b as nat) =~= backslashes(2 * (b as nat)));
    assert(out@ =~= old(out)@ + quoted_arg(arg@));
}

/// The parameter string for an elevated launch of a program with these
/// arguments.
pub fn elevated_parameters(args: &Vec<String>) -> (r: String)
    ensures
        r@ == joined_args(string_views(args@)),
{
    let mut params = String::new();
    let n = args.len();
    let mut i: usize = 0;
    while i < n
        invariant
            n == args.len(),
            i <= n,
            params@ == joined_args(string_views(args@.take(i as int))),
        decreases n - i,
    {
        let ghost pre = string_views(args@.take(i as int));
        let ghost cur = string_views(args@.take(i + 1));
        assert(cur.drop_last() =~= pre);
        assert(cur.last() == args@[i as int]@);
        if i > 0 {
            push_char(&mut params, ' ');
        } else {
            assert(cur.len() == 1);
        }
        append_arg(&mut params, args[i].as_str());
        i = i + 1;
    }
    assert(args@.take(n as int) =~= args@);
    params
}

// ---------------------------------------------------------------------------
// Results of system calls
// ---------------------------------------------------------------------------

/// The OS error that asks for elevation (`ERROR_ELEVATION_REQUIRED`).
pub const ERROR_ELEVATION_REQUIRED: i32 = 740;

/// Whether a failed start needs administrator rights: the OS error is 740.
pub fn is_elevation_required(raw_os_error: Option<i32>) -> (r: bool)
    ensures
        r == (raw_os_error == Some(ERROR_ELEVATION_REQUIRED)),
{
    match raw_os_error {
        Some(code) => code == ERROR_ELEVATION_REQUIRED,
        None => false,
    }
}

/// The result of asking the shell to open a target: success above 32, else
/// an error with the code.
pub fn shell_open_outcome(result: isize) -> (r: Result<(), String>)
    ensures
        result > 32 ==> r is Ok,
        result <= 32 ==> (r matches Err(m) && m@ == "系统无法打开该目标（错误码 "@ + decimal(
            (result as u32) as nat,
        ) + "）"@),
{
    if result > 32 {
        return Ok(());
    }
    let code = result as u32;
    let mut m = string_from("系统无法打开该目标（错误码 ");
    push_text(&mut m, u128_to_string(code as u128).as_str());
    push_text(&mut m, "）");
    Err(m)
}

/// The result of an elevated launch: success above 32; the user declining
/// the prompt (1223); any other code.
pub fn elevation_outcome(result: isize) -> (r: Result<(), String>)
    ensures
        result > 32 ==> r is Ok,
        result <= 32 && result as u32 == 1223 ==> (r matches Err(m) && m@
            == "需要管理员权限，但授权被取消，无法启动"@),
        result <= 32 && result as u32 != 1223 ==> (r matches Err(m) && m@
            == "需要管理员权限，提权启动未成功（错误码 "@ + decimal((result as u32) as nat) + "）"@),
{
    if result > 32 {
        return Ok(());
    }
    let code = result as u32;
    if code == 1223 {
        return Err(string_from("需要管理员权限，但授权被取消，无法启动"));
    }
    let mut m = string_from("需要管理员权限，提权启动未成功（错误码 ");
    push_text(&mut m, u128_to_string(code as u128).as_str());
    push_text(&mut m, "）");
    Err(m)
}

// ---------------------------------------------------------------------------
// Launch plans
// ---------------------------------------------------------------------------

/// The first step of launching an entry.
pub enum LaunchStep {
    /// The launch fails with this message.
    Fail(String),
    /// Open the address in the default browser; a failure is reported under
    /// `failure`.
    OpenUrl { url: String, failure: String },
    /// Start `program` with `args`, console hidden; a failure is reported
    /// under `failure`.
    Spawn { program: String, args: Vec<String>, failure: String },
    /// Let the shell open the target (shell namespaces, custom protocols); a
    /// failure is reported under `failure`.
    ShellOpen { target: String, failure: String },
    /// The target is a path: what follows depends on the file system.
    InspectPath(String),
}

/// The prefix of store applications (`shell:AppsFolder\`).
pub open spec fn apps_folder_prefix() -> Seq<char> {
    "shell:AppsFolder\\"@
}

/// The target is a web address.
pub open spec fn is_web(url: Seq<char>) -> bool {
    starts_with(url, "http://"@) || starts_with(url, "https://"@)
}

/// How an entry is launched, before the file system is consulted.
pub open spec fn launch_step_ok(item: Item, r: LaunchStep) -> bool {
    let url = trim(item.url@);
    if url.len() == 0 {
        r matches LaunchStep::Fail(m) && m@ == "启动项路径为空"@
    } else if item.kind@ == "website"@ || is_web(url) {
        r matches LaunchStep::OpenUrl { url: u, failure: f } && u@ == url && f@ == "打开网站失败"@
    } else if starts_with(url, apps_folder_prefix()) {
        if url.len() > apps_folder_prefix().len() {
            r matches LaunchStep::Spawn { program: p, args: a, failure: f } && p@ == "explorer.exe"@
                && string_views(a@) == seq![url] && f@ == "启动失败"@
        } else {
            r matches LaunchStep::Fail(m) && m@ == "无效的应用标识"@
        }
    } else if starts_with(url, "::{"@) || contains(url, "://"@) {
        r matches LaunchStep::ShellOpen { target: t, failure: f } && t@ == url && f@ == "启动失败"@
    } else {
        r matches LaunchStep::InspectPath(p) && p@ == url
    }
}

fn literal(s: &str) -> (r: Vec<char>)
    ensures
        r@ == s@,
{
    chars_of(s)
}

/// Plans the first step of launching `item`: websites go to the browser,
/// store applications to Explorer, shell targets and custom protocols to the
/// shell, and anything else is a path.
pub fn plan_launch(item: &Item) -> (r: LaunchStep)
    ensures
        launch_step_ok(*item, r),
{
    let url = trim_str(item.url.as_str());
    if url.len() == 0 {
        return LaunchStep::Fail(string_from("启动项路径为空"));
    }
    let web = starts_with_exec(&url, &literal("http://")) || starts_with_exec(
        &url,
        &literal("https://"),
    );
    if str_eq(item.kind.as_str(), "website") || web {
        return LaunchStep::OpenUrl { url: string_of(&url), failure: string_from("打开网站失败") };
    }
    let prefix = literal("shell:AppsFolder\\");
    if starts_with_exec(&url, &prefix) {
        if url.len() > prefix.len() {
            let mut args: Vec<String> = Vec::new();
            args.push(string_of(&url));
            assert(string_views(args@) =~= seq![url@]);
            return LaunchStep::Spawn {
                program: string_from("explorer.exe"),
                args,
                failure: string_from("启动失败"),
            };
        }
        return LaunchStep::Fail(string_from("无效的应用标识"));
    }
    if starts_with_exec(&url, &literal("::{")) || contains_exec(&url, &literal("://")) {
        return LaunchStep::ShellOpen { target: string_of(&url), failure: string_from("启动失败") };
    }
    LaunchStep::InspectPath(string_of(&url))
}

/// What launching a path does, once the file system has been consulted.
pub enum PathLaunch {
    /// The launch fails with this message.
    Fail(String),
    /// Open the path with its default application; a failure is reported
    /// under `failure`.
    OpenPath { target: String, failure: String },
    /// Start `program` with `args`, console hidden; a failure is reported
    /// under `failure`.
    Spawn { program: String, args: Vec<String>, failure: String },
    /// Start the executable with `args` in `workdir`. When `check_running`,
    /// first bring an already running instance to the front instead.
    Executable { args: Vec<String>, check_running: bool, workdir: Option<String> },
}

/// How a path is launched; `args` are the item's arguments as the platform's
/// argument splitter cut them.
pub open spec fn path_launch_ok(
    item: Item,
    args: Seq<Seq<char>>,
    url: Seq<char>,
    is_dir: bool,
    exists: bool,
    extension: Seq<char>,
    parent: Option<Seq<char>>,
    r: PathLaunch,
) -> bool {
    let ext = str_lowercase(extension);
    if is_dir {
        r matches PathLaunch::OpenPath { target: t, failure: f } && t@ == url && f@ == "打开文件夹失败"@
    } else if !exists {
        r matches PathLaunch::Fail(m) && m@ == "路径不存在："@ + url
    } else if ext == "lnk"@ {
        r matches PathLaunch::Spawn { program: p, args: a, failure: f } && p@ == "explorer.exe"@
            && string_views(a@) == seq![url] && f@ == "启动失败"@
    } else if ext == "exe"@ {
        r matches PathLaunch::Executable { args: a, check_running: c, workdir: w } && string_views(a@)
            == args && c == (args.len() == 0) && (if trim(
            item.workdir@,
        ).len() == 0 {
            match parent {
                Some(p) => w is Some && w->0@ == p,
                None => w is None,
            }
        } else {
            w is Some && w->0@ == trim(item.workdir@)
        })
    } else if ext == "bat"@ || ext == "cmd"@ {
        r matches PathLaunch::Spawn { program: p, args: a, failure: f } && p@ == "cmd"@
            && string_views(a@) == seq!["/C"@, "start"@, Seq::<char>::empty(), url] && f@ == "启动失败"@
    } else {
        r matches PathLaunch::OpenPath { target: t, failure: f } && t@ == url && f@ == "打开文件失败"@
    }
}

/// Plans the launch of a path from what the file system says: folders and
/// ordinary files open with their default application, shortcuts go through
/// Explorer, executables start directly with `args` (the item's arguments as
/// the platform's splitter cut them: the system's on Windows, `split_args`
/// elsewhere), and batch files through `cmd`.
pub fn plan_path_launch(
    item: &Item,
    args: Vec<String>,
    url: &str,
    is_dir: bool,
    exists: bool,
    extension: &str,
    parent: Option<&str>,
) -> (r: PathLaunch)
    ensures
        path_launch_ok(
            *item,
            string_views(args@),
            url@,
            is_dir,
            exists,
            extension@,
            match parent {
                Some(p) => Some(p@),
                None => None,
            },
            r,
        ),
        is_dir ==> (r matches PathLaunch::OpenPath { target: t, .. } && t@ == url@),
        !is_dir && !exists ==> r is Fail,
        !is_dir && exists && (str_lowercase(extension@) == "bat"@ || str_lowercase(extension@)
            == "cmd"@) ==> (r matches PathLaunch::Spawn { program: p, args: a, .. } && p@ == "cmd"@
            && string_views(a@) == seq!["/C"@, "start"@, Seq::<char>::empty(), url@]),
        !is_dir && exists && str_lowercase(extension@) == "exe"@ ==> (r matches PathLaunch::Executable { args: a, .. }
            && string_views(a@) == string_views(args@)),
{
    proof {
        lemma_extensions_differ();
    }
    if is_dir {
        return PathLaunch::OpenPath { target: string_from(url), failure: string_from("打开文件夹失败") };
    }
    if !exists {
        let mut m = string_from("路径不存在：");
        push_text(&mut m, url);
        return PathLaunch::Fail(m);
    }
    let ext = lowercase(extension);
    if str_eq(ext.as_str(), "lnk") {
        let mut args: Vec<String> = Vec::new();
        args.push(string_from(url));
        assert(string_views(args@) =~= seq![url@]);
        return PathLaunch::Spawn {
            program: string_from("explorer.exe"),
            args,
            failure: string_from("启动失败"),
        };
    }
    if str_eq(ext.as_str(), "exe") {
        let check_running = args.len() == 0;
        let wd = trim_str(item.workdir.as_str());
        let workdir = if wd.len() == 0 {
            match parent {
                Some(p) => Some(string_from(p)),
                None => None,
            }
        } else {
            Some(string_of(&wd))
        };
        return PathLaunch::Executable { args, check_running, workdir };
    }
    if str_eq(ext.as_str(), "bat") || str_eq(ext.as_str(), "cmd") {
        let mut args: Vec<String> = Vec::new();
        args.push(string_from("/C"));
        args.push(string_from("start"));
        args.push(String::new());
        args.push(string_from(url));
        assert(string_views(args@) =~= seq!["/C"@, "start"@, Seq::<char>::empty(), url@]);
        return PathLaunch::Spawn { program: string_from("cmd"), args, failure: string_from("启动失败") };
    }
    PathLaunch::OpenPath { target: string_from(url), failure: string_from("打开文件失败") }
}

proof fn lemma_extensions_differ()
    ensures
        "lnk"@ != "exe"@,
        "lnk"@ != "bat"@,
        "lnk"@ != "cmd"@,
        "exe"@ != "bat"@,
        "exe"@ != "cmd"@,
        "bat"@ != "cmd"@,
{
    reveal_strlit("lnk");
    reveal_strlit("exe");
    reveal_strlit("bat");
    reveal_strlit("cmd");
    assert("lnk"@[0] != "exe"@[0]);
    assert("lnk"@[0] != "bat"@[0]);
    assert("lnk"@[0] != "cmd"@[0]);
    assert("exe"@[0] != "bat"@[0]);
    assert("exe"@[0] != "cmd"@[0]);
    assert("bat"@[0] != "cmd"@[0]);
}

/// How a path is started, by what the file system says and by its lowercased
/// extension: a folder is opened; a missing path fails with its name; a
/// shortcut goes through Explorer; an executable starts with the given
/// arguments, checking for a running instance only when there are none; a
/// batch file (`bat` or `cmd`) is started through `cmd /C start "" path`;
/// anything else is opened with its default application.
pub proof fn path_launch_by_extension(
    item: Item,
    args: Seq<Seq<char>>,
    url: Seq<char>,
    is_dir: bool,
    exists: bool,
    extension: Seq<char>,
    parent: Option<Seq<char>>,
    r: PathLaunch,
)
    requires
        path_launch_ok(item, args, url, is_dir, exists, extension, parent, r),
    ensures
        is_dir ==> (r matches PathLaunch::OpenPath { target: t, failure: f } && t@ == url && f@
            == "打开文件夹失败"@),
        !is_dir && !exists ==> (r matches PathLaunch::Fail(m) && m@ == "路径不存在："@ + url),
        !is_dir && exists && str_lowercase(extension) == "lnk"@ ==> (r matches PathLaunch::Spawn { program: p, args: a, failure: f }
            && p@ == "explorer.exe"@ && string_views(a@) == seq![url] && f@ == "启动失败"@),
        !is_dir && exists && (str_lowercase(extension) == "bat"@ || str_lowercase(extension) == "cmd"@)
            ==> (r matches PathLaunch::Spawn { program: p, args: a, failure: f } && p@ == "cmd"@
            && string_views(a@) == seq!["/C"@, "start"@, Seq::<char>::empty(), url] && f@ == "启动失败"@),
        !is_dir && exists && str_lowercase(extension) == "exe"@ ==> (r matches PathLaunch::Executable {
            args: a,
            check_running: c,
            workdir: w,
        } && string_views(a@) == args && c == (args.len() == 0) && (trim(item.workdir@).len() > 0 ==> (w
            matches Some(d) && d@ == trim(item.workdir@))) && (trim(item.workdir@).len() == 0 ==> (match parent {
            Some(pd) => w matches Some(d) && d@ == pd,
            None => w is None,
        }))),
        !is_dir && exists && str_lowercase(extension) != "lnk"@ && str_lowercase(extension) != "exe"@
            && str_lowercase(extension) != "bat"@ && str_lowercase(extension) != "cmd"@ ==> (r matches PathLaunch::OpenPath {
            target: t,
            failure: f,
        } && t@ == url && f@ == "打开文件失败"@),
{
    lemma_extensions_differ();
}

/// What to do when starting an executable failed.
pub enum SpawnFailure {
    /// The program needs administrator rights: retry elevated.
    Elevate,
    /// Report this message.
    Report(String),
}

/// Decides what a failed executable start leads to.
pub fn spawn_failure(raw_os_error: Option<i32>, cause: &str) -> (r: SpawnFailure)
    ensures
        raw_os_error == Some(ERROR_ELEVATION_REQUIRED) ==> r is Elevate,
        raw_os_error != Some(ERROR_ELEVATION_REQUIRED) ==> (r matches SpawnFailure::Report(m) && m@
            == err_msg_spec("启动应用失败"@, cause@)),
{
    if is_elevation_required(raw_os_error) {
        SpawnFailure::Elevate
    } else {
        SpawnFailure::Report(err_msg("启动应用失败", cause))
    }
}

/// The address opened for a website entry typed without a scheme: kept when
/// it has one (or is a shell target), else `https://` is put in front of it
/// without leading slashes.
pub open spec fn open_url_target_spec(url: Seq<char>) -> Seq<char> {
    if contains(url, "://"@) || starts_with(url, "shell:"@) {
        url
    } else {
        "https://"@ + crate::text::trim_start_char(url, '/')
    }
}

/// The address to open for `url`.
pub fn open_url_target(url: &str) -> (r: String)
    ensures
        r@ == open_url_target_spec(url@),
{
    let v = chars_of(url);
    if contains_exec(&v, &literal("://")) || starts_with_exec(&v, &literal("shell:")) {
        return string_from(url);
    }
    let mut s = string_from("https://");
    push_chars(&mut s, &crate::text::trim_start_char_exec(&v, '/'));
    s
}

// ---------------------------------------------------------------------------
// Executable headers
// ---------------------------------------------------------------------------

/// The offset of the PE header named by a DOS header: the little-endian word
/// at 0x3C of a header that starts with `MZ` and has 0x40 bytes.
pub open spec fn pe_offset_spec(head: Seq<u8>) -> Option<u64> {
    if head.len() >= 0x40 && head[0] == 0x4D && head[1] == 0x5A {
        Some(((head[0x3c] as int) + (head[0x3d] as int) * 0x100 + (head[0x3e] as int) * 0x10000 + (
        head[0x3f] as int) * 0x1000000) as u64)
    } else {
        None
    }
}

/// The offset of the PE header, if the first bytes are a DOS header.
pub fn pe_header_offset(head: &[u8]) -> (r: Option<u64>)
    ensures
        r == pe_offset_spec(head@),
{
    if head.len() >= 0x40 && head[0] == 0x4D && head[1] == 0x5A {
        let off = (head[0x3c] as u64) + (head[0x3d] as u64) * 0x100 + (head[0x3e] as u64) * 0x10000
            + (head[0x3f] as u64) * 0x1000000;
        Some(off)
    } else {
        None
    }
}

/// The bytes `PE\0\0` that open a PE header.
pub fn is_pe_signature(sig: &[u8]) -> (r: bool)
    ensures
        r == (sig@ == seq![0x50u8, 0x45u8, 0u8, 0u8]),
{
    let r = sig.len() == 4 && sig[0] == 0x50 && sig[1] == 0x45 && sig[2] == 0 && sig[3] == 0;
    proof {
        if sig@.len() == 4 && sig@[0] == 0x50 && sig@[1] == 0x45 && sig@[2] == 0 && sig@[3] == 0 {
            assert(sig@ =~= seq![0x50u8, 0x45u8, 0u8, 0u8]);
        }
    }
    r
}

/// Where the subsystem field lies: after the signature (4 bytes) and the file
/// header (20 bytes), at offset 68 of the optional header.
pub fn subsystem_offset(pe_offset: u64) -> (r: Option<u64>)
    ensures
        pe_offset + 92 <= u64::MAX ==> r == Some((pe_offset + 92) as u64),
        pe_offset + 92 > u64::MAX ==> r is None,
{
    pe_offset.checked_add(24 + 68)
}

/// The subsystem field names a console program (`IMAGE_SUBSYSTEM_WINDOWS_CUI`).
pub fn is_console_subsystem(field: &[u8]) -> (r: bool)
    ensures
        r == (field@.len() == 2 && field@[0] as int + field@[1] as int * 256 == 3),
{
    field.len() == 2 && (field[0] as u32) + (field[1] as u32) * 256 == 3
}

/// Whether an executable is a console program, from the bytes read at its
/// start, at its PE header and at its subsystem field (`None` where reading
/// failed). A program that cannot be read this far counts as not a console
/// program.
pub fn is_console_app(head: Option<&[u8]>, signature: Option<&[u8]>, subsystem: Option<&[u8]>) -> (r:
    bool)
    ensures
        r == (head is Some && pe_offset_spec(head->0@) is Some && signature is Some && signature->0@
            == seq![0x50u8, 0x45u8, 0u8, 0u8] && subsystem is Some && subsystem->0@.len() == 2
            && subsystem->0@[0] as int + subsystem->0@[1] as int * 256 == 3),
{
    let h = match head {
        Some(h) => h,
        None => return false,
    };
    if pe_header_offset(h).is_none() {
        return false;
    }
    let s = match signature {
        Some(s) => s,
        None => return false,
    };
    if !is_pe_signature(s) {
        return false;
    }
    match subsystem {
        Some(f) => is_console_subsystem(f),
        None => false,
    }
}

// ---------------------------------------------------------------------------
// Running instances
// ---------------------------------------------------------------------------

/// `s` with every occurrence of `pat`, left to right, replaced by `rep`
/// (`str::replace`).
pub open spec fn replace_all(s: Seq<char>, pat: Seq<char>, rep: Seq<char>) -> Seq<char>
    recommends
        pat.len() > 0,
    decreases s.len(),
{
    if s.len() == 0 || pat.len() == 0 {
        s
    } else if starts_with(s, pat) {
        rep + replace_all(s.skip(pat.len() as int), pat, rep)
    } else {
        seq![s[0]] + replace_all(s.drop_first(), pat, rep)
    }
}

/// A path as Windows process listings show it: the `\\?\UNC\` and `\\?\`
/// prefixes of canonical paths undone, lowercased.
pub open spec fn normalize_path_spec(path: Seq<char>) -> Seq<char> {
    let text = replace_all(path, "\\\\?\\UNC\\"@, "\\\\"@);
    if starts_with(text, "\\\\?\\"@) {
        str_lowercase(text.skip(4))
    } else {
        str_lowercase(text)
    }
}

fn replace_all_exec(s: &Vec<char>, pat: &Vec<char>, rep: &Vec<char>) -> (r: Vec<char>)
    requires
        pat.len() > 0,
    ensures
        r@ == replace_all(s@, pat@, rep@),
{
    let mut out: Vec<char> = Vec::new();
    let n = s.len();
    let mut i: usize = 0;
    assert(s@.skip(0) =~= s@);
    while i < n
        invariant
            n == s.len(),
            pat.len() > 0,
            i <= n,
            replace_all(s@, pat@, rep@) == out@ + replace_all(s@.skip(i as int), pat@, rep@),
        decreases n - i,
    {
        let rest = crate::text::slice_chars(s, i, n);
        assert(rest@ =~= s@.skip(i as int));
        if starts_with_exec(&rest, pat) {
            let ghost before = out@;
            let mut k: usize = 0;
            while k < rep.len()
                invariant
                    k <= rep.len(),
                    out@ == before + rep@.take(k as int),
                decreases rep.len() - k,
            {
                out.push(rep[k]);
                assert(rep@.take(k + 1) =~= rep@.take(k as int).push(rep@[k as int]));
                k = k + 1;
            }
            assert(rep@.take(rep.len() as int) =~= rep@);
            assert(s@.skip(i as int).skip(pat@.len() as int) =~= s@.skip(i + pat.len()));
            assert(out@ + replace_all(s@.skip(i + pat.len()), pat@, rep@) =~= before + (rep@
                + replace_all(s@.skip(i + pat.len()), pat@, rep@)));
            i = i + pat.len();
        } else {
            let ghost before = out@;
            out.push(s[i]);
            assert(s@.skip(i as int).drop_first() =~= s@.skip(i + 1));
            assert(out@ + replace_all(s@.skip(i + 1), pat@, rep@) =~= before + (seq![s@[i as int]]
                + replace_all(s@.skip(i + 1), pat@, rep@)));
            i = i + 1;
        }
    }
    assert(s@.skip(n as int) =~= Seq::<char>::empty());
    assert(out@ + Seq::<char>::empty() =~= out@);
    out
}

/// Normalises a canonical Windows path for comparison with process images.
pub fn normalize_path(path: &str) -> (r: String)
    ensures
        r@ == normalize_path_spec(path@),
{
    let v = chars_of(path);
    let pat = literal("\\\\?\\UNC\\");
    proof {
        reveal_strlit("\\\\?\\UNC\\");
    }
    let text = replace_all_exec(&v, &pat, &literal("\\\\"));
    let prefix = literal("\\\\?\\");
    proof {
        reveal_strlit("\\\\?\\");
    }
    if starts_with_exec(&text, &prefix) {
        let rest = crate::text::slice_chars(&text, 4, text.len());
        assert(rest@ =~= text@.skip(4));
        string_of(&lowercase_chars(&rest))
    } else {
        string_of(&lowercase_chars(&text))
    }
}

/// A running process: its id, its executable's file name, and its full image
/// path when it could be read.
pub struct ProcessInfo {
    pub pid: u32,
    pub exe_name: String,
    pub image: Option<String>,
}

/// The process runs the program: same file name (lowercased), and an image
/// path that lowercases to the expected normalised path.
pub open spec fn process_matches(p: ProcessInfo, target_name: Seq<char>, expected: Seq<char>) -> bool {
    str_lowercase(p.exe_name@) == target_name && p.image is Some && str_lowercase(p.image->0@)
        == expected
}

/// The first matching process, if any.
pub open spec fn first_match(procs: Seq<ProcessInfo>, target_name: Seq<char>, expected: Seq<char>) -> Option<u32>
    decreases procs.len(),
{
    if procs.len() == 0 {
        None
    } else if process_matches(procs[0], target_name, expected) {
        Some(procs[0].pid)
    } else {
        first_match(procs.drop_first(), target_name, expected)
    }
}

/// Finds the running process of a program among a process listing: the
/// first whose file name and image path match. A program without a file name
/// has none. The image path is only consulted for processes with the right
/// file name.
pub fn find_process(target_name: &str, expected: &str, procs: &Vec<ProcessInfo>) -> (r: Option<u32>)
    ensures
        target_name@.len() == 0 ==> r is None,
        target_name@.len() > 0 ==> r == first_match(procs@, target_name@, expected@),
{
    if target_name.is_empty() {
        return None;
    }
    let n = procs.len();
    let mut i: usize = 0;
    assert(procs@.skip(0) =~= procs@);
    while i < n
        invariant
            n == procs.len(),
            i <= n,
            target_name@.len() > 0,
            first_match(procs@, target_name@, expected@) == first_match(
                procs@.skip(i as int),
                target_name@,
                expected@,
            ),
        decreases n - i,
    {
        let p = &procs[i];
        assert(procs@.skip(i as int)[0] == *p);
        assert(procs@.skip(i as int).drop_first() =~= procs@.skip(i + 1));
        let name = lowercase(p.exe_name.as_str());
        if str_eq(name.as_str(), target_name) {
            if let Some(image) = &p.image {
                let img = lowercase(image.as_str());
                if str_eq(img.as_str(), expected) {
                    return Some(p.pid);
                }
            }
        }
        i = i + 1;
    }
    None
}

/// A top-level window: whether it is visible, whether it has an owner, and
/// its process.
pub struct WindowInfo {
    pub visible: bool,
    pub has_owner: bool,
    pub pid: u32,
}

/// The window qualifies as the process's main window.
pub open spec fn window_fits(w: WindowInfo, pid: u32, owner_free_only: bool) -> bool {
    w.visible && !(owner_free_only && w.has_owner) && w.pid == pid
}

/// The first qualifying window, if any.
pub open spec fn first_window(ws: Seq<WindowInfo>, pid: u32, owner_free_only: bool) -> Option<int>
    decreases ws.len(),
{
    if ws.len() == 0 {
        None
    } else if window_fits(ws.last(), pid, owner_free_only) && first_window(ws.drop_last(), pid, owner_free_only) is None {
        Some(ws.len() - 1)
    } else {
        first_window(ws.drop_last(), pid, owner_free_only)
    }
}

fn pick_window(ws: &Vec<WindowInfo>, pid: u32, owner_free_only: bool) -> (r: Option<usize>)
    ensures
        match r {
            Some(i) => first_window(ws@, pid, owner_free_only) == Some(i as int),
            None => first_window(ws@, pid, owner_free_only) is None,
        },
{
    let n = ws.len();
    let mut i: usize = 0;
    assert(ws@.take(0) =~= Seq::<WindowInfo>::empty());
    while i < n
        invariant
            n == ws.len(),
            i <= n,
            first_window(ws@.take(i as int), pid, owner_free_only) is None,
        decreases n - i,
    {
        assert(ws@.take(i + 1).drop_last() =~= ws@.take(i as int));
        assert(ws@.take(i + 1).last() == ws@[i as int]);
        let w = &ws[i];
        if w.visible && !(owner_free_only && w.has_owner) && w.pid == pid {
            proof {
                lemma_first_window_prefix(ws@, (i + 1) as int, pid, owner_free_only);
            }
            return Some(i);
        }
        i = i + 1;
    }
    assert(ws@.take(n as int) =~= ws@);
    None
}

proof fn lemma_first_window_prefix(ws: Seq<WindowInfo>, k: int, pid: u32, owner_free_only: bool)
    requires
        0 <= k <= ws.len(),
        first_window(ws.take(k), pid, owner_free_only) is Some,
    ensures
        first_window(ws, pid, owner_free_only) == first_window(ws.take(k), pid, owner_free_only),
    decreases ws.len() - k,
{
    if k < ws.len() {
        assert(ws.take(k + 1).drop_last() =~= ws.take(k));
        lemma_first_window_prefix(ws, k + 1, pid, owner_free_only);
    } else {
        assert(ws.take(k) =~= ws);
    }
}

/// The window to bring to the front for a process: the first visible window
/// without owner, else the first visible one; `None` when it has no visible
/// window.
pub fn choose_window(ws: &Vec<WindowInfo>, pid: u32) -> (r: Option<usize>)
    ensures
        first_window(ws@, pid, true) is Some ==> r is Some && first_window(ws@, pid, true) == Some(r->0 as int),
        first_window(ws@, pid, true) is None ==> match r {
            Some(i) => first_window(ws@, pid, false) == Some(i as int),
            None => first_window(ws@, pid, false) is None,
        },
{
    match pick_window(ws, pid, true) {
        Some(i) => Some(i),
        None => pick_window(ws, pid, false),
    }
}

} // verus!
