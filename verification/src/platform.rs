//! What the launcher does where the Windows shell is not available: no
//! running program is ever found to bring forward, and shell targets and
//! elevated starts are refused with a message.
use vstd::prelude::*;
use crate::text::string_from;

verus! {

/// Whether a program at `path` is already running and was brought to the
/// front; without a window system to ask, never.
pub fn activate_if_running(path: &str) -> (r: bool)
    ensures
        !r,
{
    false
}

/// Opens a shell target (a shell namespace or a custom protocol); without a
/// shell this is refused.
pub fn open(target: &str) -> (r: Result<(), String>)
    ensures
        r matches Err(m) && m@ == "当前平台不支持该启动方式"@,
{
    Err(string_from("当前平台不支持该启动方式"))
}

/// Starts a program that asks for administrator rights; without the system's
/// elevation prompt this is refused.
pub fn spawn_elevated(path: &str, args: &Vec<String>, workdir: Option<&str>) -> (r: Result<(), String>)
    ensures
        r matches Err(m) && m@ == "当前平台不支持自动提权启动"@,
{
    Err(string_from("当前平台不支持自动提权启动"))
}

} // verus!
