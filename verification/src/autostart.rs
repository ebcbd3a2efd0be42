//! Starting with Windows, as a per-user Run entry.
//!
//! The plain, documented mechanism: no service, no task scheduler, no
//! elevation, and the user can see and disable it themselves in Task Manager's
//! Startup tab.
//!
//! The registered command is always the **installed** executable, never
//! whichever build happens to be running — the same rule as the hook command,
//! for the same reason.

use vstd::prelude::*;

use crate::paths;

verus! {

/// Where the entry lives and what it is called.
pub const RUN_KEY: &'static str = "Software\\Microsoft\\Windows\\CurrentVersion\\Run";

pub const VALUE_NAME: &'static str = "Agent F-Row";

/// The executable to register.
pub fn executable(install_dir: Option<&str>) -> (r: Result<String, String>)
    ensures
        match install_dir {
            Some(dir) => r matches Ok(exe) && exe@ == paths::joined(
                dir@,
                "agent-frow.exe"@,
                '\\',
            ),
            None => r matches Err(error) && error@ == "no install directory"@,
        },
{
    match install_dir {
        Some(dir) => Ok(paths::join(dir, "agent-frow.exe", '\\')),
        None => Err("no install directory".to_owned()),
    }
}

/// What to register for `exe`, given whether it is there.
///
/// Refuses when nothing is installed: registering a path that does not exist
/// would look enabled and silently do nothing at every boot. Quoted, because
/// the path contains spaces on most machines and the Run key parses its
/// commands like a shell would.
pub fn command(exe: &str, exists: bool) -> (r: Result<String, String>)
    ensures
        match r {
            Ok(line) => exists && line@ == "\""@ + exe@ + "\""@,
            Err(error) => !exists && error@
                == "install first — the startup entry points at the installed copy"@,
        },
{
    if !exists {
        return Err("install first — the startup entry points at the installed copy".to_owned());
    }
    let mut line = "\"".to_owned();
    line.push_str(exe);
    line.push_str("\"");
    Ok(line)
}

} // verus!
