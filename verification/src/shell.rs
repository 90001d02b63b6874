//! Choice of the host system's opener program.

use vstd::prelude::*;

verus! {

/// The kind of host system, as far as the opener choice cares.
pub enum OsKind {
    Windows,
    MacOs,
    Linux,
    Other,
}

/// The program that opens a file or folder with the host system's default
/// handler, or nothing on a system without a known opener.
pub fn opener_program(os: OsKind) -> (r: Option<&'static str>)
    ensures
        match os {
            OsKind::Windows => r matches Some(c) && c@ == "explorer"@,
            OsKind::MacOs => r matches Some(c) && c@ == "open"@,
            OsKind::Linux => r matches Some(c) && c@ == "xdg-open"@,
            OsKind::Other => r is None,
        },
{
    match os {
        OsKind::Windows => Some("explorer"),
        OsKind::MacOs => Some("open"),
        OsKind::Linux => Some("xdg-open"),
        OsKind::Other => None,
    }
}

} // verus!
