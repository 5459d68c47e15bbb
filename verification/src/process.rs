//! Rules for terminating processes: protected PIDs and the classification of the
//! system's error codes.

use vstd::prelude::*;

use crate::text::{chars_of, dec, push_radix, string_of};

verus! {

/// `ERROR_ACCESS_DENIED`.
pub const ERROR_ACCESS_DENIED: u32 = 5;
/// `ERROR_INVALID_PARAMETER`, which opening a process reports for a PID that does not exist.
pub const ERROR_INVALID_PARAMETER: u32 = 87;

/// Why a process could not be terminated.
#[derive(Debug, Clone, Copy, PartialEq, Eq, Structural)]
pub enum KillError {
    /// Protected PID (0, 4 or this very process).
    Protected,
    /// Not enough rights (typically an elevated or SYSTEM process).
    AccessDenied,
    /// The process no longer exists.
    NotFound,
    /// Any other system error.
    Api { code: u32 },
}

/// PIDs never terminated: System Idle (0), System (4) and this process (`own_pid`).
pub open spec fn protected(pid: u32, own_pid: u32) -> bool {
    pid == 0 || pid == 4 || pid == own_pid
}

pub fn is_protected_pid(pid: u32, own_pid: u32) -> (r: bool)
    ensures
        r == protected(pid, own_pid),
{
    pid == 0 || pid == 4 || pid == own_pid
}

/// The refusal due before any attempt to terminate `pid`, if any.
pub fn precheck_kill(pid: u32, own_pid: u32) -> (r: Result<(), KillError>)
    ensures
        r == if protected(pid, own_pid) {
            Err::<(), KillError>(KillError::Protected)
        } else {
            Ok::<(), KillError>(())
        },
{
    if is_protected_pid(pid, own_pid) {
        Err(KillError::Protected)
    } else {
        Ok(())
    }
}

/// Classification of the error code of opening a process for termination.
pub fn map_open_error(code: u32) -> (r: KillError)
    ensures
        r == if code == ERROR_ACCESS_DENIED {
            KillError::AccessDenied
        } else if code == ERROR_INVALID_PARAMETER {
            KillError::NotFound
        } else {
            KillError::Api { code }
        },
{
    if code == ERROR_ACCESS_DENIED {
        KillError::AccessDenied
    } else if code == ERROR_INVALID_PARAMETER {
        KillError::NotFound
    } else {
        KillError::Api { code }
    }
}

/// The Win32 code (low 16 bits) of an `HRESULT`.
pub fn win32_code(hresult: i32) -> (r: u32)
    ensures
        r == (hresult as u32) % 65536,
{
    let v: u32 = hresult as u32;
    v % 65536
}

/// User-facing description of each refusal.
pub open spec fn kill_error_text(e: KillError) -> Seq<char> {
    match e {
        KillError::Protected => "PID protegido (no se puede terminar)"@,
        KillError::AccessDenied => "acceso denegado: el proceso requiere más privilegios que GLORYPORT"@,
        KillError::NotFound => "el proceso ya no existe"@,
        KillError::Api { code } => "error Win32 "@ + dec(code as nat),
    }
}

impl KillError {
    pub fn describe(&self) -> (r: String)
        ensures
            r@ == kill_error_text(*self),
    {
        match self {
            KillError::Protected => string_of(&chars_of("PID protegido (no se puede terminar)")),
            KillError::AccessDenied => string_of(
                &chars_of("acceso denegado: el proceso requiere más privilegios que GLORYPORT"),
            ),
            KillError::NotFound => string_of(&chars_of("el proceso ya no existe")),
            KillError::Api { code } => {
                let mut out = chars_of("error Win32 ");
                push_radix(&mut out, *code as u64, 10);
                string_of(&out)
            },
        }
    }
}

} // verus!
