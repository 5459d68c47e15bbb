use gloryport::process::{
    is_protected_pid, map_open_error, precheck_kill, win32_code, KillError, ERROR_ACCESS_DENIED,
    ERROR_INVALID_PARAMETER,
};

const OWN_PID: u32 = 4242;

#[test]
fn protected_pids_are_rejected() {
    assert!(is_protected_pid(0, OWN_PID));
    assert!(is_protected_pid(4, OWN_PID));
    assert!(is_protected_pid(OWN_PID, OWN_PID));
    assert!(!is_protected_pid(12345, OWN_PID));
}

#[test]
fn precheck_refuses_only_protected() {
    assert_eq!(precheck_kill(4, OWN_PID), Err(KillError::Protected));
    assert_eq!(precheck_kill(OWN_PID, OWN_PID), Err(KillError::Protected));
    assert_eq!(precheck_kill(12345, OWN_PID), Ok(()));
}

#[test]
fn open_errors_are_classified() {
    assert_eq!(map_open_error(ERROR_ACCESS_DENIED), KillError::AccessDenied);
    assert_eq!(map_open_error(ERROR_INVALID_PARAMETER), KillError::NotFound);
    assert_eq!(map_open_error(1450), KillError::Api { code: 1450 });
}

#[test]
fn win32_code_takes_low_word() {
    // HRESULT_FROM_WIN32(ERROR_ACCESS_DENIED) = 0x80070005.
    assert_eq!(win32_code(0x8007_0005u32 as i32), 5);
    assert_eq!(win32_code(0x8007_0057u32 as i32), 87);
    assert_eq!(win32_code(0), 0);
}

#[test]
fn kill_errors_describe_the_reason() {
    assert_eq!(KillError::Protected.describe(), "PID protegido (no se puede terminar)");
    assert_eq!(
        KillError::AccessDenied.describe(),
        "acceso denegado: el proceso requiere más privilegios que GLORYPORT"
    );
    assert_eq!(KillError::NotFound.describe(), "el proceso ya no existe");
    assert_eq!(KillError::Api { code: 1450 }.describe(), "error Win32 1450");
}
