use gloryport::cli::{
    autostart_matches, kill_exit_code, kill_targets, list_header, list_line, parse_command, parse_kill_options,
    parse_list_options, parse_unsigned, run_value, usage_text, Command, KillArgError, KillOptions,
    ListOptions,
};
use gloryport::ports::PortInfo;
use gloryport::process::KillError;

fn args(a: &[&str]) -> Vec<String> {
    a.iter().map(|s| s.to_string()).collect()
}

fn chars(s: &str) -> Vec<char> {
    s.chars().collect()
}

fn row(port: u16, pid: u32) -> PortInfo {
    PortInfo {
        port,
        pid,
        address: "127.0.0.1".into(),
        process_name: "node.exe".into(),
        process_path: None,
        process_cmd: None,
        proyecto: None,
    }
}

#[test]
fn commands_are_recognised() {
    assert_eq!(parse_command(&args(&[])), Command::Tray);
    assert_eq!(parse_command(&args(&["tray"])), Command::Tray);
    assert_eq!(parse_command(&args(&["list", "--json"])), Command::List);
    assert_eq!(parse_command(&args(&["kill", "3000"])), Command::Kill);
    for v in ["--version", "version", "-V"] {
        assert_eq!(parse_command(&args(&[v])), Command::Version);
    }
    for h in ["--help", "help", "-h"] {
        assert_eq!(parse_command(&args(&[h])), Command::Help);
    }
    assert_eq!(parse_command(&args(&["borrar"])), Command::Unknown("borrar".into()));
}

#[test]
fn list_options() {
    assert_eq!(
        parse_list_options(&args(&[])),
        Ok(ListOptions { json: false, include_system: false })
    );
    assert_eq!(
        parse_list_options(&args(&["--incluir-sistema", "--json"])),
        Ok(ListOptions { json: true, include_system: true })
    );
    assert_eq!(parse_list_options(&args(&["--json", "-x", "y"])), Err("-x".to_string()));
}

#[test]
fn unsigned_parsing_follows_std() {
    for s in ["0", "65535", "+7", "007", "65536", "", "+", "-1", "1a", " 1", "4294967295"] {
        let expected = s.parse::<u16>().ok().map(u64::from);
        assert_eq!(parse_unsigned(&chars(s), 65535), expected, "{s:?}");
        let expected32 = s.parse::<u32>().ok().map(u64::from);
        assert_eq!(parse_unsigned(&chars(s), 4294967295), expected32, "{s:?}");
    }
    assert_eq!(parse_unsigned(&chars("99999999999999999999"), 4294967295), None);
}

#[test]
fn kill_options_and_errors() {
    assert_eq!(parse_kill_options(&args(&["3000"])), Ok(KillOptions { port: 3000, pid: None }));
    assert_eq!(
        parse_kill_options(&args(&["--pid", "1234", "3000"])),
        Ok(KillOptions { port: 3000, pid: Some(1234) })
    );
    assert_eq!(parse_kill_options(&args(&["3000", "--pid"])), Err(KillArgError::BadPid));
    assert_eq!(parse_kill_options(&args(&["3000", "--pid", "x"])), Err(KillArgError::BadPid));
    assert_eq!(
        parse_kill_options(&args(&["-f", "3000"])),
        Err(KillArgError::UnknownOption("-f".into()))
    );
    assert_eq!(parse_kill_options(&args(&["3000", "3001"])), Err(KillArgError::ExtraPort));
    assert_eq!(parse_kill_options(&args(&[])), Err(KillArgError::MissingPort));
    assert_eq!(parse_kill_options(&args(&["0"])), Err(KillArgError::BadPort("0".into())));
    assert_eq!(parse_kill_options(&args(&["70000"])), Err(KillArgError::BadPort("70000".into())));
}

#[test]
fn kill_error_messages() {
    assert_eq!(KillArgError::BadPid.describe(), "'--pid' requiere un número válido");
    assert_eq!(KillArgError::UnknownOption("-f".into()).describe(), "opción desconocida '-f'");
    assert_eq!(KillArgError::ExtraPort.describe(), "solo se acepta un puerto");
    assert_eq!(KillArgError::MissingPort.describe(), "uso: gloryport kill <puerto> [--pid <PID>]");
    assert_eq!(KillArgError::BadPort("x".into()).describe(), "puerto inválido 'x' (1–65535)");
}

#[test]
fn kill_targets_filter_by_port_and_pid() {
    let rows = vec![row(3000, 1), row(80, 2), row(3000, 3)];
    let all: Vec<u32> = kill_targets(rows.clone(), 3000, None).iter().map(|r| r.pid).collect();
    assert_eq!(all, vec![1, 3]);
    let one: Vec<u32> = kill_targets(rows.clone(), 3000, Some(3)).iter().map(|r| r.pid).collect();
    assert_eq!(one, vec![3]);
    assert!(kill_targets(rows, 443, None).is_empty());
}

#[test]
fn list_table_lines() {
    let expected_header = format!("{:<7} {:<21} {:<8} {:<22} PROCESO", "PUERTO", "DIRECCIÓN", "PID", "PROYECTO");
    assert_eq!(list_header(), expected_header);
    let mut r = row(3000, 1234);
    assert_eq!(
        list_line(&r),
        format!("{:<7} {:<21} {:<8} {:<22} {}", 3000, "127.0.0.1", 1234, "-", "node.exe")
    );
    r.proyecto = Some("tienda".into());
    assert_eq!(
        list_line(&r),
        format!("{:<7} {:<21} {:<8} {:<22} {}", 3000, "127.0.0.1", 1234, "tienda", "node.exe")
    );
}

#[test]
fn usage_mentions_version() {
    let u = usage_text("0.1.0");
    assert!(u.starts_with("GLORYPORT v0.1.0 — puertos TCP en escucha desde la bandeja (Windows)\n"));
    assert!(u.ends_with("  gloryport --help     esta ayuda"));
}

#[test]
fn autostart_entry_round_trip() {
    let exe = r"C:\Tools\gloryport.exe";
    assert_eq!(run_value(exe), "\"C:\\Tools\\gloryport.exe\"");
    assert!(autostart_matches(&run_value(exe), exe));
    assert!(autostart_matches(&format!("  {}\0\0", run_value(exe)), exe));
    assert!(!autostart_matches(exe, exe));
    assert!(!autostart_matches(&run_value(r"C:\Other\gloryport.exe"), exe));
}

#[test]
fn printed_numbers_parse_back() {
    for n in [0u64, 1, 80, 3000, 65535] {
        assert_eq!(parse_unsigned(&chars(&n.to_string()), 65535), Some(n));
    }
}

#[test]
fn kill_exit_codes() {
    assert_eq!(kill_exit_code(&[]), 1);
    assert_eq!(kill_exit_code(&[Ok(()), Ok(())]), 0);
    assert_eq!(kill_exit_code(&[Ok(()), Err(KillError::AccessDenied), Ok(())]), 1);
    assert_eq!(kill_exit_code(&[Err(KillError::Protected)]), 1);
}
