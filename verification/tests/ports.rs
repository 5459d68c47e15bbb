use gloryport::config::Config;
use gloryport::net::{decode_port, ipv4_to_string, ipv6_to_string};
use gloryport::ports::{
    attach_process_names, dedupe_and_sort, es_puerto_de_aplicacion, es_ruta_del_sistema,
    esta_excluido, esta_oculto_por_config, etiqueta_popup, etiqueta_visible, proyecto_para,
    scan_listeners, solo_aplicaciones, NameCache, PortInfo, TcpRowV4, TcpRowV6, TcpTable,
};

fn blank(port: u16, pid: u32, address: &str) -> PortInfo {
    PortInfo {
        port,
        pid,
        address: address.into(),
        process_name: String::new(),
        process_path: None,
        process_cmd: None,
        proyecto: None,
    }
}

#[test]
fn decode_port_from_network_order() {
    assert_eq!(decode_port(0x0000_B80B), 3000);
    assert_eq!(decode_port(0x0000_5000), 80);
    assert_eq!(decode_port(0x0000_FF00), 255);
}

#[test]
fn decode_port_ignores_upper_bytes() {
    assert_eq!(decode_port(0xABCD_B80B), 3000);
    assert_eq!(decode_port(0x0000_FFFF), 65535);
}

#[test]
fn ipv4_formatting() {
    assert_eq!(ipv4_to_string(0x0100_007F), "127.0.0.1");
    assert_eq!(ipv4_to_string(0), "0.0.0.0");
}

#[test]
fn ipv4_formatting_every_octet() {
    assert_eq!(ipv4_to_string(0xFFFE_A8C0), "192.168.254.255");
}

#[test]
fn ipv6_formatting() {
    assert_eq!(ipv6_to_string(&[0; 16]), "[::]");
    let localhost = {
        let mut a = [0u8; 16];
        a[15] = 1;
        a
    };
    assert_eq!(ipv6_to_string(&localhost), "[::1]");
    let doc = {
        let mut a = [0u8; 16];
        a[0] = 0x20;
        a[1] = 0x01;
        a[2] = 0x0d;
        a[3] = 0xb8;
        a[15] = 1;
        a
    };
    assert_eq!(ipv6_to_string(&doc), "[2001:db8::1]");
}

#[test]
fn ipv6_formatting_without_zero_run() {
    let mut a = [0u8; 16];
    for (i, b) in a.iter_mut().enumerate() {
        *b = (i as u8) + 1;
    }
    assert_eq!(ipv6_to_string(&a), "[102:304:506:708:90a:b0c:d0e:f10]");
    // The longest run of zero groups is the one compressed.
    let mut b = [0u8; 16];
    b[1] = 1; // group 0 = 1
    b[7] = 2; // group 3 = 2
    b[15] = 3; // group 7 = 3
    assert_eq!(ipv6_to_string(&b), "[1:0:0:2::3]");
    // Among runs of equal length, the first one.
    let mut c = [0u8; 16];
    c[1] = 1; // group 0
    c[7] = 2; // group 3
    c[13] = 3; // group 6
    c[15] = 4; // group 7
    assert_eq!(ipv6_to_string(&c), "[1::2:0:0:3:4]");
    // A lone zero group is written as `0`, not compressed.
    let d = [0, 1, 0, 0, 0, 1, 0, 1, 0, 1, 0, 1, 0, 1, 0, 1];
    assert_eq!(ipv6_to_string(&d), "[1:0:1:1:1:1:1:1]");
    let e = [0, 1, 0, 0, 0, 1, 0, 0, 0, 0, 0, 1, 0, 1, 0, 1];
    assert_eq!(ipv6_to_string(&e), "[1:0:1::1:1:1]");
}

#[test]
fn dedupe_and_order() {
    let mut rows = vec![
        blank(3000, 100, "0.0.0.0"),
        blank(80, 4, "0.0.0.0"),
        blank(3000, 100, "[::]"),
        blank(3000, 101, "127.0.0.1"),
    ];
    dedupe_and_sort(&mut rows);
    assert_eq!(rows.len(), 3);
    assert_eq!(rows[0].port, 80);
    assert_eq!(rows[1].port, 3000);
    assert_eq!(rows[1].pid, 100);
    assert_eq!(rows[2].pid, 101);
}

#[test]
fn dedupe_keeps_lowest_address() {
    let mut rows = vec![blank(443, 7, "[::]"), blank(443, 7, "0.0.0.0"), blank(443, 7, "127.0.0.1")];
    dedupe_and_sort(&mut rows);
    assert_eq!(rows.len(), 1);
    assert_eq!(rows[0].address, "0.0.0.0");
    let mut empty: Vec<PortInfo> = Vec::new();
    dedupe_and_sort(&mut empty);
    assert!(empty.is_empty());
}

#[test]
fn name_cache_evicts_and_reuses() {
    let mut cache = NameCache::new();
    // An improbable PID: no path and no name.
    assert!(cache.get(u32::MAX, 0).is_none());
    let (a, path, _cmd) = cache.store(u32::MAX, None, None, 0);
    assert_eq!(a, "desconocido");
    assert!(path.is_none());
    assert_eq!(cache.len(), 1);
}

#[test]
fn name_cache_reuses_within_ttl_and_expires_after() {
    let mut cache = NameCache::new();
    let stored = cache.store(42, Some(r"C:\Program Files\nodejs\node.exe".into()), None, 1_000);
    assert_eq!(stored.0, "node.exe");
    let hit = cache.get(42, 1_000 + 9_999).expect("still valid");
    assert_eq!(hit.0, "node.exe");
    assert_eq!(hit.1.as_deref(), Some(r"C:\Program Files\nodejs\node.exe"));
    assert!(cache.get(42, 1_000 + 10_000).is_none());
    // Storing again replaces the entry of the same PID.
    cache.store(42, Some(r"C:\bin\deno.exe".into()), Some("deno run a.ts".into()), 2_000);
    assert_eq!(cache.len(), 1);
    assert_eq!(cache.get(42, 2_000).unwrap().0, "deno.exe");
}

#[test]
fn name_cache_stays_bounded() {
    let mut cache = NameCache::new();
    for pid in 0..600u32 {
        cache.store(pid, None, None, 5);
        assert!(cache.len() <= 512);
    }
    // With more than 512 valid entries the cache is emptied, then refilled.
    assert!(cache.len() <= 512);
    let last = cache.get(599, 5);
    assert!(last.is_some());
}

fn app_row(port: u16, path: Option<&str>) -> PortInfo {
    PortInfo {
        port,
        pid: 1000,
        address: "0.0.0.0".into(),
        process_name: String::new(),
        process_path: path.map(str::to_string),
        process_cmd: None,
        proyecto: None,
    }
}

#[test]
fn filtro_solo_aplicaciones() {
    let row = app_row;
    let rows = vec![
        row(80, Some(r"C:\Windows\System32\svchost.exe")),
        row(135, None),
        row(445, Some(r"C:\Windows\System32\srvnet.sys")),
        row(49664, Some(r"C:\Windows\System32\svchost.exe")),
        row(3000, Some(r"C:\Program Files\nodejs\node.exe")),
        row(5432, Some(r"C:\Program Files\PostgreSQL\bin\postgres.exe")),
        row(8080, None),
        row(80, Some(r"C:\Program Files\nodejs\node.exe")),
        row(9000, Some(r"c:\windows\system32\dwm.exe")),
        row(7679, Some(r"C:\Program Files\Google\Drive File Stream\GoogleDriveFS.exe")),
        row(49351, Some(r"C:\Program Files\Intel\SUR\QUEENCREEK\x64\esrv.exe")),
        row(
            59489,
            Some(r"C:\Users\Owner\AppData\Local\Programs\@codebufffreebuff-desktop\Freebuff.exe"),
        ),
    ];

    let kept = solo_aplicaciones(rows, &Config::default(), None);
    let kept_ports: Vec<u16> = kept.iter().map(|r| r.port).collect();
    assert_eq!(kept_ports, vec![3000, 5432]);

    let mut fila_google =
        row(7679, Some(r"C:\Program Files\Google\Drive File Stream\GoogleDriveFS.exe"));
    fila_google.process_name = "GoogleDriveFS.exe".into();
    assert!(!es_puerto_de_aplicacion(&fila_google, &Config::default(), None));

    let mut orquestador = row(
        59494,
        Some(r"C:\Users\Owner\AppData\Local\Programs\@codebufffreebuff-desktop\resources\bun\bun.exe"),
    );
    orquestador.process_name = "bun.exe".into();
    orquestador.process_cmd = Some(
        r"C:\Users\Owner\AppData\Local\Programs\@codebufffreebuff-desktop\resources\bun\bun.exe C:\Users\Owner\AppData\Local\Programs\@codebufffreebuff-desktop\resources\orchestrator\orchestrator.js"
            .to_string(),
    );
    assert!(!es_puerto_de_aplicacion(&orquestador, &Config::default(), None));

    let mut cfg_oculta = Config::default();
    cfg_oculta.ocultar.push("gloryapi".into());
    let mut fila_gloryapi = row(3101, Some(r"C:\Program Files\nodejs\node.exe"));
    fila_gloryapi.proyecto = Some("gloryapi".into());
    assert!(es_puerto_de_aplicacion(&fila_gloryapi, &Config::default(), None));
    assert!(!es_puerto_de_aplicacion(&fila_gloryapi, &cfg_oculta, None));
}

#[test]
fn filtro_es_idempotente_y_conserva_orden() {
    let rows = vec![
        app_row(5000, Some(r"D:\apps\b.exe")),
        app_row(80, Some(r"D:\apps\a.exe")),
        app_row(4000, Some(r"D:\apps\c.exe")),
    ];
    let once = solo_aplicaciones(rows, &Config::default(), None);
    let ports: Vec<u16> = once.iter().map(|r| r.port).collect();
    assert_eq!(ports, vec![5000, 4000]);
    let twice = solo_aplicaciones(once.clone(), &Config::default(), None);
    assert_eq!(twice, once);
}

#[test]
fn ruta_del_sistema_con_system_root() {
    assert!(es_ruta_del_sistema(r"D:\WINNT\system32\x.exe", Some(r"D:\WinNT\")));
    assert!(!es_ruta_del_sistema(r"C:\Windows\System32\x.exe", Some(r"D:\WinNT")));
    assert!(es_ruta_del_sistema(r"C:\Windows\", None));
    assert!(!es_ruta_del_sistema(r"C:\WindowsApps\x.exe", None));
}

#[test]
fn exclusion_y_ocultos() {
    let mut r = app_row(3000, Some(r"C:\x\Intel\esrv.exe"));
    r.process_name = "esrv.exe".into();
    assert!(esta_excluido(&r));
    let mut cfg = Config::default();
    cfg.ocultar.push("SERVER.JS".into());
    let mut s = app_row(3000, Some(r"C:\Program Files\nodejs\node.exe"));
    s.process_cmd = Some(r"node C:\a\server.js".into());
    assert!(esta_oculto_por_config(&s, &cfg));
    assert!(!esta_oculto_por_config(&s, &Config::default()));
}

#[test]
fn etiqueta_muestra_script_de_node_y_bun() {
    fn row(name: &str, cmd: Option<&str>) -> PortInfo {
        PortInfo {
            port: 3101,
            pid: 1000,
            address: "127.0.0.1".into(),
            process_name: name.into(),
            process_path: Some(r"C:\Program Files\nodejs\node.exe".into()),
            process_cmd: cmd.map(str::to_string),
            proyecto: None,
        }
    }

    let bridge = row(
        "node.exe",
        Some(
            r#""C:\Program Files\nodejs\node.exe" C:\Users\Owner\OneDrive\Documentos\area-trabajo\gloryapi\integrations\codex-bridge\bridge\server.js"#,
        ),
    );
    assert_eq!(etiqueta_visible(&bridge), "…\\codex-bridge\\bridge\\server.js");

    let bun = row(
        "bun.exe",
        Some(
            r#"C:\Users\Owner\AppData\Local\Programs\@codebufffreebuff-desktop\resources\bun\bun.exe C:\Users\Owner\AppData\Local\Programs\@codebufffreebuff-desktop\resources\orchestrator\orchestrator.js"#,
        ),
    );
    assert_eq!(etiqueta_visible(&bun), "…\\resources\\orchestrator\\orchestrator.js");

    let vite = row(
        "node.exe",
        Some(
            r#""node" "C:\Users\Owner\OneDrive\Documentos\area-trabajo\gloryapi\node_modules\.bin\..\vite\bin\vite.js""#,
        ),
    );
    let label = etiqueta_visible(&vite);
    assert_eq!(label, "…\\vite\\bin\\vite.js");
    assert!(!label.contains(".bin"));

    let sin_cmd = row("node.exe", None);
    assert_eq!(etiqueta_visible(&sin_cmd), "node.exe");
}

#[test]
fn etiqueta_no_depende_del_puerto() {
    let mut a = blank(3000, 1, "0.0.0.0");
    a.process_name = "deno.exe".into();
    a.process_cmd = Some("deno run --allow-net srv/main.ts".into());
    let mut b = a.clone();
    b.port = 4000;
    b.pid = 2;
    b.address = "[::]".into();
    assert_eq!(etiqueta_visible(&a), "srv\\main.ts");
    assert_eq!(etiqueta_visible(&a), etiqueta_visible(&b));
    // Flags are skipped, short paths are kept, UNC prefixes survive normalization.
    a.process_cmd = Some(r"node --inspect \\srv\share\app\x\y\index.mjs".into());
    assert_eq!(etiqueta_visible(&a), "…\\x\\y\\index.mjs");
}

#[test]
fn proyecto_se_deriva_del_cmdline() {
    let cfg = Config::default();
    fn row(cmd: Option<&str>, path: Option<&str>) -> PortInfo {
        PortInfo {
            port: 3101,
            pid: 1000,
            address: "127.0.0.1".into(),
            process_name: "node.exe".into(),
            process_path: path.map(str::to_string),
            process_cmd: cmd.map(str::to_string),
            proyecto: None,
        }
    }

    let gloryapi = row(
        Some(
            r#""C:\Program Files\nodejs\node.exe" C:\Users\Owner\OneDrive\Documentos\area-trabajo\gloryapi\server\dist\index.js"#,
        ),
        Some(r"C:\Program Files\nodejs\node.exe"),
    );
    assert_eq!(proyecto_para(&gloryapi, &cfg).as_deref(), Some("gloryapi"));

    let tasks = row(
        Some(
            r#""node" "C:\Users\Owner\OneDrive\Documentos\AREA-TRABAJO\PROYECTO TASKS\frontend\node_modules\.bin\..\vite\bin\vite.js""#,
        ),
        None,
    );
    assert_eq!(proyecto_para(&tasks, &cfg).as_deref(), Some("PROYECTO TASKS"));

    let externo = row(
        Some(r"C:\Users\Owner\AppData\Local\Programs\@codebufffreebuff-desktop\Freebuff.exe"),
        None,
    );
    assert_eq!(proyecto_para(&externo, &cfg), None);

    let sin_datos = row(None, None);
    assert_eq!(proyecto_para(&sin_datos, &cfg), None);
}

#[test]
fn proyecto_cae_a_la_ruta_del_ejecutable() {
    let mut r = blank(3000, 1, "0.0.0.0");
    r.process_cmd = Some("server.exe --port 3000".into());
    r.process_path = Some(r"C:\area-trabajo\tienda\bin\server.exe".into());
    assert_eq!(proyecto_para(&r, &Config::default()).as_deref(), Some("tienda"));
    r.process_path = Some(r"C:\area-trabajo".into());
    assert_eq!(proyecto_para(&r, &Config::default()), None);
}

#[test]
fn alias_de_config_y_workspace_personalizado() {
    let row = |port: u16, cmd: &str| PortInfo {
        port,
        pid: 1000,
        address: "127.0.0.1".into(),
        process_name: "node.exe".into(),
        process_path: None,
        process_cmd: Some(cmd.to_string()),
        proyecto: None,
    };

    let mut cfg = Config::default();
    cfg.nombres.push(("3000".to_string(), "Tasks backend".to_string()));
    let backend = row(3000, r"C:\tmp\glory-target\glory_backend_main\debug\glory-backend.exe");
    assert_eq!(proyecto_para(&backend, &cfg).as_deref(), Some("Tasks backend"));

    let mut cfg2 = Config::default();
    cfg2.workspace = Some("proyectos".to_string());
    let web = row(4100, r"C:\dev\proyectos\webapp\server\index.js");
    assert_eq!(proyecto_para(&web, &cfg2).as_deref(), Some("webapp"));
    assert_eq!(proyecto_para(&web, &Config::default()), None);
}

#[test]
fn etiqueta_popup_prefiere_proyecto() {
    let mut row = PortInfo {
        port: 4100,
        pid: 1000,
        address: "127.0.0.1".into(),
        process_name: "node.exe".into(),
        process_path: Some(r"C:\Program Files\nodejs\node.exe".into()),
        process_cmd: Some(
            r#""C:\Program Files\nodejs\node.exe" C:\Users\Owner\OneDrive\Documentos\area-trabajo\gloryapi\integrations\codex-bridge\bridge\server.js"#
                .to_string(),
        ),
        proyecto: None,
    };
    row.proyecto = Some("gloryapi".into());
    assert_eq!(etiqueta_popup(&row), "gloryapi · codex-bridge\\bridge\\server.js");

    row.proyecto = None;
    assert_eq!(etiqueta_popup(&row), etiqueta_visible(&row));

    row.proyecto = Some(String::new());
    assert_eq!(etiqueta_popup(&row), etiqueta_visible(&row));
}

#[test]
fn scan_builds_sorted_rows_and_reports_errors() {
    let v4 = TcpTable::Rows(vec![
        TcpRowV4 { local_addr: 0x0100_007F, local_port: 0x0000_B80B, owning_pid: 9 },
        TcpRowV4 { local_addr: 0, local_port: 0x0000_5000, owning_pid: 4 },
    ]);
    let v6 = TcpTable::Rows(vec![TcpRowV6 { local_addr: [0; 16], local_port: 0x0000_B80B, owning_pid: 9 }]);
    let rows = scan_listeners(v4, v6).expect("both tables read");
    assert_eq!(rows.len(), 2);
    assert_eq!(rows[0].port, 80);
    assert_eq!(rows[0].address, "0.0.0.0");
    assert_eq!(rows[1].port, 3000);
    assert_eq!(rows[1].pid, 9);
    assert_eq!(rows[1].address, "127.0.0.1");

    let err = scan_listeners(TcpTable::ReadFailed(5), TcpTable::Rows(Vec::new())).unwrap_err();
    assert_eq!(err.code, 5);
    assert!(!err.describe().is_empty());
    let err6 = scan_listeners(TcpTable::Rows(Vec::new()), TcpTable::SizeNotReported(87)).unwrap_err();
    assert_eq!(err6.code, 87);
}

#[test]
fn attach_fills_names_and_projects() {
    let mut rows = vec![blank(3000, 7, "0.0.0.0"), blank(80, 4, "0.0.0.0")];
    let resolved = vec![
        (
            "node.exe".to_string(),
            Some(r"C:\area-trabajo\tienda\node.exe".to_string()),
            Some(r"node C:\area-trabajo\tienda\server.js".to_string()),
        ),
        ("desconocido".to_string(), None, None),
    ];
    attach_process_names(&mut rows, resolved, &Config::default());
    assert_eq!(rows[0].process_name, "node.exe");
    assert_eq!(rows[0].proyecto.as_deref(), Some("tienda"));
    assert_eq!(rows[1].process_name, "desconocido");
    assert_eq!(rows[1].proyecto, None);
    assert_eq!(rows[1].port, 80);
}
