use gloryport::config::Config;

/// Reads a configuration file's JSON the way the application does: missing keys keep
/// their defaults, and malformed text is an error.
fn config_from_json(text: &str) -> Result<Config, serde_json::Error> {
    let value: serde_json::Value = serde_json::from_str(text)?;
    let mut cfg = Config::default();
    if let Some(w) = value.get("workspace").and_then(|w| w.as_str()) {
        cfg.workspace = Some(w.to_string());
    }
    if let Some(map) = value.get("nombres").and_then(|n| n.as_object()) {
        for (k, v) in map {
            if let Some(name) = v.as_str() {
                cfg.nombres.push((k.clone(), name.to_string()));
            }
        }
    }
    if let Some(list) = value.get("ocultar").and_then(|o| o.as_array()) {
        for item in list {
            if let Some(s) = item.as_str() {
                cfg.ocultar.push(s.to_string());
            }
        }
    }
    Ok(cfg)
}

#[test]
fn defaults_sin_archivo() {
    let cfg = Config::default();
    assert_eq!(cfg.workspace_raiz(), "area-trabajo");
    assert_eq!(cfg.alias_para(3000), None);
}

#[test]
fn parsea_json_valido() {
    let cfg = config_from_json(r#"{"workspace": "workspace", "nombres": {"3000": "Tasks backend"}}"#)
        .unwrap();
    assert_eq!(cfg.workspace_raiz(), "workspace");
    assert_eq!(cfg.alias_para(3000), Some("Tasks backend"));
    assert_eq!(cfg.alias_para(3101), None);
}

#[test]
fn ocultar_matchea_case_insensitive() {
    let cfg = config_from_json(r#"{"ocultar": ["gloryapi", "intel"]}"#).unwrap();
    assert!(cfg.esta_oculto("gloryapi"));
    assert!(cfg.esta_oculto("GLORYAPI"));
    assert!(cfg.esta_oculto("Intel"));
    assert!(!cfg.esta_oculto("glory-port"));
    assert!(!Config::default().esta_oculto("gloryapi"));
}

#[test]
fn json_vacio_usa_defaults() {
    let cfg = config_from_json(r#"{}"#).unwrap();
    assert_eq!(cfg.workspace_raiz(), "area-trabajo");
}

#[test]
fn json_malformado_cae_a_defaults() {
    let cfg = config_from_json("no es json").unwrap_or_default();
    assert_eq!(cfg.workspace_raiz(), "area-trabajo");
}

#[test]
fn workspace_vacio_usa_el_de_defecto() {
    let mut cfg = Config::default();
    cfg.workspace = Some(String::new());
    assert_eq!(cfg.workspace_raiz(), "area-trabajo");
}

#[test]
fn alias_solo_para_su_puerto() {
    let mut cfg = Config::default();
    cfg.nombres.push(("80".to_string(), "web".to_string()));
    cfg.nombres.push(("8080".to_string(), "proxy".to_string()));
    assert_eq!(cfg.alias_para(80), Some("web"));
    assert_eq!(cfg.alias_para(8080), Some("proxy"));
    assert_eq!(cfg.alias_para(808), None);
}

#[test]
fn alias_is_found_whatever_the_order() {
    let mut a = Config::default();
    a.nombres.push(("3000".to_string(), "api".to_string()));
    a.nombres.push(("4000".to_string(), "web".to_string()));
    let mut b = Config::default();
    b.nombres.push(("4000".to_string(), "web".to_string()));
    b.nombres.push(("3000".to_string(), "api".to_string()));
    for port in [3000u16, 4000, 5000] {
        assert_eq!(a.alias_para(port), b.alias_para(port));
    }
}
