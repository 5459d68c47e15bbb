//! Listening TCP ports and the processes that own them: rows, labels, project
//! derivation, filtering, ordering and the process-name cache.

use vstd::prelude::*;

use crate::cmdline::{
    acortar_ruta, first_script, law_first_script_argument, names_script, normalizar_ruta,
    normalized, primer_script, shortened, tokens,
};
use crate::config::{alias_of, is_hidden, workspace_root, Config};
use crate::text::{
    chars_lt, lemma_chars_lt_total, lemma_chars_lt_transitive, less_chars,
    append, chars_of, comps, components, eq_ignore_ascii_case, has_prefix, ieq, last_piece,
    lower_seq, starts_with, string_of, tail_after, to_lower, trim_end, trim_end_char,
};

verus! {

/// A listening TCP port and the process that holds it.
#[derive(Debug, Clone, PartialEq, Eq)]
pub struct PortInfo {
    pub port: u16,
    pub pid: u32,
    pub address: String,
    pub process_name: String,
    /// Full path of the executable; `None` when the process is gone or access is denied.
    pub process_path: Option<String>,
    /// Full command line; `None` when it cannot be read.
    pub process_cmd: Option<String>,
    /// Workspace project the process belongs to.
    pub proyecto: Option<String>,
}

pub open spec fn opt_view(o: Option<String>) -> Option<Seq<char>> {
    match o {
        Some(s) => Some(s@),
        None => None,
    }
}

pub open spec fn opt_str(o: Option<&str>) -> Option<Seq<char>> {
    match o {
        Some(s) => Some(s@),
        None => None,
    }
}

fn opt_chars(o: &Option<String>) -> (r: Option<Vec<char>>)
    ensures
        match r {
            Some(v) => opt_view(*o) == Some(v@),
            None => o.is_none(),
        },
{
    match o {
        Some(s) => Some(chars_of(s.as_str())),
        None => None,
    }
}

/// Readable label of the process: the script run by an interpreter (normalized and
/// shortened), otherwise the executable name.
pub open spec fn label(r: PortInfo) -> Seq<char> {
    match r.process_cmd {
        Some(c) => match first_script(c@) {
            Some(sc) => shortened(normalized(sc)),
            None => r.process_name@,
        },
        None => r.process_name@,
    }
}

/// Readable label of the process for the popup and the CLI. It is derived from the
/// process of each scan, never from the port number.
pub fn etiqueta_visible(row: &PortInfo) -> (r: String)
    ensures
        r@ == label(*row),
{
    if let Some(cmd) = opt_chars(&row.process_cmd) {
        if let Some(script) = primer_script(&cmd) {
            return string_of(&acortar_ruta(&normalizar_ruta(&script)));
        }
    }
    row.process_name.clone()
}

/// The component following the first one equal (ignoring ASCII case) to `root`,
/// searching from index `i`.
pub open spec fn project_in(cs: Seq<Seq<char>>, root: Seq<char>, i: int) -> Option<Seq<char>>
    decreases cs.len() - i,
{
    if i < 0 || i >= cs.len() {
        None
    } else if ieq(cs[i], root) {
        if i + 1 < cs.len() {
            Some(cs[i + 1])
        } else {
            None
        }
    } else {
        project_in(cs, root, i + 1)
    }
}

/// First folder after the workspace root in a path (ignoring ASCII case).
fn proyecto_en_ruta(texto: &Vec<char>, raiz: &Vec<char>) -> (r: Option<Vec<char>>)
    ensures
        match r {
            Some(p) => project_in(comps(texto@), raiz@, 0) == Some(p@),
            None => project_in(comps(texto@), raiz@, 0).is_none(),
        },
{
    let cs = components(texto);
    let ghost cv = cs.deep_view();
    let mut i: usize = 0;
    while i < cs.len()
        invariant
            i <= cs.len(),
            cv == cs.deep_view(),
            cv == comps(texto@),
            project_in(cv, raiz@, 0) == project_in(cv, raiz@, i as int),
        decreases cs.len() - i,
    {
        assert(cv[i as int] == cs@[i as int]@);
        if eq_ignore_ascii_case(&cs[i], raiz) {
            if i + 1 < cs.len() {
                let mut out: Vec<char> = Vec::new();
                append(&mut out, &cs[i + 1]);
                assert(cv[i + 1] == cs@[i + 1]@);
                return Some(out);
            } else {
                return None;
            }
        }
        i += 1;
    }
    None
}

/// The project of a row: the configured alias of its port, otherwise the folder after
/// the workspace root in its command line, otherwise in its executable path.
pub open spec fn project_for(r: PortInfo, cfg: Config) -> Option<Seq<char>> {
    match alias_of(cfg, r.port) {
        Some(a) => Some(a),
        None => {
            let root = workspace_root(cfg);
            let from_cmd = match r.process_cmd {
                Some(c) => project_in(comps(c@), root, 0),
                None => None,
            };
            match from_cmd {
                Some(p) => Some(p),
                None => match r.process_path {
                    Some(p) => project_in(comps(p@), root, 0),
                    None => None,
                },
            }
        },
    }
}

/// Workspace project of the process, derived from its command line (then its
/// executable path); a manual alias of the port takes precedence.
pub fn proyecto_para(row: &PortInfo, cfg: &Config) -> (r: Option<String>)
    ensures
        opt_view(r) == project_for(*row, *cfg),
{
    if let Some(alias) = cfg.alias_para(row.port) {
        return Some(string_of(&chars_of(alias)));
    }
    let raiz = chars_of(cfg.workspace_raiz());
    if let Some(cmd) = opt_chars(&row.process_cmd) {
        if let Some(p) = proyecto_en_ruta(&cmd, &raiz) {
            return Some(string_of(&p));
        }
    }
    if let Some(path) = opt_chars(&row.process_path) {
        if let Some(p) = proyecto_en_ruta(&path, &raiz) {
            return Some(string_of(&p));
        }
    }
    None
}

/// `p` without a leading `…\`.
pub open spec fn without_ellipsis(p: Seq<char>) -> Seq<char> {
    if has_prefix(p, seq!['…', '\\']) {
        p.skip(2)
    } else {
        p
    }
}

/// Popup row label: `project · process` when the project is known and non-empty,
/// the process label alone otherwise.
pub open spec fn popup_label(r: PortInfo) -> Seq<char> {
    match r.proyecto {
        Some(pr) => if pr@.len() > 0 {
            pr@ + seq![' ', '·', ' '] + without_ellipsis(label(r))
        } else {
            label(r)
        },
        None => label(r),
    }
}

pub fn etiqueta_popup(row: &PortInfo) -> (r: String)
    ensures
        r@ == popup_label(*row),
{
    let proceso = etiqueta_visible(row);
    match &row.proyecto {
        Some(proyecto) => {
            if proyecto.as_str().is_empty() {
                return proceso;
            }
            let p = chars_of(proceso.as_str());
            let mut out = chars_of(proyecto.as_str());
            out.push(' ');
            out.push('·');
            out.push(' ');
            let prefix: Vec<char> = vec!['…', '\\'];
            assert(prefix@ =~= seq!['…', '\\']);
            let start: usize = if starts_with(&p, &prefix) { 2 } else { 0 };
            let ghost before = out@;
            let mut i: usize = start;
            while i < p.len()
                invariant
                    start <= i <= p.len(),
                    start <= 2,
                    start == 2 ==> p@.len() >= 2,
                    out@ == before + p@.subrange(start as int, i as int),
                decreases p.len() - i,
            {
                out.push(p[i]);
                i += 1;
                assert(out@ =~= before + p@.subrange(start as int, i as int));
            }
            assert(without_ellipsis(p@) =~= p@.subrange(start as int, p.len() as int));
            assert(out@ =~= popup_label(*row));
            string_of(&out)
        },
        None => proceso,
    }
}

} // verus!

verus! {

/// Processes never offered for killing even when they pass the application rule.
pub open spec fn is_blocked(c: Seq<char>) -> bool {
    ieq(c, "googledrivefs.exe"@) || ieq(c, "esrv.exe"@) || ieq(c, "freebuff.exe"@) || ieq(
        c,
        "orchestrator.js"@,
    )
}

fn blocked(c: &Vec<char>) -> (r: bool)
    ensures
        r == is_blocked(c@),
{
    eq_ignore_ascii_case(c, &chars_of("googledrivefs.exe")) || eq_ignore_ascii_case(
        c,
        &chars_of("esrv.exe"),
    ) || eq_ignore_ascii_case(c, &chars_of("freebuff.exe")) || eq_ignore_ascii_case(
        c,
        &chars_of("orchestrator.js"),
    )
}

/// The name used for the blocklist: the process name, or the basename of its path
/// when the name is still empty.
pub open spec fn block_name(r: PortInfo) -> Seq<char> {
    if r.process_name@.len() == 0 {
        match r.process_path {
            Some(p) => tail_after(p@, false),
            None => Seq::<char>::empty(),
        }
    } else {
        r.process_name@
    }
}

/// The process is in the blocklist, by name or by the script of its command line.
pub open spec fn excluded(r: PortInfo) -> bool {
    is_blocked(block_name(r)) || match script_base_of(r.process_cmd) {
        Some(b) => is_blocked(b),
        None => false,
    }
}

/// Basename of the first script of an optional command line.
pub open spec fn script_base_of(cmd: Option<String>) -> Option<Seq<char>> {
    match cmd {
        Some(c) => match first_script(c@) {
            Some(sc) => Some(tail_after(sc, true)),
            None => None,
        },
        None => None,
    }
}

fn script_base(cmd: &Option<String>) -> (r: Option<Vec<char>>)
    ensures
        match r {
            Some(b) => script_base_of(*cmd) == Some(b@),
            None => script_base_of(*cmd).is_none(),
        },
{
    match cmd {
        Some(c) => {
            let cv = chars_of(c.as_str());
            match primer_script(&cv) {
                Some(sc) => Some(last_piece(&sc, true)),
                None => None,
            }
        },
        None => None,
    }
}

/// Whether the process is in the blocklist: by derived name, path basename or the
/// script of its command line, ignoring ASCII case.
pub fn esta_excluido(row: &PortInfo) -> (r: bool)
    ensures
        r == excluded(*row),
{
    let name = chars_of(row.process_name.as_str());
    let nombre: Vec<char> = if name.len() == 0 {
        match &row.process_path {
            Some(p) => last_piece(&chars_of(p.as_str()), false),
            None => Vec::new(),
        }
    } else {
        name
    };
    if blocked(&nombre) {
        return true;
    }
    match script_base(&row.process_cmd) {
        Some(b) => blocked(&b),
        None => false,
    }
}

/// The user hid this row: its project, process name, path basename or script basename
/// is listed in the configuration (ignoring ASCII case).
pub open spec fn hidden_by_config(r: PortInfo, cfg: Config) -> bool {
    ||| (match r.proyecto {
        Some(p) => is_hidden(cfg, p@),
        None => false,
    })
    ||| (r.process_name@.len() > 0 && is_hidden(cfg, r.process_name@))
    ||| (match r.process_path {
        Some(p) => is_hidden(cfg, tail_after(p@, false)),
        None => false,
    })
    ||| (match script_base_of(r.process_cmd) {
        Some(b) => is_hidden(cfg, b),
        None => false,
    })
}

fn hidden_chars(cfg: &Config, c: &Vec<char>) -> (r: bool)
    ensures
        r == is_hidden(*cfg, c@),
{
    let s = string_of(c);
    cfg.esta_oculto(s.as_str())
}

pub fn esta_oculto_por_config(row: &PortInfo, cfg: &Config) -> (r: bool)
    ensures
        r == hidden_by_config(*row, *cfg),
{
    if let Some(p) = &row.proyecto {
        if cfg.esta_oculto(p.as_str()) {
            return true;
        }
    }
    if !row.process_name.as_str().is_empty() && cfg.esta_oculto(row.process_name.as_str()) {
        return true;
    }
    if let Some(p) = &row.process_path {
        if hidden_chars(cfg, &last_piece(&chars_of(p.as_str()), false)) {
            return true;
        }
    }
    match script_base(&row.process_cmd) {
        Some(b) => hidden_chars(cfg, &b),
        None => false,
    }
}

/// The path lies in the Windows folder (ignoring ASCII case and trailing `\`); the
/// folder is the `SystemRoot` value given, `C:\Windows` when there is none.
pub open spec fn is_system_path(p: Seq<char>, env_root: Option<Seq<char>>) -> bool {
    let root = lower_seq(
        trim_end(
            match env_root {
                Some(r) => r,
                None => "C:\\Windows"@,
            },
            '\\',
        ),
    );
    let q = lower_seq(trim_end(p, '\\'));
    q == root || has_prefix(q, root.push('\\'))
}

pub fn es_ruta_del_sistema(path: &str, system_root: Option<&str>) -> (r: bool)
    ensures
        r == is_system_path(path@, opt_str(system_root)),
{
    let raw_root = match system_root {
        Some(s) => chars_of(s),
        None => chars_of("C:\\Windows"),
    };
    let root = to_lower(&trim_end_char(&raw_root, '\\'));
    let p = to_lower(&trim_end_char(&chars_of(path), '\\'));
    if crate::text::same_chars(&p, &root) {
        return true;
    }
    let mut with_sep = Vec::new();
    append(&mut with_sep, &root);
    with_sep.push('\\');
    starts_with(&p, &with_sep)
}

/// A port of a user application: port at least 1024, not blocklisted, not hidden by
/// the configuration, and an executable path resolved outside the Windows folder.
pub open spec fn is_app_port(r: PortInfo, cfg: Config, env_root: Option<Seq<char>>) -> bool {
    &&& r.port >= 1024
    &&& !excluded(r)
    &&& !hidden_by_config(r, cfg)
    &&& match r.process_path {
        Some(p) => !is_system_path(p@, env_root),
        None => false,
    }
}

pub fn es_puerto_de_aplicacion(row: &PortInfo, cfg: &Config, system_root: Option<&str>) -> (r:
    bool)
    ensures
        r == is_app_port(*row, *cfg, opt_str(system_root)),
{
    if row.port < 1024 {
        return false;
    }
    if esta_excluido(row) {
        return false;
    }
    if esta_oculto_por_config(row, cfg) {
        return false;
    }
    match &row.process_path {
        Some(p) => !es_ruta_del_sistema(p.as_str(), system_root),
        None => false,
    }
}

/// Keeps only the ports of user applications, in their order.
pub fn solo_aplicaciones(rows: Vec<PortInfo>, cfg: &Config, system_root: Option<&str>) -> (r: Vec<
    PortInfo,
>)
    ensures
        r@ == rows@.filter(|x: PortInfo| is_app_port(x, *cfg, opt_str(system_root))),
{
    let ghost pred = |x: PortInfo| is_app_port(x, *cfg, opt_str(system_root));
    let ghost orig = rows@;
    let mut out: Vec<PortInfo> = Vec::new();
    let mut rest = rows;
    let mut i: usize = 0;
    let n = rest.len();
    // Consumed from the front: `rest` holds `orig[i..]`.
    proof {
        reveal_with_fuel(Seq::filter, 1);
    }
    assert(orig.take(0).filter(pred) =~= Seq::<PortInfo>::empty());
    assert(orig.skip(0) =~= orig);
    while i < n
        invariant
            n == orig.len(),
            i <= n,
            rest@ == orig.skip(i as int),
            pred == (|x: PortInfo| is_app_port(x, *cfg, opt_str(system_root))),
            out@ == orig.take(i as int).filter(pred),
        decreases n - i,
    {
        let row = rest.remove(0);
        assert(orig.take(i + 1).drop_last() =~= orig.take(i as int));
        assert(row == orig[i as int]);
        let keep = es_puerto_de_aplicacion(&row, cfg, system_root);
        let ghost t1 = orig.take(i + 1);
        assert(t1.last() == row);
        assert(pred(row) == keep);
        if keep {
            out.push(row);
        }
        proof {
            reveal_with_fuel(Seq::filter, 1);
        }
        assert(out@ =~= t1.filter(pred));
        i += 1;
        assert(rest@ =~= orig.skip(i as int));
    }
    assert(orig.take(n as int) =~= orig);
    out
}

} // verus!

verus! {

/// Two rows belong to the same (port, process) pair.
pub open spec fn same_key(x: PortInfo, y: PortInfo) -> bool {
    x.port == y.port && x.pid == y.pid
}

/// `x` sorts strictly before `y` by (port, pid).
pub open spec fn key_lt(x: PortInfo, y: PortInfo) -> bool {
    x.port < y.port || (x.port == y.port && x.pid < y.pid)
}

/// `s[j]` is the row kept for its (port, pid): the lowest address, and among equal
/// addresses the earliest row.
pub open spec fn is_kept(s: Seq<PortInfo>, j: int) -> bool {
    &&& 0 <= j < s.len()
    &&& forall|k: int|
        0 <= k < s.len() && k != j && #[trigger] same_key(s[k], s[j]) ==> if k < j {
            chars_lt(s[j].address@, s[k].address@)
        } else {
            !chars_lt(s[k].address@, s[j].address@)
        }
}

/// `x` is the kept row of some (port, pid) of `s`.
pub open spec fn kept_row(s: Seq<PortInfo>, x: PortInfo) -> bool {
    exists|j: int| #[trigger] is_kept(s, j) && s[j] == x
}

/// Some row of `out` has the (port, pid) of `x`.
pub open spec fn covers(out: Seq<PortInfo>, x: PortInfo) -> bool {
    exists|a: int| 0 <= a < out.len() && #[trigger] same_key(out[a], x)
}

/// `out` holds exactly one row per (port, pid) of `s`, the kept one, in increasing
/// (port, pid) order: the rows ordered by (port, pid, address) with duplicates of the
/// same process on the same port (IPv4 and IPv6) merged into the first one.
pub open spec fn is_deduped(s: Seq<PortInfo>, out: Seq<PortInfo>) -> bool {
    &&& forall|a: int, b: int| 0 <= a < b < out.len() ==> key_lt(#[trigger] out[a], #[trigger] out[b])
    &&& forall|a: int| 0 <= a < out.len() ==> #[trigger] kept_row(s, out[a])
    &&& forall|j: int| 0 <= j < s.len() ==> #[trigger] covers(out, s[j])
}

proof fn lemma_kept_extend(t: Seq<PortInfo>, e: PortInfo, j: int)
    requires
        is_kept(t, j),
        !same_key(e, t[j]) || !chars_lt(e.address@, t[j].address@),
    ensures
        is_kept(t.push(e), j),
{
    let t1 = t.push(e);
    assert forall|k: int|
        0 <= k < t1.len() && k != j && #[trigger] same_key(t1[k], t1[j]) implies if k < j {
        chars_lt(t1[j].address@, t1[k].address@)
    } else {
        !chars_lt(t1[k].address@, t1[j].address@)
    } by {
        if k < t.len() {
            assert(same_key(t[k], t[j]));
        }
    }
}

proof fn lemma_kept_replace(t: Seq<PortInfo>, e: PortInfo, r: int)
    requires
        is_kept(t, r),
        same_key(e, t[r]),
        chars_lt(e.address@, t[r].address@),
    ensures
        is_kept(t.push(e), t.len() as int),
{
    let t1 = t.push(e);
    let j = t.len() as int;
    assert forall|k: int|
        0 <= k < t1.len() && k != j && #[trigger] same_key(t1[k], t1[j]) implies chars_lt(
        t1[j].address@,
        t1[k].address@,
    ) by {
        assert(t1[k] == t[k]);
        if k != r {
            assert(same_key(t[k], t[r]));
            if k < r {
                lemma_chars_lt_transitive(e.address@, t[r].address@, t[k].address@);
            } else {
                lemma_chars_lt_total(t[k].address@, t[r].address@);
                if t[k].address@ != t[r].address@ {
                    lemma_chars_lt_transitive(e.address@, t[r].address@, t[k].address@);
                }
            }
        }
    }
}

proof fn lemma_kept_new(t: Seq<PortInfo>, e: PortInfo)
    requires
        forall|k: int| 0 <= k < t.len() ==> !same_key(#[trigger] t[k], e),
    ensures
        is_kept(t.push(e), t.len() as int),
{
    let t1 = t.push(e);
    let j = t.len() as int;
    assert forall|k: int|
        0 <= k < t1.len() && k != j && #[trigger] same_key(t1[k], t1[j]) implies false by {
        assert(t1[k] == t[k]);
    }
}

fn key_before(x: &PortInfo, y: &PortInfo) -> (r: bool)
    ensures
        r == key_lt(*x, *y),
{
    x.port < y.port || (x.port == y.port && x.pid < y.pid)
}

/// Sorts the rows by (port, pid, address) and merges the rows of the same process on
/// the same port (IPv4 and IPv6) into one, keeping the first in that order.
pub fn dedupe_and_sort(rows: &mut Vec<PortInfo>)
    ensures
        is_deduped(old(rows)@, final(rows)@),
{
    let mut rest: Vec<PortInfo> = Vec::new();
    std::mem::swap(rows, &mut rest);
    let ghost s = rest@;
    let n = rest.len();
    let mut out: Vec<PortInfo> = Vec::new();
    let ghost mut idx: Seq<int> = Seq::empty();
    let mut i: usize = 0;
    assert(s.skip(0) =~= s);
    while i < n
        invariant
            n == s.len(),
            i <= n,
            rest@ == s.skip(i as int),
            idx.len() == out@.len(),
            forall|a: int, b: int|
                0 <= a < b < out@.len() ==> key_lt(#[trigger] out@[a], #[trigger] out@[b]),
            forall|a: int|
                0 <= a < out@.len() ==> 0 <= #[trigger] idx[a] < i && out@[a] == s[idx[a]]
                    && is_kept(s.take(i as int), idx[a]),
            forall|j: int| 0 <= j < i ==> #[trigger] covers(out@, s[j]),
        decreases n - i,
    {
        let e = rest.remove(0);
        assert(e == s[i as int]);
        let ghost t = s.take(i as int);
        let ghost t1 = s.take(i + 1);
        assert(t1 =~= t.push(e));
        let mut p: usize = 0;
        while p < out.len() && key_before(&out[p], &e)
            invariant
                p <= out@.len(),
                forall|a: int| 0 <= a < p ==> key_lt(#[trigger] out@[a], e),
            decreases out.len() - p,
        {
            p += 1;
        }
        let ghost old_out = out@;
        let ghost old_idx = idx;
        if p < out.len() && out[p].port == e.port && out[p].pid == e.pid {
            let ghost r = idx[p as int];
            assert(same_key(e, t[r]));
            let ea = chars_of(e.address.as_str());
            let oa = chars_of(out[p].address.as_str());
            if less_chars(&ea, &oa) {
                proof {
                    lemma_kept_replace(t, e, r);
                    assert forall|a: int| 0 <= a < old_out.len() && a != p implies is_kept(
                        t1,
                        #[trigger] old_idx[a],
                    ) by {
                        assert(key_lt(old_out[a], old_out[p as int]) || key_lt(
                            old_out[p as int],
                            old_out[a],
                        ));
                        lemma_kept_extend(t, e, old_idx[a]);
                    }
                    idx = idx.update(p as int, i as int);
                }
                out.set(p, e);
                proof {
                    assert forall|j: int| 0 <= j < i + 1 implies #[trigger] covers(out@, s[j]) by {
                        if j == i {
                            assert(same_key(out@[p as int], s[j]));
                        } else {
                            assert(covers(old_out, s[j]));
                            let a = choose|a: int|
                                0 <= a < old_out.len() && #[trigger] same_key(old_out[a], s[j]);
                            if a == p {
                                assert(same_key(out@[p as int], s[j]));
                            } else {
                                assert(same_key(out@[a], s[j]));
                            }
                        }
                    }
                }
            } else {
                proof {
                    assert forall|a: int| 0 <= a < old_out.len() implies is_kept(
                        t1,
                        #[trigger] old_idx[a],
                    ) by {
                        if a != p {
                            assert(key_lt(old_out[a], old_out[p as int]) || key_lt(
                                old_out[p as int],
                                old_out[a],
                            ));
                        }
                        lemma_kept_extend(t, e, old_idx[a]);
                    }
                    assert forall|j: int| 0 <= j < i + 1 implies #[trigger] covers(out@, s[j]) by {
                        if j == i {
                            assert(0 <= p < out@.len());
                            assert(same_key(out@[p as int], s[j]));
                        } else {
                            assert(covers(old_out, s[j]));
                            let a = choose|a: int|
                                0 <= a < old_out.len() && #[trigger] same_key(old_out[a], s[j]);
                            assert(same_key(out@[a], s[j]));
                        }
                    }
                }
            }
        } else {
            proof {
                assert forall|a: int| 0 <= a < old_out.len() implies !same_key(
                    #[trigger] old_out[a],
                    e,
                ) by {
                    if a >= p {
                        if a > p {
                            assert(key_lt(old_out[p as int], old_out[a]));
                        }
                    }
                }
                assert forall|k: int| 0 <= k < t.len() implies !same_key(#[trigger] t[k], e) by {
                    assert(t[k] == s[k]);
                    assert(covers(old_out, s[k]));
                    let a = choose|a: int| 0 <= a < old_out.len() && #[trigger] same_key(old_out[a], s[k]);
                    assert(!same_key(old_out[a], e));
                }
                lemma_kept_new(t, e);
                assert forall|a: int| 0 <= a < old_out.len() implies is_kept(
                    t1,
                    #[trigger] old_idx[a],
                ) by {
                    assert(!same_key(old_out[a], e));
                    lemma_kept_extend(t, e, old_idx[a]);
                }
                idx = idx.insert(p as int, i as int);
            }
            out.insert(p, e);
            proof {
                assert forall|a: int, b: int| 0 <= a < b < out@.len() implies key_lt(
                    #[trigger] out@[a],
                    #[trigger] out@[b],
                ) by {
                    if a < p && b > p {
                        assert(out@[a] == old_out[a]);
                        assert(out@[b] == old_out[b - 1]);
                        assert(key_lt(old_out[a], e));
                    } else if a == p && b > p {
                        assert(out@[b] == old_out[b - 1]);
                        if b - 1 > p {
                            assert(key_lt(old_out[p as int], old_out[b - 1]));
                        }
                    } else if a < p && b == p {
                        assert(key_lt(old_out[a], e));
                    } else if b < p {
                        assert(out@[a] == old_out[a] && out@[b] == old_out[b]);
                    } else {
                        assert(out@[a] == old_out[a - 1] && out@[b] == old_out[b - 1]);
                    }
                }
                assert forall|j: int| 0 <= j < i + 1 implies #[trigger] covers(out@, s[j]) by {
                    if j == i {
                        assert(same_key(out@[p as int], s[j]));
                    } else {
                        assert(covers(old_out, s[j]));
                        let a = choose|a: int|
                            0 <= a < old_out.len() && #[trigger] same_key(old_out[a], s[j]);
                        if a < p {
                            assert(same_key(out@[a], s[j]));
                        } else {
                            assert(same_key(out@[a + 1], s[j]));
                        }
                    }
                }
                assert forall|a: int| 0 <= a < out@.len() implies 0 <= #[trigger] idx[a] < i + 1
                    && out@[a] == s[idx[a]] && is_kept(s.take(i + 1), idx[a]) by {
                    if a < p {
                        assert(idx[a] == old_idx[a]);
                    } else if a > p {
                        assert(idx[a] == old_idx[a - 1]);
                    }
                }
            }
        }
        i += 1;
        assert(rest@ =~= s.skip(i as int));
    }
    assert(s.take(n as int) =~= s);
    proof {
        assert forall|a: int| 0 <= a < out@.len() implies #[trigger] kept_row(s, out@[a]) by {
            assert(s[idx[a]] == out@[a]);
            assert(is_kept(s, idx[a]));
        }
    }
    assert(is_deduped(s, out@));
    *rows = out;
}

} // verus!

verus! {

/// Error of the scan, with the Win32 code for diagnosis.
#[derive(Debug)]
pub struct ScanError {
    pub message: String,
    pub code: u32,
}

impl ScanError {
    /// `message (código Win32 code)`.
    pub fn describe(&self) -> (r: String)
        ensures
            r@ == self.message@ + " (código Win32 "@ + crate::text::dec(self.code as nat) + seq![
                ')',
            ],
    {
        let mut out = chars_of(self.message.as_str());
        append(&mut out, &chars_of(" (código Win32 "));
        crate::text::push_radix(&mut out, self.code as u64, 10);
        out.push(')');
        string_of(&out)
    }
}

/// A row of the IPv4 listener table: port in network byte order, owning process,
/// address as stored by the stack.
#[derive(Debug, Clone, Copy)]
pub struct TcpRowV4 {
    pub local_port: u32,
    pub owning_pid: u32,
    pub local_addr: u32,
}

/// A row of the IPv6 listener table.
#[derive(Debug, Clone, Copy)]
pub struct TcpRowV6 {
    pub local_port: u32,
    pub owning_pid: u32,
    pub local_addr: [u8; 16],
}

/// Outcome of reading one listener table: the size query did not report a size,
/// the read itself failed, or the rows read.
pub enum TcpTable<R> {
    SizeNotReported(u32),
    ReadFailed(u32),
    Rows(Vec<R>),
}

/// `p` is the row built from `x`, before any process data is attached.
pub open spec fn from_v4_row(p: PortInfo, x: TcpRowV4) -> bool {
    &&& p.port == crate::net::port_of(x.local_port)
    &&& p.pid == x.owning_pid
    &&& p.address@ == crate::net::ipv4_text(x.local_addr)
    &&& p.process_name@.len() == 0
    &&& p.process_path.is_none()
    &&& p.process_cmd.is_none()
    &&& p.proyecto.is_none()
}

pub open spec fn from_v6_row(p: PortInfo, x: TcpRowV6) -> bool {
    &&& p.port == crate::net::port_of(x.local_port)
    &&& p.pid == x.owning_pid
    &&& p.address@ == crate::net::ipv6_text(x.local_addr@)
    &&& p.process_name@.len() == 0
    &&& p.process_path.is_none()
    &&& p.process_cmd.is_none()
    &&& p.proyecto.is_none()
}

impl PortInfo {
    fn from_v4(row: &TcpRowV4) -> (r: PortInfo)
        ensures
            from_v4_row(r, *row),
    {
        PortInfo {
            port: crate::net::decode_port(row.local_port),
            pid: row.owning_pid,
            address: crate::net::ipv4_to_string(row.local_addr),
            process_name: String::new(),
            process_path: None,
            process_cmd: None,
            proyecto: None,
        }
    }

    fn from_v6(row: &TcpRowV6) -> (r: PortInfo)
        ensures
            from_v6_row(r, *row),
    {
        PortInfo {
            port: crate::net::decode_port(row.local_port),
            pid: row.owning_pid,
            address: crate::net::ipv6_to_string(&row.local_addr),
            process_name: String::new(),
            process_path: None,
            process_cmd: None,
            proyecto: None,
        }
    }
}

pub open spec fn size_error_v4() -> Seq<char> {
    "GetExtendedTcpTable (IPv4) no devolvió el tamaño"@
}

pub open spec fn read_error_v4() -> Seq<char> {
    "GetExtendedTcpTable (IPv4) falló"@
}

pub open spec fn size_error_v6() -> Seq<char> {
    "GetExtendedTcpTable (IPv6) no devolvió el tamaño"@
}

pub open spec fn read_error_v6() -> Seq<char> {
    "GetExtendedTcpTable (IPv6) falló"@
}

/// `rows` are the rows built from the IPv4 rows followed by those built from the
/// IPv6 rows.
pub open spec fn built_from(rows: Seq<PortInfo>, a: Seq<TcpRowV4>, b: Seq<TcpRowV6>) -> bool {
    &&& rows.len() == a.len() + b.len()
    &&& forall|i: int| 0 <= i < a.len() ==> from_v4_row(#[trigger] rows[i], a[i])
    &&& forall|i: int| 0 <= i < b.len() ==> from_v6_row(#[trigger] rows[a.len() + i], b[i])
}

/// `out` is the deduplicated, ordered list of the rows built from both tables.
pub open spec fn scanned(a: Seq<TcpRowV4>, b: Seq<TcpRowV6>, out: Seq<PortInfo>) -> bool {
    exists|rows: Seq<PortInfo>| built_from(rows, a, b) && #[trigger] is_deduped(rows, out)
}

/// The listening ports of both tables (IPv4 then IPv6), deduplicated and ordered; the
/// IPv4 table's failure is reported first.
pub open spec fn scan_result(
    v4: TcpTable<TcpRowV4>,
    v6: TcpTable<TcpRowV6>,
    r: Result<Vec<PortInfo>, ScanError>,
) -> bool {
    match v4 {
        TcpTable::SizeNotReported(c) => r matches Err(e) && e.message@ == size_error_v4()
            && e.code == c,
        TcpTable::ReadFailed(c) => r matches Err(e) && e.message@ == read_error_v4() && e.code
            == c,
        TcpTable::Rows(a) => match v6 {
            TcpTable::SizeNotReported(c) => r matches Err(e) && e.message@ == size_error_v6()
                && e.code == c,
            TcpTable::ReadFailed(c) => r matches Err(e) && e.message@ == read_error_v6()
                && e.code == c,
            TcpTable::Rows(b) => r matches Ok(out) && scanned(a@, b@, out@),
        },
    }
}

fn scan_error(message: &str, code: u32) -> (e: ScanError)
    ensures
        e.message@ == message@,
        e.code == code,
{
    ScanError { message: string_of(&chars_of(message)), code }
}

/// All listening TCP ports (IPv4 + IPv6) of the two tables read from the system,
/// deduplicated and ordered.
pub fn scan_listeners(v4: TcpTable<TcpRowV4>, v6: TcpTable<TcpRowV6>) -> (r: Result<
    Vec<PortInfo>,
    ScanError,
>)
    ensures
        scan_result(v4, v6, r),
{
    let a = match v4 {
        TcpTable::SizeNotReported(c) => {
            return Err(scan_error("GetExtendedTcpTable (IPv4) no devolvió el tamaño", c));
        },
        TcpTable::ReadFailed(c) => {
            return Err(scan_error("GetExtendedTcpTable (IPv4) falló", c));
        },
        TcpTable::Rows(a) => a,
    };
    let b = match v6 {
        TcpTable::SizeNotReported(c) => {
            return Err(scan_error("GetExtendedTcpTable (IPv6) no devolvió el tamaño", c));
        },
        TcpTable::ReadFailed(c) => {
            return Err(scan_error("GetExtendedTcpTable (IPv6) falló", c));
        },
        TcpTable::Rows(b) => b,
    };
    let mut out: Vec<PortInfo> = Vec::new();
    let mut i: usize = 0;
    while i < a.len()
        invariant
            i <= a.len(),
            out@.len() == i,
            forall|k: int| 0 <= k < i ==> from_v4_row(#[trigger] out@[k], a@[k]),
        decreases a.len() - i,
    {
        out.push(PortInfo::from_v4(&a[i]));
        i += 1;
    }
    let mut j: usize = 0;
    while j < b.len()
        invariant
            j <= b.len(),
            out@.len() == a.len() + j,
            forall|k: int| 0 <= k < a.len() ==> from_v4_row(#[trigger] out@[k], a@[k]),
            forall|k: int| 0 <= k < j ==> from_v6_row(#[trigger] out@[a.len() + k], b@[k]),
        decreases b.len() - j,
    {
        out.push(PortInfo::from_v6(&b[j]));
        j += 1;
    }
    let ghost rows = out@;
    assert(built_from(rows, a@, b@));
    dedupe_and_sort(&mut out);
    assert(is_deduped(rows, out@));
    assert(scanned(a@, b@, out@));
    Ok(out)
}

} // verus!

verus! {

/// Process data resolved for one row: derived name, executable path, command line.
pub type Resolved = (String, Option<String>, Option<String>);

/// `after` is `before` with the resolved process data attached and the project derived
/// from it.
pub open spec fn attached(before: PortInfo, res: Resolved, after: PortInfo, cfg: Config) -> bool {
    &&& after.port == before.port
    &&& after.pid == before.pid
    &&& after.address == before.address
    &&& after.process_name == res.0
    &&& after.process_path == res.1
    &&& after.process_cmd == res.2
    &&& opt_view(after.proyecto) == project_for(after, cfg)
}

/// Attaches to each row the process data resolved for it (in the same order) and
/// derives the workspace project from the freshly resolved command line and path.
pub fn attach_process_names(rows: &mut Vec<PortInfo>, resolved: Vec<Resolved>, cfg: &Config)
    requires
        resolved@.len() == old(rows)@.len(),
    ensures
        final(rows)@.len() == old(rows)@.len(),
        forall|i: int|
            0 <= i < old(rows)@.len() ==> attached(
                #[trigger] old(rows)@[i],
                resolved@[i],
                final(rows)@[i],
                *cfg,
            ),
{
    let mut rest: Vec<PortInfo> = Vec::new();
    std::mem::swap(rows, &mut rest);
    let ghost s = rest@;
    let ghost res = resolved@;
    let mut todo = resolved;
    let n = rest.len();
    let mut out: Vec<PortInfo> = Vec::new();
    let mut i: usize = 0;
    assert(s.skip(0) =~= s);
    assert(res.skip(0) =~= res);
    while i < n
        invariant
            n == s.len(),
            n == res.len(),
            i <= n,
            rest@ == s.skip(i as int),
            todo@ == res.skip(i as int),
            out@.len() == i,
            forall|k: int| 0 <= k < i ==> attached(#[trigger] s[k], res[k], out@[k], *cfg),
        decreases n - i,
    {
        let row = rest.remove(0);
        let (name, path, cmd) = todo.remove(0);
        assert(row == s[i as int]);
        let mut updated = PortInfo {
            port: row.port,
            pid: row.pid,
            address: row.address,
            process_name: name,
            process_path: path,
            process_cmd: cmd,
            proyecto: None,
        };
        let proyecto = proyecto_para(&updated, cfg);
        updated.proyecto = proyecto;
        out.push(updated);
        i += 1;
        assert(rest@ =~= s.skip(i as int));
        assert(todo@ =~= res.skip(i as int));
    }
    *rows = out;
}

/// Most entries kept by the process-name cache (bounds its memory).
pub const NAME_CACHE_MAX: usize = 512;

/// Time (ms) during which a cached process stays valid.
pub const NAME_CACHE_TTL_MS: u64 = 10000;

/// One process resolved at `at_ms`.
pub struct CachedProcess {
    pub pid: u32,
    pub name: String,
    pub path: Option<String>,
    pub cmd: Option<String>,
    pub at_ms: u64,
}

/// What the cache knows of one process: pid, name, path, command line, time resolved.
pub type EntryView = (u32, Seq<char>, Option<Seq<char>>, Option<Seq<char>>, u64);

pub open spec fn entry_view(e: CachedProcess) -> EntryView {
    (e.pid, e.name@, opt_view(e.path), opt_view(e.cmd), e.at_ms)
}

/// An entry resolved at `at` is still valid at `now` (less than the TTL elapsed;
/// a clock that went back counts as no time elapsed).
pub open spec fn is_fresh(at: u64, now: u64) -> bool {
    (if now >= at { now - at } else { 0 }) < NAME_CACHE_TTL_MS
}

/// The first entry of `s` for `pid`.
pub open spec fn first_for(s: Seq<EntryView>, pid: u32) -> Option<EntryView>
    decreases s.len(),
{
    if s.len() == 0 {
        None
    } else if s[0].0 == pid {
        Some(s[0])
    } else {
        first_for(s.drop_first(), pid)
    }
}

/// Index of the first entry of `s` for `pid`, or `s.len()` when there is none.
pub open spec fn index_for(s: Seq<EntryView>, pid: u32) -> int
    decreases s.len(),
{
    if s.len() == 0 {
        0
    } else if s[0].0 == pid {
        0
    } else {
        1 + index_for(s.drop_first(), pid)
    }
}

/// `s` with the entry for `e`'s pid replaced by `e`, or `e` appended.
pub open spec fn upsert(s: Seq<EntryView>, e: EntryView) -> Seq<EntryView> {
    let i = index_for(s, e.0);
    if i < s.len() {
        s.update(i, e)
    } else {
        s.push(e)
    }
}

/// Eviction once the cache is over its bound: only valid entries are kept, and the
/// cache is emptied if that is still too many.
pub open spec fn evicted(s: Seq<EntryView>, now: u64) -> Seq<EntryView> {
    if s.len() <= NAME_CACHE_MAX {
        s
    } else {
        let f = s.filter(|e: EntryView| is_fresh(e.4, now));
        if f.len() <= NAME_CACHE_MAX {
            f
        } else {
            Seq::<EntryView>::empty()
        }
    }
}

/// The name derived from a process path: its last `\` component, `desconocido` without
/// a path.
pub open spec fn derived_name(path: Option<Seq<char>>) -> Seq<char> {
    match path {
        Some(p) => tail_after(p, false),
        None => "desconocido"@,
    }
}

/// Bounded cache of resolved processes: avoids repeated system calls.
pub struct NameCache {
    entries: Vec<CachedProcess>,
}

impl Default for NameCache {
    fn default() -> (r: Self)
        ensures
            r.model().len() == 0,
    {
        Self::new()
    }
}

fn clone_opt(o: &Option<String>) -> (r: Option<String>)
    ensures
        opt_view(r) == opt_view(*o),
{
    match o {
        Some(s) => Some(s.clone()),
        None => None,
    }
}

impl NameCache {
    /// The cached entries, in the cache's internal order.
    pub closed spec fn model(&self) -> Seq<EntryView> {
        self.entries@.map_values(|e: CachedProcess| entry_view(e))
    }

    pub fn new() -> (r: Self)
        ensures
            r.model().len() == 0,
    {
        let r = Self { entries: Vec::new() };
        assert(r.model() =~= Seq::<EntryView>::empty());
        r
    }

    /// Number of cached processes.
    pub fn len(&self) -> (n: usize)
        ensures
            n == self.model().len(),
    {
        self.entries.len()
    }

    /// The cached data of `pid` when it is still valid at `now_ms`; `None` when the
    /// process must be resolved again (then `store` records it).
    pub fn get(&self, pid: u32, now_ms: u64) -> (r: Option<Resolved>)
        ensures
            match first_for(self.model(), pid) {
                Some(e) => if is_fresh(e.4, now_ms) {
                    r matches Some(t) && t.0@ == e.1 && opt_view(t.1) == e.2 && opt_view(t.2)
                        == e.3
                } else {
                    r is None
                },
                None => r is None,
            },
    {
        let ghost m = self.model();
        let mut i: usize = 0;
        assert(m.skip(0) =~= m);
        while i < self.entries.len()
            invariant
                i <= self.entries@.len(),
                m == self.model(),
                m.len() == self.entries@.len(),
                first_for(m, pid) == first_for(m.skip(i as int), pid),
            decreases self.entries.len() - i,
        {
            let e = &self.entries[i];
            assert(m[i as int] == entry_view(*e));
            assert(m.skip(i as int)[0] == m[i as int]);
            if e.pid == pid {
                if now_ms.saturating_sub(e.at_ms) < NAME_CACHE_TTL_MS {
                    return Some((e.name.clone(), clone_opt(&e.path), clone_opt(&e.cmd)));
                }
                return None;
            }
            assert(m.skip(i as int).drop_first() =~= m.skip(i + 1));
            i += 1;
        }
        None
    }
}

} // verus!

verus! {

impl NameCache {
    fn evict_if_needed(&mut self, now_ms: u64)
        ensures
            final(self).model() == evicted(old(self).model(), now_ms),
    {
        if self.entries.len() <= NAME_CACHE_MAX {
            return;
        }
        let ghost m = self.model();
        let ghost pred = |e: EntryView| is_fresh(e.4, now_ms);
        let mut rest: Vec<CachedProcess> = Vec::new();
        std::mem::swap(&mut self.entries, &mut rest);
        let ghost s = rest@;
        let n = rest.len();
        let mut kept: Vec<CachedProcess> = Vec::new();
        let mut i: usize = 0;
        proof {
            reveal_with_fuel(Seq::filter, 1);
        }
        assert(s.skip(0) =~= s);
        assert(m.take(0).filter(pred) =~= Seq::<EntryView>::empty());
        assert(kept@.map_values(|e: CachedProcess| entry_view(e)) =~= Seq::<EntryView>::empty());
        while i < n
            invariant
                n == s.len(),
                m == s.map_values(|e: CachedProcess| entry_view(e)),
                i <= n,
                rest@ == s.skip(i as int),
                pred == (|e: EntryView| is_fresh(e.4, now_ms)),
                kept@.map_values(|e: CachedProcess| entry_view(e)) == m.take(i as int).filter(pred),
            decreases n - i,
        {
            let e = rest.remove(0);
            assert(e == s[i as int]);
            let ghost t1 = m.take(i + 1);
            assert(t1.drop_last() =~= m.take(i as int));
            assert(t1.last() == entry_view(e));
            let ghost before = kept@.map_values(|e: CachedProcess| entry_view(e));
            if now_ms.saturating_sub(e.at_ms) < NAME_CACHE_TTL_MS {
                kept.push(e);
                assert(kept@.map_values(|e: CachedProcess| entry_view(e)) =~= before.push(t1.last()));
            }
            proof {
                reveal_with_fuel(Seq::filter, 1);
            }
            assert(kept@.map_values(|e: CachedProcess| entry_view(e)) =~= t1.filter(pred));
            i += 1;
            assert(rest@ =~= s.skip(i as int));
        }
        assert(m.take(n as int) =~= m);
        if kept.len() > NAME_CACHE_MAX {
            kept.clear();
        }
        self.entries = kept;
        assert(self.model() =~= evicted(m, now_ms));
    }

    /// Records the process data just resolved for `pid` at `now_ms` and returns it with
    /// the derived name; evicts stale entries when the cache grows past its bound.
    pub fn store(&mut self, pid: u32, path: Option<String>, cmd: Option<String>, now_ms: u64) -> (r:
        Resolved)
        ensures
            r.0@ == derived_name(opt_view(path)),
            opt_view(r.1) == opt_view(path),
            opt_view(r.2) == opt_view(cmd),
            final(self).model() == evicted(
                upsert(
                    old(self).model(),
                    (pid, derived_name(opt_view(path)), opt_view(path), opt_view(cmd), now_ms),
                ),
                now_ms,
            ),
    {
        let name = match &path {
            Some(p) => string_of(&last_piece(&chars_of(p.as_str()), false)),
            None => string_of(&chars_of("desconocido")),
        };
        let entry = CachedProcess {
            pid,
            name: name.clone(),
            path: clone_opt(&path),
            cmd: clone_opt(&cmd),
            at_ms: now_ms,
        };
        let ghost ev = entry_view(entry);
        let ghost m = self.model();
        let mut i: usize = 0;
        assert(m.skip(0) =~= m);
        while i < self.entries.len() && self.entries[i].pid != pid
            invariant
                i <= self.entries@.len(),
                m == self.model(),
                m.len() == self.entries@.len(),
                index_for(m, pid) == i + index_for(m.skip(i as int), pid),
            decreases self.entries.len() - i,
        {
            assert(m[i as int] == entry_view(self.entries@[i as int]));
            assert(m.skip(i as int)[0] == m[i as int]);
            assert(m.skip(i as int).drop_first() =~= m.skip(i + 1));
            i += 1;
        }
        if i < self.entries.len() {
            assert(m[i as int] == entry_view(self.entries@[i as int]));
            assert(m.skip(i as int)[0] == m[i as int]);
            assert(index_for(m, pid) == i);
            self.entries.set(i, entry);
            assert(self.model() =~= m.update(i as int, ev));
        } else {
            assert(m.skip(i as int) =~= Seq::<EntryView>::empty());
            assert(index_for(m, pid) == m.len());
            self.entries.push(entry);
            assert(self.model() =~= m.push(ev));
        }
        self.evict_if_needed(now_ms);
        (name, path, cmd)
    }
}

} // verus!

verus! {

proof fn lemma_first_for_push(a: Seq<EntryView>, x: EntryView, pid: u32)
    ensures
        first_for(a.push(x), pid) == match first_for(a, pid) {
            Some(e) => Some(e),
            None => if x.0 == pid {
                Some(x)
            } else {
                None
            },
        },
    decreases a.len(),
{
    if a.len() > 0 {
        assert(a.push(x)[0] == a[0]);
        assert(a.push(x).drop_first() =~= a.drop_first().push(x));
        lemma_first_for_push(a.drop_first(), x, pid);
    } else {
        assert(a.push(x)[0] == x);
        assert(a.push(x).drop_first() =~= Seq::<EntryView>::empty());
        assert(first_for(a.push(x).drop_first(), pid) is None);
        assert(first_for(a, pid) is None);
    }
}

proof fn lemma_first_for_filter(u: Seq<EntryView>, pid: u32, pred: spec_fn(EntryView) -> bool)
    ensures
        first_for(u, pid) is None ==> first_for(u.filter(pred), pid) is None,
        match first_for(u, pid) {
            Some(e) => pred(e) ==> first_for(u.filter(pred), pid) == Some(e),
            None => true,
        },
    decreases u.len(),
{
    reveal_with_fuel(Seq::filter, 1);
    if u.len() > 0 {
        let u1 = u.drop_last();
        let x = u.last();
        assert(u1.push(x) =~= u);
        lemma_first_for_filter(u1, pid, pred);
        lemma_first_for_push(u1, x, pid);
        lemma_first_for_push(u1.filter(pred), x, pid);
    }
}

proof fn lemma_index_for(s: Seq<EntryView>, pid: u32)
    ensures
        0 <= index_for(s, pid) <= s.len(),
        forall|j: int| 0 <= j < index_for(s, pid) ==> (#[trigger] s[j]).0 != pid,
        index_for(s, pid) < s.len() ==> s[index_for(s, pid)].0 == pid,
    decreases s.len(),
{
    if s.len() > 0 && s[0].0 != pid {
        lemma_index_for(s.drop_first(), pid);
        assert forall|j: int| 0 <= j < index_for(s, pid) implies (#[trigger] s[j]).0 != pid by {
            if j > 0 {
                assert(s[j] == s.drop_first()[j - 1]);
            }
        }
    }
}

proof fn lemma_first_for_prefix(s: Seq<EntryView>, i: int, pid: u32)
    requires
        0 <= i < s.len(),
        s[i].0 == pid,
        forall|j: int| 0 <= j < i ==> (#[trigger] s[j]).0 != pid,
    ensures
        first_for(s, pid) == Some(s[i]),
    decreases i,
{
    if i > 0 {
        assert forall|j: int| 0 <= j < i - 1 implies (#[trigger] s.drop_first()[j]).0 != pid by {
            assert(s.drop_first()[j] == s[j + 1]);
        }
        lemma_first_for_prefix(s.drop_first(), i - 1, pid);
    }
}

/// Law: a process recorded by `store` at time `now` is what a lookup of its pid at the
/// same time finds, unless recording it emptied the cache (more than `NAME_CACHE_MAX`
/// entries still valid); and the cache never holds more than `NAME_CACHE_MAX` entries.
pub proof fn law_store_then_get(s: Seq<EntryView>, e: EntryView)
    ensures
        is_fresh(e.4, e.4),
        evicted(upsert(s, e), e.4).len() <= NAME_CACHE_MAX,
        evicted(upsert(s, e), e.4).len() == 0 || first_for(evicted(upsert(s, e), e.4), e.0)
            == Some(e),
{
    let pid = e.0;
    let now = e.4;
    let u = upsert(s, e);
    lemma_index_for(s, pid);
    let i = index_for(s, pid);
    if i < s.len() {
        assert forall|j: int| 0 <= j < i implies (#[trigger] u[j]).0 != pid by {
            assert(u[j] == s[j]);
        }
        lemma_first_for_prefix(u, i, pid);
    } else {
        assert forall|j: int| 0 <= j < s.len() implies (#[trigger] u[j]).0 != pid by {
            assert(u[j] == s[j]);
        }
        lemma_first_for_prefix(u, s.len() as int, pid);
    }
    let pred = |x: EntryView| is_fresh(x.4, now);
    lemma_first_for_filter(u, pid, pred);
}

} // verus!

verus! {

/// Law: the label of a row depends only on the process (its executable name and its
/// command line), never on the port, the pid or the address it listens on: the same
/// application keeps its label whatever port it takes.
pub proof fn law_label_ignores_port(a: PortInfo, b: PortInfo)
    requires
        a.process_name@ == b.process_name@,
        opt_view(a.process_cmd) == opt_view(b.process_cmd),
    ensures
        label(a) == label(b),
{
}

/// Law: without a configured alias, the project of a row depends only on where the
/// process runs from (its command line and its executable path), not on the port.
pub proof fn law_project_ignores_port(a: PortInfo, b: PortInfo, cfg: Config)
    requires
        alias_of(cfg, a.port).is_none(),
        alias_of(cfg, b.port).is_none(),
        opt_view(a.process_cmd) == opt_view(b.process_cmd),
        opt_view(a.process_path) == opt_view(b.process_path),
    ensures
        project_for(a, cfg) == project_for(b, cfg),
{
}

/// Law: a configured alias for the port always wins over the derived project.
pub proof fn law_alias_wins(r: PortInfo, cfg: Config)
    requires
        alias_of(cfg, r.port).is_some(),
    ensures
        project_for(r, cfg) == alias_of(cfg, r.port),
{
}

/// Law: every row left by the application filter listens on a port of at least 1024
/// and has an executable path outside the Windows folder; filtering twice changes
/// nothing.
pub proof fn law_filter_keeps_only_apps(rows: Seq<PortInfo>, cfg: Config, env_root: Option<
    Seq<char>,
>)
    ensures
        ({
            let kept = rows.filter(|x: PortInfo| is_app_port(x, cfg, env_root));
            &&& forall|i: int|
                0 <= i < kept.len() ==> (#[trigger] kept[i]).port >= 1024 && (
                kept[i].process_path matches Some(p) && !is_system_path(p@, env_root))
            &&& kept.filter(|x: PortInfo| is_app_port(x, cfg, env_root)) == kept
        }),
{
    let pred = |x: PortInfo| is_app_port(x, cfg, env_root);
    let kept = rows.filter(pred);
    assert forall|i: int| 0 <= i < kept.len() implies (#[trigger] kept[i]).port >= 1024 && (
    kept[i].process_path matches Some(p) && !is_system_path(p@, env_root)) by {
        assert(pred(kept[i]));
    }
    lemma_filter_all_true(kept, pred);
}

/// Filtering a sequence whose items all pass gives it back.
proof fn lemma_filter_all_true(s: Seq<PortInfo>, pred: spec_fn(PortInfo) -> bool)
    requires
        forall|i: int| 0 <= i < s.len() ==> pred(#[trigger] s[i]),
    ensures
        s.filter(pred) == s,
    decreases s.len(),
{
    reveal_with_fuel(Seq::filter, 1);
    if s.len() > 0 {
        let t = s.drop_last();
        assert forall|i: int| 0 <= i < t.len() implies pred(#[trigger] t[i]) by {
            assert(t[i] == s[i]);
        }
        lemma_filter_all_true(t, pred);
        assert(pred(s.last()));
        assert(t.push(s.last()) =~= s);
    } else {
        assert(s.filter(pred) =~= s);
    }
}

/// Law: after merging, each (port, pid) of the scan appears in exactly one row: no two
/// rows share it, and every scanned pair has its row.
pub proof fn law_dedupe_one_row_per_pair(s: Seq<PortInfo>, out: Seq<PortInfo>)
    requires
        is_deduped(s, out),
    ensures
        forall|a: int, b: int|
            0 <= a < out.len() && 0 <= b < out.len() && a != b ==> !same_key(
                #[trigger] out[a],
                #[trigger] out[b],
            ),
        forall|j: int| 0 <= j < s.len() ==> covers(out, #[trigger] s[j]),
{
    assert forall|a: int, b: int|
        0 <= a < out.len() && 0 <= b < out.len() && a != b implies !same_key(
        #[trigger] out[a],
        #[trigger] out[b],
    ) by {
        if a < b {
            assert(key_lt(out[a], out[b]));
        } else {
            assert(key_lt(out[b], out[a]));
        }
    }
}

/// No process is cached twice.
pub open spec fn pids_unique(s: Seq<EntryView>) -> bool {
    forall|i: int, j: int| 0 <= i < j < s.len() ==> (#[trigger] s[i]).0 != (#[trigger] s[j]).0
}

proof fn lemma_filter_unique(s: Seq<EntryView>, pred: spec_fn(EntryView) -> bool)
    requires
        pids_unique(s),
    ensures
        pids_unique(s.filter(pred)),
        forall|k: int| 0 <= k < s.filter(pred).len() ==> s.contains(#[trigger] s.filter(pred)[k]),
    decreases s.len(),
{
    reveal_with_fuel(Seq::filter, 1);
    if s.len() > 0 {
        let t = s.drop_last();
        let x = s.last();
        assert forall|i: int, j: int| 0 <= i < j < t.len() implies (#[trigger] t[i]).0 != (
        #[trigger] t[j]).0 by {
            assert(t[i] == s[i] && t[j] == s[j]);
        }
        lemma_filter_unique(t, pred);
        let ft = t.filter(pred);
        assert forall|k: int| 0 <= k < ft.len() implies (#[trigger] ft[k]).0 != x.0 && s.contains(
            ft[k],
        ) by {
            assert(t.contains(ft[k]));
            let j = choose|j: int| 0 <= j < t.len() && t[j] == ft[k];
            assert(s[j] == t[j]);
            assert(s[s.len() - 1] == x);
        }
        if pred(x) {
            let f = ft.push(x);
            assert(s.filter(pred) == f);
            assert forall|i: int, j: int| 0 <= i < j < f.len() implies (#[trigger] f[i]).0 != (
            #[trigger] f[j]).0 by {
                if j == f.len() - 1 {
                    assert(f[i] == ft[i]);
                } else {
                    assert(f[i] == ft[i] && f[j] == ft[j]);
                }
            }
            assert forall|k: int| 0 <= k < f.len() implies s.contains(#[trigger] f[k]) by {
                if k == f.len() - 1 {
                    assert(s[s.len() - 1] == x);
                } else {
                    assert(f[k] == ft[k]);
                }
            }
        } else {
            assert(s.filter(pred) == ft);
        }
    }
}

/// Law: the cache holds at most one entry per process, as a map keyed by the pid
/// would: recording a process keeps that true of any cache of which it was true (and
/// a new cache, being empty, is such a cache).
pub proof fn law_store_keeps_pids_unique(s: Seq<EntryView>, e: EntryView)
    requires
        pids_unique(s),
    ensures
        pids_unique(evicted(upsert(s, e), e.4)),
{
    let pid = e.0;
    lemma_index_for(s, pid);
    let i = index_for(s, pid);
    let u = upsert(s, e);
    assert forall|a: int, b: int| 0 <= a < b < u.len() implies (#[trigger] u[a]).0 != (
    #[trigger] u[b]).0 by {
        if i < s.len() {
            if a == i {
                assert(u[b] == s[b]);
                assert(s[i].0 == pid);
            } else if b == i {
                assert(u[a] == s[a]);
            } else {
                assert(u[a] == s[a] && u[b] == s[b]);
            }
        } else {
            if b == s.len() {
                assert(u[a] == s[a]);
            } else {
                assert(u[a] == s[a] && u[b] == s[b]);
            }
        }
    }
    let pred = |x: EntryView| is_fresh(x.4, e.4);
    lemma_filter_unique(u, pred);
}

/// Law: the label of a process run with a script is that script (normalized and
/// shortened): the first argument after the executable that names a script file;
/// without such an argument it is the executable name.
pub proof fn law_label_shows_script(r: PortInfo)
    ensures
        r.process_cmd matches Some(c) ==> forall|i: int|
            1 <= i < tokens(c@).len() && names_script(#[trigger] tokens(c@)[i]) && (forall|j: int|
                1 <= j < i ==> !names_script(#[trigger] tokens(c@)[j])) ==> label(r) == shortened(
                normalized(tokens(c@)[i]),
            ),
        (r.process_cmd matches Some(c) ==> forall|j: int|
            1 <= j < tokens(c@).len() ==> !names_script(#[trigger] tokens(c@)[j])) ==> label(r)
            == r.process_name@,
{
    if let Some(c) = r.process_cmd {
        law_first_script_argument(c@);
    }
}

/// The last `\` component of `prefix + base`, when `prefix` is empty or ends with
/// `\` and `base` has none, is `base`.
proof fn lemma_tail_after_base(prefix: Seq<char>, base: Seq<char>)
    requires
        prefix.len() == 0 || prefix.last() == '\\',
        forall|k: int| 0 <= k < base.len() ==> base[k] != '\\',
    ensures
        tail_after(prefix + base, false) == base,
    decreases base.len(),
{
    let s = prefix + base;
    if base.len() > 0 {
        let b = base.drop_last();
        assert(s.drop_last() =~= prefix + b);
        assert(s.last() == base.last());
        lemma_tail_after_base(prefix, b);
        assert(b.push(base.last()) =~= base);
    } else {
        assert(s =~= prefix);
    }
}

/// Law: a row whose process name (when it has one) equals, ignoring ASCII case, an
/// entry the user hid is hidden by the configuration, and is never kept as an
/// application port.
pub proof fn law_hidden_process_name(r: PortInfo, cfg: Config, env_root: Option<Seq<char>>, i: int)
    requires
        0 <= i < cfg.ocultar@.len(),
        r.process_name@.len() > 0,
        lower_seq(cfg.ocultar@[i]@) == lower_seq(r.process_name@),
    ensures
        hidden_by_config(r, cfg),
        !is_app_port(r, cfg, env_root),
{
    assert(ieq(cfg.ocultar@[i]@, r.process_name@));
}

/// Law: a row whose executable file name (the last `\` component of its path) equals,
/// ignoring ASCII case, an entry the user hid is hidden by the configuration, and is
/// never kept as an application port.
pub proof fn law_hidden_executable_file(
    r: PortInfo,
    cfg: Config,
    env_root: Option<Seq<char>>,
    i: int,
    dir: Seq<char>,
    base: Seq<char>,
)
    requires
        0 <= i < cfg.ocultar@.len(),
        r.process_path matches Some(p) && (p@ == dir + seq!['\\'] + base || p@ == base),
        forall|k: int| 0 <= k < base.len() ==> base[k] != '\\',
        lower_seq(cfg.ocultar@[i]@) == lower_seq(base),
    ensures
        hidden_by_config(r, cfg),
        !is_app_port(r, cfg, env_root),
{
    let p = r.process_path->0;
    if p@ == base {
        lemma_tail_after_base(Seq::<char>::empty(), base);
        assert(Seq::<char>::empty() + base =~= base);
    } else {
        let pre = dir + seq!['\\'];
        lemma_tail_after_base(pre, base);
        assert(pre + base =~= dir + seq!['\\'] + base);
    }
    assert(tail_after(p@, false) == base);
    assert(ieq(cfg.ocultar@[i]@, base));
}

/// Law: with a non-empty project, the popup label is the project, ` · `, and the
/// process label, from which a leading `…\` is dropped (and nothing else); without a
/// project it is the process label.
pub proof fn law_popup_label_parts(r: PortInfo)
    ensures
        ({
            let l = label(r);
            let starts = l.len() >= 2 && l[0] == '…' && l[1] == '\\';
            let named = r.proyecto is Some && r.proyecto->0@.len() > 0;
            &&& named && starts ==> popup_label(r) == r.proyecto->0@ + seq![' ', '·', ' ']
                + l.subrange(2, l.len() as int)
            &&& named && !starts ==> popup_label(r) == r.proyecto->0@ + seq![' ', '·', ' '] + l
            &&& !named ==> popup_label(r) == l
        }),
{
    let l = label(r);
    if l.len() >= 2 {
        assert(has_prefix(l, seq!['…', '\\']) == (l[0] == '…' && l[1] == '\\')) by {
            assert(l.take(2)[0] == l[0] && l.take(2)[1] == l[1]);
            if l[0] == '…' && l[1] == '\\' {
                assert(l.take(2) =~= seq!['…', '\\']);
            }
        }
        assert(l.skip(2) =~= l.subrange(2, l.len() as int));
    }
}

} // verus!
