//! User configuration: workspace root segment, per-port aliases and hidden entries.
//!
//! The file itself (`%APPDATA%\GLORYPORT\config.json`) is read and parsed by the
//! application; this module holds the configuration and the rules that consult it.

use vstd::prelude::*;

use crate::text::{chars_of, dec, eq_ignore_ascii_case, ieq, lower, lower_seq, push_radix, same_chars};

verus! {

/// User configuration. A missing or malformed file yields `Config::default()`.
#[derive(Debug, Clone)]
pub struct Config {
    /// Workspace root segment (default `area-trabajo`).
    pub workspace: Option<String>,
    /// Manual aliases: (port in decimal, name).
    pub nombres: Vec<(String, String)>,
    /// Projects or processes that are never offered.
    pub ocultar: Vec<String>,
}

impl Default for Config {
    fn default() -> (r: Self)
        ensures
            r.workspace.is_none(),
            r.nombres@.len() == 0,
            r.ocultar@.len() == 0,
    {
        Config { workspace: None, nombres: Vec::new(), ocultar: Vec::new() }
    }
}

/// The default workspace root segment, `area-trabajo`.
pub open spec fn default_workspace() -> Seq<char> {
    seq!['a', 'r', 'e', 'a', '-', 't', 'r', 'a', 'b', 'a', 'j', 'o']
}

/// The workspace root segment: the configured one when present and non-empty.
pub open spec fn workspace_root(cfg: Config) -> Seq<char> {
    match cfg.workspace {
        Some(w) => if w@.len() > 0 { w@ } else { default_workspace() },
        None => default_workspace(),
    }
}

/// The alias of the first entry whose key is `key`.
pub open spec fn first_alias(n: Seq<(String, String)>, key: Seq<char>) -> Option<Seq<char>>
    decreases n.len(),
{
    if n.len() == 0 {
        None
    } else if n[0].0@ == key {
        Some(n[0].1@)
    } else {
        first_alias(n.drop_first(), key)
    }
}

/// The manual alias configured for `port` (keyed by the port in decimal).
pub open spec fn alias_of(cfg: Config, port: u16) -> Option<Seq<char>> {
    first_alias(cfg.nombres@, dec(port as nat))
}

/// `candidate` matches a hidden entry, ignoring ASCII case.
pub open spec fn is_hidden(cfg: Config, candidate: Seq<char>) -> bool {
    exists|i: int| 0 <= i < cfg.ocultar@.len() && ieq(#[trigger] cfg.ocultar@[i]@, candidate)
}

impl Config {
    /// Workspace root segment (compared ignoring ASCII case).
    pub fn workspace_raiz(&self) -> (r: &str)
        ensures
            r@ == workspace_root(*self),
    {
        match &self.workspace {
            Some(w) => {
                if w.as_str().is_empty() {
                    proof {
                        reveal_strlit("area-trabajo");
                    }
                    "area-trabajo"
                } else {
                    w.as_str()
                }
            },
            None => {
                proof {
                    reveal_strlit("area-trabajo");
                }
                "area-trabajo"
            },
        }
    }

    /// Manual alias for a port, if configured.
    pub fn alias_para(&self, port: u16) -> (r: Option<&str>)
        ensures
            match r {
                Some(a) => alias_of(*self, port) == Some(a@),
                None => alias_of(*self, port).is_none(),
            },
    {
        let mut key: Vec<char> = Vec::new();
        push_radix(&mut key, port as u64, 10);
        assert(key@ =~= dec(port as nat));
        let mut i: usize = 0;
        assert(self.nombres@.skip(0) =~= self.nombres@);
        while i < self.nombres.len()
            invariant
                i <= self.nombres@.len(),
                key@ == dec(port as nat),
                first_alias(self.nombres@, key@) == first_alias(self.nombres@.skip(i as int), key@),
            decreases self.nombres.len() - i,
        {
            let k = chars_of(self.nombres[i].0.as_str());
            assert(self.nombres@.skip(i as int).drop_first() =~= self.nombres@.skip(i + 1));
            if same_chars(&k, &key) {
                return Some(self.nombres[i].1.as_str());
            }
            i += 1;
        }
        None
    }

    /// A candidate (derived project, process or script) is hidden, ignoring ASCII case.
    pub fn esta_oculto(&self, candidato: &str) -> (r: bool)
        ensures
            r == is_hidden(*self, candidato@),
    {
        let c = chars_of(candidato);
        let mut i: usize = 0;
        while i < self.ocultar.len()
            invariant
                i <= self.ocultar@.len(),
                c@ == candidato@,
                forall|j: int| 0 <= j < i ==> !ieq(#[trigger] self.ocultar@[j]@, candidato@),
            decreases self.ocultar.len() - i,
        {
            let o = chars_of(self.ocultar[i].as_str());
            if eq_ignore_ascii_case(&o, &c) {
                return true;
            }
            i += 1;
        }
        false
    }
}

/// Law: hiding ignores ASCII case: a candidate is hidden exactly when its lower-case
/// form is.
pub proof fn law_hidden_ignores_case(cfg: Config, candidate: Seq<char>)
    ensures
        is_hidden(cfg, candidate) == is_hidden(cfg, lower_seq(candidate)),
{
    assert(lower_seq(lower_seq(candidate)) =~= lower_seq(candidate)) by {
        assert forall|i: int| 0 <= i < candidate.len() implies lower(#[trigger] lower(candidate[i]))
            == lower(candidate[i]) by {
            let c = candidate[i];
            if 'A' <= c && c <= 'Z' {
                assert(lower(c) == ((c as u32) + 32) as char);
            }
        }
    }
    if is_hidden(cfg, candidate) {
        let i = choose|i: int|
            0 <= i < cfg.ocultar@.len() && ieq(#[trigger] cfg.ocultar@[i]@, candidate);
        assert(ieq(cfg.ocultar@[i]@, lower_seq(candidate)));
    }
    if is_hidden(cfg, lower_seq(candidate)) {
        let i = choose|i: int|
            0 <= i < cfg.ocultar@.len() && ieq(#[trigger] cfg.ocultar@[i]@, lower_seq(candidate));
        assert(ieq(cfg.ocultar@[i]@, candidate));
    }
}

/// No two aliases have the same key, as in the configuration file's JSON object.
pub open spec fn names_unique(cfg: Config) -> bool {
    forall|i: int, j: int|
        0 <= i < j < cfg.nombres@.len() ==> (#[trigger] cfg.nombres@[i]).0@ != (
        #[trigger] cfg.nombres@[j]).0@
}

proof fn lemma_first_alias_at(n: Seq<(String, String)>, i: int, key: Seq<char>)
    requires
        0 <= i < n.len(),
        n[i].0@ == key,
        forall|j: int| 0 <= j < i ==> (#[trigger] n[j]).0@ != key,
    ensures
        first_alias(n, key) == Some(n[i].1@),
    decreases i,
{
    if i > 0 {
        let t = n.drop_first();
        assert forall|j: int| 0 <= j < i - 1 implies (#[trigger] t[j]).0@ != key by {
            assert(t[j] == n[j + 1]);
        }
        lemma_first_alias_at(t, i - 1, key);
    }
}

/// Law: with keys that do not repeat (a configuration read from a JSON object), the
/// alias of a port is the name stored under the port's decimal key, whatever the
/// order of the entries.
pub proof fn law_alias_is_the_entry(cfg: Config, port: u16, i: int)
    requires
        names_unique(cfg),
        0 <= i < cfg.nombres@.len(),
        cfg.nombres@[i].0@ == dec(port as nat),
    ensures
        alias_of(cfg, port) == Some(cfg.nombres@[i].1@),
{
    let n = cfg.nombres@;
    assert forall|j: int| 0 <= j < i implies (#[trigger] n[j]).0@ != dec(port as nat) by {
        assert(n[j].0@ != n[i].0@);
    }
    lemma_first_alias_at(n, i, dec(port as nat));
}

} // verus!
