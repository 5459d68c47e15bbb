//! Command-line interface rules: which mode runs, option parsing, the target
//! selection of `kill`, the `list` table and the usage text.

use vstd::prelude::*;

use crate::ports::{label, opt_view, PortInfo};
use crate::process::KillError;
use crate::text::{append, chars_of, dec, has_prefix, push_radix, same_chars, starts_with, string_of};

verus! {

pub open spec fn is_digit(c: char) -> bool {
    '0' <= c && c <= '9'
}

/// Decimal value of a digit string.
pub open spec fn digits_value(d: Seq<char>) -> nat
    decreases d.len(),
{
    if d.len() == 0 {
        0
    } else {
        digits_value(d.drop_last()) * 10 + ((d.last() as u32) - 48) as nat
    }
}

/// The digits after an optional leading `+`.
pub open spec fn unsigned_digits(s: Seq<char>) -> Seq<char> {
    if s.len() > 0 && s[0] == '+' {
        s.drop_first()
    } else {
        s
    }
}

/// Value of `s` as an unsigned integer not above `max`, as the standard library's
/// `FromStr` for unsigned integers reads it: an optional `+`, then one or more ASCII
/// digits; `None` otherwise or when the value exceeds `max`.
pub open spec fn unsigned_value(s: Seq<char>, max: nat) -> Option<nat> {
    let d = unsigned_digits(s);
    if d.len() == 0 || !(forall|i: int| 0 <= i < d.len() ==> is_digit(#[trigger] d[i])) {
        None
    } else if digits_value(d) > max {
        None
    } else {
        Some(digits_value(d))
    }
}

proof fn lemma_digits_monotone(d: Seq<char>, k: int)
    requires
        0 <= k <= d.len(),
        forall|i: int| 0 <= i < d.len() ==> is_digit(#[trigger] d[i]),
    ensures
        digits_value(d.take(k)) <= digits_value(d),
    decreases d.len() - k,
{
    if k < d.len() {
        let t = d.take(k + 1);
        assert(t.drop_last() =~= d.take(k));
        assert(is_digit(d[k]));
        lemma_digits_monotone(d, k + 1);
    } else {
        assert(d.take(k) =~= d);
    }
}

/// The decimal digits of `n` are digits and read back as `n`.
proof fn lemma_dec_digits(n: nat)
    ensures
        dec(n).len() > 0,
        forall|i: int| 0 <= i < dec(n).len() ==> is_digit(#[trigger] dec(n)[i]),
        digits_value(dec(n)) == n,
    decreases n,
{
    if n >= 10 {
        lemma_dec_digits(n / 10);
        let p = dec(n / 10);
        let d = dec(n);
        assert(d == p.push(crate::text::digit(n % 10)));
        assert(d.drop_last() =~= p);
        assert forall|i: int| 0 <= i < d.len() implies is_digit(#[trigger] d[i]) by {
            if i < p.len() {
                assert(d[i] == p[i]);
            }
        }
        let c = crate::text::digit(n % 10);
        assert((c as u32) == n % 10 + 48);
        assert(d.last() == c);
        assert(digits_value(d) == digits_value(p) * 10 + ((c as u32) - 48) as nat);
        assert(n == (n / 10) * 10 + n % 10);
    } else {
        let c = crate::text::digit(n);
        assert((c as u32) == n + 48);
        assert(dec(n) == seq![c]);
        assert(dec(n).drop_last() =~= Seq::<char>::empty());
        assert(digits_value(dec(n)) == digits_value(Seq::<char>::empty()) * 10 + ((c as u32) - 48) as nat);
    }
}

/// Law: a number printed in decimal (as the `list` table and the configuration write
/// ports) is read back as the same number by the parser of `kill` and `--pid`.
pub proof fn law_parse_reads_printed(n: nat, max: nat)
    requires
        n <= max,
    ensures
        unsigned_value(dec(n), max) == Some(n),
{
    lemma_dec_digits(n);
    assert(is_digit(dec(n)[0]));
    assert(unsigned_digits(dec(n)) == dec(n));
}

/// Parses an unsigned integer not above `max` (`str::parse` for `u16`/`u32`).
pub fn parse_unsigned(s: &Vec<char>, max: u64) -> (r: Option<u64>)
    requires
        max <= u32::MAX,
    ensures
        match r {
            Some(v) => unsigned_value(s@, max as nat) == Some(v as nat),
            None => unsigned_value(s@, max as nat).is_none(),
        },
{
    let start: usize = if s.len() > 0 && s[0] == '+' {
        1
    } else {
        0
    };
    let ghost d = unsigned_digits(s@);
    assert(d =~= s@.skip(start as int));
    if start == s.len() {
        return None;
    }
    let mut acc: u64 = 0;
    let mut i: usize = start;
    assert(d.take(0) =~= Seq::<char>::empty());
    while i < s.len()
        invariant
            start <= i <= s.len(),
            start < s.len(),
            d == s@.skip(start as int),
            d == unsigned_digits(s@),
            max <= u32::MAX,
            acc <= max,
            acc == digits_value(d.take(i - start)),
            forall|k: int| 0 <= k < i - start ==> is_digit(#[trigger] d[k]),
        decreases s.len() - i,
    {
        let c = s[i];
        assert(d[i - start] == c);
        if !('0' <= c && c <= '9') {
            assert(!is_digit(d[i - start]));
            assert(!(forall|k: int| 0 <= k < d.len() ==> is_digit(#[trigger] d[k])));
            assert(unsigned_value(s@, max as nat).is_none());
            return None;
        }
        let digit: u64 = ((c as u32) - 48) as u64;
        let ghost t1 = d.take(i - start + 1);
        assert(t1.drop_last() =~= d.take(i - start));
        assert(t1.last() == c);
        assert(digits_value(t1) == digits_value(d.take(i - start)) * 10 + digit);
        acc = acc * 10 + digit;
        i += 1;
        if acc > max {
            proof {
                if forall|k: int| 0 <= k < d.len() ==> is_digit(#[trigger] d[k]) {
                    lemma_digits_monotone(d, i - start);
                }
            }
            assert(unsigned_value(s@, max as nat).is_none());
            return None;
        }
    }
    assert(d.take(i - start) =~= d);
    Some(acc)
}

/// The mode selected by the first argument.
#[derive(Debug, Clone, PartialEq, Eq)]
pub enum Command {
    Tray,
    List,
    Kill,
    Version,
    Help,
    Unknown(String),
}

/// The mode of the first argument: none or `tray` runs the tray, `list`, `kill`,
/// `--version`/`version`/`-V`, `--help`/`help`/`-h`; anything else is unknown.
pub open spec fn command_of(args: Seq<String>) -> int {
    if args.len() == 0 || args[0]@ == "tray"@ {
        0
    } else if args[0]@ == "list"@ {
        1
    } else if args[0]@ == "kill"@ {
        2
    } else if args[0]@ == "--version"@ || args[0]@ == "version"@ || args[0]@ == "-V"@ {
        3
    } else if args[0]@ == "--help"@ || args[0]@ == "help"@ || args[0]@ == "-h"@ {
        4
    } else {
        5
    }
}

fn is_word(a: &Vec<char>, w: &str) -> (r: bool)
    ensures
        r == (a@ == w@),
{
    same_chars(a, &chars_of(w))
}

pub fn parse_command(args: &[String]) -> (r: Command)
    ensures
        match r {
            Command::Tray => command_of(args@) == 0,
            Command::List => command_of(args@) == 1,
            Command::Kill => command_of(args@) == 2,
            Command::Version => command_of(args@) == 3,
            Command::Help => command_of(args@) == 4,
            Command::Unknown(s) => command_of(args@) == 5 && s@ == args@[0]@,
        },
{
    if args.len() == 0 {
        return Command::Tray;
    }
    let a = chars_of(args[0].as_str());
    if is_word(&a, "tray") {
        Command::Tray
    } else if is_word(&a, "list") {
        Command::List
    } else if is_word(&a, "kill") {
        Command::Kill
    } else if is_word(&a, "--version") || is_word(&a, "version") || is_word(&a, "-V") {
        Command::Version
    } else if is_word(&a, "--help") || is_word(&a, "help") || is_word(&a, "-h") {
        Command::Help
    } else {
        Command::Unknown(args[0].clone())
    }
}

/// Options of `list`.
#[derive(Debug, Clone, Copy, PartialEq, Eq, Structural)]
pub struct ListOptions {
    pub json: bool,
    pub include_system: bool,
}

/// Index of the first argument that is neither `--json` nor `--incluir-sistema`.
pub open spec fn first_unknown_list_arg(args: Seq<String>, i: int) -> int
    decreases args.len() - i,
{
    if i < 0 || i >= args.len() {
        args.len() as int
    } else if args[i]@ == "--json"@ || args[i]@ == "--incluir-sistema"@ {
        first_unknown_list_arg(args, i + 1)
    } else {
        i
    }
}

/// The options of `list`, or the first unknown argument.
pub fn parse_list_options(args: &[String]) -> (r: Result<ListOptions, String>)
    ensures
        match r {
            Ok(o) => first_unknown_list_arg(args@, 0) == args@.len() && o.json == (exists|i: int|
                0 <= i < args@.len() && (#[trigger] args@[i])@ == "--json"@) && o.include_system
                == (exists|i: int|
                0 <= i < args@.len() && (#[trigger] args@[i])@ == "--incluir-sistema"@),
            Err(u) => first_unknown_list_arg(args@, 0) < args@.len() && u@
                == args@[first_unknown_list_arg(args@, 0)]@,
        },
{
    let mut json = false;
    let mut include_system = false;
    proof {
        reveal_strlit("--json");
        reveal_strlit("--incluir-sistema");
        assert("--json"@[2] == 'j');
        assert("--incluir-sistema"@[2] == 'i');
    }
    let mut i: usize = 0;
    while i < args.len()
        invariant
            i <= args@.len(),
            first_unknown_list_arg(args@, 0) == first_unknown_list_arg(args@, i as int),
            "--json"@ != "--incluir-sistema"@,
            json == (exists|k: int| 0 <= k < i && (#[trigger] args@[k])@ == "--json"@),
            include_system == (exists|k: int|
                0 <= k < i && (#[trigger] args@[k])@ == "--incluir-sistema"@),
        decreases args.len() - i,
    {
        let a = chars_of(args[i].as_str());
        if is_word(&a, "--json") {
            json = true;
            assert(args@[i as int]@ == "--json"@);
        } else if is_word(&a, "--incluir-sistema") {
            include_system = true;
            assert(args@[i as int]@ == "--incluir-sistema"@);
        } else {
            return Err(args[i].clone());
        }
        i += 1;
    }
    Ok(ListOptions { json, include_system })
}

} // verus!

verus! {

/// Options of `kill`: the port and an optional PID filter.
#[derive(Debug, Clone, Copy, PartialEq, Eq, Structural)]
pub struct KillOptions {
    pub port: u16,
    pub pid: Option<u32>,
}

/// A usage error of `kill`.
#[derive(Debug, Clone, PartialEq, Eq)]
pub enum KillArgError {
    /// `--pid` without a valid number after it.
    BadPid,
    /// An unknown option.
    UnknownOption(String),
    /// More than one port.
    ExtraPort,
    /// No port.
    MissingPort,
    /// A port that is not a number in 1–65535.
    BadPort(String),
}

/// A usage error of `kill`, by the index of the argument it concerns.
pub enum KillIssue {
    BadPid,
    UnknownOption(int),
    ExtraPort,
    MissingPort,
    BadPort(int),
}

/// Left-to-right reading of the arguments of `kill` from index `i`, with the index of
/// the port argument and the PID filter found so far.
pub open spec fn kill_scan(a: Seq<String>, i: int, port: Option<int>, pid: Option<u32>) -> Result<
    (Option<int>, Option<u32>),
    KillIssue,
>
    decreases a.len() - i,
{
    if i < 0 || i >= a.len() {
        Ok((port, pid))
    } else if a[i]@ == "--pid"@ {
        if i + 1 >= a.len() {
            Err(KillIssue::BadPid)
        } else {
            match unsigned_value(a[i + 1]@, u32::MAX as nat) {
                Some(v) => kill_scan(a, i + 2, port, Some(v as u32)),
                None => Err(KillIssue::BadPid),
            }
        }
    } else if has_prefix(a[i]@, seq!['-']) {
        Err(KillIssue::UnknownOption(i))
    } else if port.is_some() {
        Err(KillIssue::ExtraPort)
    } else {
        kill_scan(a, i + 1, Some(i), pid)
    }
}

/// The options of `kill <port> [--pid <PID>]`, or the usage error.
pub open spec fn kill_spec(a: Seq<String>) -> Result<(u16, Option<u32>), KillIssue> {
    match kill_scan(a, 0, None, None) {
        Err(e) => Err(e),
        Ok((port, pid)) => match port {
            None => Err(KillIssue::MissingPort),
            Some(k) => match unsigned_value(a[k]@, 65535) {
                Some(p) => if p > 0 {
                    Ok((p as u16, pid))
                } else {
                    Err(KillIssue::BadPort(k))
                },
                None => Err(KillIssue::BadPort(k)),
            },
        },
    }
}

/// `r` is the outcome `spec` describes.
pub open spec fn kill_outcome(a: Seq<String>, r: Result<KillOptions, KillArgError>) -> bool {
    match (kill_spec(a), r) {
        (Ok((p, pid)), Ok(o)) => o.port == p && o.pid == pid,
        (Err(KillIssue::BadPid), Err(KillArgError::BadPid)) => true,
        (Err(KillIssue::UnknownOption(k)), Err(KillArgError::UnknownOption(s))) => 0 <= k
            < a.len() && s@ == a[k]@,
        (Err(KillIssue::ExtraPort), Err(KillArgError::ExtraPort)) => true,
        (Err(KillIssue::MissingPort), Err(KillArgError::MissingPort)) => true,
        (Err(KillIssue::BadPort(k)), Err(KillArgError::BadPort(s))) => 0 <= k < a.len() && s@
            == a[k]@,
        _ => false,
    }
}

/// A text that reads as an unsigned number does not start with `-`.
proof fn lemma_number_no_dash(t: Seq<char>, max: nat)
    requires
        unsigned_value(t, max).is_some(),
    ensures
        !has_prefix(t, seq!['-']),
        t.len() > 0,
{
    let d = unsigned_digits(t);
    assert(is_digit(d[0]));
    if t.len() > 0 && t[0] == '-' {
        assert(d == t);
    }
    if has_prefix(t, seq!['-']) {
        assert(t.take(1)[0] == t[0]);
        assert(seq!['-'][0] == '-');
    }
}

/// Law: the PID filter of `kill` does not depend on where `--pid <PID>` stands: with a
/// valid port `p` and PID `q`, both `p --pid q` and `--pid q p` select port `p` and
/// PID `q`.
pub proof fn law_pid_filter_anywhere(
    a: Seq<String>,
    b: Seq<String>,
    ra: Result<KillOptions, KillArgError>,
    rb: Result<KillOptions, KillArgError>,
)
    requires
        a.len() == 3,
        b.len() == 3,
        a[1]@ == "--pid"@,
        b[0]@ == "--pid"@,
        b[1]@ == a[2]@,
        b[2]@ == a[0]@,
        unsigned_value(a[0]@, 65535) matches Some(p) && p > 0,
        unsigned_value(a[2]@, u32::MAX as nat).is_some(),
        kill_outcome(a, ra),
        kill_outcome(b, rb),
    ensures
        ra matches Ok(o) && o.port == unsigned_value(a[0]@, 65535)->0 && o.pid == Some(
            unsigned_value(a[2]@, u32::MAX as nat)->0 as u32,
        ),
        rb == ra,
{
    let pt = a[0]@;
    let q = unsigned_value(a[2]@, u32::MAX as nat)->0;
    lemma_number_no_dash(pt, 65535);
    reveal_strlit("--pid");
    assert(pt != "--pid"@) by {
        if pt == "--pid"@ {
            assert(pt[0] == '-');
            assert(pt.take(1) =~= seq!['-']);
        }
    }
    assert(kill_scan(a, 3, Some(0), Some(q as u32)) == Ok::<(Option<int>, Option<u32>), KillIssue>((Some(0int), Some(q as u32))));
    assert(kill_scan(a, 1, Some(0), None) == kill_scan(a, 3, Some(0), Some(q as u32)));
    assert(kill_scan(a, 0, None, None) == kill_scan(a, 1, Some(0), None));
    assert(kill_scan(b, 3, Some(2), Some(q as u32)) == Ok::<(Option<int>, Option<u32>), KillIssue>((Some(2int), Some(q as u32))));
    assert(kill_scan(b, 2, None, Some(q as u32)) == kill_scan(b, 3, Some(2), Some(q as u32)));
    assert(kill_scan(b, 0, None, None) == kill_scan(b, 2, None, Some(q as u32)));
}

pub fn parse_kill_options(args: &[String]) -> (r: Result<KillOptions, KillArgError>)
    ensures
        kill_outcome(args@, r),
{
    let mut port_idx: Option<usize> = None;
    let mut pid: Option<u32> = None;
    let mut i: usize = 0;
    let dash: Vec<char> = vec!['-'];
    assert(dash@ =~= seq!['-']);
    while i < args.len()
        invariant
            i <= args@.len(),
            dash@ == seq!['-'],
            kill_scan(args@, 0, None, None) == kill_scan(
                args@,
                i as int,
                match port_idx {
                    Some(k) => Some(k as int),
                    None => None,
                },
                pid,
            ),
            match port_idx {
                Some(k) => k < i,
                None => true,
            },
        decreases args.len() - i,
    {
        let a = chars_of(args[i].as_str());
        if is_word(&a, "--pid") {
            if i + 1 >= args.len() {
                return Err(KillArgError::BadPid);
            }
            let raw = chars_of(args[i + 1].as_str());
            match parse_unsigned(&raw, 4294967295) {
                Some(v) => {
                    pid = Some(v as u32);
                },
                None => {
                    return Err(KillArgError::BadPid);
                },
            }
            i += 2;
        } else if starts_with(&a, &dash) {
            return Err(KillArgError::UnknownOption(args[i].clone()));
        } else if port_idx.is_some() {
            return Err(KillArgError::ExtraPort);
        } else {
            port_idx = Some(i);
            i += 1;
        }
    }
    match port_idx {
        None => Err(KillArgError::MissingPort),
        Some(k) => {
            let text = chars_of(args[k].as_str());
            match parse_unsigned(&text, 65535) {
                Some(p) => {
                    if p > 0 {
                        Ok(KillOptions { port: p as u16, pid })
                    } else {
                        Err(KillArgError::BadPort(args[k].clone()))
                    }
                },
                None => Err(KillArgError::BadPort(args[k].clone())),
            }
        },
    }
}

/// Message of a usage error of `kill`.
pub open spec fn kill_arg_text(e: KillArgError) -> Seq<char> {
    match e {
        KillArgError::BadPid => "'--pid' requiere un número válido"@,
        KillArgError::UnknownOption(s) => "opción desconocida '"@ + s@ + seq!['\''],
        KillArgError::ExtraPort => "solo se acepta un puerto"@,
        KillArgError::MissingPort => "uso: gloryport kill <puerto> [--pid <PID>]"@,
        KillArgError::BadPort(s) => "puerto inválido '"@ + s@ + "' (1–65535)"@,
    }
}

impl KillArgError {
    pub fn describe(&self) -> (r: String)
        ensures
            r@ == kill_arg_text(*self),
    {
        match self {
            KillArgError::BadPid => string_of(&chars_of("'--pid' requiere un número válido")),
            KillArgError::UnknownOption(s) => {
                let mut out = chars_of("opción desconocida '");
                append(&mut out, &chars_of(s.as_str()));
                out.push('\'');
                string_of(&out)
            },
            KillArgError::ExtraPort => string_of(&chars_of("solo se acepta un puerto")),
            KillArgError::MissingPort => string_of(
                &chars_of("uso: gloryport kill <puerto> [--pid <PID>]"),
            ),
            KillArgError::BadPort(s) => {
                let mut out = chars_of("puerto inválido '");
                append(&mut out, &chars_of(s.as_str()));
                append(&mut out, &chars_of("' (1–65535)"));
                string_of(&out)
            },
        }
    }
}

/// A row targeted by `kill`: listening on `port`, and owned by `pid` when one is given.
pub open spec fn is_target(r: PortInfo, port: u16, pid: Option<u32>) -> bool {
    r.port == port && match pid {
        Some(p) => r.pid == p,
        None => true,
    }
}

/// The rows `kill` terminates, in their order.
pub fn kill_targets(rows: Vec<PortInfo>, port: u16, pid: Option<u32>) -> (r: Vec<PortInfo>)
    ensures
        r@ == rows@.filter(|x: PortInfo| is_target(x, port, pid)),
{
    let ghost pred = |x: PortInfo| is_target(x, port, pid);
    let ghost orig = rows@;
    let mut out: Vec<PortInfo> = Vec::new();
    let mut rest = rows;
    let n = rest.len();
    let mut i: usize = 0;
    proof {
        reveal_with_fuel(Seq::filter, 1);
    }
    assert(orig.take(0).filter(pred) =~= Seq::<PortInfo>::empty());
    assert(orig.skip(0) =~= orig);
    while i < n
        invariant
            n == orig.len(),
            i <= n,
            rest@ == orig.skip(i as int),
            pred == (|x: PortInfo| is_target(x, port, pid)),
            out@ == orig.take(i as int).filter(pred),
        decreases n - i,
    {
        let row = rest.remove(0);
        let ghost t1 = orig.take(i + 1);
        assert(t1.drop_last() =~= orig.take(i as int));
        assert(t1.last() == row);
        let keep = row.port == port && match pid {
            Some(p) => row.pid == p,
            None => true,
        };
        assert(pred(row) == keep);
        if keep {
            out.push(row);
        }
        proof {
            reveal_with_fuel(Seq::filter, 1);
        }
        assert(out@ =~= t1.filter(pred));
        i += 1;
        assert(rest@ =~= orig.skip(i as int));
    }
    assert(orig.take(n as int) =~= orig);
    out
}

} // verus!

verus! {

/// `s` left-aligned in a field of `w` characters (`format!("{:<w}")`).
pub open spec fn pad(s: Seq<char>, w: nat) -> Seq<char> {
    if s.len() >= w {
        s
    } else {
        s + Seq::new((w - s.len()) as nat, |i: int| ' ')
    }
}

fn push_padded(out: &mut Vec<char>, s: &Vec<char>, w: usize)
    ensures
        final(out)@ == old(out)@ + pad(s@, w as nat),
{
    append(out, s);
    let mut k: usize = s.len();
    let ghost base = old(out)@ + s@;
    while k < w
        invariant
            s.len() <= k,
            k <= w || k == s.len(),
            out@ == base + Seq::new((k - s.len()) as nat, |i: int| ' '),
        decreases w - k,
    {
        out.push(' ');
        k += 1;
        assert(out@ =~= base + Seq::new((k - s.len()) as nat, |i: int| ' '));
    }
    proof {
        if s.len() >= w {
            assert(Seq::new((k - s.len()) as nat, |i: int| ' ') =~= Seq::<char>::empty());
            assert(out@ =~= old(out)@ + s@);
        } else {
            assert(out@ =~= old(out)@ + (s@ + Seq::new((w - s.len()) as nat, |i: int| ' ')));
        }
    }
}

/// Exit status of `kill` after trying every target in turn: 1 when no process
/// listened on the port, 0 when every target was terminated, 1 when any was not.
pub open spec fn kill_status(results: Seq<Result<(), KillError>>) -> u8 {
    if results.len() == 0 {
        1
    } else if forall|i: int| 0 <= i < results.len() ==> (#[trigger] results[i]) is Ok {
        0
    } else {
        1
    }
}

pub fn kill_exit_code(results: &[Result<(), KillError>]) -> (r: u8)
    ensures
        r == kill_status(results@),
{
    if results.len() == 0 {
        return 1;
    }
    let mut i: usize = 0;
    while i < results.len()
        invariant
            i <= results@.len(),
            forall|k: int| 0 <= k < i ==> (#[trigger] results@[k]) is Ok,
        decreases results.len() - i,
    {
        if results[i].is_err() {
            assert(!(results@[i as int] is Ok));
            return 1;
        }
        i += 1;
    }
    0
}

/// Header line of the `list` table.
pub open spec fn list_header_text() -> Seq<char> {
    pad("PUERTO"@, 7) + seq![' '] + pad("DIRECCIÓN"@, 21) + seq![' '] + pad("PID"@, 8) + seq![
        ' ',
    ] + pad("PROYECTO"@, 22) + " PROCESO"@
}

/// One line of the `list` table: port, address, PID, project (`-` when unknown) and
/// the process label.
pub open spec fn list_line_text(r: PortInfo) -> Seq<char> {
    pad(dec(r.port as nat), 7) + seq![' '] + pad(r.address@, 21) + seq![' '] + pad(
        dec(r.pid as nat),
        8,
    ) + seq![' '] + pad(
        match opt_view(r.proyecto) {
            Some(p) => p,
            None => seq!['-'],
        },
        22,
    ) + seq![' '] + label(r)
}

pub fn list_header() -> (r: String)
    ensures
        r@ == list_header_text(),
{
    let mut out: Vec<char> = Vec::new();
    push_padded(&mut out, &chars_of("PUERTO"), 7);
    out.push(' ');
    push_padded(&mut out, &chars_of("DIRECCIÓN"), 21);
    out.push(' ');
    push_padded(&mut out, &chars_of("PID"), 8);
    out.push(' ');
    push_padded(&mut out, &chars_of("PROYECTO"), 22);
    append(&mut out, &chars_of(" PROCESO"));
    assert(out@ =~= list_header_text());
    string_of(&out)
}

pub fn list_line(row: &PortInfo) -> (r: String)
    ensures
        r@ == list_line_text(*row),
{
    let mut out: Vec<char> = Vec::new();
    let mut port: Vec<char> = Vec::new();
    push_radix(&mut port, row.port as u64, 10);
    assert(port@ =~= dec(row.port as nat));
    push_padded(&mut out, &port, 7);
    out.push(' ');
    push_padded(&mut out, &chars_of(row.address.as_str()), 21);
    out.push(' ');
    let mut pid: Vec<char> = Vec::new();
    push_radix(&mut pid, row.pid as u64, 10);
    assert(pid@ =~= dec(row.pid as nat));
    push_padded(&mut out, &pid, 8);
    out.push(' ');
    let proyecto: Vec<char> = match &row.proyecto {
        Some(p) => chars_of(p.as_str()),
        None => vec!['-'],
    };
    assert(proyecto@ =~= match opt_view(row.proyecto) {
        Some(p) => p,
        None => seq!['-'],
    });
    push_padded(&mut out, &proyecto, 22);
    out.push(' ');
    let etiqueta = crate::ports::etiqueta_visible(row);
    append(&mut out, &chars_of(etiqueta.as_str()));
    assert(out@ =~= list_line_text(*row));
    string_of(&out)
}

/// Body of the usage text, after the version number.
pub open spec fn usage_body() -> Seq<char> {
    " — puertos TCP en escucha desde la bandeja (Windows)\n\nUso:\n  gloryport            app de bandeja (default)\n  gloryport tray       igual que el anterior, explícito\n  gloryport list       lista puertos en escucha (tabla)\n  gloryport list --json  ídem en JSON\n  gloryport list --incluir-sistema  incluye servicios y puertos del sistema\n  gloryport kill <puerto> [--pid <PID>]  termina el proceso del puerto\n  gloryport --version  versión\n  gloryport --help     esta ayuda"@
}

/// The usage text for program version `version`.
pub fn usage_text(version: &str) -> (r: String)
    ensures
        r@ == "GLORYPORT v"@ + version@ + usage_body(),
{
    let mut out = chars_of("GLORYPORT v");
    append(&mut out, &chars_of(version));
    append(
        &mut out,
        &chars_of(
            " — puertos TCP en escucha desde la bandeja (Windows)\n\nUso:\n  gloryport            app de bandeja (default)\n  gloryport tray       igual que el anterior, explícito\n  gloryport list       lista puertos en escucha (tabla)\n  gloryport list --json  ídem en JSON\n  gloryport list --incluir-sistema  incluye servicios y puertos del sistema\n  gloryport kill <puerto> [--pid <PID>]  termina el proceso del puerto\n  gloryport --version  versión\n  gloryport --help     esta ayuda",
        ),
    );
    string_of(&out)
}

/// The autostart entry written for the executable: its path in double quotes.
pub open spec fn run_value_text(exe: Seq<char>) -> Seq<char> {
    seq!['"'] + exe + seq!['"']
}

pub fn run_value(exe_path: &str) -> (r: String)
    ensures
        r@ == run_value_text(exe_path@),
{
    let mut out: Vec<char> = vec!['"'];
    append(&mut out, &chars_of(exe_path));
    out.push('"');
    assert(out@ =~= run_value_text(exe_path@));
    string_of(&out)
}

/// Unicode `White_Space` (`char::is_whitespace`).
pub open spec fn is_ws(c: char) -> bool {
    ('\u{9}' <= c && c <= '\u{d}') || c == ' ' || c == '\u{85}' || c == '\u{a0}' || c
        == '\u{1680}' || ('\u{2000}' <= c && c <= '\u{200a}') || c == '\u{2028}' || c
        == '\u{2029}' || c == '\u{202f}' || c == '\u{205f}' || c == '\u{3000}'
}

fn ws(c: char) -> (r: bool)
    ensures
        r == is_ws(c),
{
    ('\u{9}' <= c && c <= '\u{d}') || c == ' ' || c == '\u{85}' || c == '\u{a0}' || c
        == '\u{1680}' || ('\u{2000}' <= c && c <= '\u{200a}') || c == '\u{2028}' || c
        == '\u{2029}' || c == '\u{202f}' || c == '\u{205f}' || c == '\u{3000}'
}

/// `s` without leading and trailing white space (`str::trim`).
pub open spec fn trim_ws(s: Seq<char>) -> Seq<char>
    decreases s.len(),
{
    if s.len() > 0 && is_ws(s[0]) {
        trim_ws(s.drop_first())
    } else if s.len() > 0 && is_ws(s.last()) {
        trim_ws(s.drop_last())
    } else {
        s
    }
}

fn trimmed(s: &Vec<char>) -> (r: Vec<char>)
    ensures
        r@ == trim_ws(s@),
{
    let mut lo: usize = 0;
    let mut hi: usize = s.len();
    assert(s@.subrange(0, s.len() as int) =~= s@);
    while lo < hi && (ws(s[lo]) || ws(s[hi - 1]))
        invariant
            lo <= hi <= s.len(),
            trim_ws(s@) == trim_ws(s@.subrange(lo as int, hi as int)),
        decreases hi - lo,
    {
        let ghost t = s@.subrange(lo as int, hi as int);
        if ws(s[lo]) {
            assert(t[0] == s@[lo as int]);
            assert(t.drop_first() =~= s@.subrange(lo + 1, hi as int));
            lo += 1;
        } else {
            assert(t[0] == s@[lo as int]);
            assert(t.last() == s@[hi - 1]);
            assert(t.drop_last() =~= s@.subrange(lo as int, hi - 1));
            hi -= 1;
        }
    }
    let mut r: Vec<char> = Vec::new();
    let mut i: usize = lo;
    while i < hi
        invariant
            lo <= i <= hi <= s.len(),
            r@ == s@.subrange(lo as int, i as int),
        decreases hi - i,
    {
        r.push(s[i]);
        i += 1;
        assert(r@ =~= s@.subrange(lo as int, i as int));
    }
    proof {
        let t = s@.subrange(lo as int, hi as int);
        if lo < hi {
            assert(t[0] == s@[lo as int]);
            assert(t.last() == s@[hi - 1]);
        }
    }
    r
}

/// The stored autostart entry (nul terminators and surrounding white space ignored)
/// points at the current executable.
pub open spec fn autostart_points_here(stored: Seq<char>, exe: Seq<char>) -> bool {
    trim_ws(crate::text::trim_end(stored, '\0')) == run_value_text(exe)
}

pub fn autostart_matches(stored: &str, exe_path: &str) -> (r: bool)
    ensures
        r == autostart_points_here(stored@, exe_path@),
{
    let s = trimmed(&crate::text::trim_end_char(&chars_of(stored), '\0'));
    let expected = run_value(exe_path);
    same_chars(&s, &chars_of(expected.as_str()))
}

} // verus!
